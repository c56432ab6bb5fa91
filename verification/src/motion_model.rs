//! Motion models of the interacting-multiple-model filter.

use vstd::prelude::*;

verus! {

/// Motion model type.
///
/// Different motion models are used in the IMM algorithm to handle different
/// types of target motion (constant velocity, acceleration, turns).
#[derive(Debug, Clone, Copy, PartialEq, Eq, Hash)]
pub enum MotionModel {
    /// Constant Velocity (CV) - straight line motion
    ConstantVelocity,
    /// Constant Acceleration (CA) - accelerating motion
    ConstantAcceleration,
    /// Coordinated Turn (CT) - turning motion with constant turn rate
    CoordinatedTurn,
}

/// Number of motion models.
pub const NUM_MODELS: usize = 3;

/// The position of a model in the list of all models.
pub open spec fn model_index(m: MotionModel) -> nat {
    match m {
        MotionModel::ConstantVelocity => 0,
        MotionModel::ConstantAcceleration => 1,
        MotionModel::CoordinatedTurn => 2,
    }
}

/// All motion models, in index order.
pub open spec fn all_models() -> Seq<MotionModel> {
    seq![
        MotionModel::ConstantVelocity,
        MotionModel::ConstantAcceleration,
        MotionModel::CoordinatedTurn,
    ]
}

impl MotionModel {
    /// Get all available motion models.
    pub fn all() -> (models: Vec<Self>)
        ensures
            models@ == all_models(),
    {
        let mut v: Vec<Self> = Vec::new();
        v.push(MotionModel::ConstantVelocity);
        v.push(MotionModel::ConstantAcceleration);
        v.push(MotionModel::CoordinatedTurn);
        v
    }

    /// Get model index for array indexing.
    pub fn index(&self) -> (i: usize)
        ensures
            i == model_index(*self),
    {
        match self {
            MotionModel::ConstantVelocity => 0,
            MotionModel::ConstantAcceleration => 1,
            MotionModel::CoordinatedTurn => 2,
        }
    }
}

/// How likely a switch between two motion models is, by the IMM's default
/// Markov chain: staying in the same model is most likely; switches between
/// similar models (CV and CA, CA and CT) are likelier than the rest (CV and CT).
#[derive(Debug, Clone, Copy, PartialEq, Eq)]
pub enum TransitionKind {
    /// The model stays the same
    Stay,
    /// A switch between similar models
    Similar,
    /// A switch between dissimilar models
    Dissimilar,
}

/// The kind of the switch from model index `from` to model index `to`.
pub open spec fn transition_kind_spec(from: int, to: int) -> TransitionKind {
    if from == to {
        TransitionKind::Stay
    } else if (from == 0 && to == 1) || (from == 1 && to == 0) || (from == 1 && to == 2) || (from == 2 && to == 1) {
        TransitionKind::Similar
    } else {
        TransitionKind::Dissimilar
    }
}

/// The kind of the switch from model index `from` to model index `to`.
pub fn transition_kind(from: usize, to: usize) -> (k: TransitionKind)
    ensures
        k == transition_kind_spec(from as int, to as int),
{
    if from == to {
        TransitionKind::Stay
    } else if (from == 0 && to == 1) || (from == 1 && to == 0) {
        TransitionKind::Similar
    } else if (from == 1 && to == 2) || (from == 2 && to == 1) {
        TransitionKind::Similar
    } else {
        TransitionKind::Dissimilar
    }
}

/// The shape of the default model transition matrix over `num_models`
/// models: entry `[i][j]` is the kind of the switch from model `i` to model `j`.
pub fn transition_pattern(num_models: usize) -> (pattern: Vec<Vec<TransitionKind>>)
    ensures
        pattern@.len() == num_models,
        forall|i: int| 0 <= i < num_models ==> #[trigger] pattern@[i]@.len() == num_models,
        forall|i: int, j: int| 0 <= i < num_models && 0 <= j < num_models ==>
            #[trigger] pattern@[i]@[j] == transition_kind_spec(i, j),
{
    let mut pattern: Vec<Vec<TransitionKind>> = Vec::new();
    let mut i: usize = 0;
    while i < num_models
        invariant
            i <= num_models,
            pattern@.len() == i,
            forall|a: int| 0 <= a < i ==> #[trigger] pattern@[a]@.len() == num_models,
            forall|a: int, b: int| 0 <= a < i && 0 <= b < num_models ==>
                #[trigger] pattern@[a]@[b] == transition_kind_spec(a, b),
        decreases num_models - i,
    {
        let mut row: Vec<TransitionKind> = Vec::new();
        let mut j: usize = 0;
        while j < num_models
            invariant
                j <= num_models,
                row@.len() == j,
                forall|b: int| 0 <= b < j ==> #[trigger] row@[b] == transition_kind_spec(i as int, b),
            decreases num_models - j,
        {
            row.push(transition_kind(i, j));
            j = j + 1;
        }
        pattern.push(row);
        i = i + 1;
    }
    pattern
}

/// Each model sits at its index in the list of all models, the indices are
/// below the number of models, and different models have different indices.
pub proof fn lemma_index_matches_all(m: MotionModel, n: MotionModel)
    ensures
        all_models().len() == NUM_MODELS,
        model_index(m) < NUM_MODELS,
        all_models()[model_index(m) as int] == m,
        m != n ==> model_index(m) != model_index(n),
{
}

/// The transition pattern is symmetric, and a model stays only in itself.
pub proof fn lemma_transition_kind_symmetric(from: int, to: int)
    ensures
        transition_kind_spec(from, to) == transition_kind_spec(to, from),
        transition_kind_spec(from, to) == TransitionKind::Stay <==> from == to,
{
}

} // verus!
