use ai_tracker::motion_model::{transition_kind, transition_pattern, MotionModel, TransitionKind, NUM_MODELS};

#[test]
fn all_models_in_index_order() {
    let models = MotionModel::all();
    assert_eq!(models.len(), 3);
    assert_eq!(models.len(), NUM_MODELS);
    assert_eq!(models[0], MotionModel::ConstantVelocity);
    assert_eq!(models[1], MotionModel::ConstantAcceleration);
    assert_eq!(models[2], MotionModel::CoordinatedTurn);
}

#[test]
fn model_index_values() {
    assert_eq!(MotionModel::ConstantVelocity.index(), 0);
    assert_eq!(MotionModel::ConstantAcceleration.index(), 1);
    assert_eq!(MotionModel::CoordinatedTurn.index(), 2);
}

#[test]
fn each_model_sits_at_its_index() {
    let models = MotionModel::all();
    for m in models.iter() {
        assert_eq!(models[m.index()], *m);
    }
}

#[test]
fn transition_kinds_of_default_matrix() {
    assert_eq!(transition_kind(0, 0), TransitionKind::Stay);
    assert_eq!(transition_kind(2, 2), TransitionKind::Stay);
    assert_eq!(transition_kind(0, 1), TransitionKind::Similar);
    assert_eq!(transition_kind(1, 0), TransitionKind::Similar);
    assert_eq!(transition_kind(1, 2), TransitionKind::Similar);
    assert_eq!(transition_kind(2, 1), TransitionKind::Similar);
    assert_eq!(transition_kind(0, 2), TransitionKind::Dissimilar);
    assert_eq!(transition_kind(2, 0), TransitionKind::Dissimilar);
}

#[test]
fn transition_pattern_is_symmetric_with_stay_on_diagonal() {
    let p = transition_pattern(3);
    assert_eq!(p.len(), 3);
    for i in 0..3 {
        assert_eq!(p[i].len(), 3);
        for j in 0..3 {
            assert_eq!(p[i][j], p[j][i]);
            assert_eq!(p[i][j] == TransitionKind::Stay, i == j);
        }
    }
    assert_eq!(p[0][2], TransitionKind::Dissimilar);
}

#[test]
fn transition_pattern_empty() {
    assert!(transition_pattern(0).is_empty());
}
