//! Adaptive validation gates: young tracks are uncertain and get larger gates.

use vstd::prelude::*;

verus! {

/// Tracks younger than this get the widest gate (and an inflated
/// innovation covariance).
pub const YOUNG_TRACK_AGE: usize = 5;

/// Tracks younger than this (and not young) get an enlarged gate.
pub const MATURING_TRACK_AGE: usize = 10;

/// Size of a track's JPDA validation gate, by its age.
#[derive(Debug, Clone, Copy, PartialEq, Eq)]
pub enum GateTier {
    /// Widest gate with inflated innovation covariance (age below 5)
    Young,
    /// Enlarged gate (age from 5 to 9)
    Maturing,
    /// Normal gate (age 10 and more)
    Mature,
}

/// Tier of a track of the given age.
pub open spec fn gate_tier_spec(age: usize) -> GateTier {
    if age < YOUNG_TRACK_AGE {
        GateTier::Young
    } else if age < MATURING_TRACK_AGE {
        GateTier::Maturing
    } else {
        GateTier::Mature
    }
}

/// Tier of a track of the given age: gates shrink as tracks mature.
pub fn gate_tier(age: usize) -> (tier: GateTier)
    ensures
        tier == gate_tier_spec(age),
{
    if age < YOUNG_TRACK_AGE {
        GateTier::Young
    } else if age < MATURING_TRACK_AGE {
        GateTier::Maturing
    } else {
        GateTier::Mature
    }
}

/// Rank of a tier, from the widest gate (0) to the normal one (2).
pub open spec fn tier_rank(tier: GateTier) -> nat {
    match tier {
        GateTier::Young => 0,
        GateTier::Maturing => 1,
        GateTier::Mature => 2,
    }
}

/// An older track never gets a wider gate than a younger one.
pub proof fn lemma_gate_narrows_with_age(a: usize, b: usize)
    requires
        a <= b,
    ensures
        tier_rank(gate_tier_spec(a)) <= tier_rank(gate_tier_spec(b)),
{
}

} // verus!
