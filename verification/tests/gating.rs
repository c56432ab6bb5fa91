use ai_tracker::gating::{gate_tier, GateTier};

#[test]
fn gate_tiers_by_age() {
    assert_eq!(gate_tier(0), GateTier::Young);
    assert_eq!(gate_tier(4), GateTier::Young);
    assert_eq!(gate_tier(5), GateTier::Maturing);
    assert_eq!(gate_tier(9), GateTier::Maturing);
    assert_eq!(gate_tier(10), GateTier::Mature);
    assert_eq!(gate_tier(1000), GateTier::Mature);
}
