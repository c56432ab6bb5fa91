use ai_tracker::playback::advance_step;

#[test]
fn stops_when_limit_reached() {
    assert_eq!(advance_step(0, Some(3)), (1, false));
    assert_eq!(advance_step(1, Some(3)), (2, false));
    assert_eq!(advance_step(2, Some(3)), (3, true));
    assert_eq!(advance_step(7, Some(3)), (8, true));
}

#[test]
fn never_stops_without_limit() {
    assert_eq!(advance_step(0, None), (1, false));
    assert_eq!(advance_step(9999, None), (10000, false));
}
