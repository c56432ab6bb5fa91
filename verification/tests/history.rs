use ai_tracker::history::{push_bounded, MEASUREMENT_HISTORY_LEN};

#[test]
fn keeps_last_three_measurements() {
    let mut h: Vec<(f64, f64)> = Vec::new();
    for i in 0..5 {
        push_bounded(&mut h, (i as f64 * 10.0, i as f64), MEASUREMENT_HISTORY_LEN);
    }
    assert_eq!(h, vec![(20.0, 2.0), (30.0, 3.0), (40.0, 4.0)]);
}

#[test]
fn below_capacity_just_appends() {
    let mut h = vec![1, 2];
    push_bounded(&mut h, 3, 3);
    assert_eq!(h, vec![1, 2, 3]);
}

#[test]
fn over_capacity_drops_only_the_oldest() {
    let mut h = vec![1, 2, 3, 4];
    push_bounded(&mut h, 5, 3);
    assert_eq!(h, vec![2, 3, 4, 5]);
}

#[test]
fn zero_capacity_history() {
    let mut h: Vec<u8> = Vec::new();
    push_bounded(&mut h, 7, 0);
    assert!(h.is_empty());
}
