use ai_tracker::initiation::{
    choose_new_track_sources, max_new_tracks_per_step, new_track_quota, plan_new_tracks,
    select_initial_measurements,
};

/// Relations between points on a line, with the tracker's thresholds scaled down.
fn relations(xs: &[f64], min_sep: f64, same: f64) -> (Vec<Vec<bool>>, Vec<Vec<bool>>) {
    let sep = xs.iter().map(|a| xs.iter().map(|b| (a - b).abs() >= min_sep).collect()).collect();
    let near = xs.iter().map(|a| xs.iter().map(|b| (a - b).abs() < same).collect()).collect();
    (sep, near)
}

#[test]
fn initial_selection_prefers_separated_measurements() {
    // 0 and 1000 are separated; 100 is too close to 0
    let (sep, near) = relations(&[0.0, 100.0, 1000.0], 500.0, 10.0);
    assert_eq!(select_initial_measurements(2, &sep, &near), vec![0, 2]);
}

#[test]
fn initial_selection_fills_up_with_distinct_measurements() {
    let (sep, near) = relations(&[0.0, 100.0, 1000.0], 500.0, 10.0);
    assert_eq!(select_initial_measurements(3, &sep, &near), vec![0, 2, 1]);
}

#[test]
fn initial_selection_skips_coincident_measurements() {
    let (sep, near) = relations(&[0.0, 5.0, 1000.0], 500.0, 10.0);
    assert_eq!(select_initial_measurements(3, &sep, &near), vec![0, 2]);
}

#[test]
fn initial_selection_limited_by_expected_targets() {
    let (sep, near) = relations(&[0.0, 1000.0, 2000.0], 500.0, 10.0);
    assert_eq!(select_initial_measurements(1, &sep, &near), vec![0]);
    assert!(select_initial_measurements(0, &sep, &near).is_empty());
}

#[test]
fn initial_selection_without_measurements() {
    assert!(select_initial_measurements(3, &vec![], &vec![]).is_empty());
}

#[test]
fn per_step_limits() {
    assert_eq!(max_new_tracks_per_step(0), 3);
    assert_eq!(max_new_tracks_per_step(1), 1);
    assert_eq!(max_new_tracks_per_step(2), 1);
    assert_eq!(max_new_tracks_per_step(3), 2);
    assert_eq!(max_new_tracks_per_step(5), 2);
    assert_eq!(max_new_tracks_per_step(6), 3);
    assert_eq!(max_new_tracks_per_step(100), 3);
}

#[test]
fn quota_values() {
    // already enough tracks
    assert_eq!(new_track_quota(3, 3, 5), 0);
    assert_eq!(new_track_quota(3, 4, 5), 0);
    // per-step limit of 2 for three targets
    assert_eq!(new_track_quota(3, 0, 5), 2);
    // one free slot
    assert_eq!(new_track_quota(3, 2, 5), 1);
    // fewer unassociated measurements than slots
    assert_eq!(new_track_quota(6, 0, 1), 1);
    assert_eq!(new_track_quota(10, 0, 7), 3);
}

#[test]
fn sources_are_first_unassociated_not_too_close() {
    let unassociated = vec![true, false, true, true, true];
    let too_close = vec![false, false, true, false, false];
    // first three unassociated: 0, 2, 3; 2 is too close
    assert_eq!(choose_new_track_sources(&unassociated, &too_close, 3), vec![0, 3]);
    assert_eq!(choose_new_track_sources(&unassociated, &too_close, 0), Vec::<usize>::new());
    assert_eq!(choose_new_track_sources(&unassociated, &too_close, 10), vec![0, 3, 4]);
}

#[test]
fn plan_respects_expected_number_of_targets() {
    let unassociated = vec![true, true, true, true];
    let too_close = vec![false, false, false, false];
    assert_eq!(plan_new_tracks(3, 0, &unassociated, &too_close), vec![0, 1]);
    assert_eq!(plan_new_tracks(3, 2, &unassociated, &too_close), vec![0]);
    assert!(plan_new_tracks(3, 3, &unassociated, &too_close).is_empty());
    assert_eq!(plan_new_tracks(1, 0, &unassociated, &too_close), vec![0]);
    assert!(plan_new_tracks(2, 0, &vec![], &vec![]).is_empty());
}
