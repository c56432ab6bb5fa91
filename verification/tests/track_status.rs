use ai_tracker::track_status::{TrackStatus, CONFIRM_DETECTIONS, CONFIRM_SCANS};

#[test]
fn new_status_is_tentative_and_zero() {
    let s = TrackStatus::new();
    assert_eq!(s.age, 0);
    assert_eq!(s.missed_detections, 0);
    assert_eq!(s.num_detections, 0);
    assert_eq!(s.num_scans, 0);
    assert!(!s.is_confirmed);
}

/// A track initialized from a measurement: one detection in one scan.
fn initiated() -> TrackStatus {
    let mut s = TrackStatus::new();
    s.record_detection();
    s.increment_scan();
    s
}

#[test]
fn initiated_status_counts_first_detection_and_scan() {
    let s = initiated();
    assert_eq!(s.num_detections, 1);
    assert_eq!(s.num_scans, 1);
    assert_eq!(s.age, 0);
    assert!(!s.is_confirmed);
}

#[test]
fn should_confirm_m_of_n() {
    let mut s = TrackStatus::new();
    s.num_detections = 2;
    s.num_scans = 2;
    assert!(!s.should_confirm(2, 3));
    s.num_scans = 3;
    assert!(s.should_confirm(2, 3));
    s.num_detections = 1;
    assert!(!s.should_confirm(2, 3));
    s.is_confirmed = true;
    assert!(s.should_confirm(2, 3));
}

#[test]
fn state_test_track_deletion() {
    let mut status = TrackStatus::new();
    let mut existence_prob: f64 = 0.5;

    // Should not be deleted initially
    assert!(!status.should_delete(5, existence_prob < 0.1));

    // Should be deleted after too many missed detections
    status.missed_detections = 5;
    assert!(status.should_delete(5, existence_prob < 0.1));

    // Should be deleted if existence probability too low
    status.missed_detections = 0;
    existence_prob = 0.05;
    assert!(status.should_delete(5, existence_prob < 0.1));
}

#[test]
fn deletion_threshold_is_inclusive() {
    let mut s = TrackStatus::new();
    s.missed_detections = 4;
    assert!(!s.should_delete(5, false));
    s.missed_detections = 5;
    assert!(s.should_delete(5, false));
}

#[test]
fn record_detection_and_increment_scan() {
    let mut s = TrackStatus::new();
    s.record_detection();
    s.record_detection();
    s.increment_scan();
    assert_eq!(s.num_detections, 2);
    assert_eq!(s.num_scans, 1);
    assert_eq!(s.age, 0);
}

#[test]
fn confirmed_after_two_detections_in_three_scans() {
    let mut s = initiated();
    s.record_update(true, true);
    assert_eq!(s.num_scans, 2);
    assert_eq!(s.num_detections, 2);
    assert!(!s.is_confirmed);
    s.record_update(false, false);
    assert_eq!(s.num_scans, CONFIRM_SCANS);
    assert!(s.num_detections >= CONFIRM_DETECTIONS);
    assert!(s.is_confirmed);
    assert_eq!(s.age, 2);
    assert_eq!(s.missed_detections, 1);
}

#[test]
fn not_confirmed_without_second_detection() {
    let mut s = initiated();
    for _ in 0..5 {
        s.record_update(true, false);
    }
    assert_eq!(s.num_detections, 1);
    assert_eq!(s.num_scans, 6);
    assert_eq!(s.missed_detections, 0);
    assert!(!s.is_confirmed);
}

#[test]
fn missed_detections_count_consecutive_misses() {
    let mut s = initiated();
    s.record_update(false, false);
    s.record_update(false, false);
    assert_eq!(s.missed_detections, 2);
    s.record_update(true, true);
    assert_eq!(s.missed_detections, 0);
    s.record_update(false, true);
    assert_eq!(s.missed_detections, 1);
    // a detection is only counted on an associated update
    assert_eq!(s.num_detections, 2);
    assert_eq!(s.age, 4);
    assert_eq!(s.num_scans, 5);
}

#[test]
fn confirmation_is_permanent() {
    let mut s = initiated();
    s.record_update(true, true);
    s.record_update(true, true);
    assert!(s.is_confirmed);
    for _ in 0..10 {
        s.record_update(false, false);
        assert!(s.is_confirmed);
    }
}

#[test]
fn consistency_requires_confirmation_and_few_misses() {
    let mut s = TrackStatus::new();
    assert!(!s.is_consistent());
    s.is_confirmed = true;
    assert!(s.is_consistent());
    s.missed_detections = 2;
    assert!(s.is_consistent());
    s.missed_detections = 3;
    assert!(!s.is_consistent());
}
