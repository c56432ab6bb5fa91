use ai_tracker::track_status::{TrackStatus, MAX_MISSED_DETECTIONS};
use ai_tracker::track_table::TrackTable;
use ai_tracker::track_update::{insert_initiated, update_and_prune};

#[test]
fn initiated_tracks_have_one_detection_in_one_scan() {
    let mut t: TrackTable<(TrackStatus, &str)> = TrackTable::new();
    assert_eq!(insert_initiated(&mut t, "a"), 0);
    assert_eq!(insert_initiated(&mut t, "b"), 1);
    let (s, name) = t.get(1);
    assert_eq!(*name, "b");
    assert_eq!(s.num_detections, 1);
    assert_eq!(s.num_scans, 1);
    assert_eq!(s.age, 0);
    assert!(!s.is_confirmed);
}

#[test]
fn update_ages_survivors_and_deletes_exactly_the_deletable() {
    let mut t: TrackTable<(TrackStatus, &str)> = TrackTable::new();
    for name in ["a", "b", "c", "d"] {
        insert_initiated(&mut t, name);
    }
    // "b" has already missed once; "d" has a too low existence probability
    t.get_mut(1).0.missed_detections = 1;
    let outcomes = vec![(true, true), (false, false), (false, false), (true, false)];
    let existence_below_min = vec![false, false, false, true];
    update_and_prune(&mut t, &outcomes, 2, &existence_below_min);

    assert_eq!(t.len(), 2);
    assert_eq!(t.id_at(0), 0);
    assert_eq!(t.id_at(1), 2);
    let (a, _) = t.get(0);
    assert_eq!((a.age, a.missed_detections, a.num_detections, a.num_scans), (1, 0, 2, 2));
    let (c, name) = t.get(1);
    assert_eq!(*name, "c");
    assert_eq!((c.age, c.missed_detections, c.num_detections, c.num_scans), (1, 1, 1, 2));
    assert_eq!(t.next_id(), 4);
    // new tracks get fresh identifiers
    assert_eq!(insert_initiated(&mut t, "e"), 4);
}

#[test]
fn update_of_empty_table() {
    let mut t: TrackTable<(TrackStatus, u8)> = TrackTable::new();
    update_and_prune(&mut t, &vec![], 20, &vec![]);
    assert!(t.is_empty());
    assert_eq!(t.next_id(), 0);
}

#[test]
fn track_deleted_after_six_missed_updates() {
    // one track initialized from a measurement, then six updates without measurements
    let mut t: TrackTable<(TrackStatus, &str)> = TrackTable::new();
    insert_initiated(&mut t, "aircraft");
    for _ in 1..=6 {
        let n = t.len();
        let outcomes = vec![(false, false); n];
        let existence_below_min = vec![false; n];
        update_and_prune(&mut t, &outcomes, MAX_MISSED_DETECTIONS, &existence_below_min);
    }
    assert_eq!(t.len(), 0);
}

#[test]
fn track_survives_fewer_misses_than_the_limit() {
    let mut t: TrackTable<(TrackStatus, &str)> = TrackTable::new();
    insert_initiated(&mut t, "aircraft");
    for _ in 1..MAX_MISSED_DETECTIONS {
        update_and_prune(&mut t, &vec![(false, false)], MAX_MISSED_DETECTIONS, &vec![false]);
    }
    assert_eq!(t.len(), 1);
    assert_eq!(t.get(0).0.missed_detections, MAX_MISSED_DETECTIONS - 1);
    update_and_prune(&mut t, &vec![(false, false)], MAX_MISSED_DETECTIONS, &vec![false]);
    assert!(t.is_empty());
}
