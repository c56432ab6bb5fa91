use ai_tracker::conflict::{find_conflicts, order_by_contention, Conflict};

#[test]
fn conflicts_are_measurements_claimed_by_several_tracks() {
    // claims[track][measurement]
    let claims = vec![
        vec![true, true, false],
        vec![true, false, false],
        vec![true, true, true],
    ];
    let conflicts = find_conflicts(&claims, 3);
    assert_eq!(
        conflicts,
        vec![
            Conflict { measurement: 0, tracks: vec![0, 1, 2] },
            Conflict { measurement: 1, tracks: vec![0, 2] },
        ]
    );
}

#[test]
fn no_conflict_with_single_claims() {
    let claims = vec![vec![true, false], vec![false, true]];
    assert!(find_conflicts(&claims, 2).is_empty());
    assert!(find_conflicts(&vec![], 4).is_empty());
}

#[test]
fn larger_conflicts_first_ties_in_order() {
    let conflicts = vec![
        Conflict { measurement: 0, tracks: vec![0, 1] },
        Conflict { measurement: 2, tracks: vec![0, 1, 2] },
        Conflict { measurement: 3, tracks: vec![1, 2] },
        Conflict { measurement: 5, tracks: vec![0, 1, 2, 3] },
    ];
    assert_eq!(order_by_contention(&conflicts), vec![3, 1, 0, 2]);
}

#[test]
fn ordering_of_nothing() {
    assert!(order_by_contention(&vec![]).is_empty());
}
