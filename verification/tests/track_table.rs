use ai_tracker::track_table::TrackTable;

#[test]
fn new_table_is_empty() {
    let t: TrackTable<&str> = TrackTable::new();
    assert_eq!(t.len(), 0);
    assert!(t.is_empty());
    assert_eq!(t.next_id(), 0);
    assert!(t.primary().is_none());
}

#[test]
fn insert_assigns_increasing_ids() {
    let mut t = TrackTable::new();
    assert_eq!(t.insert("a"), 0);
    assert_eq!(t.insert("b"), 1);
    assert_eq!(t.insert("c"), 2);
    assert_eq!(t.len(), 3);
    assert_eq!(t.id_at(1), 1);
    assert_eq!(*t.get(2), "c");
    assert_eq!(t.primary(), Some(&"a"));
}

#[test]
fn remove_marked_keeps_others_in_order_and_never_reuses_ids() {
    let mut t = TrackTable::new();
    for name in ["a", "b", "c", "d"] {
        t.insert(name);
    }
    t.remove_marked(&vec![true, false, true, false]);
    assert_eq!(t.len(), 2);
    assert_eq!(t.id_at(0), 1);
    assert_eq!(t.id_at(1), 3);
    assert_eq!(*t.get(0), "b");
    assert_eq!(*t.get(1), "d");
    assert_eq!(t.primary(), Some(&"b"));
    assert_eq!(t.next_id(), 4);
    assert_eq!(t.insert("e"), 4);
}

#[test]
fn remove_all_and_none() {
    let mut t = TrackTable::new();
    t.insert(10);
    t.insert(20);
    t.remove_marked(&vec![false, false]);
    assert_eq!(t.len(), 2);
    t.remove_marked(&vec![true, true]);
    assert!(t.is_empty());
    assert_eq!(t.next_id(), 2);
}

#[test]
fn get_mut_updates_payload_only() {
    let mut t = TrackTable::new();
    t.insert(1);
    t.insert(2);
    *t.get_mut(1) += 40;
    assert_eq!(*t.get(1), 42);
    assert_eq!(t.id_at(1), 1);
}
