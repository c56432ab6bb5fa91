//! What one tracker update does to the table of tracks: every track's
//! counters are updated with the outcome of its association, the tracks to
//! be deleted go, and new tracks join under fresh identifiers.
//!
//! The outcomes (whether a track was associated, whether a measurement was
//! recorded, whether its existence probability fell below the minimum) are
//! computed by the caller from floating-point estimates.

use vstd::prelude::*;
use crate::initiation::{lemma_new_track_plan, new_track_plan, new_tracks_per_step_limit};
use crate::track_status::{
    can_update, initiated_status, lemma_initiated_lifecycle_wf, lemma_update_preserves_lifecycle_wf,
    status_after_update, TrackStatus,
};
use crate::track_table::{ids_increasing, lemma_unmarked_keeps_order, unmarked, TrackTable};

verus! {

/// The entries with each status updated by the outcome (effective, detected)
/// at the same position.
pub open spec fn updated_entries<T>(s: Seq<(usize, (TrackStatus, T))>, outcomes: Seq<(bool, bool)>) -> Seq<
    (usize, (TrackStatus, T)),
> {
    Seq::new(
        s.len(),
        |i: int| (s[i].0, (status_after_update(s[i].1.0, outcomes[i].0, outcomes[i].1), s[i].1.1)),
    )
}

/// Which entries are to be deleted: those that missed at least `max_missed`
/// detections in a row, or whose existence probability fell below the
/// minimum (`existence_below_min`).
pub open spec fn deletion_marks<T>(
    s: Seq<(usize, (TrackStatus, T))>,
    max_missed: usize,
    existence_below_min: Seq<bool>,
) -> Seq<bool> {
    Seq::new(s.len(), |i: int| s[i].1.0.missed_detections >= max_missed || existence_below_min[i])
}

/// The table after every track's counters are updated and the tracks to be
/// deleted are removed.
pub open spec fn pruned_after_update<T>(
    s: Seq<(usize, (TrackStatus, T))>,
    outcomes: Seq<(bool, bool)>,
    max_missed: usize,
    existence_below_min: Seq<bool>,
) -> Seq<(usize, (TrackStatus, T))> {
    let u = updated_entries(s, outcomes);
    unmarked(u, deletion_marks(u, max_missed, existence_below_min))
}

/// Whether the `j`-th track is deleted by the update.
pub open spec fn deleted_by_update<T>(
    s: Seq<(usize, (TrackStatus, T))>,
    outcomes: Seq<(bool, bool)>,
    max_missed: usize,
    existence_below_min: Seq<bool>,
    j: int,
) -> bool {
    deletion_marks(updated_entries(s, outcomes), max_missed, existence_below_min)[j]
}

/// The table with new tracks appended, each initialized from a measurement,
/// under consecutive identifiers from `next_id` on.
pub open spec fn with_new_tracks<T>(s: Seq<(usize, (TrackStatus, T))>, next_id: nat, new: Seq<T>) -> Seq<
    (usize, (TrackStatus, T)),
> {
    s + Seq::new(new.len(), |k: int| ((next_id + k) as usize, (initiated_status(), new[k])))
}

/// Add a track initialized from a measurement (one detection in one scan)
/// under a fresh identifier, which is returned.
pub fn insert_initiated<T>(table: &mut TrackTable<(TrackStatus, T)>, track: T) -> (id: usize)
    requires
        old(table).wf(),
        old(table).spec_next_id() < usize::MAX,
    ensures
        id == old(table).spec_next_id(),
        final(table)@ == old(table)@.push((id, (initiated_status(), track))),
        final(table).spec_next_id() == id + 1,
        final(table).wf(),
{
    let mut status = TrackStatus::new();
    status.record_detection();
    status.increment_scan();
    table.insert((status, track))
}

/// Update the counters of every track with the outcome of its association,
/// then delete the tracks that missed too many detections or whose existence
/// probability fell below the minimum.
pub fn update_and_prune<T>(
    table: &mut TrackTable<(TrackStatus, T)>,
    outcomes: &Vec<(bool, bool)>,
    max_missed: usize,
    existence_below_min: &Vec<bool>,
)
    requires
        old(table).wf(),
        outcomes@.len() == old(table)@.len(),
        existence_below_min@.len() == old(table)@.len(),
        forall|i: int|
            0 <= i < old(table)@.len() ==> can_update(
                #[trigger] old(table)@[i].1.0,
                outcomes@[i].0,
                outcomes@[i].1,
            ),
    ensures
        final(table)@ == pruned_after_update(old(table)@, outcomes@, max_missed, existence_below_min@),
        final(table).spec_next_id() == old(table).spec_next_id(),
        final(table).wf(),
{
    let ghost orig = table@;
    let ghost updated = updated_entries(orig, outcomes@);
    let n = table.len();
    let mut i: usize = 0;
    while i < n
        invariant
            i <= n,
            n == orig.len(),
            outcomes@.len() == n,
            table.wf(),
            table.spec_next_id() == old(table).spec_next_id(),
            table@.len() == n,
            updated == updated_entries(orig, outcomes@),
            forall|j: int| 0 <= j < n ==> can_update(#[trigger] orig[j].1.0, outcomes@[j].0, outcomes@[j].1),
            forall|k: int| 0 <= k < i ==> #[trigger] table@[k] == updated[k],
            forall|k: int| i <= k < n ==> #[trigger] table@[k] == orig[k],
        decreases n - i,
    {
        let (effective, detected) = outcomes[i];
        let mut status = table.get(i).0;
        status.record_update(effective, detected);
        let entry = table.get_mut(i);
        entry.0 = status;
        proof {
            assert(table@[i as int] == updated[i as int]);
        }
        i = i + 1;
    }
    proof {
        assert(table@ =~= updated);
    }
    let mut marks: Vec<bool> = Vec::new();
    let mut k: usize = 0;
    while k < n
        invariant
            k <= n,
            table@ == updated,
            updated.len() == n,
            existence_below_min@.len() == n,
            marks@ =~= deletion_marks(updated, max_missed, existence_below_min@).take(k as int),
        decreases n - k,
    {
        let delete = table.get(k).0.should_delete(max_missed, existence_below_min[k]);
        marks.push(delete);
        k = k + 1;
    }
    proof {
        assert(marks@ =~= deletion_marks(updated, max_missed, existence_below_min@));
    }
    table.remove_marked(&marks);
}

/// Where each kept entry comes from, and that every unmarked entry is kept.
proof fn lemma_unmarked_positions<T>(s: Seq<T>, marks: Seq<bool>)
    requires
        marks.len() == s.len(),
    ensures
        unmarked(s, marks).len() <= s.len(),
        forall|k: int| 0 <= k < unmarked(s, marks).len() ==>
            exists|j: int| 0 <= j < s.len() && !marks[j] && #[trigger] unmarked(s, marks)[k] == s[j],
        forall|j: int| 0 <= j < s.len() && !marks[j] ==>
            exists|k: int| 0 <= k < unmarked(s, marks).len() && #[trigger] unmarked(s, marks)[k] == s[j],
    decreases s.len(),
{
    if s.len() > 0 {
        let tail = s.drop_first();
        let mt = marks.drop_first();
        lemma_unmarked_positions(tail, mt);
        let rest = unmarked(tail, mt);
        let u = unmarked(s, marks);
        assert forall|k: int| 0 <= k < u.len() implies exists|j: int|
            0 <= j < s.len() && !marks[j] && #[trigger] u[k] == s[j] by {
            if marks[0] {
                let j = choose|j: int| 0 <= j < tail.len() && !mt[j] && rest[k] == tail[j];
                assert(u[k] == s[j + 1] && !marks[j + 1]);
            } else if k == 0 {
                assert(u[k] == s[0]);
            } else {
                let j = choose|j: int| 0 <= j < tail.len() && !mt[j] && rest[k - 1] == tail[j];
                assert(u[k] == s[j + 1] && !marks[j + 1]);
            }
        }
        assert forall|j: int| 0 <= j < s.len() && !marks[j] implies exists|k: int|
            0 <= k < u.len() && #[trigger] u[k] == s[j] by {
            if j == 0 {
                assert(u[0] == s[0]);
            } else {
                assert(!mt[j - 1] && tail[j - 1] == s[j]);
                let k = choose|k: int| 0 <= k < rest.len() && rest[k] == tail[j - 1];
                if marks[0] {
                    assert(u[k] == s[j]);
                } else {
                    assert(u[k + 1] == s[j]);
                }
            }
        }
    }
}

/// The tracks kept by an update are exactly the updated tracks that are
/// not deleted, in order, with strictly increasing identifiers below the
/// next identifier; a deleted track's identifier is gone.
proof fn lemma_pruned_after_update<T>(
    s: Seq<(usize, (TrackStatus, T))>,
    next_id: usize,
    outcomes: Seq<(bool, bool)>,
    max_missed: usize,
    existence_below_min: Seq<bool>,
)
    requires
        ids_increasing(s),
        forall|i: int| 0 <= i < s.len() ==> #[trigger] s[i].0 < next_id,
        outcomes.len() == s.len(),
        existence_below_min.len() == s.len(),
    ensures
        ({
            let p = pruned_after_update(s, outcomes, max_missed, existence_below_min);
            let u = updated_entries(s, outcomes);
            &&& forall|k: int| 0 <= k < p.len() ==> exists|j: int|
                0 <= j < s.len() && !deleted_by_update(s, outcomes, max_missed, existence_below_min, j)
                    && #[trigger] p[k] == u[j]
            &&& forall|j: int| 0 <= j < s.len() && !deleted_by_update(s, outcomes, max_missed, existence_below_min, j) ==>
                exists|k: int| 0 <= k < p.len() && #[trigger] p[k] == u[j]
            &&& forall|j: int, k: int| 0 <= j < s.len() && deleted_by_update(s, outcomes, max_missed, existence_below_min, j)
                && 0 <= k < p.len() ==> #[trigger] p[k].0 != #[trigger] s[j].0
            &&& ids_increasing(p)
            &&& forall|k: int| 0 <= k < p.len() ==> #[trigger] p[k].0 < next_id
            &&& p.len() <= s.len()
        }),
{
    let u = updated_entries(s, outcomes);
    let marks = deletion_marks(u, max_missed, existence_below_min);
    let p = pruned_after_update(s, outcomes, max_missed, existence_below_min);
    assert(ids_increasing(u));
    lemma_unmarked_positions(u, marks);
    lemma_unmarked_keeps_order(u, marks);
    assert forall|j: int, k: int| 0 <= j < s.len() && deleted_by_update(s, outcomes, max_missed, existence_below_min, j)
        && 0 <= k < p.len() implies #[trigger] p[k].0 != #[trigger] s[j].0 by {
        let j2 = choose|j2: int| 0 <= j2 < u.len() && !marks[j2] && p[k] == u[j2];
        assert(j2 != j);
    }
    assert forall|k: int| 0 <= k < p.len() implies #[trigger] p[k].0 < next_id by {
        let j = choose|j: int| 0 <= j < u.len() && !marks[j] && p[k] == u[j];
    }
}

/// Appending new tracks keeps the existing entries and gives the new ones
/// consecutive identifiers from `next_id` on, so identifiers stay strictly
/// increasing.
proof fn lemma_with_new_tracks<T>(p: Seq<(usize, (TrackStatus, T))>, next_id: usize, new: Seq<T>)
    requires
        ids_increasing(p),
        forall|k: int| 0 <= k < p.len() ==> #[trigger] p[k].0 < next_id,
        next_id + new.len() <= usize::MAX,
    ensures
        ({
            let r = with_new_tracks(p, next_id as nat, new);
            &&& r.len() == p.len() + new.len()
            &&& forall|k: int| 0 <= k < p.len() ==> #[trigger] r[k] == p[k]
            &&& forall|k: int| 0 <= k < new.len() ==> #[trigger] r[p.len() + k] == ((next_id + k) as usize, (
                initiated_status(),
                new[k],
            ))
            &&& ids_increasing(r)
            &&& forall|k: int| 0 <= k < r.len() ==> #[trigger] r[k].0 < next_id + new.len()
            &&& forall|k: int| p.len() <= k < r.len() ==> #[trigger] r[k].0 >= next_id
        }),
{
    let r = with_new_tracks(p, next_id as nat, new);
    assert forall|k: int| p.len() <= k < r.len() implies #[trigger] r[k].0 == next_id + (k - p.len()) by {}
    assert forall|a: int, b: int| 0 <= a < b < r.len() implies r[a].0 < r[b].0 by {
        if b < p.len() {
            assert(r[a] == p[a] && r[b] == p[b]);
        } else if a < p.len() {
            assert(r[a] == p[a]);
            assert(r[b].0 == next_id + (b - p.len()));
        } else {
            assert(r[a].0 == next_id + (a - p.len()));
            assert(r[b].0 == next_id + (b - p.len()));
        }
    }
    assert forall|k: int| 0 <= k < r.len() implies #[trigger] r[k].0 < next_id + new.len() by {
        if k < p.len() {
            assert(r[k] == p[k]);
        } else {
            assert(r[k].0 == next_id + (k - p.len()));
        }
    }
}

/// One tracker update: every surviving track keeps its identifier and
/// payload and has its counters updated by the outcome of its association
/// (it ages by one); exactly the tracks that missed too many detections or
/// whose existence fell too low are deleted, and their identifiers never
/// come back; new tracks, initialized from measurements, follow under
/// consecutive fresh identifiers, so identifiers stay strictly increasing;
/// and when the new tracks are those that track initiation plans, the update
/// never takes the table beyond the expected number of targets nor creates
/// more tracks than the per-step limit.
pub proof fn lemma_tracker_update<T>(
    s: Seq<(usize, (TrackStatus, T))>,
    next_id: usize,
    outcomes: Seq<(bool, bool)>,
    max_missed: usize,
    existence_below_min: Seq<bool>,
    new: Seq<T>,
    expected_num_tracks: usize,
    unassociated: Seq<bool>,
    too_close: Seq<bool>,
)
    requires
        s.len() <= usize::MAX,
        ids_increasing(s),
        forall|i: int| 0 <= i < s.len() ==> #[trigger] s[i].0 < next_id,
        outcomes.len() == s.len(),
        existence_below_min.len() == s.len(),
        next_id + new.len() <= usize::MAX,
        unassociated.len() <= usize::MAX,
        too_close.len() == unassociated.len(),
        new.len() == new_track_plan(
            expected_num_tracks,
            pruned_after_update(s, outcomes, max_missed, existence_below_min).len() as usize,
            unassociated,
            too_close,
        ).len(),
    ensures
        ({
            let p = pruned_after_update(s, outcomes, max_missed, existence_below_min);
            let r = with_new_tracks(p, next_id as nat, new);
            let u = updated_entries(s, outcomes);
            &&& forall|k: int| 0 <= k < p.len() ==> exists|j: int|
                0 <= j < s.len() && !deleted_by_update(s, outcomes, max_missed, existence_below_min, j)
                    && #[trigger] r[k] == u[j]
            &&& forall|j: int| 0 <= j < s.len() && !deleted_by_update(s, outcomes, max_missed, existence_below_min, j) ==>
                exists|k: int| 0 <= k < p.len() && #[trigger] r[k] == u[j]
            &&& forall|j: int, k: int| 0 <= j < s.len() && deleted_by_update(s, outcomes, max_missed, existence_below_min, j)
                && 0 <= k < r.len() ==> #[trigger] r[k].0 != #[trigger] s[j].0
            &&& forall|k: int| 0 <= k < new.len() ==> #[trigger] r[p.len() + k] == ((next_id + k) as usize, (
                initiated_status(),
                new[k],
            ))
            &&& ids_increasing(r)
            &&& forall|k: int| 0 <= k < r.len() ==> #[trigger] r[k].0 < next_id + new.len()
            &&& new.len() <= new_tracks_per_step_limit(expected_num_tracks)
            &&& p.len() < expected_num_tracks ==> r.len() <= expected_num_tracks
            &&& p.len() >= expected_num_tracks ==> r.len() == p.len()
        }),
{
    let p = pruned_after_update(s, outcomes, max_missed, existence_below_min);
    let r = with_new_tracks(p, next_id as nat, new);
    lemma_pruned_after_update(s, next_id, outcomes, max_missed, existence_below_min);
    lemma_with_new_tracks(p, next_id, new);
    lemma_new_track_plan(expected_num_tracks, p.len() as usize, unassociated, too_close);
    let u = updated_entries(s, outcomes);
    assert forall|j: int| 0 <= j < s.len() && !deleted_by_update(s, outcomes, max_missed, existence_below_min, j) implies
        exists|k: int| 0 <= k < p.len() && #[trigger] r[k] == u[j] by {
        let k = choose|k: int| 0 <= k < p.len() && #[trigger] p[k] == u[j];
        assert(r[k] == p[k]);
    }
    assert forall|j: int, k: int| 0 <= j < s.len() && deleted_by_update(s, outcomes, max_missed, existence_below_min, j)
        && 0 <= k < r.len() implies #[trigger] r[k].0 != #[trigger] s[j].0 by {
        if k < p.len() {
            assert(r[k] == p[k]);
        }
    }
}

/// After an update, every surviving track has consistent counters (when all
/// tracks had them before) and none of them is due for deletion: each has
/// missed fewer than `max_missed` detections in a row and had its existence
/// above the minimum; tracks added by initiation have consistent counters too.
pub proof fn lemma_update_keeps_tracks_consistent<T>(
    s: Seq<(usize, (TrackStatus, T))>,
    next_id: usize,
    outcomes: Seq<(bool, bool)>,
    max_missed: usize,
    existence_below_min: Seq<bool>,
    new: Seq<T>,
)
    requires
        ids_increasing(s),
        forall|i: int| 0 <= i < s.len() ==> #[trigger] s[i].0 < next_id,
        outcomes.len() == s.len(),
        existence_below_min.len() == s.len(),
        next_id + new.len() <= usize::MAX,
        forall|i: int| 0 <= i < s.len() ==> {
            &&& (#[trigger] s[i].1.0).lifecycle_wf()
            &&& can_update(s[i].1.0, outcomes[i].0, outcomes[i].1)
        },
    ensures
        ({
            let p = pruned_after_update(s, outcomes, max_missed, existence_below_min);
            let r = with_new_tracks(p, next_id as nat, new);
            &&& forall|k: int| 0 <= k < p.len() ==> (#[trigger] p[k].1.0).missed_detections < max_missed
            &&& forall|k: int| 0 <= k < r.len() ==> (#[trigger] r[k].1.0).lifecycle_wf()
        }),
{
    let p = pruned_after_update(s, outcomes, max_missed, existence_below_min);
    let r = with_new_tracks(p, next_id as nat, new);
    let u = updated_entries(s, outcomes);
    lemma_pruned_after_update(s, next_id, outcomes, max_missed, existence_below_min);
    lemma_with_new_tracks(p, next_id, new);
    lemma_initiated_lifecycle_wf();
    assert forall|k: int| 0 <= k < p.len() implies (#[trigger] p[k].1.0).missed_detections < max_missed
        && p[k].1.0.lifecycle_wf() by {
        let j = choose|j: int|
            0 <= j < s.len() && !deleted_by_update(s, outcomes, max_missed, existence_below_min, j)
                && #[trigger] p[k] == u[j];
        lemma_update_preserves_lifecycle_wf(s[j].1.0, outcomes[j].0, outcomes[j].1);
    }
    assert forall|k: int| 0 <= k < r.len() implies (#[trigger] r[k].1.0).lifecycle_wf() by {
        if k < p.len() {
            assert(r[k] == p[k]);
        } else {
            assert(r[p.len() + (k - p.len())] == r[k]);
        }
    }
}

/// The updated entry at a position, field by field, and whether it is
/// marked for deletion.
proof fn lemma_updated_entry<T>(
    s: Seq<(usize, (TrackStatus, T))>,
    outcomes: Seq<(bool, bool)>,
    max_missed: usize,
    existence_below_min: Seq<bool>,
    j: int,
)
    requires
        outcomes.len() == s.len(),
        existence_below_min.len() == s.len(),
        0 <= j < s.len(),
        can_update(s[j].1.0, outcomes[j].0, outcomes[j].1),
    ensures
        ({
            let e = updated_entries(s, outcomes)[j];
            let missed = if outcomes[j].0 { 0 } else { s[j].1.0.missed_detections + 1 };
            &&& e.0 == s[j].0
            &&& e.1.1 == s[j].1.1
            &&& e.1.0.age == s[j].1.0.age + 1
            &&& e.1.0.num_scans == s[j].1.0.num_scans + 1
            &&& e.1.0.missed_detections == missed
            &&& e.1.0.num_detections == if outcomes[j].0 && outcomes[j].1 {
                s[j].1.0.num_detections + 1
            } else {
                s[j].1.0.num_detections as int
            }
            &&& e.1.0.is_confirmed == (s[j].1.0.is_confirmed || (e.1.0.num_detections >= 2 && e.1.0.num_scans
                >= 3))
            &&& deletion_marks(updated_entries(s, outcomes), max_missed, existence_below_min)[j] == !(missed
                < max_missed && !existence_below_min[j])
        }),
{
}

/// Every track that, after its update, missed fewer than `max_missed`
/// detections in a row and had its existence above the minimum is kept.
proof fn lemma_update_keeps_due_tracks<T>(
    s: Seq<(usize, (TrackStatus, T))>,
    outcomes: Seq<(bool, bool)>,
    max_missed: usize,
    existence_below_min: Seq<bool>,
)
    requires
        outcomes.len() == s.len(),
        existence_below_min.len() == s.len(),
        forall|i: int| 0 <= i < s.len() ==> can_update(#[trigger] s[i].1.0, outcomes[i].0, outcomes[i].1),
    ensures
        ({
            let p = pruned_after_update(s, outcomes, max_missed, existence_below_min);
            forall|j: int| #![trigger s[j]]
                0 <= j < s.len() && !existence_below_min[j] && (if outcomes[j].0 { 0 < max_missed } else { s[j].1.0.missed_detections + 1 < max_missed }) ==> exists|k: int| 0 <= k < p.len() && #[trigger] p[k].0 == s[j].0
        }),
{
    let u = updated_entries(s, outcomes);
    let marks = deletion_marks(u, max_missed, existence_below_min);
    let p = pruned_after_update(s, outcomes, max_missed, existence_below_min);
    assert(p == unmarked(u, marks));
    lemma_unmarked_positions(u, marks);
    assert forall|j: int| #![trigger s[j]]
        0 <= j < s.len() && !existence_below_min[j] && (if outcomes[j].0 { 0 < max_missed } else { s[j].1.0.missed_detections + 1 < max_missed }) implies exists|k: int| 0 <= k < p.len() && #[trigger] p[k].0 == s[j].0 by {
        assert(can_update(s[j].1.0, outcomes[j].0, outcomes[j].1));
        lemma_updated_entry(s, outcomes, max_missed, existence_below_min, j);
        let k = choose|k: int| 0 <= k < p.len() && #[trigger] p[k] == u[j];
        assert(p[k].0 == s[j].0);
    }
}

/// Each kept track, field by field, against the track it comes from.
proof fn lemma_update_kept_counters<T>(
    s: Seq<(usize, (TrackStatus, T))>,
    outcomes: Seq<(bool, bool)>,
    max_missed: usize,
    existence_below_min: Seq<bool>,
)
    requires
        outcomes.len() == s.len(),
        existence_below_min.len() == s.len(),
        forall|i: int| 0 <= i < s.len() ==> can_update(#[trigger] s[i].1.0, outcomes[i].0, outcomes[i].1),
    ensures
        ({
            let p = pruned_after_update(s, outcomes, max_missed, existence_below_min);
            forall|k: int| #![trigger p[k]] 0 <= k < p.len() ==> exists|j: int| {
                &&& 0 <= j < s.len()
                &&& p[k].0 == (#[trigger] s[j]).0
                &&& p[k].1.1 == s[j].1.1
                &&& p[k].1.0.age == s[j].1.0.age + 1
                &&& p[k].1.0.num_scans == s[j].1.0.num_scans + 1
                &&& p[k].1.0.missed_detections == if outcomes[j].0 {
                    0
                } else {
                    s[j].1.0.missed_detections + 1
                }
                &&& p[k].1.0.num_detections == if outcomes[j].0 && outcomes[j].1 {
                    s[j].1.0.num_detections + 1
                } else {
                    s[j].1.0.num_detections as int
                }
                &&& p[k].1.0.is_confirmed == (s[j].1.0.is_confirmed || (p[k].1.0.num_detections >= 2
                    && p[k].1.0.num_scans >= 3))
                &&& p[k].1.0.missed_detections < max_missed
                &&& !existence_below_min[j]
            }
        }),
{
    let u = updated_entries(s, outcomes);
    let marks = deletion_marks(u, max_missed, existence_below_min);
    let p = pruned_after_update(s, outcomes, max_missed, existence_below_min);
    assert(p == unmarked(u, marks));
    lemma_unmarked_positions(u, marks);
    assert forall|k: int| #![trigger p[k]] 0 <= k < p.len() implies exists|j: int| {
        &&& 0 <= j < s.len()
        &&& p[k].0 == (#[trigger] s[j]).0
        &&& p[k].1.1 == s[j].1.1
        &&& p[k].1.0.age == s[j].1.0.age + 1
        &&& p[k].1.0.num_scans == s[j].1.0.num_scans + 1
        &&& p[k].1.0.missed_detections == if outcomes[j].0 {
            0
        } else {
            s[j].1.0.missed_detections + 1
        }
        &&& p[k].1.0.num_detections == if outcomes[j].0 && outcomes[j].1 {
            s[j].1.0.num_detections + 1
        } else {
            s[j].1.0.num_detections as int
        }
        &&& p[k].1.0.is_confirmed == (s[j].1.0.is_confirmed || (p[k].1.0.num_detections >= 2
            && p[k].1.0.num_scans >= 3))
        &&& p[k].1.0.missed_detections < max_missed
        &&& !existence_below_min[j]
    } by {
        let j = choose|j: int| 0 <= j < u.len() && !marks[j] && #[trigger] p[k] == u[j];
        assert(can_update(s[j].1.0, outcomes[j].0, outcomes[j].1));
        lemma_updated_entry(s, outcomes, max_missed, existence_below_min, j);
    }
}


/// What an update does to the counters of each track, field by field: every
/// kept track comes from a track of the table with the same identifier and
/// payload, is one update older and has one more scan; its missed detections
/// are reset when it was associated and incremented when not; its detections
/// grow by one exactly when it was associated and a measurement was recorded;
/// it is confirmed when it already was or now has at least two detections in
/// at least three scans; and it missed fewer than `max_missed` detections in
/// a row and had its existence above the minimum. Every track that meets
/// those last two conditions after its update is kept.
pub proof fn lemma_update_counters<T>(
    s: Seq<(usize, (TrackStatus, T))>,
    outcomes: Seq<(bool, bool)>,
    max_missed: usize,
    existence_below_min: Seq<bool>,
)
    requires
        outcomes.len() == s.len(),
        existence_below_min.len() == s.len(),
        forall|i: int| 0 <= i < s.len() ==> can_update(#[trigger] s[i].1.0, outcomes[i].0, outcomes[i].1),
    ensures
        ({
            let p = pruned_after_update(s, outcomes, max_missed, existence_below_min);
            &&& forall|k: int| #![trigger p[k]] 0 <= k < p.len() ==> exists|j: int| {
                &&& 0 <= j < s.len()
                &&& p[k].0 == (#[trigger] s[j]).0
                &&& p[k].1.1 == s[j].1.1
                &&& p[k].1.0.age == s[j].1.0.age + 1
                &&& p[k].1.0.num_scans == s[j].1.0.num_scans + 1
                &&& p[k].1.0.missed_detections == if outcomes[j].0 {
                    0
                } else {
                    s[j].1.0.missed_detections + 1
                }
                &&& p[k].1.0.num_detections == if outcomes[j].0 && outcomes[j].1 {
                    s[j].1.0.num_detections + 1
                } else {
                    s[j].1.0.num_detections as int
                }
                &&& p[k].1.0.is_confirmed == (s[j].1.0.is_confirmed || (p[k].1.0.num_detections >= 2
                    && p[k].1.0.num_scans >= 3))
                &&& p[k].1.0.missed_detections < max_missed
                &&& !existence_below_min[j]
            }
            &&& forall|j: int| #![trigger s[j]]
                0 <= j < s.len() && !existence_below_min[j] && (if outcomes[j].0 { 0 < max_missed } else { s[j].1.0.missed_detections + 1 < max_missed }) ==> exists|k: int| 0 <= k < p.len() && #[trigger] p[k].0 == s[j].0
        }),
{
    lemma_update_kept_counters(s, outcomes, max_missed, existence_below_min);
    lemma_update_keeps_due_tracks(s, outcomes, max_missed, existence_below_min);
}

} // verus!
