//! Track quality bookkeeping: age, missed detections and M/N confirmation.

use vstd::prelude::*;

verus! {

/// Detections required for confirmation (the M of the M/N rule).
pub const CONFIRM_DETECTIONS: usize = 2;

/// Scans required for confirmation (the N of the M/N rule).
pub const CONFIRM_SCANS: usize = 3;

/// Consecutive missed detections after which the tracker deletes a track.
pub const MAX_MISSED_DETECTIONS: usize = 5;

/// A confirmed track with fewer missed detections than this is consistent.
pub const CONSISTENT_MISS_LIMIT: usize = 3;

/// The integer quality metrics of a track.
#[derive(Debug, Clone, Copy, PartialEq, Eq)]
pub struct TrackStatus {
    /// Age of the track (number of updates)
    pub age: usize,
    /// Number of consecutive missed detections
    pub missed_detections: usize,
    /// Number of detections received (for M/N confirmation)
    pub num_detections: usize,
    /// Number of scans since track creation (for M/N confirmation)
    pub num_scans: usize,
    /// Track confirmation status (M detections out of N scans)
    pub is_confirmed: bool,
}

/// The status of a freshly created track.
pub open spec fn fresh_status() -> TrackStatus {
    TrackStatus { age: 0, missed_detections: 0, num_detections: 0, num_scans: 0, is_confirmed: false }
}

/// The status of a track just initialized from a measurement: one detection
/// recorded in one scan.
pub open spec fn initiated_status() -> TrackStatus {
    TrackStatus { age: 0, missed_detections: 0, num_detections: 1, num_scans: 1, is_confirmed: false }
}

/// Whether the counters that an update increments can be incremented
/// without overflow: the age and the scans always, the missed detections on
/// an unassociated update, the detections when one is recorded.
pub open spec fn can_update(s: TrackStatus, effective: bool, detected: bool) -> bool {
    &&& s.age < usize::MAX
    &&& s.num_scans < usize::MAX
    &&& !effective ==> s.missed_detections < usize::MAX
    &&& effective && detected ==> s.num_detections < usize::MAX
}

/// The status after one tracker update.
///
/// `effective` is whether the update associated the track with measurements;
/// `detected` is whether a measurement was recorded in the track's history.
pub open spec fn status_after_update(s: TrackStatus, effective: bool, detected: bool) -> TrackStatus {
    let num_detections = if effective && detected { s.num_detections + 1 } else { s.num_detections as int };
    let num_scans = s.num_scans + 1;
    TrackStatus {
        age: (s.age + 1) as usize,
        missed_detections: if effective { 0 } else { (s.missed_detections + 1) as usize },
        num_detections: num_detections as usize,
        num_scans: num_scans as usize,
        is_confirmed: s.is_confirmed || (num_detections >= CONFIRM_DETECTIONS && num_scans >= CONFIRM_SCANS),
    }
}

impl TrackStatus {
    /// Consistency of the counters of a track managed by the tracker.
    pub open spec fn lifecycle_wf(self) -> bool {
        &&& self.num_scans == self.age + 1
        &&& 1 <= self.num_detections <= self.num_scans
        &&& self.missed_detections <= self.age
        &&& self.is_confirmed <==> (self.num_detections >= CONFIRM_DETECTIONS
            && self.num_scans >= CONFIRM_SCANS)
    }

    /// Create the status of a new track: tentative, no updates, no detections.
    pub fn new() -> (s: Self)
        ensures
            s == fresh_status(),
    {
        TrackStatus { age: 0, missed_detections: 0, num_detections: 0, num_scans: 0, is_confirmed: false }
    }

    /// Check if track should be confirmed (M/N logic).
    /// M detections out of N scans required for confirmation.
    pub fn should_confirm(&self, m: usize, n: usize) -> (b: bool)
        ensures
            b == (self.is_confirmed || (self.num_detections >= m && self.num_scans >= n)),
    {
        if self.is_confirmed {
            return true;
        }
        self.num_detections >= m && self.num_scans >= n
    }

    /// Count one more detection.
    pub fn record_detection(&mut self)
        requires
            old(self).num_detections < usize::MAX,
        ensures
            *final(self) == (TrackStatus { num_detections: (old(self).num_detections + 1) as usize, ..*old(self) }),
    {
        self.num_detections = self.num_detections + 1;
    }

    /// Increment scan counter.
    pub fn increment_scan(&mut self)
        requires
            old(self).num_scans < usize::MAX,
        ensures
            *final(self) == (TrackStatus { num_scans: (old(self).num_scans + 1) as usize, ..*old(self) }),
    {
        self.num_scans = self.num_scans + 1;
    }

    /// Check if track should be deleted: it has missed too many detections
    /// or its existence probability fell below the minimum.
    pub fn should_delete(&self, max_missed: usize, existence_below_min: bool) -> (b: bool)
        ensures
            b == (self.missed_detections >= max_missed || existence_below_min),
    {
        self.missed_detections >= max_missed || existence_below_min
    }

    /// A confirmed track that has not missed many detections in a row.
    pub fn is_consistent(&self) -> (b: bool)
        ensures
            b == (self.is_confirmed && self.missed_detections < CONSISTENT_MISS_LIMIT),
    {
        self.is_confirmed && self.missed_detections < CONSISTENT_MISS_LIMIT
    }

    /// Bookkeeping of one tracker update: the track ages by one; an
    /// associated track clears its missed detections (and counts a detection
    /// when a measurement was recorded), an unassociated one misses once
    /// more; the scan is counted and the M/N rule (2 of 3) is applied.
    pub fn record_update(&mut self, effective: bool, detected: bool)
        requires
            can_update(*old(self), effective, detected),
        ensures
            *final(self) == status_after_update(*old(self), effective, detected),
    {
        self.age = self.age + 1;
        if effective {
            self.missed_detections = 0;
            if detected {
                self.record_detection();
            }
        } else {
            self.missed_detections = self.missed_detections + 1;
        }
        self.increment_scan();
        if !self.is_confirmed && self.should_confirm(CONFIRM_DETECTIONS, CONFIRM_SCANS) {
            self.is_confirmed = true;
        }
    }
}

/// Number of updates that associated the track and recorded a detection.
pub open spec fn detections_in(events: Seq<(bool, bool)>) -> nat
    decreases events.len(),
{
    if events.len() == 0 {
        0
    } else {
        detections_in(events.drop_last()) + if events.last().0 && events.last().1 { 1nat } else { 0nat }
    }
}

/// Number of unassociated updates at the end of the sequence.
pub open spec fn trailing_misses(events: Seq<(bool, bool)>) -> nat
    decreases events.len(),
{
    if events.len() == 0 {
        0
    } else if events.last().0 {
        0
    } else {
        trailing_misses(events.drop_last()) + 1
    }
}

/// The status of a track initialized from a measurement after the given
/// updates, each given as (effective, detected).
pub open spec fn replay_updates(events: Seq<(bool, bool)>) -> TrackStatus
    decreases events.len(),
{
    if events.len() == 0 {
        initiated_status()
    } else {
        status_after_update(replay_updates(events.drop_last()), events.last().0, events.last().1)
    }
}

/// A track initialized from a measurement has consistent counters.
pub proof fn lemma_initiated_lifecycle_wf()
    ensures
        initiated_status().lifecycle_wf(),
{
}

/// Every update keeps the counters of a track consistent: the scan count is
/// one more than the age, detections never exceed scans, missed detections
/// never exceed the age, and the track is confirmed exactly when it has at
/// least 2 detections in at least 3 scans.
pub proof fn lemma_update_preserves_lifecycle_wf(s: TrackStatus, effective: bool, detected: bool)
    requires
        s.lifecycle_wf(),
        can_update(s, effective, detected),
    ensures
        status_after_update(s, effective, detected).lifecycle_wf(),
{
}

/// Once confirmed, a track stays confirmed.
pub proof fn lemma_confirmation_is_permanent(s: TrackStatus, effective: bool, detected: bool)
    requires
        s.is_confirmed,
    ensures
        status_after_update(s, effective, detected).is_confirmed,
{
}

/// A track initialized from a measurement that then misses
/// `MAX_MISSED_DETECTIONS` updates in a row is due for deletion.
pub proof fn lemma_deleted_after_max_misses(events: Seq<(bool, bool)>)
    requires
        events.len() + 2 <= usize::MAX,
        trailing_misses(events) >= MAX_MISSED_DETECTIONS,
    ensures
        replay_updates(events).missed_detections >= MAX_MISSED_DETECTIONS,
{
    lemma_replay_updates(events);
}

/// After any sequence of updates, a track initialized from a measurement has
/// age equal to the number of updates, one scan more than that, one detection
/// more than the detections recorded by the updates, as many missed
/// detections as unassociated updates since its last association, and is
/// confirmed exactly when it has at least 2 detections in at least 3 scans.
pub proof fn lemma_replay_updates(events: Seq<(bool, bool)>)
    requires
        events.len() + 2 <= usize::MAX,
    ensures
        replay_updates(events) == (TrackStatus {
            age: events.len() as usize,
            missed_detections: trailing_misses(events) as usize,
            num_detections: (detections_in(events) + 1) as usize,
            num_scans: (events.len() + 1) as usize,
            is_confirmed: detections_in(events) + 1 >= CONFIRM_DETECTIONS && events.len() + 1 >= CONFIRM_SCANS,
        }),
        detections_in(events) <= events.len(),
        trailing_misses(events) <= events.len(),
    decreases events.len(),
{
    if events.len() > 0 {
        lemma_replay_updates(events.drop_last());
    }
}

} // verus!
