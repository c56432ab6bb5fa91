//! The table of live tracks: identifiers are handed out in increasing order
//! and never reused, and tracks are kept in creation order.

use vstd::prelude::*;

verus! {

/// The entries of `s` whose mark is false, in their given order.
pub open spec fn unmarked<T>(s: Seq<T>, marks: Seq<bool>) -> Seq<T>
    decreases s.len(),
{
    if s.len() == 0 {
        Seq::empty()
    } else {
        let rest = unmarked(s.drop_first(), marks.drop_first());
        if marks[0] {
            rest
        } else {
            seq![s[0]] + rest
        }
    }
}

/// Identifiers strictly increase along the sequence.
pub open spec fn ids_increasing<T>(s: Seq<(usize, T)>) -> bool {
    forall|i: int, j: int| 0 <= i < j < s.len() ==> s[i].0 < s[j].0
}

/// A table of tracks, each stored with its identifier.
pub struct TrackTable<T> {
    entries: Vec<(usize, T)>,
    next_id: usize,
}

impl<T> View for TrackTable<T> {
    type V = Seq<(usize, T)>;

    /// The (identifier, track) pairs, oldest first.
    closed spec fn view(&self) -> Seq<(usize, T)> {
        self.entries@
    }
}

impl<T> TrackTable<T> {
    /// The identifier that the next inserted track receives.
    pub closed spec fn spec_next_id(&self) -> usize {
        self.next_id
    }

    /// Identifiers are strictly increasing and all below the next identifier.
    pub open spec fn wf(&self) -> bool {
        &&& ids_increasing(self@)
        &&& forall|i: int| 0 <= i < self@.len() ==> #[trigger] self@[i].0 < self.spec_next_id()
    }

    /// An empty table; the first track receives identifier 0.
    pub fn new() -> (t: Self)
        ensures
            t.wf(),
            t@ == Seq::<(usize, T)>::empty(),
            t.spec_next_id() == 0,
    {
        TrackTable { entries: Vec::new(), next_id: 0 }
    }

    /// Number of tracks.
    pub fn len(&self) -> (n: usize)
        ensures
            n == self@.len(),
    {
        self.entries.len()
    }

    /// Whether the table holds no track.
    pub fn is_empty(&self) -> (b: bool)
        ensures
            b == (self@.len() == 0),
    {
        self.entries.len() == 0
    }

    /// The identifier that the next inserted track receives.
    pub fn next_id(&self) -> (id: usize)
        ensures
            id == self.spec_next_id(),
    {
        self.next_id
    }

    /// The identifier of the `i`-th track.
    pub fn id_at(&self, i: usize) -> (id: usize)
        requires
            i < self@.len(),
        ensures
            id == self@[i as int].0,
    {
        self.entries[i].0
    }

    /// The `i`-th track.
    pub fn get(&self, i: usize) -> (r: &T)
        requires
            i < self@.len(),
        ensures
            *r == self@[i as int].1,
    {
        &self.entries[i].1
    }

    /// Mutable access to the `i`-th track; identifiers are unchanged.
    pub fn get_mut(&mut self, i: usize) -> (r: &mut T)
        requires
            old(self).wf(),
            i < old(self)@.len(),
        ensures
            *r == old(self)@[i as int].1,
            final(self)@ == old(self)@.update(i as int, (old(self)@[i as int].0, *final(r))),
            final(self).spec_next_id() == old(self).spec_next_id(),
            final(self).wf(),
    {
        &mut self.entries[i].1
    }

    /// Primary track (first track, if exists): the oldest live track.
    pub fn primary(&self) -> (r: Option<&T>)
        ensures
            r is None <==> self@.len() == 0,
            r matches Some(t) ==> *t == self@[0].1,
    {
        if self.entries.len() == 0 {
            None
        } else {
            Some(&self.entries[0].1)
        }
    }

    /// Add a track under a fresh identifier, which is returned.
    pub fn insert(&mut self, track: T) -> (id: usize)
        requires
            old(self).wf(),
            old(self).spec_next_id() < usize::MAX,
        ensures
            id == old(self).spec_next_id(),
            final(self)@ == old(self)@.push((id, track)),
            final(self).spec_next_id() == id + 1,
            final(self).wf(),
    {
        let id = self.next_id;
        self.entries.push((id, track));
        self.next_id = id + 1;
        id
    }

    /// Delete the tracks whose mark is set, keeping the others in order.
    /// Tracks are removed from the last to the first, so that the positions
    /// still to be visited do not move.
    pub fn remove_marked(&mut self, marks: &Vec<bool>)
        requires
            old(self).wf(),
            marks@.len() == old(self)@.len(),
        ensures
            final(self)@ == unmarked(old(self)@, marks@),
            final(self).spec_next_id() == old(self).spec_next_id(),
            final(self).wf(),
    {
        let ghost orig = self.entries@;
        let mut i = self.entries.len();
        while i > 0
            invariant
                i <= orig.len(),
                marks@.len() == orig.len(),
                self.next_id == old(self).next_id,
                self.entries@ == orig.take(i as int) + unmarked(orig.skip(i as int), marks@.skip(i as int)),
            decreases i,
        {
            i = i - 1;
            proof {
                assert(orig.skip(i as int).drop_first() =~= orig.skip(i + 1));
                assert(marks@.skip(i as int).drop_first() =~= marks@.skip(i + 1));
                assert(orig.take(i + 1) =~= orig.take(i as int).push(orig[i as int]));
            }
            if marks[i] {
                self.entries.remove(i);
                assert(self.entries@ =~= orig.take(i as int) + unmarked(orig.skip(i as int), marks@.skip(i as int)));
            } else {
                assert(self.entries@ =~= orig.take(i as int) + unmarked(orig.skip(i as int), marks@.skip(i as int)));
            }
        }
        proof {
            assert(orig.take(0) + unmarked(orig.skip(0), marks@.skip(0)) =~= unmarked(orig, marks@)) by {
                assert(orig.skip(0) =~= orig);
                assert(marks@.skip(0) =~= marks@);
            }
            lemma_unmarked_keeps_order(orig, marks@);
            let u = unmarked(orig, marks@);
            assert forall|k: int| 0 <= k < u.len() implies #[trigger] u[k].0 < self.next_id by {
                let j = choose|j: int| 0 <= j < orig.len() && u[k] == orig[j];
                assert(orig[j].0 < old(self).spec_next_id());
            }
        }
    }
}

/// Every kept entry is an entry of the given sequence, and when
/// identifiers increase along the given sequence they increase along the kept
/// entries.
pub proof fn lemma_unmarked_keeps_order<T>(s: Seq<(usize, T)>, marks: Seq<bool>)
    ensures
        forall|k: int| 0 <= k < unmarked(s, marks).len() ==>
            exists|j: int| 0 <= j < s.len() && #[trigger] unmarked(s, marks)[k] == s[j],
        ids_increasing(s) ==> ids_increasing(unmarked(s, marks)),
    decreases s.len(),
{
    if s.len() > 0 {
        let tail = s.drop_first();
        let rest = unmarked(tail, marks.drop_first());
        lemma_unmarked_keeps_order(tail, marks.drop_first());
        let u = unmarked(s, marks);
        assert forall|k: int| 0 <= k < u.len() implies
            exists|j: int| 0 <= j < s.len() && #[trigger] u[k] == s[j] by {
            if marks[0] {
                let j = choose|j: int| 0 <= j < tail.len() && rest[k] == tail[j];
                assert(u[k] == s[j + 1]);
            } else if k == 0 {
                assert(u[k] == s[0]);
            } else {
                let j = choose|j: int| 0 <= j < tail.len() && rest[k - 1] == tail[j];
                assert(u[k] == s[j + 1]);
            }
        }
        if ids_increasing(s) && !marks[0] {
            assert forall|a: int, b: int| 0 <= a < b < u.len() implies u[a].0 < u[b].0 by {
                if a == 0 {
                    let j = choose|j: int| 0 <= j < tail.len() && rest[b - 1] == tail[j];
                    assert(u[b] == s[j + 1]);
                } else {
                    assert(u[a] == rest[a - 1]);
                    assert(u[b] == rest[b - 1]);
                }
            }
        }
    }
}

/// Identifiers in a table are pairwise distinct, and the primary (first)
/// track is the oldest live track: it has the smallest identifier.
pub proof fn lemma_ids_unique_and_primary_oldest<T>(t: TrackTable<T>)
    requires
        t.wf(),
    ensures
        forall|i: int, j: int| 0 <= i < t@.len() && 0 <= j < t@.len() && i != j ==> t@[i].0 != t@[j].0,
        forall|i: int| 0 < i < t@.len() ==> t@[0].0 < #[trigger] t@[i].0,
{
}

/// A newly inserted track never reuses an identifier: it differs from the
/// identifier of every live track and of every track deleted before, all of
/// which are below the next identifier.
pub proof fn lemma_insert_id_is_fresh<T>(t: TrackTable<T>)
    requires
        t.wf(),
    ensures
        forall|i: int| 0 <= i < t@.len() ==> #[trigger] t@[i].0 != t.spec_next_id(),
{
}

} // verus!
