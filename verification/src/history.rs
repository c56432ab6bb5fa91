//! Bounded histories that keep the most recent entries.

use vstd::prelude::*;

verus! {

/// Number of measurements kept in a track's history for velocity estimation.
pub const MEASUREMENT_HISTORY_LEN: usize = 3;

/// Appending `item` to `history` and dropping the oldest entry when the
/// history then holds more than `capacity` entries.
pub open spec fn bounded_push<T>(history: Seq<T>, item: T, capacity: nat) -> Seq<T> {
    if history.len() + 1 > capacity {
        history.push(item).drop_first()
    } else {
        history.push(item)
    }
}

/// The history built by pushing `items` one by one into an empty history.
pub open spec fn history_of<T>(items: Seq<T>, capacity: nat) -> Seq<T>
    decreases items.len(),
{
    if items.len() == 0 {
        Seq::empty()
    } else {
        bounded_push(history_of(items.drop_last(), capacity), items.last(), capacity)
    }
}

/// The last `n` entries of `s` (all of them when it is shorter).
pub open spec fn last_n<T>(s: Seq<T>, n: nat) -> Seq<T> {
    if s.len() <= n {
        s
    } else {
        s.skip(s.len() - n)
    }
}

/// Append an entry to a history, keeping at most `capacity` entries: when the
/// history grows beyond the capacity, its oldest entry is removed.
pub fn push_bounded<T>(history: &mut Vec<T>, item: T, capacity: usize)
    requires
        old(history).len() < usize::MAX,
    ensures
        final(history)@ == bounded_push(old(history)@, item, capacity as nat),
{
    history.push(item);
    if history.len() > capacity {
        history.remove(0);
    }
}

/// A history filled one entry at a time holds exactly the `capacity` most
/// recent entries, oldest first.
pub proof fn lemma_history_keeps_most_recent<T>(items: Seq<T>, capacity: nat)
    requires
        capacity >= 1,
    ensures
        history_of(items, capacity) =~= last_n(items, capacity),
    decreases items.len(),
{
    if items.len() > 0 {
        let prefix = items.drop_last();
        lemma_history_keeps_most_recent(prefix, capacity);
        let h = history_of(prefix, capacity);
        assert(prefix.push(items.last()) =~= items);
        if prefix.len() + 1 > capacity {
            assert(h.push(items.last()).drop_first() =~= items.skip(items.len() - capacity));
        }
    }
}

/// Pushing into a history within its capacity keeps it within its
/// capacity, with the new entry last.
pub proof fn lemma_bounded_push_within_capacity<T>(history: Seq<T>, item: T, capacity: nat)
    requires
        capacity >= 1,
        history.len() <= capacity,
    ensures
        bounded_push(history, item, capacity).len() <= capacity,
        bounded_push(history, item, capacity).last() == item,
{
}

} // verus!
