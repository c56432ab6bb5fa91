//! Track initiation: which measurements start new tracks.
//!
//! Distances between measurements and tracks are computed by the caller; the
//! decisions here take their outcome as boolean relations.

use vstd::prelude::*;

verus! {

/// `sep[c][s]` holds for every chosen `s`.
pub open spec fn separated_from_all(sep: Seq<Vec<bool>>, c: int, chosen: Seq<usize>) -> bool {
    forall|j: int| 0 <= j < chosen.len() ==> #[trigger] sep[c]@[chosen[j] as int]
}

/// `near[s][c]` holds for some chosen `s`.
pub open spec fn coincides_with_any(near: Seq<Vec<bool>>, c: int, chosen: Seq<usize>) -> bool {
    exists|j: int| 0 <= j < chosen.len() && #[trigger] near[chosen[j] as int]@[c]
}

/// Greedy choice of distinct, well separated measurements: measurement `k`
/// is chosen when fewer than `max` are chosen so far and `sep[k][s]` holds
/// for every chosen `s` (it lies at least the minimum separation from them).
pub open spec fn separated_choice(sep: Seq<Vec<bool>>, max: nat, k: nat) -> Seq<usize>
    decreases k,
{
    if k == 0 {
        Seq::empty()
    } else {
        let s = separated_choice(sep, max, (k - 1) as nat);
        if s.len() < max && separated_from_all(sep, k - 1, s) {
            s.push((k - 1) as usize)
        } else {
            s
        }
    }
}

/// Completion of a choice: measurement `k` is added when fewer than `max`
/// are chosen and `near[s][k]` holds for no chosen `s` (it does not
/// coincide with any of them).
pub open spec fn completed_choice(near: Seq<Vec<bool>>, max: nat, start: Seq<usize>, k: nat) -> Seq<usize>
    decreases k,
{
    if k == 0 {
        start
    } else {
        let s = completed_choice(near, max, start, (k - 1) as nat);
        if s.len() < max && !coincides_with_any(near, k - 1, s) {
            s.push((k - 1) as usize)
        } else {
            s
        }
    }
}

/// The measurements from which the first tracks are initialized when the
/// tracker has none: first the well separated ones, then, if fewer than
/// `max` were found, any others that do not coincide with a chosen one.
pub open spec fn initial_choice(sep: Seq<Vec<bool>>, near: Seq<Vec<bool>>, max: nat) -> Seq<usize> {
    completed_choice(near, max, separated_choice(sep, max, sep.len()), sep.len())
}

/// An `n` by `n` relation.
pub open spec fn square(rel: Seq<Vec<bool>>, n: nat) -> bool {
    &&& rel.len() == n
    &&& forall|i: int| 0 <= i < n ==> #[trigger] rel[i]@.len() == n
}

proof fn lemma_separated_choice_bounds(sep: Seq<Vec<bool>>, max: nat, k: nat)
    ensures
        separated_choice(sep, max, k).len() <= max,
        forall|j: int| 0 <= j < separated_choice(sep, max, k).len() ==>
            #[trigger] separated_choice(sep, max, k)[j] < k,
    decreases k,
{
    if k > 0 {
        lemma_separated_choice_bounds(sep, max, (k - 1) as nat);
    }
}

proof fn lemma_separated_choice_saturates(sep: Seq<Vec<bool>>, max: nat, i: nat, k: nat)
    requires
        i <= k,
        separated_choice(sep, max, i).len() >= max,
    ensures
        separated_choice(sep, max, k) == separated_choice(sep, max, i),
    decreases k - i,
{
    if i < k {
        lemma_separated_choice_saturates(sep, max, i, (k - 1) as nat);
    }
}

proof fn lemma_completed_choice_bounds(near: Seq<Vec<bool>>, max: nat, start: Seq<usize>, k: nat, n: nat)
    requires
        k <= n,
        start.len() <= max,
        forall|j: int| 0 <= j < start.len() ==> #[trigger] start[j] < n,
    ensures
        completed_choice(near, max, start, k).len() <= max,
        forall|j: int| 0 <= j < completed_choice(near, max, start, k).len() ==>
            #[trigger] completed_choice(near, max, start, k)[j] < n,
    decreases k,
{
    if k > 0 {
        lemma_completed_choice_bounds(near, max, start, (k - 1) as nat, n);
    }
}

proof fn lemma_completed_choice_saturates(near: Seq<Vec<bool>>, max: nat, start: Seq<usize>, i: nat, k: nat)
    requires
        i <= k,
        completed_choice(near, max, start, i).len() >= max,
    ensures
        completed_choice(near, max, start, k) == completed_choice(near, max, start, i),
    decreases k - i,
{
    if i < k {
        lemma_completed_choice_saturates(near, max, start, i, (k - 1) as nat);
    }
}

proof fn lemma_separated_choice_pairwise(sep: Seq<Vec<bool>>, max: nat, k: nat)
    requires
        k <= usize::MAX + 1,
    ensures
        forall|a: int, b: int|
            #![trigger separated_choice(sep, max, k)[a], separated_choice(sep, max, k)[b]]
            0 <= a < b < separated_choice(sep, max, k).len() ==> separated_choice(sep, max, k)[a]
                < separated_choice(sep, max, k)[b] && sep[separated_choice(
                sep,
                max,
                k,
            )[b] as int]@[separated_choice(sep, max, k)[a] as int],
    decreases k,
{
    if k > 0 {
        lemma_separated_choice_pairwise(sep, max, (k - 1) as nat);
        lemma_separated_choice_bounds(sep, max, (k - 1) as nat);
        let s = separated_choice(sep, max, (k - 1) as nat);
        if s.len() < max && separated_from_all(sep, k - 1, s) {
            let t = s.push((k - 1) as usize);
            assert forall|a: int, b: int| 0 <= a < b < t.len() implies t[a] < t[b] && sep[t[b] as int]@[t[a] as int] by {
                if b == s.len() {
                    assert(sep[k - 1]@[s[a] as int]);
                }
            }
        }
    }
}

proof fn lemma_completed_choice_extends(near: Seq<Vec<bool>>, max: nat, start: Seq<usize>, k: nat)
    ensures
        completed_choice(near, max, start, k).len() >= start.len(),
        forall|j: int| 0 <= j < start.len() ==> #[trigger] completed_choice(near, max, start, k)[j] == start[j],
    decreases k,
{
    if k > 0 {
        lemma_completed_choice_extends(near, max, start, (k - 1) as nat);
    }
}

proof fn lemma_completed_choice_distinct(near: Seq<Vec<bool>>, max: nat, start: Seq<usize>, k: nat)
    requires
        k <= usize::MAX + 1,
        forall|a: int, b: int| 0 <= a < b < start.len() ==> start[a] != start[b],
        forall|c: int| 0 <= c < k ==> #[trigger] near[c]@[c],
    ensures
        forall|a: int, b: int| 0 <= a < b < completed_choice(near, max, start, k).len() ==>
            completed_choice(near, max, start, k)[a] != completed_choice(near, max, start, k)[b],
    decreases k,
{
    if k > 0 {
        lemma_completed_choice_distinct(near, max, start, (k - 1) as nat);
        let s = completed_choice(near, max, start, (k - 1) as nat);
        if s.len() < max && !coincides_with_any(near, k - 1, s) {
            let t = s.push((k - 1) as usize);
            assert forall|a: int, b: int| 0 <= a < b < t.len() implies t[a] != t[b] by {
                if b == s.len() && t[a] == t[b] {
                    assert(near[s[a] as int]@[k - 1]);
                }
            }
        }
    }
}

/// Initialization from an empty tracker creates at most `max` tracks, each
/// from an existing measurement. The well separated measurements come first,
/// in measurement order, each at least the minimum separation from every
/// earlier one; and, as every measurement coincides with itself, no
/// measurement starts two tracks.
pub proof fn lemma_initial_choice(sep: Seq<Vec<bool>>, near: Seq<Vec<bool>>, max: nat)
    requires
        sep.len() <= usize::MAX,
        square(sep, sep.len()),
        square(near, sep.len()),
        forall|c: int| 0 <= c < sep.len() ==> #[trigger] near[c]@[c],
    ensures
        initial_choice(sep, near, max).len() <= max,
        forall|j: int| 0 <= j < initial_choice(sep, near, max).len() ==>
            #[trigger] initial_choice(sep, near, max)[j] < sep.len(),
        forall|a: int, b: int| 0 <= a < b < initial_choice(sep, near, max).len() ==>
            initial_choice(sep, near, max)[a] != initial_choice(sep, near, max)[b],
        forall|j: int|
            0 <= j < separated_choice(sep, max, sep.len()).len() ==> initial_choice(sep, near, max)[j]
                == #[trigger] separated_choice(sep, max, sep.len())[j],
        forall|a: int, b: int|
            #![trigger separated_choice(sep, max, sep.len())[a], separated_choice(sep, max, sep.len())[b]]
            0 <= a < b < separated_choice(sep, max, sep.len()).len() ==> separated_choice(
                sep,
                max,
                sep.len(),
            )[a] < separated_choice(sep, max, sep.len())[b] && sep[separated_choice(
                sep,
                max,
                sep.len(),
            )[b] as int]@[separated_choice(sep, max, sep.len())[a] as int],
{
    let n = sep.len();
    let s = separated_choice(sep, max, n);
    lemma_separated_choice_bounds(sep, max, n);
    lemma_separated_choice_pairwise(sep, max, n);
    lemma_completed_choice_bounds(near, max, s, n, n);
    lemma_completed_choice_extends(near, max, s, n);
    lemma_completed_choice_distinct(near, max, s, n);
}

proof fn lemma_separated_choice_maximal(sep: Seq<Vec<bool>>, max: nat, k: nat)
    ensures
        ({
            let sc = separated_choice(sep, max, k);
            sc.len() < max ==> forall|c: int| #![trigger sc.contains(c as usize)]
                0 <= c < k ==> sc.contains(c as usize) || exists|a: int|
                    0 <= a < sc.len() && !(#[trigger] sep[c]@[sc[a] as int])
        }),
    decreases k,
{
    if k > 0 {
        lemma_separated_choice_maximal(sep, max, (k - 1) as nat);
        let s = separated_choice(sep, max, (k - 1) as nat);
        let sc = separated_choice(sep, max, k);
        if sc.len() < max {
            assert(s.len() <= sc.len());
            assert forall|c: int| #![trigger sc.contains(c as usize)] 0 <= c < k implies sc.contains(c as usize) || exists|a: int|
                0 <= a < sc.len() && !(#[trigger] sep[c]@[sc[a] as int]) by {
                if c < k - 1 {
                    if s.contains(c as usize) {
                        let i = choose|i: int| 0 <= i < s.len() && s[i] == c as usize;
                        assert(sc[i] == s[i]);
                    } else {
                        let a = choose|a: int| 0 <= a < s.len() && !(#[trigger] sep[c]@[s[a] as int]);
                        assert(sc[a] == s[a]);
                    }
                } else if separated_from_all(sep, k - 1, s) {
                    assert(sc[s.len() as int] == (k - 1) as usize);
                } else {
                    let a = choose|a: int| 0 <= a < s.len() && !(#[trigger] sep[k - 1]@[s[a] as int]);
                    assert(sc[a] == s[a]);
                }
            }
        }
    }
}

proof fn lemma_completed_choice_maximal(near: Seq<Vec<bool>>, max: nat, start: Seq<usize>, k: nat)
    ensures
        ({
            let cc = completed_choice(near, max, start, k);
            cc.len() < max ==> forall|c: int| #![trigger cc.contains(c as usize)]
                0 <= c < k ==> cc.contains(c as usize) || exists|t: int|
                    0 <= t < cc.len() && #[trigger] near[cc[t] as int]@[c]
        }),
    decreases k,
{
    if k > 0 {
        lemma_completed_choice_maximal(near, max, start, (k - 1) as nat);
        let s = completed_choice(near, max, start, (k - 1) as nat);
        let cc = completed_choice(near, max, start, k);
        if cc.len() < max {
            assert(s.len() <= cc.len());
            assert forall|c: int| #![trigger cc.contains(c as usize)] 0 <= c < k implies cc.contains(c as usize) || exists|t: int|
                0 <= t < cc.len() && #[trigger] near[cc[t] as int]@[c] by {
                if c < k - 1 {
                    if s.contains(c as usize) {
                        let i = choose|i: int| 0 <= i < s.len() && s[i] == c as usize;
                        assert(cc[i] == s[i]);
                    } else {
                        let t = choose|t: int| 0 <= t < s.len() && #[trigger] near[s[t] as int]@[c];
                        assert(cc[t] == s[t]);
                    }
                } else if !coincides_with_any(near, k - 1, s) {
                    assert(cc[s.len() as int] == (k - 1) as usize);
                } else {
                    let t = choose|t: int| 0 <= t < s.len() && #[trigger] near[s[t] as int]@[k - 1];
                    assert(cc[t] == s[t]);
                }
            }
        }
    }
}

proof fn lemma_completed_choice_added(near: Seq<Vec<bool>>, max: nat, start: Seq<usize>, k: nat)
    requires
        k <= usize::MAX + 1,
    ensures
        ({
            let cc = completed_choice(near, max, start, k);
            &&& forall|b: int| start.len() <= b < cc.len() ==> #[trigger] cc[b] < k
            &&& forall|a: int, b: int|
                #![trigger cc[a], cc[b]]
                0 <= a < b < cc.len() && start.len() <= b ==> !near[cc[a] as int]@[cc[b] as int] && (start.len()
                    <= a ==> cc[a] < cc[b])
        }),
    decreases k,
{
    if k > 0 {
        lemma_completed_choice_added(near, max, start, (k - 1) as nat);
        lemma_completed_choice_extends(near, max, start, (k - 1) as nat);
        let s = completed_choice(near, max, start, (k - 1) as nat);
        let cc = completed_choice(near, max, start, k);
        if s.len() < max && !coincides_with_any(near, k - 1, s) {
            assert forall|a: int, b: int|
                #![trigger cc[a], cc[b]]
                0 <= a < b < cc.len() && start.len() <= b implies !near[cc[a] as int]@[cc[b] as int] && (start.len()
                    <= a ==> cc[a] < cc[b]) by {
                if b == s.len() {
                    assert(cc[a] == s[a]);
                    assert(!near[s[a] as int]@[k - 1]);
                } else {
                    assert(cc[a] == s[a] && cc[b] == s[b]);
                }
            }
        }
    }
}

/// When initialization from an empty tracker starts fewer tracks than
/// `max`, no measurement was passed over without reason: in the first pass,
/// each measurement left out lies within the minimum separation of a chosen
/// one; and in the end, each measurement left out coincides with a chosen
/// one. Each measurement added after the well separated ones comes later in
/// measurement order than the ones added before it and coincides with no
/// measurement chosen before it.
pub proof fn lemma_initial_choice_maximal(sep: Seq<Vec<bool>>, near: Seq<Vec<bool>>, max: nat)
    requires
        sep.len() <= usize::MAX,
    ensures
        ({
            let s = separated_choice(sep, max, sep.len());
            let r = initial_choice(sep, near, max);
            &&& s.len() < max ==> forall|c: int| #![trigger s.contains(c as usize)]
                0 <= c < sep.len() ==> s.contains(c as usize) || exists|a: int|
                    0 <= a < s.len() && !(#[trigger] sep[c]@[s[a] as int])
            &&& r.len() < max ==> forall|c: int| #![trigger r.contains(c as usize)]
                0 <= c < sep.len() ==> r.contains(c as usize) || exists|t: int|
                    0 <= t < r.len() && #[trigger] near[r[t] as int]@[c]
            &&& forall|a: int, b: int|
                #![trigger r[a], r[b]]
                0 <= a < b < r.len() && s.len() <= b ==> !near[r[a] as int]@[r[b] as int] && (s.len() <= a
                    ==> r[a] < r[b])
        }),
{
    let n = sep.len();
    let s = separated_choice(sep, max, n);
    lemma_separated_choice_maximal(sep, max, n);
    lemma_completed_choice_maximal(near, max, s, n);
    lemma_completed_choice_added(near, max, s, n);
}

/// Select the measurements that initialize the first tracks.
///
/// `separated[i][j]` tells whether measurement `i` lies at least the minimum
/// separation away from measurement `j`; `coincident[i][j]` whether `i` and
/// `j` are practically at the same place. Returns the indices of the chosen
/// measurements in the order in which tracks are to be created.
pub fn select_initial_measurements(
    max_tracks: usize,
    separated: &Vec<Vec<bool>>,
    coincident: &Vec<Vec<bool>>,
) -> (chosen: Vec<usize>)
    requires
        square(separated@, separated@.len()),
        square(coincident@, separated@.len()),
    ensures
        chosen@ == initial_choice(separated@, coincident@, max_tracks as nat),
{
    let n = separated.len();
    let ghost max = max_tracks as nat;
    let mut chosen: Vec<usize> = Vec::new();
    let mut i: usize = 0;
    while i < n && chosen.len() < max_tracks
        invariant
            n == separated@.len(),
            i <= n,
            max == max_tracks as nat,
            square(separated@, n as nat),
            chosen@ == separated_choice(separated@, max, i as nat),
        decreases n - i,
    {
        proof {
            lemma_separated_choice_bounds(separated@, max, i as nat);
        }
        let row = &separated[i];
        let mut far_enough = true;
        let mut j: usize = 0;
        while j < chosen.len()
            invariant
                j <= chosen@.len(),
                row@.len() == n,
                forall|t: int| 0 <= t < chosen@.len() ==> #[trigger] chosen@[t] < i,
                i < n,
                far_enough == forall|t: int| 0 <= t < j ==> #[trigger] row@[chosen@[t] as int],
            decreases chosen@.len() - j,
        {
            if !row[chosen[j]] {
                far_enough = false;
            }
            j = j + 1;
        }
        proof {
            let sc = separated_choice(separated@, max, i as nat);
            assert(far_enough == separated_from_all(separated@, i as int, sc));
            assert(separated_choice(separated@, max, (i + 1) as nat) == (if far_enough { sc.push(i) } else { sc }));
        }
        if far_enough {
            chosen.push(i);
        }
        i = i + 1;
    }
    proof {
        if i < n {
            lemma_separated_choice_saturates(separated@, max, i as nat, n as nat);
        }
        lemma_separated_choice_bounds(separated@, max, n as nat);
    }
    let ghost start = chosen@;
    let mut i: usize = 0;
    while i < n && chosen.len() < max_tracks
        invariant
            n == separated@.len(),
            i <= n,
            max == max_tracks as nat,
            square(coincident@, n as nat),
            start.len() <= max,
            forall|j: int| 0 <= j < start.len() ==> #[trigger] start[j] < n,
            chosen@ == completed_choice(coincident@, max, start, i as nat),
        decreases n - i,
    {
        proof {
            lemma_completed_choice_bounds(coincident@, max, start, i as nat, n as nat);
        }
        let mut coincides = false;
        let mut j: usize = 0;
        while j < chosen.len()
            invariant
                j <= chosen@.len(),
                i < n,
                square(coincident@, n as nat),
                forall|t: int| 0 <= t < chosen@.len() ==> #[trigger] chosen@[t] < n,
                coincides == exists|t: int| 0 <= t < j && #[trigger] coincident@[chosen@[t] as int]@[i as int],
            decreases chosen@.len() - j,
        {
            if coincident[chosen[j]][i] {
                coincides = true;
            }
            j = j + 1;
        }
        proof {
            let cc = completed_choice(coincident@, max, start, i as nat);
            assert(coincides == coincides_with_any(coincident@, i as int, cc));
            assert(completed_choice(coincident@, max, start, (i + 1) as nat) == (if !coincides { cc.push(i) } else { cc }));
        }
        if !coincides {
            chosen.push(i);
        }
        i = i + 1;
    }
    proof {
        if i < n {
            lemma_completed_choice_saturates(coincident@, max, start, i as nat, n as nat);
        }
    }
    chosen
}

/// Limit on the tracks created in one update, by the expected number of
/// targets: one for up to two targets, two for three to five, three
/// otherwise.
pub open spec fn new_tracks_per_step_limit(expected_num_tracks: usize) -> usize {
    if expected_num_tracks == 1 || expected_num_tracks == 2 {
        1
    } else if 3 <= expected_num_tracks <= 5 {
        2
    } else {
        3
    }
}

/// How many new tracks an update may create: none when the tracker already
/// holds the expected number of tracks; otherwise no more than there are
/// unassociated measurements, than the per-step limit, and than the free
/// slots below the expected number.
pub open spec fn new_track_quota_spec(expected_num_tracks: usize, num_tracks: usize, num_unassociated: usize) -> usize {
    if num_tracks >= expected_num_tracks {
        0
    } else {
        let limit = new_tracks_per_step_limit(expected_num_tracks);
        let slots = (expected_num_tracks - num_tracks) as usize;
        let q = if num_unassociated < limit { num_unassociated } else { limit };
        if q < slots { q } else { slots }
    }
}

/// Indices `i < k` with `flags[i]` set, in increasing order.
pub open spec fn flagged_upto(flags: Seq<bool>, k: nat) -> Seq<usize>
    decreases k,
{
    if k == 0 {
        Seq::empty()
    } else if flags[k - 1] {
        flagged_upto(flags, (k - 1) as nat).push((k - 1) as usize)
    } else {
        flagged_upto(flags, (k - 1) as nat)
    }
}

/// The first `n` entries of `s` (all of them when it is shorter).
pub open spec fn first_n<T>(s: Seq<T>, n: nat) -> Seq<T> {
    if s.len() <= n {
        s
    } else {
        s.take(n as int)
    }
}

/// The entries `i` of `c` for which `too_close[i]` is not set.
pub open spec fn not_too_close(c: Seq<usize>, too_close: Seq<bool>) -> Seq<usize>
    decreases c.len(),
{
    if c.len() == 0 {
        Seq::empty()
    } else if too_close[c.last() as int] {
        not_too_close(c.drop_last(), too_close)
    } else {
        not_too_close(c.drop_last(), too_close).push(c.last())
    }
}

/// The measurements that start new tracks: the first `quota` unassociated
/// ones, less those too close to an existing track.
pub open spec fn new_track_sources(unassociated: Seq<bool>, too_close: Seq<bool>, quota: nat) -> Seq<usize> {
    not_too_close(first_n(flagged_upto(unassociated, unassociated.len()), quota), too_close)
}

/// The measurements that start new tracks in an update, given which
/// measurements are unassociated and which lie too close to a track.
pub open spec fn new_track_plan(
    expected_num_tracks: usize,
    num_tracks: usize,
    unassociated: Seq<bool>,
    too_close: Seq<bool>,
) -> Seq<usize> {
    let num_unassociated = flagged_upto(unassociated, unassociated.len()).len();
    new_track_sources(
        unassociated,
        too_close,
        new_track_quota_spec(expected_num_tracks, num_tracks, num_unassociated as usize) as nat,
    )
}

/// Limit the number of new tracks per step to avoid explosion; more targets
/// allow more new tracks per step.
pub fn max_new_tracks_per_step(expected_num_tracks: usize) -> (limit: usize)
    ensures
        limit == new_tracks_per_step_limit(expected_num_tracks),
{
    match expected_num_tracks {
        1 => 1,
        2 => 1,
        3..=5 => 2,
        _ => 3,
    }
}

/// Number of tracks to initialize from unassociated measurements.
pub fn new_track_quota(expected_num_tracks: usize, num_tracks: usize, num_unassociated: usize) -> (q: usize)
    ensures
        q == new_track_quota_spec(expected_num_tracks, num_tracks, num_unassociated),
{
    if num_tracks >= expected_num_tracks {
        return 0;
    }
    let max_new_tracks_per_step = max_new_tracks_per_step(expected_num_tracks);
    let remaining_slots = expected_num_tracks - num_tracks;
    let q = if num_unassociated < max_new_tracks_per_step { num_unassociated } else { max_new_tracks_per_step };
    if q < remaining_slots {
        q
    } else {
        remaining_slots
    }
}

proof fn lemma_flagged_upto_props(flags: Seq<bool>, k: nat)
    requires
        k <= flags.len(),
        flags.len() <= usize::MAX,
    ensures
        flagged_upto(flags, k).len() <= k,
        forall|j: int| 0 <= j < flagged_upto(flags, k).len() ==> {
            &&& #[trigger] flagged_upto(flags, k)[j] < k
            &&& flags[flagged_upto(flags, k)[j] as int]
        },
        forall|a: int, b: int|
            #![trigger flagged_upto(flags, k)[a], flagged_upto(flags, k)[b]]
            0 <= a < b < flagged_upto(flags, k).len() ==> flagged_upto(flags, k)[a] < flagged_upto(flags, k)[b],
    decreases k,
{
    if k > 0 {
        lemma_flagged_upto_props(flags, (k - 1) as nat);
    }
}

proof fn lemma_flagged_upto_prefix(flags: Seq<bool>, i: nat, k: nat)
    requires
        i <= k,
    ensures
        flagged_upto(flags, i).len() <= flagged_upto(flags, k).len(),
        flagged_upto(flags, i) =~= flagged_upto(flags, k).take(flagged_upto(flags, i).len() as int),
    decreases k - i,
{
    if i < k {
        lemma_flagged_upto_prefix(flags, i, (k - 1) as nat);
    }
}

proof fn lemma_not_too_close_props(c: Seq<usize>, too_close: Seq<bool>)
    ensures
        not_too_close(c, too_close).len() <= c.len(),
        forall|j: int| 0 <= j < not_too_close(c, too_close).len() ==> {
            &&& !too_close[#[trigger] not_too_close(c, too_close)[j] as int]
            &&& exists|t: int| 0 <= t < c.len() && c[t] == not_too_close(c, too_close)[j]
        },
        (forall|a: int, b: int| 0 <= a < b < c.len() ==> c[a] < c[b]) ==> forall|a: int, b: int|
            #![trigger not_too_close(c, too_close)[a], not_too_close(c, too_close)[b]]
            0 <= a < b < not_too_close(c, too_close).len() ==> not_too_close(c, too_close)[a]
                < not_too_close(c, too_close)[b],
    decreases c.len(),
{
    if c.len() > 0 {
        let p = c.drop_last();
        lemma_not_too_close_props(p, too_close);
        let r = not_too_close(p, too_close);
        let x = not_too_close(c, too_close);
        assert forall|j: int| #![trigger x[j]] 0 <= j < x.len() implies exists|t: int| 0 <= t < c.len() && c[t] == x[j] by {
            if j < r.len() {
                let t = choose|t: int| 0 <= t < p.len() && p[t] == r[j];
                assert(c[t] == x[j]);
            } else {
                assert(c[c.len() - 1] == x[j]);
            }
        }
        if (forall|a: int, b: int| 0 <= a < b < c.len() ==> c[a] < c[b]) {
            assert(forall|a: int, b: int| 0 <= a < b < p.len() ==> p[a] < p[b]);
            assert forall|a: int, b: int| 0 <= a < b < x.len() implies x[a] < x[b] by {
                if b == r.len() {
                    let t = choose|t: int| 0 <= t < p.len() && p[t] == r[a];
                    assert(c[t] < c[c.len() - 1]);
                }
            }
        }
    }
}

/// Choose the measurements from which new tracks are initialized: the first
/// `quota` unassociated measurements, less those too close to an existing
/// track.
pub fn choose_new_track_sources(unassociated: &Vec<bool>, too_close: &Vec<bool>, quota: usize) -> (chosen: Vec<usize>)
    requires
        too_close@.len() == unassociated@.len(),
    ensures
        chosen@ == new_track_sources(unassociated@, too_close@, quota as nat),
{
    let n = unassociated.len();
    let mut candidates: Vec<usize> = Vec::new();
    let mut i: usize = 0;
    while i < n && candidates.len() < quota
        invariant
            n == unassociated@.len(),
            i <= n,
            candidates@.len() <= quota,
            candidates@ == flagged_upto(unassociated@, i as nat),
        decreases n - i,
    {
        if unassociated[i] {
            candidates.push(i);
        }
        i = i + 1;
    }
    proof {
        let all = flagged_upto(unassociated@, n as nat);
        lemma_flagged_upto_prefix(unassociated@, i as nat, n as nat);
        lemma_flagged_upto_props(unassociated@, i as nat);
        if i < n {
            assert(candidates@.len() >= quota);
            lemma_flagged_upto_props(unassociated@, i as nat);
            assert(candidates@.len() <= i);
            assert(candidates@.len() == quota);
            assert(first_n(all, quota as nat) =~= candidates@);
        } else {
            assert(first_n(all, quota as nat) =~= candidates@);
        }
    }
    let mut chosen: Vec<usize> = Vec::new();
    let mut j: usize = 0;
    while j < candidates.len()
        invariant
            j <= candidates@.len(),
            n == unassociated@.len(),
            too_close@.len() == n,
            forall|t: int| 0 <= t < candidates@.len() ==> #[trigger] candidates@[t] < n,
            chosen@ == not_too_close(candidates@.take(j as int), too_close@),
        decreases candidates@.len() - j,
    {
        let c = candidates[j];
        proof {
            assert(candidates@.take(j + 1).drop_last() =~= candidates@.take(j as int));
        }
        if !too_close[c] {
            chosen.push(c);
        }
        j = j + 1;
    }
    proof {
        assert(candidates@.take(candidates@.len() as int) =~= candidates@);
    }
    chosen
}

/// Decide from which measurements new tracks are initialized in an update:
/// `unassociated[i]` tells whether measurement `i` is associated with no
/// confirmed track, `too_close[i]` whether it lies too close to an existing
/// track.
pub fn plan_new_tracks(
    expected_num_tracks: usize,
    num_tracks: usize,
    unassociated: &Vec<bool>,
    too_close: &Vec<bool>,
) -> (chosen: Vec<usize>)
    requires
        too_close@.len() == unassociated@.len(),
    ensures
        chosen@ == new_track_plan(expected_num_tracks, num_tracks, unassociated@, too_close@),
{
    let n = unassociated.len();
    let mut num_unassociated: usize = 0;
    let mut i: usize = 0;
    while i < n
        invariant
            n == unassociated@.len(),
            i <= n,
            num_unassociated == flagged_upto(unassociated@, i as nat).len(),
            num_unassociated <= i,
        decreases n - i,
    {
        if unassociated[i] {
            num_unassociated = num_unassociated + 1;
        }
        i = i + 1;
    }
    let quota = new_track_quota(expected_num_tracks, num_tracks, num_unassociated);
    choose_new_track_sources(unassociated, too_close, quota)
}

/// Track initiation never takes the tracker beyond the expected number of
/// targets, creates at most the per-step limit of tracks, and starts each
/// new track from a distinct unassociated measurement that is not too close
/// to an existing track, in measurement order.
pub proof fn lemma_new_track_plan(
    expected_num_tracks: usize,
    num_tracks: usize,
    unassociated: Seq<bool>,
    too_close: Seq<bool>,
)
    requires
        unassociated.len() <= usize::MAX,
        too_close.len() == unassociated.len(),
    ensures
        ({
            let plan = new_track_plan(expected_num_tracks, num_tracks, unassociated, too_close);
            &&& plan.len() <= new_tracks_per_step_limit(expected_num_tracks)
            &&& num_tracks >= expected_num_tracks ==> plan.len() == 0
            &&& num_tracks < expected_num_tracks ==> num_tracks + plan.len() <= expected_num_tracks
            &&& forall|j: int| 0 <= j < plan.len() ==> {
                &&& #[trigger] plan[j] < unassociated.len()
                &&& unassociated[plan[j] as int]
                &&& !too_close[plan[j] as int]
            }
            &&& forall|a: int, b: int| #![trigger plan[a], plan[b]] 0 <= a < b < plan.len() ==> plan[a] < plan[b]
        }),
{
    let n = unassociated.len();
    let all = flagged_upto(unassociated, n);
    lemma_flagged_upto_props(unassociated, n);
    let q = new_track_quota_spec(expected_num_tracks, num_tracks, all.len() as usize);
    let c = first_n(all, q as nat);
    assert(forall|t: int| 0 <= t < c.len() ==> c[t] == all[t]);
    lemma_not_too_close_props(c, too_close);
    let plan = not_too_close(c, too_close);
    assert forall|j: int| 0 <= j < plan.len() implies {
        &&& #[trigger] plan[j] < unassociated.len()
        &&& unassociated[plan[j] as int]
        &&& !too_close[plan[j] as int]
    } by {
        let t = choose|t: int| 0 <= t < c.len() && c[t] == plan[j];
        assert(all[t] == plan[j]);
    }
}

/// The per-step limit on new tracks: one track per update for one or two
/// expected targets, two for three to five, three for more (and for none).
pub proof fn lemma_per_step_limit_values(expected_num_tracks: usize)
    ensures
        1 <= expected_num_tracks <= 2 ==> new_tracks_per_step_limit(expected_num_tracks) == 1,
        3 <= expected_num_tracks <= 5 ==> new_tracks_per_step_limit(expected_num_tracks) == 2,
        (expected_num_tracks == 0 || expected_num_tracks >= 6) ==> new_tracks_per_step_limit(expected_num_tracks) == 3,
{
}

/// Number of flags set among the first `k`.
pub open spec fn count_flagged(flags: Seq<bool>, k: nat) -> nat
    decreases k,
{
    if k == 0 {
        0
    } else {
        count_flagged(flags, (k - 1) as nat) + if flags[k - 1] { 1nat } else { 0nat }
    }
}

proof fn lemma_flagged_position(flags: Seq<bool>, k: nat)
    requires
        k <= flags.len(),
        flags.len() <= usize::MAX,
    ensures
        flagged_upto(flags, k).len() == count_flagged(flags, k),
        forall|i: int| 0 <= i < k && flags[i] ==> {
            &&& #[trigger] count_flagged(flags, i as nat) < flagged_upto(flags, k).len()
            &&& flagged_upto(flags, k)[count_flagged(flags, i as nat) as int] == i
        },
    decreases k,
{
    if k > 0 {
        lemma_flagged_position(flags, (k - 1) as nat);
    }
}

proof fn lemma_not_too_close_contains(c: Seq<usize>, too_close: Seq<bool>)
    ensures
        forall|x: usize| #[trigger] not_too_close(c, too_close).contains(x) <==> (c.contains(x) && !too_close[x as int]),
    decreases c.len(),
{
    if c.len() > 0 {
        let p = c.drop_last();
        lemma_not_too_close_contains(p, too_close);
        let r = not_too_close(p, too_close);
        let x_all = not_too_close(c, too_close);
        assert forall|x: usize| #[trigger] x_all.contains(x) <==> (c.contains(x) && !too_close[x as int]) by {
            if x_all.contains(x) {
                let j = choose|j: int| 0 <= j < x_all.len() && x_all[j] == x;
                if j < r.len() {
                    assert(r.contains(x));
                    let t = choose|t: int| 0 <= t < p.len() && p[t] == x;
                    assert(c[t] == x);
                } else {
                    assert(c[c.len() - 1] == x);
                }
            }
            if c.contains(x) && !too_close[x as int] {
                let t = choose|t: int| 0 <= t < c.len() && c[t] == x;
                if t < c.len() - 1 {
                    assert(p[t] == x);
                    assert(r.contains(x));
                    let j = choose|j: int| 0 <= j < r.len() && r[j] == x;
                    assert(x_all[j] == x);
                } else {
                    assert(x_all[x_all.len() - 1] == x);
                }
            }
        }
    }
}

/// Track initiation in an update, exactly: with `q` new tracks allowed —
/// none when the tracker already holds the expected number, otherwise the
/// least of the number of unassociated measurements, the per-step limit
/// (one for one or two expected targets, two for three to five, three
/// otherwise) and the free slots below the expected number — a measurement
/// starts a track exactly when it is unassociated, not too close to a
/// track, and fewer than `q` unassociated measurements come before it; new
/// tracks start in measurement order.
pub proof fn lemma_new_track_plan_exact(
    expected_num_tracks: usize,
    num_tracks: usize,
    unassociated: Seq<bool>,
    too_close: Seq<bool>,
)
    requires
        unassociated.len() <= usize::MAX,
        too_close.len() == unassociated.len(),
    ensures
        ({
            let plan = new_track_plan(expected_num_tracks, num_tracks, unassociated, too_close);
            let total = count_flagged(unassociated, unassociated.len());
            let limit: int = if 1 <= expected_num_tracks <= 2 {
                1
            } else if 3 <= expected_num_tracks <= 5 {
                2
            } else {
                3
            };
            let slots: int = expected_num_tracks - num_tracks;
            let q: int = if num_tracks >= expected_num_tracks {
                0
            } else if total <= limit && total <= slots {
                total as int
            } else if limit <= slots {
                limit
            } else {
                slots
            };
            &&& forall|i: int| 0 <= i < unassociated.len() ==> (plan.contains(i as usize) <==> (unassociated[i]
                && !too_close[i] && count_flagged(unassociated, i as nat) < q))
            &&& forall|j: int| 0 <= j < plan.len() ==> #[trigger] plan[j] < unassociated.len()
            &&& forall|a: int, b: int| #![trigger plan[a], plan[b]] 0 <= a < b < plan.len() ==> plan[a] < plan[b]
        }),
{
    let n = unassociated.len();
    let all = flagged_upto(unassociated, n);
    lemma_flagged_upto_props(unassociated, n);
    lemma_flagged_position(unassociated, n);
    lemma_new_track_plan(expected_num_tracks, num_tracks, unassociated, too_close);
    let quota = new_track_quota_spec(expected_num_tracks, num_tracks, all.len() as usize);
    let c = first_n(all, quota as nat);
    lemma_not_too_close_contains(c, too_close);
    let plan = new_track_plan(expected_num_tracks, num_tracks, unassociated, too_close);
    assert(plan == not_too_close(c, too_close));
    assert forall|i: int| 0 <= i < n implies (plan.contains(i as usize) <==> (unassociated[i] && !too_close[i]
        && count_flagged(unassociated, i as nat) < quota)) by {
        if unassociated[i] {
            let t = count_flagged(unassociated, i as nat) as int;
            assert(all[t] == i);
            if t < quota {
                assert(c[t] == i as usize);
                assert(c.contains(i as usize));
            } else if c.contains(i as usize) {
                let t2 = choose|t2: int| 0 <= t2 < c.len() && c[t2] == i as usize;
                assert(all[t2] == i);
                if t2 < t {
                    assert(all[t2] < all[t]);
                } else if t2 > t {
                    assert(all[t] < all[t2]);
                }
            }
        } else if c.contains(i as usize) {
            let t2 = choose|t2: int| 0 <= t2 < c.len() && c[t2] == i as usize;
            assert(all[t2] == c[t2]);
        }
    }
}

} // verus!
