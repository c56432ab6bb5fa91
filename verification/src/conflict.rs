//! Detection and ordering of association conflicts: measurements that more
//! than one track claims.
//!
//! Association probabilities are compared with the conflict threshold by the
//! caller; the decisions here take the outcome as a boolean relation.

use vstd::prelude::*;

verus! {

/// A measurement claimed by more than one track.
#[derive(Debug, PartialEq, Eq)]
pub struct Conflict {
    /// Index of the measurement
    pub measurement: usize,
    /// Indices of the tracks that claim it, in increasing order
    pub tracks: Vec<usize>,
}

/// Tracks `t < k` that claim measurement `m` (`claims[t][m]`), in increasing order.
pub open spec fn claimants(claims: Seq<Vec<bool>>, m: int, k: nat) -> Seq<usize>
    decreases k,
{
    if k == 0 {
        Seq::empty()
    } else if claims[k - 1]@[m] {
        claimants(claims, m, (k - 1) as nat).push((k - 1) as usize)
    } else {
        claimants(claims, m, (k - 1) as nat)
    }
}

/// The conflicts among measurements `m < k`: each measurement claimed by
/// more than one track, with its claimants, in measurement order.
pub open spec fn conflicts_upto(claims: Seq<Vec<bool>>, k: nat) -> Seq<(usize, Seq<usize>)>
    decreases k,
{
    if k == 0 {
        Seq::empty()
    } else {
        let rest = conflicts_upto(claims, (k - 1) as nat);
        let c = claimants(claims, k - 1, claims.len());
        if c.len() > 1 {
            rest.push(((k - 1) as usize, c))
        } else {
            rest
        }
    }
}

/// The conflicts as plain values.
pub open spec fn conflicts_view(conflicts: Seq<Conflict>) -> Seq<(usize, Seq<usize>)> {
    conflicts.map_values(|c: Conflict| (c.measurement, c.tracks@))
}

/// Find the measurements that more than one track claims: `claims[t][m]`
/// tells whether the association probability of track `t` with measurement
/// `m` exceeds the conflict threshold.
pub fn find_conflicts(claims: &Vec<Vec<bool>>, num_measurements: usize) -> (conflicts: Vec<Conflict>)
    requires
        forall|t: int| 0 <= t < claims@.len() ==> #[trigger] claims@[t]@.len() == num_measurements,
    ensures
        conflicts_view(conflicts@) == conflicts_upto(claims@, num_measurements as nat),
{
    let num_tracks = claims.len();
    let mut conflicts: Vec<Conflict> = Vec::new();
    let mut m: usize = 0;
    while m < num_measurements
        invariant
            m <= num_measurements,
            num_tracks == claims@.len(),
            forall|t: int| 0 <= t < claims@.len() ==> #[trigger] claims@[t]@.len() == num_measurements,
            conflicts_view(conflicts@) == conflicts_upto(claims@, m as nat),
        decreases num_measurements - m,
    {
        let mut tracks: Vec<usize> = Vec::new();
        let mut t: usize = 0;
        while t < num_tracks
            invariant
                t <= num_tracks,
                m < num_measurements,
                num_tracks == claims@.len(),
                forall|u: int| 0 <= u < claims@.len() ==> #[trigger] claims@[u]@.len() == num_measurements,
                tracks@ == claimants(claims@, m as int, t as nat),
            decreases num_tracks - t,
        {
            if claims[t][m] {
                tracks.push(t);
            }
            t = t + 1;
        }
        let ghost before = conflicts@;
        if tracks.len() > 1 {
            conflicts.push(Conflict { measurement: m, tracks });
            proof {
                assert(conflicts_view(conflicts@) =~= conflicts_view(before).push((m, claimants(claims@, m as int, num_tracks as nat))));
            }
        }
        m = m + 1;
    }
    conflicts
}

proof fn lemma_claimants_props(claims: Seq<Vec<bool>>, m: int, k: nat)
    requires
        k <= usize::MAX + 1,
    ensures
        forall|j: int| 0 <= j < claimants(claims, m, k).len() ==> {
            &&& #[trigger] claimants(claims, m, k)[j] < k
            &&& claims[claimants(claims, m, k)[j] as int]@[m]
        },
        forall|t: int| 0 <= t < k && claims[t]@[m] ==> #[trigger] claimants(claims, m, k).contains(t as usize),
        forall|a: int, b: int|
            #![trigger claimants(claims, m, k)[a], claimants(claims, m, k)[b]]
            0 <= a < b < claimants(claims, m, k).len() ==> claimants(claims, m, k)[a] < claimants(claims, m, k)[b],
    decreases k,
{
    if k > 0 {
        lemma_claimants_props(claims, m, (k - 1) as nat);
        let p = claimants(claims, m, (k - 1) as nat);
        let c = claimants(claims, m, k);
        assert forall|t: int| 0 <= t < k && claims[t]@[m] implies #[trigger] c.contains(t as usize) by {
            if t < k - 1 {
                assert(p.contains(t as usize));
                let j = choose|j: int| 0 <= j < p.len() && p[j] == t as usize;
                assert(c[j] == t as usize);
            } else {
                assert(c[c.len() - 1] == t as usize);
            }
        }
    }
}

proof fn lemma_conflicts_upto_props(claims: Seq<Vec<bool>>, k: nat)
    requires
        claims.len() <= usize::MAX,
        k <= usize::MAX + 1,
    ensures
        forall|j: int| 0 <= j < conflicts_upto(claims, k).len() ==> {
            let (m, ts) = #[trigger] conflicts_upto(claims, k)[j];
            &&& m < k
            &&& ts == claimants(claims, m as int, claims.len())
            &&& ts.len() > 1
        },
        forall|m: int| 0 <= m < k && claimants(claims, m, claims.len()).len() > 1 ==> exists|j: int|
            0 <= j < conflicts_upto(claims, k).len() && (#[trigger] conflicts_upto(claims, k)[j]).0 == m,
        forall|a: int, b: int|
            #![trigger conflicts_upto(claims, k)[a], conflicts_upto(claims, k)[b]]
            0 <= a < b < conflicts_upto(claims, k).len() ==> conflicts_upto(claims, k)[a].0 < conflicts_upto(
                claims,
                k,
            )[b].0,
    decreases k,
{
    if k > 0 {
        lemma_conflicts_upto_props(claims, (k - 1) as nat);
        let p = conflicts_upto(claims, (k - 1) as nat);
        let c = conflicts_upto(claims, k);
        assert forall|m: int| 0 <= m < k && claimants(claims, m, claims.len()).len() > 1 implies exists|j: int|
            0 <= j < c.len() && (#[trigger] c[j]).0 == m by {
            if m < k - 1 {
                let j = choose|j: int| 0 <= j < p.len() && (#[trigger] p[j]).0 == m;
                assert(c[j].0 == m);
            } else {
                assert(c[c.len() - 1].0 == m);
            }
        }
    }
}

/// A measurement is in conflict exactly when more than one track claims it;
/// each conflict lists all its claimants, each an existing track, in
/// increasing order; conflicts come in measurement order.
pub proof fn lemma_conflicts_are_exactly_contested_measurements(claims: Seq<Vec<bool>>, num_measurements: nat)
    requires
        claims.len() <= usize::MAX,
        num_measurements <= usize::MAX,
    ensures
        forall|j: int| 0 <= j < conflicts_upto(claims, num_measurements).len() ==> {
            let (m, ts) = #[trigger] conflicts_upto(claims, num_measurements)[j];
            &&& m < num_measurements
            &&& ts.len() > 1
            &&& forall|t: int| 0 <= t < claims.len() ==> (ts.contains(t as usize) <==> claims[t]@[m as int])
            &&& forall|a: int, b: int| 0 <= a < b < ts.len() ==> ts[a] < ts[b]
        },
        forall|m: int| 0 <= m < num_measurements && claimants(claims, m, claims.len()).len() > 1 ==> exists|j: int|
            0 <= j < conflicts_upto(claims, num_measurements).len() && (#[trigger] conflicts_upto(
                claims,
                num_measurements,
            )[j]).0 == m,
        forall|a: int, b: int|
            #![trigger conflicts_upto(claims, num_measurements)[a], conflicts_upto(claims, num_measurements)[b]]
            0 <= a < b < conflicts_upto(claims, num_measurements).len() ==> conflicts_upto(
                claims,
                num_measurements,
            )[a].0 < conflicts_upto(claims, num_measurements)[b].0,
{
    lemma_conflicts_upto_props(claims, num_measurements);
    let cs = conflicts_upto(claims, num_measurements);
    assert forall|j: int| 0 <= j < cs.len() implies {
        let (m, ts) = #[trigger] cs[j];
        &&& m < num_measurements
        &&& ts.len() > 1
        &&& forall|t: int| 0 <= t < claims.len() ==> (ts.contains(t as usize) <==> claims[t]@[m as int])
        &&& forall|a: int, b: int| 0 <= a < b < ts.len() ==> ts[a] < ts[b]
    } by {
        let (m, ts) = cs[j];
        lemma_claimants_props(claims, m as int, claims.len());
        assert forall|t: int| 0 <= t < claims.len() implies (ts.contains(t as usize) <==> claims[t]@[m as int]) by {
            if ts.contains(t as usize) {
                let i = choose|i: int| 0 <= i < ts.len() && ts[i] == t as usize;
                assert(claims[ts[i] as int]@[m as int]);
            }
        }
    }
}

/// Number of tracks in each conflict.
pub open spec fn contention_sizes(conflicts: Seq<Conflict>) -> Seq<nat> {
    conflicts.map_values(|c: Conflict| c.tracks@.len())
}

/// Positions `i < k` whose size is `c`, in increasing order.
pub open spec fn positions_of_size(sizes: Seq<nat>, c: nat, k: nat) -> Seq<usize>
    decreases k,
{
    if k == 0 {
        Seq::empty()
    } else if sizes[k - 1] == c {
        positions_of_size(sizes, c, (k - 1) as nat).push((k - 1) as usize)
    } else {
        positions_of_size(sizes, c, (k - 1) as nat)
    }
}

/// Positions grouped by decreasing size from `top` down to `low`; within a
/// group in their given order.
pub open spec fn positions_by_size_desc(sizes: Seq<nat>, top: nat, low: nat) -> Seq<usize>
    decreases top - low,
{
    if low >= top {
        positions_of_size(sizes, top, sizes.len())
    } else {
        positions_by_size_desc(sizes, top, low + 1) + positions_of_size(sizes, low, sizes.len())
    }
}

/// The largest size (0 when there is none).
pub open spec fn max_size(sizes: Seq<nat>) -> nat
    decreases sizes.len(),
{
    if sizes.len() == 0 {
        0
    } else {
        let m = max_size(sizes.drop_last());
        if sizes.last() > m { sizes.last() } else { m }
    }
}

/// The order in which conflicts are resolved: those with more competing
/// tracks first, equally large ones in measurement order (a stable sort by
/// decreasing size).
pub open spec fn contention_order(conflicts: Seq<Conflict>) -> Seq<usize> {
    positions_by_size_desc(contention_sizes(conflicts), max_size(contention_sizes(conflicts)), 0)
}

proof fn lemma_positions_of_size(sizes: Seq<nat>, c: nat, k: nat)
    requires
        k <= usize::MAX + 1,
    ensures
        forall|j: int| 0 <= j < positions_of_size(sizes, c, k).len() ==> {
            &&& #[trigger] positions_of_size(sizes, c, k)[j] < k
            &&& sizes[positions_of_size(sizes, c, k)[j] as int] == c
        },
        forall|i: int| 0 <= i < k && sizes[i] == c ==> #[trigger] positions_of_size(sizes, c, k).contains(i as usize),
        forall|a: int, b: int|
            #![trigger positions_of_size(sizes, c, k)[a], positions_of_size(sizes, c, k)[b]]
            0 <= a < b < positions_of_size(sizes, c, k).len() ==> positions_of_size(sizes, c, k)[a]
                < positions_of_size(sizes, c, k)[b],
    decreases k,
{
    if k > 0 {
        lemma_positions_of_size(sizes, c, (k - 1) as nat);
        let p = positions_of_size(sizes, c, (k - 1) as nat);
        let q = positions_of_size(sizes, c, k);
        assert forall|i: int| 0 <= i < k && sizes[i] == c implies #[trigger] q.contains(i as usize) by {
            if i < k - 1 {
                assert(p.contains(i as usize));
                let j = choose|j: int| 0 <= j < p.len() && p[j] == i as usize;
                assert(q[j] == i as usize);
            } else {
                assert(q[q.len() - 1] == i as usize);
            }
        }
    }
}

proof fn lemma_positions_by_size_desc(sizes: Seq<nat>, top: nat, low: nat)
    requires
        low <= top,
        sizes.len() <= usize::MAX,
    ensures
        forall|j: int| 0 <= j < positions_by_size_desc(sizes, top, low).len() ==> {
            let e = #[trigger] positions_by_size_desc(sizes, top, low)[j];
            &&& e < sizes.len()
            &&& low <= sizes[e as int] <= top
        },
        forall|i: int| 0 <= i < sizes.len() && low <= sizes[i] <= top ==>
            #[trigger] positions_by_size_desc(sizes, top, low).contains(i as usize),
        forall|a: int, b: int|
            #![trigger positions_by_size_desc(sizes, top, low)[a], positions_by_size_desc(sizes, top, low)[b]]
            0 <= a < b < positions_by_size_desc(sizes, top, low).len() ==> {
                let s = positions_by_size_desc(sizes, top, low);
                &&& s[a] != s[b]
                &&& sizes[s[a] as int] >= sizes[s[b] as int]
                &&& sizes[s[a] as int] == sizes[s[b] as int] ==> s[a] < s[b]
            },
    decreases top - low,
{
    let n = sizes.len();
    lemma_positions_of_size(sizes, low, n);
    if low < top {
        lemma_positions_by_size_desc(sizes, top, low + 1);
        let p = positions_by_size_desc(sizes, top, low + 1);
        let g = positions_of_size(sizes, low, n);
        let s = positions_by_size_desc(sizes, top, low);
        assert(s == p + g);
        assert forall|j: int| 0 <= j < s.len() implies {
            let e = #[trigger] s[j];
            &&& e < sizes.len()
            &&& low <= sizes[e as int] <= top
        } by {
            if j < p.len() {
                assert(s[j] == p[j]);
            } else {
                assert(s[j] == g[j - p.len()]);
            }
        }
        assert forall|i: int| 0 <= i < n && low <= sizes[i] <= top implies #[trigger] s.contains(i as usize) by {
            if sizes[i] == low {
                assert(g.contains(i as usize));
                let j = choose|j: int| 0 <= j < g.len() && g[j] == i as usize;
                assert(s[p.len() + j] == i as usize);
            } else {
                assert(p.contains(i as usize));
                let j = choose|j: int| 0 <= j < p.len() && p[j] == i as usize;
                assert(s[j] == i as usize);
            }
        }
        assert forall|a: int, b: int| 0 <= a < b < s.len() implies s[a] != s[b] && sizes[s[a] as int] >= sizes[
            s[b] as int] && (sizes[s[a] as int] == sizes[s[b] as int] ==> s[a] < s[b]) by {
            if b < p.len() {
                assert(s[a] == p[a] && s[b] == p[b]);
            } else if a >= p.len() {
                assert(s[a] == g[a - p.len()] && s[b] == g[b - p.len()]);
            } else {
                assert(s[a] == p[a] && s[b] == g[b - p.len()]);
            }
        }
    } else {
        let g = positions_of_size(sizes, top, n);
        assert forall|i: int| 0 <= i < n && low <= sizes[i] <= top implies #[trigger] g.contains(i as usize) by {
            assert(sizes[i] == top);
        }
    }
}

proof fn lemma_max_size(sizes: Seq<nat>)
    ensures
        forall|i: int| 0 <= i < sizes.len() ==> #[trigger] sizes[i] <= max_size(sizes),
    decreases sizes.len(),
{
    if sizes.len() > 0 {
        lemma_max_size(sizes.drop_last());
        assert forall|i: int| 0 <= i < sizes.len() implies #[trigger] sizes[i] <= max_size(sizes) by {
            if i < sizes.len() - 1 {
                assert(sizes[i] == sizes.drop_last()[i]);
            }
        }
    }
}

/// The resolution order visits every conflict exactly once, conflicts with
/// more competing tracks come before those with fewer, and equally large
/// conflicts keep their given (measurement) order.
pub proof fn lemma_contention_order(conflicts: Seq<Conflict>)
    requires
        conflicts.len() <= usize::MAX,
    ensures
        forall|j: int| 0 <= j < contention_order(conflicts).len() ==>
            #[trigger] contention_order(conflicts)[j] < conflicts.len(),
        forall|i: int| 0 <= i < conflicts.len() ==> #[trigger] contention_order(conflicts).contains(i as usize),
        forall|a: int, b: int|
            #![trigger contention_order(conflicts)[a], contention_order(conflicts)[b]]
            0 <= a < b < contention_order(conflicts).len() ==> {
                let o = contention_order(conflicts);
                &&& o[a] != o[b]
                &&& conflicts[o[a] as int].tracks@.len() >= conflicts[o[b] as int].tracks@.len()
                &&& conflicts[o[a] as int].tracks@.len() == conflicts[o[b] as int].tracks@.len() ==> o[a] < o[b]
            },
{
    let sizes = contention_sizes(conflicts);
    lemma_max_size(sizes);
    lemma_positions_by_size_desc(sizes, max_size(sizes), 0);
    let o = contention_order(conflicts);
    assert forall|i: int| 0 <= i < conflicts.len() implies #[trigger] o.contains(i as usize) by {
        assert(sizes[i] <= max_size(sizes));
    }
}

/// Positions of the conflicts in the order in which they are resolved:
/// larger conflicts (more competing tracks) first, ties in their given
/// order.
pub fn order_by_contention(conflicts: &Vec<Conflict>) -> (order: Vec<usize>)
    ensures
        order@ == contention_order(conflicts@),
{
    let n = conflicts.len();
    let ghost sizes = contention_sizes(conflicts@);
    let mut largest: usize = 0;
    let mut i: usize = 0;
    while i < n
        invariant
            n == conflicts@.len(),
            i <= n,
            sizes == contention_sizes(conflicts@),
            largest == max_size(sizes.take(i as int)),
        decreases n - i,
    {
        proof {
            assert(sizes.take(i + 1).drop_last() =~= sizes.take(i as int));
        }
        let s = conflicts[i].tracks.len();
        if s > largest {
            largest = s;
        }
        i = i + 1;
    }
    proof {
        assert(sizes.take(n as int) =~= sizes);
    }
    let mut order: Vec<usize> = Vec::new();
    let mut c: usize = largest;
    loop
        invariant_except_break
            c == largest ==> order@ == Seq::<usize>::empty(),
            c < largest ==> order@ == positions_by_size_desc(sizes, largest as nat, (c + 1) as nat),
        invariant
            n == conflicts@.len(),
            sizes == contention_sizes(conflicts@),
            c <= largest,
            largest == max_size(sizes),
            sizes.len() == n,
        ensures
            order@ == positions_by_size_desc(sizes, largest as nat, 0),
        decreases c,
    {
        let ghost before = order@;
        let mut k: usize = 0;
        while k < n
            invariant
                n == conflicts@.len(),
                sizes == contention_sizes(conflicts@),
                k <= n,
                sizes.len() == n,
                order@ == before + positions_of_size(sizes, c as nat, k as nat),
            decreases n - k,
        {
            if conflicts[k].tracks.len() == c {
                order.push(k);
            }
            k = k + 1;
        }
        proof {
            assert(order@ =~= positions_by_size_desc(sizes, largest as nat, c as nat));
        }
        if c == 0 {
            break;
        }
        c = c - 1;
    }
    order
}

} // verus!
