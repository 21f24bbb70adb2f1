//! Ordering, time-window trimming and plausibility of a trip's waypoints.
//!
//! The distance of each hop between consecutive waypoints is computed outside
//! this module and handed in, in whole millimetres.
use vstd::prelude::*;
use crate::types::Waypoint;

verus! {

broadcast use {vstd::seq_lib::to_multiset_build, vstd::seq_lib::to_multiset_insert};

/// Largest distance a vehicle may cover in one hop, and in one minute (about 110 km/h).
pub const MAX_HOP_MM: u64 = 1_833_000;

/// A trip must cover strictly more than this distance.
pub const MIN_DISTANCE_MM: u64 = 1_000_000;

/// A trip must hold strictly more than this many waypoints.
pub const MIN_WAYPOINTS: usize = 10;

/// Timestamps never decrease along `s`.
pub open spec fn sorted_by_time(s: Seq<Waypoint>) -> bool {
    forall|i: int, j: int| 0 <= i <= j < s.len() ==> s[i].timestamp <= s[j].timestamp
}

/// `t` lies strictly inside the bounds that are set.
pub open spec fn in_window(t: u64, start: Option<u64>, end: Option<u64>) -> bool {
    &&& (start matches Some(a) ==> t > a)
    &&& (end matches Some(b) ==> t < b)
}

/// The waypoints of `s` inside the window, in their order.
pub open spec fn window(s: Seq<Waypoint>, start: Option<u64>, end: Option<u64>) -> Seq<Waypoint>
    decreases s.len(),
{
    if s.len() == 0 {
        Seq::empty()
    } else {
        let p = window(s.drop_last(), start, end);
        if in_window(s.last().timestamp, start, end) {
            p.push(s.last())
        } else {
            p
        }
    }
}

/// Number of hops between `n` waypoints.
pub open spec fn hop_count(n: int) -> int {
    if n == 0 {
        0
    } else {
        n - 1
    }
}

/// Sum of the hop distances.
pub open spec fn total_mm(hops: Seq<u64>) -> nat
    decreases hops.len(),
{
    if hops.len() == 0 {
        0
    } else {
        total_mm(hops.drop_last()) + hops.last() as nat
    }
}

/// A hop of `d_mm` millimetres in `elapsed` seconds is longer than a hop may
/// be, or faster than the per-minute limit.
pub open spec fn hop_too_fast(d_mm: u64, elapsed: int) -> bool {
    d_mm > MAX_HOP_MM || d_mm * 60 > MAX_HOP_MM * elapsed
}

/// Some hop of the trip is too long or too fast.
pub open spec fn unrealistic(wps: Seq<Waypoint>, hops: Seq<u64>) -> bool {
    exists|i: int|
        0 <= i < hops.len() && #[trigger] hop_too_fast(
            hops[i],
            wps[i + 1].timestamp - wps[i].timestamp,
        )
}

/// The trip has enough waypoints and covers enough distance.
pub open spec fn significant(n: int, hops: Seq<u64>) -> bool {
    n > MIN_WAYPOINTS && total_mm(hops) > MIN_DISTANCE_MM
}

/// The trip is kept: realistic and significant.
pub open spec fn plausible(wps: Seq<Waypoint>, hops: Seq<u64>) -> bool {
    !unrealistic(wps, hops) && significant(wps.len() as int, hops)
}

/// The distance of two hop lists one after the other is the sum of their distances.
pub proof fn lemma_total_append(a: Seq<u64>, b: Seq<u64>)
    ensures
        total_mm(a + b) == total_mm(a) + total_mm(b),
    decreases b.len(),
{
    if b.len() > 0 {
        lemma_total_append(a, b.drop_last());
        assert((a + b).drop_last() =~= a + b.drop_last());
    } else {
        assert(a + b =~= a);
    }
}

/// A contiguous run of hops covers no more distance than all of them.
pub proof fn lemma_total_subrange(hops: Seq<u64>, i: int, j: int)
    requires
        0 <= i <= j <= hops.len(),
    ensures
        total_mm(hops.subrange(i, j)) <= total_mm(hops),
{
    lemma_total_append(hops.take(i), hops.subrange(i, j));
    lemma_total_append(hops.take(i) + hops.subrange(i, j), hops.skip(j));
    assert(hops.take(i) + hops.subrange(i, j) + hops.skip(j) =~= hops);
}

/// The hops of a trip once waypoint `i` is taken out: the first or last hop
/// goes, or the two hops round an inner waypoint become the single hop `merged`.
pub open spec fn hops_without(hops: Seq<u64>, i: int, merged: u64) -> Seq<u64> {
    if i == 0 {
        hops.drop_first()
    } else if i == hops.len() {
        hops.drop_last()
    } else {
        hops.take(i - 1) + seq![merged] + hops.skip(i + 1)
    }
}

/// Removing one waypoint never adds distance or waypoints, provided the hop
/// that replaces two hops is no longer than both together (the triangle
/// inequality of the distance): a trip that is significant without the
/// waypoint is significant with it.
pub proof fn lemma_remove_waypoint_shrinks(hops: Seq<u64>, i: int, merged: u64)
    requires
        hops.len() > 0,
        0 <= i <= hops.len(),
        0 < i < hops.len() ==> merged <= hops[i - 1] + hops[i],
    ensures
        total_mm(hops_without(hops, i, merged)) <= total_mm(hops),
        significant(hops.len() as int, hops_without(hops, i, merged)) ==> significant(
            hops.len() + 1int,
            hops,
        ),
{
    if i == 0 {
        lemma_total_subrange(hops, 1, hops.len() as int);
        assert(hops.drop_first() =~= hops.subrange(1, hops.len() as int));
    } else if i == hops.len() {
        lemma_total_subrange(hops, 0, hops.len() - 1);
        assert(hops.drop_last() =~= hops.subrange(0, hops.len() - 1));
    } else {
        let pre = hops.take(i - 1);
        let post = hops.skip(i + 1);
        let pair = seq![hops[i - 1], hops[i]];
        lemma_total_append(pre + seq![merged], post);
        lemma_total_append(pre, seq![merged]);
        lemma_total_append(pre + pair, post);
        lemma_total_append(pre, pair);
        assert(seq![merged].drop_last() =~= Seq::<u64>::empty());
        assert(seq![merged].last() == merged);
        assert(total_mm(Seq::<u64>::empty()) == 0);
        assert(total_mm(seq![merged]) == merged);
        assert(pair.drop_last() =~= seq![hops[i - 1]]);
        assert(seq![hops[i - 1]].drop_last() =~= Seq::<u64>::empty());
        assert(seq![hops[i - 1]].last() == hops[i - 1]);
        assert(total_mm(seq![hops[i - 1]]) == hops[i - 1]);
        assert(pair.last() == hops[i]);
        assert(total_mm(pair) == hops[i - 1] + hops[i]);
        assert(hops_without(hops, i, merged) == pre + seq![merged] + post);
        assert(pre + pair + post =~= hops);
    }
}

/// Waypoint timestamps between two in the window are in the window.
proof fn lemma_window_convex(x: u64, y: u64, z: u64, start: Option<u64>, end: Option<u64>)
    requires
        in_window(x, start, end),
        in_window(z, start, end),
        x <= y <= z,
    ensures
        in_window(y, start, end),
{
}

/// On ordered waypoints the window keeps one contiguous run: exactly the
/// waypoints at positions `r.0 .. r.1`.
pub proof fn lemma_window_contiguous(s: Seq<Waypoint>, start: Option<u64>, end: Option<u64>) -> (r: (
    int,
    int,
))
    requires
        sorted_by_time(s),
    ensures
        0 <= r.0 <= r.1 <= s.len(),
        forall|i: int| 0 <= i < s.len() ==> (in_window(#[trigger] s[i].timestamp, start, end) <==> r.0 <= i < r.1),
        window(s, start, end) == s.subrange(r.0, r.1),
    decreases s.len(),
{
    if s.len() == 0 {
        assert(s.subrange(0, 0) =~= Seq::<Waypoint>::empty());
        (0, 0)
    } else {
        let p = s.drop_last();
        let n = s.len() - 1;
        let (a, b) = lemma_window_contiguous(p, start, end);
        assert(forall|i: int| 0 <= i < n ==> p[i] == s[i]);
        if in_window(s[n].timestamp, start, end) {
            if a < b && b < n {
                assert(in_window(p[b - 1].timestamp, start, end));
                lemma_window_convex(s[b - 1].timestamp, s[b].timestamp, s[n].timestamp, start, end);
                assert(!in_window(p[b].timestamp, start, end));
                assert(false);
            }
            if a == b {
                assert(p.subrange(a, b) =~= Seq::<Waypoint>::empty());
                assert(s.subrange(n, n + 1) =~= seq![s.last()]);
                (n, n + 1)
            } else {
                assert(s.subrange(a, b + 1) =~= p.subrange(a, b).push(s.last()));
                (a, b + 1)
            }
        } else {
            assert(p.subrange(a, b) =~= s.subrange(a, b));
            (a, b)
        }
    }
}

/// Trimming to the time window only ever removes a prefix and a suffix of the
/// ordered waypoints, so a trip that has enough waypoints and distance after
/// trimming had them before; never the other way round.
pub proof fn lemma_window_only_shrinks(
    s: Seq<Waypoint>,
    hops: Seq<u64>,
    start: Option<u64>,
    end: Option<u64>,
) -> (r: (int, int))
    requires
        sorted_by_time(s),
        hops.len() == hop_count(s.len() as int),
    ensures
        0 <= r.0 <= r.1 <= s.len(),
        window(s, start, end) == s.subrange(r.0, r.1),
        total_mm(hops.subrange(r.0, r.0 + hop_count(r.1 - r.0))) <= total_mm(hops),
        significant(r.1 - r.0, hops.subrange(r.0, r.0 + hop_count(r.1 - r.0))) ==> significant(
            s.len() as int,
            hops,
        ),
{
    let (a, b) = lemma_window_contiguous(s, start, end);
    if a < b {
        lemma_total_subrange(hops, a, b - 1);
        (a, b)
    } else {
        assert(s.subrange(a, b) =~= s.subrange(0, 0));
        assert(hops.subrange(0, 0) =~= Seq::<u64>::empty());
        (0, 0)
    }
}

/// `r[i]` is `s[perm[i]]`, and waypoints of equal timestamp keep their order.
pub open spec fn stable_arrangement(s: Seq<Waypoint>, r: Seq<Waypoint>, perm: Seq<int>) -> bool {
    &&& perm.len() == r.len()
    &&& forall|i: int| 0 <= i < r.len() ==> 0 <= #[trigger] perm[i] < s.len() && r[i] == s[perm[i]]
    &&& forall|i: int, j: int|
        0 <= i < j < r.len() && r[i].timestamp == r[j].timestamp ==> perm[i] < perm[j]
}

/// Orders waypoints by timestamp, keeping the order of equal timestamps.
pub fn sort_waypoints(wps: Vec<Waypoint>) -> (r: Vec<Waypoint>)
    ensures
        r@.to_multiset() == wps@.to_multiset(),
        sorted_by_time(r@),
        exists|perm: Seq<int>| stable_arrangement(wps@, r@, perm),
        sorted_by_time(wps@) ==> r@ == wps@,
{
    let ghost s = wps@;
    let n: usize = wps.len();
    let mut rest = wps;
    let mut out: Vec<Waypoint> = Vec::new();
    let mut k: usize = 0;
    let ghost mut perm: Seq<int> = Seq::empty();
    assert(out@ =~= s.take(0));
    while rest.len() > 0
        invariant
            k <= s.len(),
            s.len() == n,
            rest@ == s.skip(k as int),
            out@.to_multiset() == s.take(k as int).to_multiset(),
            out@.len() == k,
            sorted_by_time(out@),
            stable_arrangement(s, out@, perm),
            forall|i: int| 0 <= i < perm.len() ==> #[trigger] perm[i] < k,
            sorted_by_time(s) ==> out@ == s.take(k as int),
        decreases rest@.len(),
    {
        let w = rest.remove(0);
        assert(w == s[k as int]);
        let mut p: usize = 0;
        while p < out.len() && out[p].timestamp <= w.timestamp
            invariant
                p <= out@.len(),
                forall|i: int| 0 <= i < p ==> out@[i].timestamp <= w.timestamp,
            decreases out@.len() - p,
        {
            p = p + 1;
        }
        proof {
            if sorted_by_time(s) && p < out@.len() {
                assert(out@[p as int] == s[p as int]);
            }
            assert(s.take(k + 1) =~= s.take(k as int).push(w));
        }
        let ghost before = out@;
        let ghost pbefore = perm;
        out.insert(p, w);
        proof {
            perm = pbefore.insert(p as int, k as int);
            assert forall|i: int| 0 <= i < out@.len() implies 0 <= #[trigger] perm[i] < s.len()
                && out@[i] == s[perm[i]] by {
                if i < p as int {
                    assert(out@[i] == before[i] && perm[i] == pbefore[i]);
                } else if i > p as int {
                    assert(out@[i] == before[i - 1] && perm[i] == pbefore[i - 1]);
                }
            }
            assert forall|i: int, j: int|
                0 <= i < j < out@.len() && out@[i].timestamp == out@[j].timestamp implies perm[i]
                < perm[j] by {
                if j < p as int {
                    assert(out@[i] == before[i] && out@[j] == before[j]);
                } else if j == p as int {
                    assert(perm[i] == pbefore[i]);
                } else if i > p as int {
                    assert(out@[i] == before[i - 1] && out@[j] == before[j - 1]);
                } else if i == p as int {
                    assert(out@[j] == before[j - 1]);
                    assert(before[p as int].timestamp > w.timestamp);
                    assert(before[p as int].timestamp <= before[j - 1].timestamp);
                } else {
                    assert(out@[i] == before[i] && out@[j] == before[j - 1]);
                }
            }
            assert forall|i: int| 0 <= i < perm.len() implies #[trigger] perm[i] < k + 1 by {
                if i < p as int {
                    assert(perm[i] == pbefore[i]);
                } else if i > p as int {
                    assert(perm[i] == pbefore[i - 1]);
                }
            }
            assert forall|i: int, j: int| 0 <= i <= j < out@.len() implies out@[i].timestamp
                <= out@[j].timestamp by {
                if j > p as int && i < p as int {
                    assert(before[i].timestamp <= w.timestamp);
                }
                if i >= p as int + 1 {
                    assert(out@[i] == before[i - 1] && out@[j] == before[j - 1]);
                } else if i == p as int && j > i {
                    assert(out@[j] == before[j - 1]);
                    assert(before[p as int].timestamp > w.timestamp);
                }
            }
            if sorted_by_time(s) {
                assert(out@ =~= s.take(k + 1));
            }
            assert(rest@ =~= s.skip(k + 1));
        }
        k = k + 1;
    }
    proof {
        assert(s.take(k as int) =~= s);
        assert(stable_arrangement(s, out@, perm));
    }
    out
}

/// Keeps the waypoints strictly inside the window: after `start` if it is set,
/// before `end` if it is set.
pub fn trim_to_window(wps: Vec<Waypoint>, start: Option<u64>, end: Option<u64>) -> (r: Vec<
    Waypoint,
>)
    ensures
        r@ == window(wps@, start, end),
{
    let ghost s = wps@;
    let n: usize = wps.len();
    let mut rest = wps;
    let mut out: Vec<Waypoint> = Vec::new();
    let mut k: usize = 0;
    assert(out@ =~= s.take(0));
    while rest.len() > 0
        invariant
            k <= s.len(),
            s.len() == n,
            rest@ == s.skip(k as int),
            out@ == window(s.take(k as int), start, end),
        decreases rest@.len(),
    {
        let w = rest.remove(0);
        proof {
            assert(s.take(k + 1).drop_last() =~= s.take(k as int));
            assert(s.take(k + 1).last() == w);
            assert(rest@ =~= s.skip(k + 1));
        }
        let keep = match start {
            Some(a) => w.timestamp > a,
            None => true,
        } && match end {
            Some(b) => w.timestamp < b,
            None => true,
        };
        if keep {
            out.push(w);
        }
        k = k + 1;
    }
    proof {
        assert(s.take(k as int) =~= s);
    }
    out
}

/// The distance covered by a trip: the sum of its hop distances.
pub fn total_distance_mm(hops: &Vec<u64>) -> (r: u128)
    ensures
        r == total_mm(hops@),
{
    let mut sum: u128 = 0;
    let mut i: usize = 0;
    while i < hops.len()
        invariant
            i <= hops@.len(),
            sum == total_mm(hops@.take(i as int)),
            sum <= i * 0xFFFF_FFFF_FFFF_FFFFu64,
        decreases hops@.len() - i,
    {
        proof {
            assert(hops@.take(i + 1).drop_last() =~= hops@.take(i as int));
            assert((i + 1) * 0xFFFF_FFFF_FFFF_FFFFu64 <= 0x1_0000_0000_0000_0000 * 0xFFFF_FFFF_FFFF_FFFFu64)
                by (nonlinear_arith)
                requires
                    i < 0x1_0000_0000_0000_0000int,
            ;
        }
        sum = sum + hops[i] as u128;
        i = i + 1;
    }
    proof {
        assert(hops@.take(i as int) =~= hops@);
    }
    sum
}

/// Decides whether every hop of a trip is realistic: none longer than
/// `MAX_HOP_MM`, and none faster than `MAX_HOP_MM` per minute.
/// `hops[i]` is the distance from `wps[i]` to `wps[i + 1]`.
pub fn is_realistic(wps: &Vec<Waypoint>, hops: &Vec<u64>) -> (r: bool)
    requires
        sorted_by_time(wps@),
        hops@.len() == hop_count(wps@.len() as int),
    ensures
        r == !unrealistic(wps@, hops@),
{
    let mut i: usize = 0;
    while i < hops.len()
        invariant
            i <= hops@.len(),
            hops@.len() == hop_count(wps@.len() as int),
            sorted_by_time(wps@),
            forall|j: int|
                0 <= j < i ==> !#[trigger] hop_too_fast(
                    hops@[j],
                    wps@[j + 1].timestamp - wps@[j].timestamp,
                ),
        decreases hops@.len() - i,
    {
        let d = hops[i];
        let elapsed = wps[i + 1].timestamp - wps[i].timestamp;
        assert((MAX_HOP_MM as u128) * (elapsed as u128) <= 0xFFFF_FFFF_FFFF_FFFFu128 * 0xFFFF_FFFF_FFFF_FFFFu128)
            by (nonlinear_arith);
        if d > MAX_HOP_MM || (d as u128) * 60 > (MAX_HOP_MM as u128) * (elapsed as u128) {
            assert(hop_too_fast(hops@[i as int], wps@[i + 1].timestamp - wps@[i as int].timestamp));
            return false;
        }
        i = i + 1;
    }
    true
}

/// Decides whether a trip is kept: realistic, more than `MIN_WAYPOINTS`
/// waypoints and more than `MIN_DISTANCE_MM` in all.
/// `hops[i]` is the distance from `wps[i]` to `wps[i + 1]`.
pub fn is_plausible(wps: &Vec<Waypoint>, hops: &Vec<u64>) -> (r: bool)
    requires
        sorted_by_time(wps@),
        hops@.len() == hop_count(wps@.len() as int),
    ensures
        r == plausible(wps@, hops@),
{
    is_realistic(wps, hops) && wps.len() > MIN_WAYPOINTS && total_distance_mm(hops)
        > MIN_DISTANCE_MM as u128
}

} // verus!
