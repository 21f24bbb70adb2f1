//! Counting stop visits over all trips and ranking the stops by popularity.
use vstd::prelude::*;
use crate::types::{PipelineError, Trip, TripStop, Waypoint};

verus! {

broadcast use {
    vstd::seq_lib::to_multiset_build,
    vstd::seq_lib::to_multiset_insert,
    vstd::seq_lib::to_multiset_contains,
};

/// At most this many stops are kept after ranking.
pub const MAX_RANKED_STOPS: usize = 50;

/// A stop with the number of waypoints recorded at it and the position, among
/// all stop visits, at which it was first seen.
pub struct StopTally {
    pub stop: TripStop,
    pub visits: usize,
    pub first_seen: usize,
}

/// The stop visits among `wps`, in order, each with the waypoint's coordinates.
pub open spec fn visits_in(wps: Seq<Waypoint>) -> Seq<TripStop>
    decreases wps.len(),
{
    if wps.len() == 0 {
        Seq::empty()
    } else {
        let p = visits_in(wps.drop_last());
        match wps.last().stop_id {
            Some(s) => p.push(TripStop { stop_id: s, coordinates: wps.last().coordinates }),
            None => p,
        }
    }
}

/// The stop visits of all trips, trip after trip.
pub open spec fn stop_visits(ts: Seq<Trip>) -> Seq<TripStop>
    decreases ts.len(),
{
    if ts.len() == 0 {
        Seq::empty()
    } else {
        stop_visits(ts.drop_last()) + visits_in(ts.last().waypoints@)
    }
}

/// How many visits of `ev` are at stop `s`.
pub open spec fn count_of(ev: Seq<TripStop>, s: Seq<char>) -> nat
    decreases ev.len(),
{
    if ev.len() == 0 {
        0
    } else {
        count_of(ev.drop_last(), s) + if ev.last().stop_id@ == s {
            1nat
        } else {
            0nat
        }
    }
}

/// Visit `e` is the first visit of its stop.
pub open spec fn first_visit(ev: Seq<TripStop>, e: int) -> bool {
    forall|f: int| 0 <= f < e ==> ev[f].stop_id@ != ev[e].stop_id@
}

/// `t` is the tally of the stop first visited at `t.first_seen`: its
/// identifier and coordinates are those of that visit, and it counts every visit.
pub open spec fn tally_of(ev: Seq<TripStop>, t: StopTally) -> bool {
    &&& t.first_seen < ev.len()
    &&& first_visit(ev, t.first_seen as int)
    &&& ev[t.first_seen as int].stop_id@ == t.stop.stop_id@
    &&& ev[t.first_seen as int].coordinates == t.stop.coordinates
    &&& t.visits == count_of(ev, t.stop.stop_id@)
}

/// `r` holds one tally for each stop of `ev`, in first-seen order.
pub open spec fn tallies_of(ev: Seq<TripStop>, r: Seq<StopTally>) -> bool {
    &&& forall|i: int| 0 <= i < r.len() ==> tally_of(ev, #[trigger] r[i])
    &&& forall|i: int, j: int| 0 <= i < j < r.len() ==> r[i].first_seen < r[j].first_seen
    &&& forall|e: int| 0 <= e < ev.len() ==> has_tally(r, (#[trigger] ev[e]).stop_id@)
}

/// Some tally of `r` is for stop `s`.
pub open spec fn has_tally(r: Seq<StopTally>, s: Seq<char>) -> bool {
    exists|i: int| 0 <= i < r.len() && (#[trigger] r[i]).stop.stop_id@ == s
}

/// `a` ranks before `b`: more visits, or as many and seen earlier.
pub open spec fn ranks_before(a: StopTally, b: StopTally) -> bool {
    a.visits > b.visits || (a.visits == b.visits && a.first_seen < b.first_seen)
}

/// Every tally of `r` ranks before every later one.
pub open spec fn ranked(r: Seq<StopTally>) -> bool {
    forall|i: int, j: int| 0 <= i < j < r.len() ==> ranks_before(r[i], r[j])
}

proof fn lemma_count_absent(ev: Seq<TripStop>, s: Seq<char>)
    requires
        forall|e: int| 0 <= e < ev.len() ==> ev[e].stop_id@ != s,
    ensures
        count_of(ev, s) == 0,
    decreases ev.len(),
{
    if ev.len() > 0 {
        lemma_count_absent(ev.drop_last(), s);
    }
}

proof fn lemma_count_le_len(ev: Seq<TripStop>, s: Seq<char>)
    ensures
        count_of(ev, s) <= ev.len(),
    decreases ev.len(),
{
    if ev.len() > 0 {
        lemma_count_le_len(ev.drop_last(), s);
    }
}

/// Lists every stop visit of `trips`, in order.
fn collect_visits(trips: &Vec<Trip>) -> (r: Vec<TripStop>)
    ensures
        r@ == stop_visits(trips@),
{
    let mut out: Vec<TripStop> = Vec::new();
    let mut k: usize = 0;
    assert(trips@.take(0) =~= Seq::<Trip>::empty());
    while k < trips.len()
        invariant
            k <= trips@.len(),
            out@ == stop_visits(trips@.take(k as int)),
        decreases trips@.len() - k,
    {
        let wps = &trips[k].waypoints;
        let ghost base = out@;
        let mut i: usize = 0;
        assert(wps@.take(0) =~= Seq::<Waypoint>::empty());
        assert(base + visits_in(wps@.take(0)) =~= base);
        while i < wps.len()
            invariant
                i <= wps@.len(),
                out@ == base + visits_in(wps@.take(i as int)),
            decreases wps@.len() - i,
        {
            let w = &wps[i];
            assert(wps@.take(i + 1).drop_last() =~= wps@.take(i as int));
            assert(wps@.take(i + 1).last() == *w);
            match &w.stop_id {
                Some(s) => {
                    out.push(TripStop { stop_id: s.clone(), coordinates: w.coordinates });
                    assert(out@ =~= base + visits_in(wps@.take(i + 1)));
                },
                None => {},
            }
            i = i + 1;
        }
        proof {
            assert(wps@.take(i as int) =~= wps@);
            assert(trips@.take(k + 1).drop_last() =~= trips@.take(k as int));
            assert(trips@.take(k + 1).last() == trips@[k as int]);
        }
        k = k + 1;
    }
    assert(trips@.take(k as int) =~= trips@);
    out
}

fn find_tally(r: &Vec<StopTally>, s: &String) -> (k: Option<usize>)
    ensures
        match k {
            Some(k) => k < r@.len() && r@[k as int].stop.stop_id@ == s@,
            None => forall|i: int| 0 <= i < r@.len() ==> r@[i].stop.stop_id@ != s@,
        },
{
    let mut i: usize = 0;
    while i < r.len()
        invariant
            i <= r@.len(),
            forall|j: int| 0 <= j < i ==> r@[j].stop.stop_id@ != s@,
        decreases r@.len() - i,
    {
        if r[i].stop.stop_id == *s {
            return Some(i);
        }
        i = i + 1;
    }
    None
}

/// One tally per stop of `ev`, in first-seen order.
fn tally(ev: &Vec<TripStop>) -> (r: Vec<StopTally>)
    ensures
        tallies_of(ev@, r@),
{
    let mut r: Vec<StopTally> = Vec::new();
    let mut e: usize = 0;
    while e < ev.len()
        invariant
            e <= ev@.len(),
            tallies_of(ev@.take(e as int), r@),
            forall|i: int| 0 <= i < r@.len() ==> (#[trigger] r@[i]).first_seen < e,
        decreases ev@.len() - e,
    {
        let ghost pre = ev@.take(e as int);
        let ghost post = ev@.take(e + 1);
        let ghost rold = r@;
        let x = &ev[e];
        proof {
            assert(post.drop_last() =~= pre);
            assert(post.last() == *x);
            assert forall|f: int| 0 <= f < pre.len() implies pre[f] == post[f] by {}
        }
        match find_tally(&r, &x.stop_id) {
            Some(k) => {
                let t = r.remove(k);
                let StopTally { stop, visits, first_seen } = t;
                proof {
                    lemma_count_le_len(pre, stop.stop_id@);
                }
                r.insert(k, StopTally { stop, visits: visits + 1, first_seen });
                proof {
                    assert(r@ =~= rold.update(k as int, r@[k as int]));
                    assert forall|i: int| 0 <= i < r@.len() implies tally_of(post, #[trigger] r@[i]) by {
                        assert(tally_of(pre, rold[i]));
                        if i != k as int {
                            if rold[i].stop.stop_id@ == x.stop_id@ {
                                assert(tally_of(pre, rold[k as int]));
                                if rold[i].first_seen < rold[k as int].first_seen {
                                    assert(pre[rold[i].first_seen as int].stop_id@ == rold[k as int].stop.stop_id@);
                                } else if rold[i].first_seen > rold[k as int].first_seen {
                                    assert(pre[rold[k as int].first_seen as int].stop_id@ == rold[i].stop.stop_id@);
                                }
                            }
                        }
                    }
                    assert forall|f: int| 0 <= f < post.len() implies has_tally(r@, (#[trigger] post[f]).stop_id@) by {
                        if f < pre.len() {
                            assert(has_tally(rold, pre[f].stop_id@));
                            let i = choose|i: int| 0 <= i < rold.len() && (#[trigger] rold[i]).stop.stop_id@ == pre[f].stop_id@;
                            assert(r@[i].stop.stop_id@ == post[f].stop_id@);
                        } else {
                            assert(r@[k as int].stop.stop_id@ == post[f].stop_id@);
                        }
                    }
                }
            },
            None => {
                let t = StopTally {
                    stop: TripStop { stop_id: x.stop_id.clone(), coordinates: x.coordinates },
                    visits: 1,
                    first_seen: e,
                };
                r.push(t);
                proof {
                    lemma_count_absent(pre, x.stop_id@);
                    assert forall|f: int| 0 <= f < e implies post[f].stop_id@ != post[e as int].stop_id@ by {
                        assert(has_tally(rold, pre[f].stop_id@));
                    }
                    assert forall|i: int| 0 <= i < r@.len() implies tally_of(post, #[trigger] r@[i]) by {
                        if i < rold.len() {
                            assert(tally_of(pre, rold[i]));
                            assert(r@[i] == rold[i]);
                        }
                    }
                    assert forall|f: int| 0 <= f < post.len() implies has_tally(r@, (#[trigger] post[f]).stop_id@) by {
                        if f < pre.len() {
                            assert(has_tally(rold, pre[f].stop_id@));
                            let i = choose|i: int| 0 <= i < rold.len() && (#[trigger] rold[i]).stop.stop_id@ == pre[f].stop_id@;
                            assert(r@[i].stop.stop_id@ == post[f].stop_id@);
                        } else {
                            assert(r@[rold.len() as int].stop.stop_id@ == post[f].stop_id@);
                        }
                    }
                }
            },
        }
        e = e + 1;
    }
    assert(ev@.take(e as int) =~= ev@);
    r
}

/// `r` is the ranking of the stops of `ev`: ordered by `ranks_before`, at most
/// `MAX_RANKED_STOPS` long, each entry a true tally, and a stop is left out only
/// when the list is full and every entry ranks before it.
pub open spec fn ranked_top(ev: Seq<TripStop>, r: Seq<StopTally>) -> bool {
    &&& r.len() <= MAX_RANKED_STOPS
    &&& ranked(r)
    &&& forall|i: int| 0 <= i < r.len() ==> tally_of(ev, #[trigger] r[i])
    &&& forall|e: int|
        0 <= e < ev.len() && first_visit(ev, e) && !has_tally(r, (#[trigger] ev[e]).stop_id@) ==> {
            &&& r.len() == MAX_RANKED_STOPS
            &&& forall|i: int|
                0 <= i < r.len() ==> (#[trigger] r[i]).visits > count_of(ev, ev[e].stop_id@) || (
                r[i].visits == count_of(ev, ev[e].stop_id@) && r[i].first_seen < e)
        }
}

/// Orders tallies by `ranks_before`; ties in visits keep their first-seen order.
fn sort_by_rank(v: Vec<StopTally>) -> (r: Vec<StopTally>)
    requires
        forall|i: int, j: int| 0 <= i < j < v@.len() ==> v@[i].first_seen < v@[j].first_seen,
    ensures
        r@.to_multiset() == v@.to_multiset(),
        ranked(r@),
        r@.len() == v@.len(),
{
    let ghost s = v@;
    let n: usize = v.len();
    let mut rest = v;
    let mut out: Vec<StopTally> = Vec::new();
    let mut k: usize = 0;
    assert(out@ =~= s.take(0));
    while rest.len() > 0
        invariant
            k <= s.len(),
            s.len() == n,
            rest@ == s.skip(k as int),
            out@.to_multiset() == s.take(k as int).to_multiset(),
            out@.len() == k,
            ranked(out@),
            forall|i: int, j: int| 0 <= i < j < s.len() ==> s[i].first_seen < s[j].first_seen,
            forall|i: int, j: int|
                0 <= i < out@.len() && k <= j < s.len() ==> (#[trigger] out@[i]).first_seen < (
                #[trigger] s[j]).first_seen,
        decreases rest@.len(),
    {
        let w = rest.remove(0);
        assert(w == s[k as int]);
        let mut p: usize = 0;
        while p < out.len() && !(w.visits > out[p].visits || (w.visits == out[p].visits
            && w.first_seen < out[p].first_seen))
            invariant
                p <= out@.len(),
                forall|i: int| 0 <= i < out@.len() ==> (#[trigger] out@[i]).first_seen < w.first_seen,
                forall|i: int| 0 <= i < p ==> ranks_before(#[trigger] out@[i], w),
            decreases out@.len() - p,
        {
            p = p + 1;
        }
        proof {
            assert(s.take(k + 1) =~= s.take(k as int).push(w));
        }
        let ghost before = out@;
        out.insert(p, w);
        proof {
            assert forall|i: int, j: int| 0 <= i < j < out@.len() implies ranks_before(
                out@[i],
                out@[j],
            ) by {
                if i > p as int {
                    assert(out@[i] == before[i - 1] && out@[j] == before[j - 1]);
                } else if i == p as int {
                    assert(out@[j] == before[j - 1]);
                    assert(ranks_before(w, before[p as int]));
                    if j - 1 > p as int {
                        assert(ranks_before(before[p as int], before[j - 1]));
                    }
                } else if j == p as int {
                    assert(out@[i] == before[i]);
                } else if j > p as int {
                    assert(out@[i] == before[i] && out@[j] == before[j - 1]);
                } else {
                    assert(out@[i] == before[i] && out@[j] == before[j]);
                }
            }
            assert forall|i: int, j: int|
                0 <= i < out@.len() && k + 1 <= j < s.len() implies (#[trigger] out@[i]).first_seen
                < (#[trigger] s[j]).first_seen by {
                if i < p as int {
                    assert(out@[i] == before[i]);
                } else if i > p as int {
                    assert(out@[i] == before[i - 1]);
                }
            }
            assert(rest@ =~= s.skip(k + 1));
        }
        k = k + 1;
    }
    proof {
        assert(s.take(k as int) =~= s);
    }
    out
}

/// Counts the visits of every stop over all `trips`, ranks the stops by visits
/// (ties in first-seen order) and keeps the first `MAX_RANKED_STOPS`; fails
/// when no waypoint was recorded at a stop.
pub fn rank_stops(trips: &Vec<Trip>) -> (r: Result<Vec<StopTally>, PipelineError>)
    ensures
        r is Err <==> stop_visits(trips@).len() == 0,
        r matches Err(e) ==> e == PipelineError::NoTripStops,
        r matches Ok(v) ==> ranked_top(stop_visits(trips@), v@),
{
    let ev = collect_visits(trips);
    if ev.len() == 0 {
        return Err(PipelineError::NoTripStops);
    }
    let t = tally(&ev);
    let mut w = sort_by_rank(t);
    let ghost full = w@;
    w.truncate(MAX_RANKED_STOPS);
    proof {
        let evs = ev@;
        assert forall|i: int| 0 <= i < w@.len() implies tally_of(evs, #[trigger] w@[i]) by {
            assert(w@[i] == full[i]);
            assert(full.contains(full[i]));
            assert(full.to_multiset().count(full[i]) > 0);
            assert(t@.contains(full[i]));
        }
        assert forall|e: int|
            0 <= e < evs.len() && first_visit(evs, e) && !has_tally(w@, (#[trigger] evs[e]).stop_id@)
                implies {
            &&& w@.len() == MAX_RANKED_STOPS
            &&& forall|i: int|
                0 <= i < w@.len() ==> (#[trigger] w@[i]).visits > count_of(evs, evs[e].stop_id@) || (
                w@[i].visits == count_of(evs, evs[e].stop_id@) && w@[i].first_seen < e)
        } by {
            assert(has_tally(t@, evs[e].stop_id@));
            let j = choose|j: int| 0 <= j < t@.len() && (#[trigger] t@[j]).stop.stop_id@ == evs[e].stop_id@;
            let x = t@[j];
            assert(tally_of(evs, x));
            assert(t@.contains(x));
            assert(t@.to_multiset().count(x) > 0);
            assert(full.contains(x));
            let m = choose|m: int| 0 <= m < full.len() && full[m] == x;
            if m < w@.len() {
                assert(w@[m] == x);
                assert(false);
            }
            if x.first_seen < e {
                assert(evs[x.first_seen as int].stop_id@ == evs[e].stop_id@);
            } else if x.first_seen > e {
                assert(evs[e].stop_id@ == evs[x.first_seen as int].stop_id@);
            }
            assert forall|i: int| 0 <= i < w@.len() implies ranks_before(#[trigger] w@[i], x) by {
                assert(w@[i] == full[i]);
            }
        }
    }
    Ok(w)
}

/// The identifiers of the ranked stops, in rank order.
pub fn stop_ids(ranked: &Vec<StopTally>) -> (r: Vec<String>)
    ensures
        r@.len() == ranked@.len(),
        forall|i: int| 0 <= i < r@.len() ==> (#[trigger] r@[i])@ == ranked@[i].stop.stop_id@,
{
    let mut out: Vec<String> = Vec::new();
    let mut i: usize = 0;
    while i < ranked.len()
        invariant
            i <= ranked@.len(),
            out@.len() == i,
            forall|j: int| 0 <= j < i ==> (#[trigger] out@[j])@ == ranked@[j].stop.stop_id@,
        decreases ranked@.len() - i,
    {
        out.push(ranked[i].stop.stop_id.clone());
        i = i + 1;
    }
    out
}

} // verus!
