//! The stages that run over all trips of a container: ordering and trimming,
//! filtering, and rebasing time on the earliest waypoint.
use vstd::prelude::*;
use crate::types::{PipelineError, Trip, TripContainer, Waypoint};
use crate::rank::{rank_stops, ranked_top, stop_visits, StopTally};
use crate::validate::{
    hop_count, is_plausible, MIN_WAYPOINTS, lemma_window_contiguous, plausible, sort_waypoints, sorted_by_time,
    trim_to_window, window,
};

verus! {

/// The hop distances of each trip, as sequences.
pub open spec fn hop_views(hops: Seq<Vec<u64>>) -> Seq<Seq<u64>> {
    hops.map_values(|h: Vec<u64>| h@)
}

/// Every trip's waypoints are in time order.
pub open spec fn all_sorted(ts: Seq<Trip>) -> bool {
    forall|k: int| 0 <= k < ts.len() ==> sorted_by_time(#[trigger] ts[k].waypoints@)
}

/// The trips of `ts` that pass the plausibility filter with hops `hops`, in order.
pub open spec fn kept_trips(ts: Seq<Trip>, hops: Seq<Seq<u64>>) -> Seq<Trip>
    decreases ts.len(),
{
    if ts.len() == 0 {
        Seq::empty()
    } else {
        let p = kept_trips(ts.drop_last(), hops);
        if plausible(ts.last().waypoints@, hops[ts.len() - 1]) {
            p.push(ts.last())
        } else {
            p
        }
    }
}

/// `new` agrees with `old` in everything but its waypoints.
pub open spec fn same_but_waypoints(old: Trip, new: Trip) -> bool {
    &&& new.vehicle_id == old.vehicle_id
    &&& new.nodes == old.nodes
    &&& new.start_time == old.start_time
    &&& new.end_time == old.end_time
}

/// `new` is `old` moved `d` seconds earlier.
pub open spec fn shifted(old: Waypoint, new: Waypoint, d: u64) -> bool {
    &&& new.stop_id == old.stop_id
    &&& new.coordinates == old.coordinates
    &&& new.timestamp == old.timestamp - d
}

/// Every trip has a waypoint.
pub open spec fn none_empty(ts: Seq<Trip>) -> bool {
    forall|k: int| 0 <= k < ts.len() ==> (#[trigger] ts[k]).waypoints@.len() > 0
}

/// Earliest first timestamp over all trips.
pub open spec fn is_earliest(ts: Seq<Trip>, t: u64) -> bool {
    &&& forall|k: int| 0 <= k < ts.len() ==> t <= (#[trigger] ts[k]).waypoints@[0].timestamp
    &&& exists|k: int| 0 <= k < ts.len() && t == (#[trigger] ts[k]).waypoints@[0].timestamp
}

/// Latest last timestamp over all trips.
pub open spec fn is_latest(ts: Seq<Trip>, t: u64) -> bool {
    &&& forall|k: int| 0 <= k < ts.len() ==> t >= (#[trigger] ts[k]).waypoints@.last().timestamp
    &&& exists|k: int| 0 <= k < ts.len() && t == (#[trigger] ts[k]).waypoints@.last().timestamp
}

fn shift_waypoints(wps: Vec<Waypoint>, d: u64) -> (r: Vec<Waypoint>)
    requires
        forall|i: int| 0 <= i < wps@.len() ==> d <= (#[trigger] wps@[i]).timestamp,
    ensures
        r@.len() == wps@.len(),
        forall|i: int| 0 <= i < wps@.len() ==> shifted(wps@[i], #[trigger] r@[i], d),
{
    let ghost s = wps@;
    let n: usize = wps.len();
    let mut rest = wps;
    let mut out: Vec<Waypoint> = Vec::new();
    let mut k: usize = 0;
    while rest.len() > 0
        invariant
            k <= s.len(),
            s.len() == n,
            rest@ == s.skip(k as int),
            out@.len() == k,
            forall|i: int| 0 <= i < s.len() ==> d <= (#[trigger] s[i]).timestamp,
            forall|i: int| 0 <= i < k ==> shifted(s[i], #[trigger] out@[i], d),
        decreases rest@.len(),
    {
        let w = rest.remove(0);
        assert(w == s[k as int]);
        assert(rest@ =~= s.skip(k + 1));
        let Waypoint { stop_id, coordinates, timestamp } = w;
        out.push(Waypoint { stop_id, coordinates, timestamp: timestamp - d });
        k = k + 1;
    }
    out
}

impl TripContainer {
    /// Orders each trip's waypoints by time, then keeps those strictly inside
    /// the window given by `start` and `end`.
    pub fn order_and_trim(&mut self, start: Option<u64>, end: Option<u64>)
        ensures
            final(self).start_timestamp == old(self).start_timestamp,
            final(self).loop_length == old(self).loop_length,
            final(self).time_multiplier == old(self).time_multiplier,
            final(self).trips@.len() == old(self).trips@.len(),
            all_sorted(final(self).trips@),
            forall|k: int|
                0 <= k < old(self).trips@.len() ==> {
                    &&& same_but_waypoints(old(self).trips@[k], #[trigger] final(self).trips@[k])
                    &&& exists|w: Seq<Waypoint>|
                        w.to_multiset() == old(self).trips@[k].waypoints@.to_multiset()
                            && sorted_by_time(w) && final(self).trips@[k].waypoints@ == window(
                            w,
                            start,
                            end,
                        )
                },
    {
        let ghost ts = self.trips@;
        let mut k: usize = 0;
        while k < self.trips.len()
            invariant
                k <= self.trips@.len(),
                self.trips@.len() == ts.len(),
                self.start_timestamp == old(self).start_timestamp,
                self.loop_length == old(self).loop_length,
                self.time_multiplier == old(self).time_multiplier,
                ts == old(self).trips@,
                forall|j: int| k <= j < ts.len() ==> self.trips@[j] == ts[j],
                forall|j: int| 0 <= j < k ==> sorted_by_time(#[trigger] self.trips@[j].waypoints@),
                forall|j: int|
                    0 <= j < k ==> {
                        &&& same_but_waypoints(ts[j], #[trigger] self.trips@[j])
                        &&& exists|w: Seq<Waypoint>|
                            w.to_multiset() == ts[j].waypoints@.to_multiset() && sorted_by_time(w)
                                && self.trips@[j].waypoints@ == window(w, start, end)
                    },
            decreases ts.len() - k,
        {
            let ghost prev = self.trips@;
            let trip = self.trips.remove(k);
            let Trip { nodes, vehicle_id, start_time, end_time, waypoints } = trip;
            let sorted = sort_waypoints(waypoints);
            let trimmed = trim_to_window(sorted, start, end);
            proof {
                let (a, b) = lemma_window_contiguous(sorted@, start, end);
            }
            let new_trip = Trip { nodes, vehicle_id, start_time, end_time, waypoints: trimmed };
            self.trips.insert(k, new_trip);
            proof {
                assert(self.trips@ =~= prev.update(k as int, new_trip));
                assert(self.trips@[k as int].waypoints@ == window(sorted@, start, end));
                assert forall|j: int| 0 <= j < k + 1 implies {
                    &&& same_but_waypoints(ts[j], #[trigger] self.trips@[j])
                    &&& exists|w: Seq<Waypoint>|
                        w.to_multiset() == ts[j].waypoints@.to_multiset() && sorted_by_time(w)
                            && self.trips@[j].waypoints@ == window(w, start, end)
                } by {
                    if j < k {
                        assert(self.trips@[j] == prev[j]);
                    } else {
                        assert(sorted@.to_multiset() == ts[j].waypoints@.to_multiset()
                            && sorted_by_time(sorted@)
                            && self.trips@[j].waypoints@ == window(sorted@, start, end));
                    }
                }
            }
            k = k + 1;
        }
        assert(self.trips@.len() == ts.len());
    }

    /// Keeps the trips that pass the plausibility filter, `hops[k]` being the
    /// hop distances of trip `k`; fails when none is kept.
    pub fn retain_plausible(&mut self, hops: &Vec<Vec<u64>>) -> (r: Result<(), PipelineError>)
        requires
            all_sorted(old(self).trips@),
            hops@.len() == old(self).trips@.len(),
            forall|k: int|
                0 <= k < hops@.len() ==> (#[trigger] hops@[k])@.len() == hop_count(
                    old(self).trips@[k].waypoints@.len() as int,
                ),
        ensures
            final(self).trips@ == kept_trips(old(self).trips@, hop_views(hops@)),
            all_sorted(final(self).trips@),
            forall|k: int|
                0 <= k < final(self).trips@.len() ==> (#[trigger] final(self).trips@[k]).waypoints@.len()
                    > MIN_WAYPOINTS,
            final(self).start_timestamp == old(self).start_timestamp,
            final(self).loop_length == old(self).loop_length,
            final(self).time_multiplier == old(self).time_multiplier,
            r is Err <==> final(self).trips@.len() == 0,
            r matches Err(e) ==> e == PipelineError::NoTripsMatch,
    {
        let ghost ts = self.trips@;
        let ghost hv = hop_views(hops@);
        let mut rest: Vec<Trip> = Vec::new();
        std::mem::swap(&mut rest, &mut self.trips);
        let n: usize = rest.len();
        let mut k: usize = 0;
        assert(ts.take(0) =~= Seq::<Trip>::empty());
        while rest.len() > 0
            invariant
                k <= ts.len(),
                ts.len() == n,
                n == hops@.len(),
                hv == hop_views(hops@),
                all_sorted(ts),
                forall|j: int|
                    0 <= j < hops@.len() ==> (#[trigger] hops@[j])@.len() == hop_count(
                        ts[j].waypoints@.len() as int,
                    ),
                rest@ == ts.skip(k as int),
                self.trips@ == kept_trips(ts.take(k as int), hv),
                all_sorted(self.trips@),
                forall|j: int|
                    0 <= j < self.trips@.len() ==> (#[trigger] self.trips@[j]).waypoints@.len()
                        > MIN_WAYPOINTS,
                self.start_timestamp == old(self).start_timestamp,
                self.loop_length == old(self).loop_length,
                self.time_multiplier == old(self).time_multiplier,
            decreases rest@.len(),
        {
            let trip = rest.remove(0);
            proof {
                assert(trip == ts[k as int]);
                assert(rest@ =~= ts.skip(k + 1));
                assert(ts.take(k + 1).drop_last() =~= ts.take(k as int));
                assert(ts.take(k + 1).last() == trip);
                assert(hv[k as int] == hops@[k as int]@);
            }
            if is_plausible(&trip.waypoints, &hops[k]) {
                self.trips.push(trip);
            }
            k = k + 1;
        }
        proof {
            assert(ts.take(k as int) =~= ts);
        }
        if self.trips.len() == 0 {
            Err(PipelineError::NoTripsMatch)
        } else {
            Ok(())
        }
    }

    /// Rebases all times on the earliest waypoint: `start_timestamp` becomes the
    /// earliest first timestamp, `loop_length` the span up to the latest last
    /// timestamp, and every trip time and waypoint timestamp is made relative.
    pub fn normalize(&mut self)
        requires
            old(self).trips@.len() > 0,
            none_empty(old(self).trips@),
            all_sorted(old(self).trips@),
        ensures
            is_earliest(old(self).trips@, final(self).start_timestamp),
            is_latest(old(self).trips@, (final(self).start_timestamp + final(self).loop_length) as u64),
            final(self).time_multiplier == old(self).time_multiplier,
            final(self).trips@.len() == old(self).trips@.len(),
            forall|k: int|
                0 <= k < old(self).trips@.len() ==> {
                    let o = old(self).trips@[k];
                    let t = #[trigger] final(self).trips@[k];
                    &&& t.vehicle_id == o.vehicle_id
                    &&& t.nodes == o.nodes
                    &&& t.start_time == o.waypoints@[0].timestamp - final(self).start_timestamp
                    &&& t.end_time == o.waypoints@.last().timestamp - final(self).start_timestamp
                    &&& t.waypoints@.len() == o.waypoints@.len()
                    &&& forall|i: int|
                        0 <= i < o.waypoints@.len() ==> shifted(
                            o.waypoints@[i],
                            #[trigger] t.waypoints@[i],
                            final(self).start_timestamp,
                        )
                },
            forall|k: int, i: int|
                0 <= k < final(self).trips@.len() && 0 <= i < final(self).trips@[k].waypoints@.len()
                    ==> #[trigger] final(self).trips@[k].waypoints@[i].timestamp
                    <= final(self).loop_length,
            exists|k: int| 0 <= k < final(self).trips@.len() && #[trigger] final(self).trips@[k].start_time == 0,
    {
        let ghost ts = self.trips@;
        let mut lo: u64 = self.trips[0].waypoints[0].timestamp;
        let mut hi: u64 = self.trips[0].waypoints[self.trips[0].waypoints.len() - 1].timestamp;
        let mut k: usize = 1;
        while k < self.trips.len()
            invariant
                1 <= k <= ts.len(),
                self.trips@ == ts,
                none_empty(ts),
                forall|j: int| 0 <= j < k ==> lo <= (#[trigger] ts[j]).waypoints@[0].timestamp,
                exists|j: int| 0 <= j < k && lo == (#[trigger] ts[j]).waypoints@[0].timestamp,
                forall|j: int| 0 <= j < k ==> hi >= (#[trigger] ts[j]).waypoints@.last().timestamp,
                exists|j: int| 0 <= j < k && hi == (#[trigger] ts[j]).waypoints@.last().timestamp,
            decreases ts.len() - k,
        {
            assert(ts[k as int].waypoints@.len() > 0);
            let first = self.trips[k].waypoints[0].timestamp;
            let last = self.trips[k].waypoints[self.trips[k].waypoints.len() - 1].timestamp;
            if first < lo {
                lo = first;
            }
            if last > hi {
                hi = last;
            }
            k = k + 1;
        }
        proof {
            let j0 = choose|j: int| 0 <= j < k && lo == (#[trigger] ts[j]).waypoints@[0].timestamp;
            assert(sorted_by_time(ts[j0].waypoints@));
            assert(ts[j0].waypoints@[0].timestamp <= ts[j0].waypoints@.last().timestamp);
        }
        self.start_timestamp = lo;
        self.loop_length = hi - lo;
        let mut k: usize = 0;
        while k < self.trips.len()
            invariant
                k <= ts.len(),
                self.trips@.len() == ts.len(),
                self.start_timestamp == lo,
                self.loop_length == hi - lo,
                lo <= hi,
                self.time_multiplier == old(self).time_multiplier,
                none_empty(ts),
                all_sorted(ts),
                forall|j: int| 0 <= j < ts.len() ==> lo <= (#[trigger] ts[j]).waypoints@[0].timestamp,
                forall|j: int| 0 <= j < ts.len() ==> hi >= (#[trigger] ts[j]).waypoints@.last().timestamp,
                forall|j: int| k <= j < ts.len() ==> self.trips@[j] == ts[j],
                forall|j: int|
                    0 <= j < k ==> {
                        let o = ts[j];
                        let t = #[trigger] self.trips@[j];
                        &&& t.vehicle_id == o.vehicle_id
                        &&& t.nodes == o.nodes
                        &&& t.start_time == o.waypoints@[0].timestamp - lo
                        &&& t.end_time == o.waypoints@.last().timestamp - lo
                        &&& t.waypoints@.len() == o.waypoints@.len()
                        &&& forall|i: int|
                            0 <= i < o.waypoints@.len() ==> shifted(
                                o.waypoints@[i],
                                #[trigger] t.waypoints@[i],
                                lo,
                            )
                    },
                forall|j: int, i: int|
                    0 <= j < k && 0 <= i < self.trips@[j].waypoints@.len()
                        ==> #[trigger] self.trips@[j].waypoints@[i].timestamp <= hi - lo,
            decreases ts.len() - k,
        {
            let ghost prev = self.trips@;
            let trip = self.trips.remove(k);
            assert(trip == ts[k as int]);
            let Trip { nodes, vehicle_id, start_time: _, end_time: _, waypoints } = trip;
            let ghost ow = waypoints@;
            assert(sorted_by_time(ow));
            assert forall|i: int| 0 <= i < ow.len() implies lo <= (#[trigger] ow[i]).timestamp
                && ow[i].timestamp <= hi by {
                assert(ow[0].timestamp <= ow[i].timestamp);
                assert(ow[i].timestamp <= ow.last().timestamp);
            }
            let first = waypoints[0].timestamp;
            let last = waypoints[waypoints.len() - 1].timestamp;
            let shifted_wps = shift_waypoints(waypoints, lo);
            let new_trip = Trip {
                nodes,
                vehicle_id,
                start_time: first - lo,
                end_time: last - lo,
                waypoints: shifted_wps,
            };
            self.trips.insert(k, new_trip);
            proof {
                assert(self.trips@ =~= prev.update(k as int, new_trip));
                assert forall|j: int, i: int|
                    0 <= j < k + 1 && 0 <= i < self.trips@[j].waypoints@.len()
                        implies #[trigger] self.trips@[j].waypoints@[i].timestamp <= hi - lo by {
                    if j == k {
                        assert(shifted(ow[i], shifted_wps@[i], lo));
                    }
                }
            }
            k = k + 1;
        }
        proof {
            let j0 = choose|j: int| 0 <= j < ts.len() && lo == (#[trigger] ts[j]).waypoints@[0].timestamp;
            assert(self.trips@[j0].start_time == 0);
            let j1 = choose|j: int| 0 <= j < ts.len() && hi == (#[trigger] ts[j]).waypoints@.last().timestamp;
            assert(hi == ts[j1].waypoints@.last().timestamp);
        }
    }

    /// Runs the stages after trimming: keeps the plausible trips (`hops[k]`
    /// being the hop distances of trip `k`), rebases their times, and ranks
    /// the stops they visited.
    pub fn conclude(&mut self, hops: &Vec<Vec<u64>>) -> (r: Result<Vec<StopTally>, PipelineError>)
        requires
            all_sorted(old(self).trips@),
            hops@.len() == old(self).trips@.len(),
            forall|k: int|
                0 <= k < hops@.len() ==> (#[trigger] hops@[k])@.len() == hop_count(
                    old(self).trips@[k].waypoints@.len() as int,
                ),
        ensures
            r == Err::<Vec<StopTally>, PipelineError>(PipelineError::NoTripsMatch) <==> kept_trips(
                old(self).trips@,
                hop_views(hops@),
            ).len() == 0,
            r matches Err(e) ==> e == PipelineError::NoTripsMatch || (e == PipelineError::NoTripStops
                && stop_visits(final(self).trips@).len() == 0),
            r matches Ok(v) ==> ranked_top(stop_visits(final(self).trips@), v@),
            kept_trips(old(self).trips@, hop_views(hops@)).len() > 0 ==> {
                &&& is_earliest(kept_trips(old(self).trips@, hop_views(hops@)), final(self).start_timestamp)
                &&& final(self).trips@.len() == kept_trips(old(self).trips@, hop_views(hops@)).len()
                &&& forall|k: int, i: int|
                    0 <= k < final(self).trips@.len() && 0 <= i < final(self).trips@[k].waypoints@.len()
                        ==> #[trigger] final(self).trips@[k].waypoints@[i].timestamp
                        <= final(self).loop_length
                &&& exists|k: int|
                    0 <= k < final(self).trips@.len() && #[trigger] final(self).trips@[k].start_time == 0
                &&& (r is Err <==> stop_visits(final(self).trips@).len() == 0)
            },
    {
        match self.retain_plausible(hops) {
            Err(e) => {
                return Err(e);
            },
            Ok(()) => {},
        }
        self.normalize();
        match rank_stops(&self.trips) {
            Ok(v) => Ok(v),
            Err(e) => Err(e),
        }
    }
}

} // verus!
