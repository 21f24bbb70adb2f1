//! Folding position records into per-vehicle trips.
use vstd::prelude::*;
use crate::types::{PositionRecord, Trip, TripContainer, Waypoint};

verus! {

/// The character sequences of a list of strings.
pub open spec fn names(s: Seq<String>) -> Seq<Seq<char>> {
    s.map_values(|x: String| x@)
}

/// Some waypoint of `wps` carries timestamp `t`.
pub open spec fn has_timestamp(wps: Seq<Waypoint>, t: u64) -> bool {
    exists|i: int| 0 <= i < wps.len() && wps[i].timestamp == t
}

/// No two waypoints share a timestamp.
pub open spec fn timestamps_unique(wps: Seq<Waypoint>) -> bool {
    forall|i: int, j: int|
        0 <= i < wps.len() && 0 <= j < wps.len() && i != j ==> wps[i].timestamp != wps[j].timestamp
}

/// No string occurs twice.
pub open spec fn distinct(s: Seq<Seq<char>>) -> bool {
    forall|i: int, j: int| 0 <= i < s.len() && 0 <= j < s.len() && i != j ==> s[i] != s[j]
}

/// The stop that a record is stopped at, if any.
pub open spec fn stop_of(rec: PositionRecord) -> Option<String> {
    if rec.stopped {
        rec.stop_id
    } else {
        None
    }
}

/// The waypoint that a record contributes.
pub open spec fn waypoint_of(rec: PositionRecord) -> Waypoint {
    Waypoint { stop_id: stop_of(rec), coordinates: rec.coordinates, timestamp: rec.timestamp }
}

/// The node list after a visit to `stop`: appended on a first visit only.
pub open spec fn nodes_after(nodes: Seq<Seq<char>>, stop: Option<String>) -> Seq<Seq<char>> {
    match stop {
        Some(s) => if nodes.contains(s@) {
            nodes
        } else {
            nodes.push(s@)
        },
        None => nodes,
    }
}

/// A trip is well formed during assembly: unique timestamps, distinct nodes.
pub open spec fn trip_wf(t: Trip) -> bool {
    timestamps_unique(t.waypoints@) && distinct(names(t.nodes@))
}

/// Vehicle identifiers are unique and every trip is well formed.
pub open spec fn trips_wf(ts: Seq<Trip>) -> bool {
    &&& forall|i: int| 0 <= i < ts.len() ==> trip_wf(#[trigger] ts[i])
    &&& forall|i: int, j: int|
        0 <= i < ts.len() && 0 <= j < ts.len() && i != j ==> ts[i].vehicle_id@ != ts[j].vehicle_id@
}

/// `new` is `old` after taking in the observation `rec` of the same vehicle.
pub open spec fn trip_ingested(old: Trip, rec: PositionRecord, new: Trip) -> bool {
    &&& new.vehicle_id@ == old.vehicle_id@
    &&& new.start_time == old.start_time
    &&& new.end_time == old.end_time
    &&& if has_timestamp(old.waypoints@, rec.timestamp) {
        new.waypoints@ == old.waypoints@ && names(new.nodes@) == names(old.nodes@)
    } else {
        &&& new.waypoints@ == old.waypoints@.push(waypoint_of(rec))
        &&& names(new.nodes@) == nodes_after(names(old.nodes@), stop_of(rec))
    }
}

/// `new` is the trips `old` after taking in `rec`: the vehicle's trip takes the
/// record, or a new trip holding only that record is appended.
pub open spec fn ingested(old: Seq<Trip>, rec: PositionRecord, new: Seq<Trip>) -> bool {
    if exists|k: int| 0 <= k < old.len() && old[k].vehicle_id@ == rec.vehicle_id@ {
        &&& new.len() == old.len()
        &&& forall|k: int|
            0 <= k < old.len() ==> if old[k].vehicle_id@ == rec.vehicle_id@ {
                trip_ingested(old[k], rec, #[trigger] new[k])
            } else {
                new[k] == old[k]
            }
    } else {
        &&& new.len() == old.len() + 1
        &&& forall|k: int| 0 <= k < old.len() ==> #[trigger] new[k] == old[k]
        &&& new.last().vehicle_id@ == rec.vehicle_id@
        &&& new.last().start_time == 0
        &&& new.last().end_time == 0
        &&& new.last().waypoints@ == seq![waypoint_of(rec)]
        &&& names(new.last().nodes@) == nodes_after(Seq::empty(), stop_of(rec))
    }
}

/// After `rec` has been taken in, its vehicle's trip holds a waypoint at its timestamp.
proof fn lemma_ingested_has(a: Seq<Trip>, rec: PositionRecord, b: Seq<Trip>) -> (k: int)
    requires
        ingested(a, rec, b),
    ensures
        0 <= k < b.len(),
        b[k].vehicle_id@ == rec.vehicle_id@,
        has_timestamp(b[k].waypoints@, rec.timestamp),
{
    if exists|k: int| 0 <= k < a.len() && a[k].vehicle_id@ == rec.vehicle_id@ {
        let k = choose|k: int| 0 <= k < a.len() && a[k].vehicle_id@ == rec.vehicle_id@;
        assert(trip_ingested(a[k], rec, b[k]));
        if !has_timestamp(a[k].waypoints@, rec.timestamp) {
            assert(b[k].waypoints@[a[k].waypoints@.len() as int] == waypoint_of(rec));
        }
        k
    } else {
        let k = b.len() - 1;
        assert(b[k].waypoints@[0] == waypoint_of(rec));
        k
    }
}

/// Deduplication is idempotent: taking in a second record with the same vehicle
/// and timestamp changes no trip's waypoints, and that vehicle's trip holds
/// exactly one waypoint at that timestamp.
pub proof fn lemma_ingest_idempotent(
    a: Seq<Trip>,
    r1: PositionRecord,
    b: Seq<Trip>,
    r2: PositionRecord,
    c: Seq<Trip>,
)
    requires
        trips_wf(b),
        ingested(a, r1, b),
        ingested(b, r2, c),
        r2.vehicle_id@ == r1.vehicle_id@,
        r2.timestamp == r1.timestamp,
    ensures
        c.len() == b.len(),
        forall|k: int| 0 <= k < c.len() ==> (#[trigger] c[k]).waypoints@ == b[k].waypoints@,
        exists|k: int|
            0 <= k < c.len() && c[k].vehicle_id@ == r1.vehicle_id@ && has_timestamp(
                c[k].waypoints@,
                r1.timestamp,
            ) && timestamps_unique(c[k].waypoints@),
{
    let k = lemma_ingested_has(a, r1, b);
    assert(trip_ingested(b[k], r2, c[k]));
    assert forall|j: int| 0 <= j < c.len() implies (#[trigger] c[j]).waypoints@ == b[j].waypoints@ by {
        if b[j].vehicle_id@ == r2.vehicle_id@ {
            assert(j == k);
        }
    }
    assert(trip_wf(b[k]));
}

fn names_contains(nodes: &Vec<String>, s: &String) -> (r: bool)
    ensures
        r == names(nodes@).contains(s@),
{
    let mut i: usize = 0;
    while i < nodes.len()
        invariant
            i <= nodes@.len(),
            forall|j: int| 0 <= j < i ==> nodes@[j]@ != s@,
        decreases nodes@.len() - i,
    {
        if nodes[i] == *s {
            assert(names(nodes@)[i as int] == s@);
            return true;
        }
        i = i + 1;
    }
    assert forall|j: int| 0 <= j < names(nodes@).len() implies names(nodes@)[j] != s@ by {
        assert(names(nodes@)[j] == nodes@[j]@);
    }
    false
}

fn contains_timestamp(wps: &Vec<Waypoint>, t: u64) -> (r: bool)
    ensures
        r == has_timestamp(wps@, t),
{
    let mut i: usize = 0;
    while i < wps.len()
        invariant
            i <= wps@.len(),
            forall|j: int| 0 <= j < i ==> wps@[j].timestamp != t,
        decreases wps@.len() - i,
    {
        if wps[i].timestamp == t {
            return true;
        }
        i = i + 1;
    }
    false
}

/// Adds the observation (`timestamp`, `coordinates`, `stop`) to `trip` unless
/// the trip already holds a waypoint at that timestamp.
fn add_observation(trip: &mut Trip, timestamp: u64, coordinates: [i32; 2], stop: Option<String>)
    requires
        trip_wf(*old(trip)),
    ensures
        trip_wf(*final(trip)),
        final(trip).vehicle_id == old(trip).vehicle_id,
        final(trip).start_time == old(trip).start_time,
        final(trip).end_time == old(trip).end_time,
        if has_timestamp(old(trip).waypoints@, timestamp) {
            final(trip).waypoints@ == old(trip).waypoints@ && final(trip).nodes@ == old(trip).nodes@
        } else {
            &&& final(trip).waypoints@ == old(trip).waypoints@.push(
                (Waypoint { stop_id: stop, coordinates, timestamp }),
            )
            &&& names(final(trip).nodes@) == nodes_after(names(old(trip).nodes@), stop)
        },
{
    if contains_timestamp(&trip.waypoints, timestamp) {
        return;
    }
    match &stop {
        Some(s) => {
            if !names_contains(&trip.nodes, s) {
                let c = s.clone();
                trip.nodes.push(c);
                assert(names(trip.nodes@) =~= names(old(trip).nodes@).push(s@));
            }
        },
        None => {},
    }
    trip.waypoints.push(Waypoint { stop_id: stop, coordinates, timestamp });
}

impl TripContainer {
    /// The trips are keyed by vehicle and each is well formed.
    pub open spec fn wf(&self) -> bool {
        trips_wf(self.trips@)
    }

    fn find_trip(&self, vehicle_id: &String) -> (r: Option<usize>)
        ensures
            match r {
                Some(k) => k < self.trips@.len() && self.trips@[k as int].vehicle_id@ == vehicle_id@,
                None => forall|k: int|
                    0 <= k < self.trips@.len() ==> self.trips@[k].vehicle_id@ != vehicle_id@,
            },
    {
        let mut i: usize = 0;
        while i < self.trips.len()
            invariant
                i <= self.trips@.len(),
                forall|k: int| 0 <= k < i ==> self.trips@[k].vehicle_id@ != vehicle_id@,
            decreases self.trips@.len() - i,
        {
            if self.trips[i].vehicle_id == *vehicle_id {
                return Some(i);
            }
            i = i + 1;
        }
        None
    }

    /// Takes in one position record: a waypoint is added to the vehicle's trip
    /// (created on first sight) unless it already holds one at that timestamp.
    pub fn ingest(&mut self, rec: PositionRecord)
        requires
            old(self).wf(),
        ensures
            final(self).wf(),
            ingested(old(self).trips@, rec, final(self).trips@),
            final(self).start_timestamp == old(self).start_timestamp,
            final(self).loop_length == old(self).loop_length,
            final(self).time_multiplier == old(self).time_multiplier,
    {
        let ghost r0 = rec;
        let ghost ts = self.trips@;
        let PositionRecord { vehicle_id, timestamp, coordinates, stop_id, stopped } = rec;
        let stop = if stopped {
            stop_id
        } else {
            None
        };
        match self.find_trip(&vehicle_id) {
            Some(k) => {
                let mut trip = self.trips.remove(k);
                add_observation(&mut trip, timestamp, coordinates, stop);
                self.trips.insert(k, trip);
                assert(self.trips@ =~= ts.update(k as int, trip));
                assert(forall|j: int| 0 <= j < ts.len() && j != k ==> ts[j].vehicle_id@ != r0.vehicle_id@);
            },
            None => {
                let mut trip = Trip {
                    nodes: Vec::new(),
                    vehicle_id,
                    start_time: 0,
                    end_time: 0,
                    waypoints: Vec::new(),
                };
                assert(names(trip.nodes@) =~= Seq::empty());
                add_observation(&mut trip, timestamp, coordinates, stop);
                assert(trip.waypoints@ =~= seq![waypoint_of(r0)]);
                self.trips.push(trip);
            },
        }
    }
}

} // verus!
