use vstd::prelude::*;

verus! {

/// Settings of one run of the tool.
pub struct AppSettings {
    /// True to fetch new snapshots instead of processing stored ones.
    pub get_new_data: bool,
    /// For how many minutes to fetch snapshots.
    pub get_new_data_for_this_many_minutes: u32,
    /// Address of the real-time position feed.
    pub gtfs_url: String,
    /// Directory holding the raw snapshot files.
    pub data_path: String,
    /// Directory that receives the output artifacts.
    pub output_path: String,
    /// Exclusive lower bound on waypoint timestamps, if any.
    pub expected_start_time: Option<u64>,
    /// Exclusive upper bound on waypoint timestamps, if any.
    pub expected_end_time: Option<u64>,
}

/// One vehicle position decoded from a snapshot.
pub struct PositionRecord {
    pub vehicle_id: String,
    /// Seconds since the epoch.
    pub timestamp: u64,
    /// `[longitude, latitude]` in micro-degrees.
    pub coordinates: [i32; 2],
    /// The stop the record refers to, if any.
    pub stop_id: Option<String>,
    /// True when the vehicle is stopped at `stop_id`.
    pub stopped: bool,
}

/// One observation of a vehicle within a trip.
pub struct Waypoint {
    /// Present only when the vehicle was stopped at that stop.
    pub stop_id: Option<String>,
    /// `[longitude, latitude]` in micro-degrees.
    pub coordinates: [i32; 2],
    pub timestamp: u64,
}

/// All observations of one vehicle.
pub struct Trip {
    /// Distinct stops visited, in first-visit order.
    pub nodes: Vec<String>,
    pub vehicle_id: String,
    pub start_time: u64,
    pub end_time: u64,
    pub waypoints: Vec<Waypoint>,
}

/// The surviving trips and the shared time base.
pub struct TripContainer {
    pub start_timestamp: u64,
    pub loop_length: u64,
    /// Playback speed factor, carried through unchanged.
    pub time_multiplier: u32,
    pub trips: Vec<Trip>,
}

/// A stop and the coordinates at which it was first seen.
pub struct TripStop {
    pub stop_id: String,
    pub coordinates: [i32; 2],
}

/// Conditions that end a run without output.
#[derive(PartialEq, Eq, Structural, Debug, Clone, Copy)]
pub enum PipelineError {
    /// No trip passed the plausibility filters.
    NoTripsMatch,
    /// No surviving waypoint was recorded at a stop.
    NoTripStops,
}

impl TripContainer {
    /// An empty container with time multiplier one.
    pub fn new() -> (r: TripContainer)
        ensures
            r.start_timestamp == 0,
            r.loop_length == 0,
            r.time_multiplier == 1,
            r.trips@.len() == 0,
    {
        TripContainer { start_timestamp: 0, loop_length: 0, time_multiplier: 1, trips: Vec::new() }
    }
}

} // verus!
