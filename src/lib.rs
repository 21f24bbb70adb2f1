//! Reconstruction of per-vehicle trips from transit position snapshots:
//! assembly, ordering, plausibility filtering, time normalisation and stop ranking.
//!
//! Coordinates are held as whole micro-degrees (six decimal places), and
//! distances between waypoints as whole millimetres supplied by the caller.

mod types;
pub mod assemble;
pub mod validate;
pub mod pipeline;
pub mod rank;

pub use types::{AppSettings, PositionRecord, Trip, TripContainer, TripStop, Waypoint, PipelineError};
pub use rank::{rank_stops, stop_ids, StopTally, MAX_RANKED_STOPS};
pub use validate::{
    is_plausible, is_realistic, sort_waypoints, total_distance_mm, trim_to_window, MAX_HOP_MM,
    MIN_DISTANCE_MM, MIN_WAYPOINTS,
};
