use transit_trips::{
    is_plausible, is_realistic, rank_stops, sort_waypoints, stop_ids, total_distance_mm,
    trim_to_window, PipelineError, PositionRecord, Trip, TripContainer, Waypoint,
};

/// Great-circle distance in whole millimetres between two micro-degree points.
fn hop_mm(a: [i32; 2], b: [i32; 2]) -> u64 {
    let rad = |m: i32| (m as f64 / 1_000_000.0).to_radians();
    let (lon1, lat1, lon2, lat2) = (rad(a[0]), rad(a[1]), rad(b[0]), rad(b[1]));
    let dlat = lat2 - lat1;
    let dlon = lon2 - lon1;
    let h = (dlat / 2.0).sin().powi(2) + lat1.cos() * lat2.cos() * (dlon / 2.0).sin().powi(2);
    let c = 2.0 * h.sqrt().atan2((1.0 - h).sqrt());
    (6_371_000.0 * c * 1000.0).round() as u64
}

fn hops_of(wps: &[Waypoint]) -> Vec<u64> {
    wps.windows(2).map(|p| hop_mm(p[0].coordinates, p[1].coordinates)).collect()
}

fn rec(vehicle: &str, t: u64, lon: i32, lat: i32, stop: Option<&str>) -> PositionRecord {
    PositionRecord {
        vehicle_id: vehicle.to_string(),
        timestamp: t,
        coordinates: [lon, lat],
        stop_id: stop.map(|s| s.to_string()),
        stopped: stop.is_some(),
    }
}

fn wp(t: u64, lon: i32, lat: i32, stop: Option<&str>) -> Waypoint {
    Waypoint { stop_id: stop.map(|s| s.to_string()), coordinates: [lon, lat], timestamp: t }
}

fn trip(id: &str, wps: Vec<Waypoint>) -> Trip {
    Trip { nodes: Vec::new(), vehicle_id: id.to_string(), start_time: 0, end_time: 0, waypoints: wps }
}

fn times(wps: &[Waypoint]) -> Vec<u64> {
    wps.iter().map(|w| w.timestamp).collect()
}

/// A straight northward run: `n` waypoints, `secs` apart, `step` micro-degrees apart.
fn straight_run(n: u64, secs: u64, step: i32) -> Vec<Waypoint> {
    (0..n).map(|i| wp(1000 + i * secs, 153_000_000, -27_000_000 + step * i as i32, None)).collect()
}

#[test]
fn duplicate_record_is_taken_once() {
    let mut c = TripContainer::new();
    c.ingest(rec("V1", 100, 1, 2, Some("S1")));
    c.ingest(rec("V1", 100, 1, 2, Some("S1")));
    assert_eq!(c.trips.len(), 1);
    assert_eq!(c.trips[0].waypoints.len(), 1);
    assert_eq!(c.trips[0].nodes, vec!["S1".to_string()]);
}

#[test]
fn same_timestamp_other_vehicle_is_kept() {
    let mut c = TripContainer::new();
    c.ingest(rec("V1", 100, 1, 2, None));
    c.ingest(rec("V2", 100, 1, 2, None));
    c.ingest(rec("V1", 100, 5, 6, Some("S9")));
    assert_eq!(c.trips.len(), 2);
    assert_eq!(c.trips[0].waypoints.len(), 1);
    assert_eq!(c.trips[0].waypoints[0].coordinates, [1, 2]);
    assert!(c.trips[0].nodes.is_empty());
    assert_eq!(c.trips[1].vehicle_id, "V2");
}

#[test]
fn stop_recorded_only_when_stopped() {
    let mut c = TripContainer::new();
    let mut r = rec("V1", 10, 0, 0, Some("S1"));
    r.stopped = false;
    c.ingest(r);
    assert!(c.trips[0].waypoints[0].stop_id.is_none());
    assert!(c.trips[0].nodes.is_empty());
}

#[test]
fn two_snapshots_fast_trip_is_rejected() {
    let mut c = TripContainer::new();
    // first file
    c.ingest(rec("V1", 100, 0, 0, Some("S1")));
    c.ingest(rec("V1", 130, 10_000, 0, None));
    // second file
    c.ingest(rec("V1", 100, 0, 0, Some("S1")));
    c.ingest(rec("V1", 160, 20_000, 0, Some("S2")));
    assert_eq!(c.trips.len(), 1);
    assert_eq!(times(&c.trips[0].waypoints), vec![100, 130, 160]);
    assert_eq!(c.trips[0].nodes, vec!["S1".to_string(), "S2".to_string()]);
    c.order_and_trim(None, None);
    let hops = hops_of(&c.trips[0].waypoints);
    assert!(hops[0] > 1_100_000 && hops[0] < 1_120_000);
    assert!(!is_realistic(&c.trips[0].waypoints, &hops));
    assert!(!is_plausible(&c.trips[0].waypoints, &hops));
}

#[test]
fn eleven_waypoint_trip_survives() {
    let wps = straight_run(11, 60, 1_000);
    let hops = hops_of(&wps);
    assert!(total_distance_mm(&hops) > 1_100_000);
    assert!(is_realistic(&wps, &hops));
    assert!(is_plausible(&wps, &hops));
}

#[test]
fn nine_waypoint_trip_is_rejected() {
    let wps = straight_run(9, 60, 1_000);
    let hops = hops_of(&wps);
    assert!(is_realistic(&wps, &hops));
    assert!(!is_plausible(&wps, &hops));
}

#[test]
fn short_total_distance_is_rejected() {
    let wps = straight_run(20, 60, 100);
    let hops = hops_of(&wps);
    assert!(is_realistic(&wps, &hops));
    assert!(total_distance_mm(&hops) < 1_000_000);
    assert!(!is_plausible(&wps, &hops));
}

#[test]
fn long_single_hop_is_unrealistic() {
    let wps = vec![wp(0, 0, 0, None), wp(600, 0, 0, None)];
    assert!(!is_realistic(&wps, &vec![1_833_001]));
    assert!(is_realistic(&wps, &vec![1_833_000]));
}

#[test]
fn rate_limit_is_per_minute() {
    let wps = vec![wp(0, 0, 0, None), wp(30, 0, 0, None)];
    assert!(is_realistic(&wps, &vec![916_500]));
    assert!(!is_realistic(&wps, &vec![916_501]));
    let same = vec![wp(5, 0, 0, None), wp(5, 0, 0, None)];
    assert!(is_realistic(&same, &vec![0]));
    assert!(!is_realistic(&same, &vec![1]));
}

#[test]
fn total_distance_sums_hops() {
    assert_eq!(total_distance_mm(&vec![]), 0);
    assert_eq!(total_distance_mm(&vec![1, 2, u64::MAX]), u64::MAX as u128 + 3);
}

#[test]
fn sorting_orders_by_time() {
    let wps = vec![wp(30, 0, 0, None), wp(10, 1, 0, None), wp(20, 2, 0, None)];
    let sorted = sort_waypoints(wps);
    assert_eq!(times(&sorted), vec![10, 20, 30]);
    assert_eq!(sorted[0].coordinates, [1, 0]);
}

#[test]
fn sorting_sorted_is_noop() {
    let wps = vec![wp(10, 3, 0, None), wp(10, 4, 0, None), wp(20, 5, 0, None)];
    let sorted = sort_waypoints(wps);
    assert_eq!(times(&sorted), vec![10, 10, 20]);
    assert_eq!(sorted[0].coordinates, [3, 0]);
    assert_eq!(sorted[1].coordinates, [4, 0]);
}

#[test]
fn window_bounds_are_exclusive() {
    let wps: Vec<Waypoint> = (1..=6).map(|t| wp(t * 10, 0, 0, None)).collect();
    let both = trim_to_window(wps, Some(20), Some(50));
    assert_eq!(times(&both), vec![30, 40]);
    let wps: Vec<Waypoint> = (1..=3).map(|t| wp(t * 10, 0, 0, None)).collect();
    assert_eq!(times(&trim_to_window(wps, None, Some(30))), vec![10, 20]);
    let wps: Vec<Waypoint> = (1..=3).map(|t| wp(t * 10, 0, 0, None)).collect();
    assert_eq!(times(&trim_to_window(wps, None, None)), vec![10, 20, 30]);
}

#[test]
fn trimming_never_helps_a_trip() {
    let wps = straight_run(12, 60, 1_000);
    let hops = hops_of(&wps);
    assert!(is_plausible(&wps, &hops));
    let trimmed = trim_to_window(straight_run(12, 60, 1_000), Some(1000), None);
    assert_eq!(trimmed.len(), 11);
    let th = hops_of(&trimmed);
    assert!(total_distance_mm(&th) < total_distance_mm(&hops));
    let trimmed = trim_to_window(straight_run(12, 60, 1_000), Some(1060), None);
    assert!(!is_plausible(&trimmed, &hops_of(&trimmed)));
}

#[test]
fn normalization_rebases_times() {
    let mut c = TripContainer::new();
    c.trips.push(trip("A", vec![wp(100, 0, 0, None), wp(200, 0, 0, None)]));
    c.trips.push(trip("B", vec![wp(50, 0, 0, None), wp(300, 0, 0, None)]));
    c.normalize();
    assert_eq!(c.start_timestamp, 50);
    assert_eq!(c.loop_length, 250);
    assert_eq!(times(&c.trips[0].waypoints), vec![50, 150]);
    assert_eq!((c.trips[0].start_time, c.trips[0].end_time), (50, 150));
    assert_eq!(times(&c.trips[1].waypoints), vec![0, 250]);
    assert_eq!((c.trips[1].start_time, c.trips[1].end_time), (0, 250));
    assert_eq!(c.time_multiplier, 1);
}

#[test]
fn no_stopped_records_fails() {
    let trips = vec![trip("A", straight_run(3, 60, 10))];
    assert!(matches!(rank_stops(&trips), Err(PipelineError::NoTripStops)));
}

#[test]
fn stops_ranked_by_visits() {
    let trips = vec![
        trip("A", vec![wp(1, 7, 8, Some("X")), wp(2, 1, 1, Some("Y")), wp(3, 0, 0, None)]),
        trip("B", vec![wp(4, 9, 9, Some("Y")), wp(5, 0, 0, Some("Z")), wp(6, 2, 2, Some("X"))]),
        trip("C", vec![wp(7, 3, 3, Some("Y"))]),
    ];
    let r = rank_stops(&trips).unwrap_or_else(|_| panic!("stops expected"));
    let ids = stop_ids(&r);
    assert_eq!(ids, vec!["Y".to_string(), "X".to_string(), "Z".to_string()]);
    assert_eq!((r[0].visits, r[1].visits, r[2].visits), (3, 2, 1));
    assert_eq!(r[0].stop.coordinates, [1, 1]);
    assert_eq!(r[1].stop.coordinates, [7, 8]);
    assert_eq!((r[0].first_seen, r[1].first_seen, r[2].first_seen), (1, 0, 3));
}

#[test]
fn ranking_caps_at_fifty() {
    let mut wps = Vec::new();
    let mut t = 0;
    for i in 0..55 {
        t += 1;
        wps.push(wp(t, i, 0, Some(&format!("S{}", i))));
    }
    for i in 0..55 {
        for _ in 0..(i % 5) {
            t += 1;
            wps.push(wp(t, 0, 0, Some(&format!("S{}", i))));
        }
    }
    let r = rank_stops(&vec![trip("A", wps)]).unwrap_or_else(|_| panic!("stops expected"));
    assert_eq!(r.len(), 50);
    for p in r.windows(2) {
        assert!(p[0].visits >= p[1].visits);
        if p[0].visits == p[1].visits {
            assert!(p[0].first_seen < p[1].first_seen);
        }
    }
    let ids = stop_ids(&r);
    assert_eq!(ids[0], "S4");
    assert_eq!(r[0].visits, 5);
    assert_eq!(ids[49], "S25");
    for dropped in ["S30", "S35", "S40", "S45", "S50"] {
        assert!(!ids.iter().any(|s| s == dropped));
    }
}

#[test]
fn conclude_without_plausible_trip_fails() {
    let mut c = TripContainer::new();
    c.trips.push(trip("A", straight_run(5, 60, 1_000)));
    let hops = vec![hops_of(&c.trips[0].waypoints)];
    assert!(matches!(c.conclude(&hops), Err(PipelineError::NoTripsMatch)));
    assert!(c.trips.is_empty());
}

#[test]
fn conclude_runs_the_stages() {
    let mut c = TripContainer::new();
    let mut run = straight_run(11, 60, 1_000);
    run[3].stop_id = Some("S1".to_string());
    c.trips.push(trip("A", run));
    c.trips.push(trip("B", straight_run(3, 60, 1_000)));
    let hops: Vec<Vec<u64>> = c.trips.iter().map(|t| hops_of(&t.waypoints)).collect();
    let r = c.conclude(&hops).unwrap_or_else(|_| panic!("ranking expected"));
    assert_eq!(c.trips.len(), 1);
    assert_eq!(c.start_timestamp, 1000);
    assert_eq!(c.loop_length, 600);
    assert_eq!(c.trips[0].start_time, 0);
    assert_eq!(stop_ids(&r), vec!["S1".to_string()]);
}
