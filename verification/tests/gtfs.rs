use std::collections::HashMap;

use stost::connection::{Connection, Footpath, Station};
use stost::gtfs::{
    create_simulation_samples, get_station_contraction, origin_destination_sample, resolve_connection_idx, retrieve, sort_departures_by_position,
    sort_station_departures_asc, to_connecion_id, EventChange, GtfsConnection, GtfsLocation, GtfsRoute, GtfsTimetable,
    Journey, JourneyLeg,
};

fn station(id: &str, fps: Vec<Footpath>, transfer: u16) -> Station {
    let mut s = Station::new(id.to_string(), id.to_uppercase(), vec![]);
    s.footpaths = fps;
    s.transfer_time = transfer;
    s
}

#[test]
fn new_timetable_is_empty() {
    let t = GtfsTimetable::new();
    assert!(t.stations.is_empty());
    assert!(t.connections.is_empty());
    assert!(t.cut.is_empty());
    assert!(t.order.is_empty());
    assert!(t.transport_and_day_to_connection_id.is_empty());
}

#[test]
fn contraction_groups_footpath_targets() {
    let stations = vec![
        station("z", vec![], 9),
        station("a", vec![Footpath { target_location_idx: 2, duration: 4 }, Footpath { target_location_idx: 3, duration: 6 }], 2),
        station("b", vec![Footpath { target_location_idx: 1, duration: 5 }], 3),
        station("c", vec![], 1),
    ];
    let c = get_station_contraction(&stations);
    // station 1 opens group 1 with b at position 1 and c at position 2
    assert_eq!(c.stop_to_group, vec![0, 1, 1, 1]);
    assert_eq!(c.stop_to_group_idx, vec![0, 0, 1, 2]);
    assert_eq!(c.transfer_times.len(), 4 * 3);
    assert_eq!(c.get_transfer_time(0, 0), 9);
    assert_eq!(c.get_transfer_time(1, 1), 2);
    assert_eq!(c.get_transfer_time(1, 2), 4);
    assert_eq!(c.get_transfer_time(1, 3), 6);
    assert_eq!(c.get_transfer_time(2, 2), 3);
    assert_eq!(c.get_transfer_time(2, 1), 5);
    assert_eq!(c.get_transfer_time(3, 3), 1);
}

#[test]
fn contraction_group_zero_is_reopened() {
    // group 0 also marks a stop without a group, so a stop put into group 0
    // by station 0 opens a group of its own when visited
    let stations = vec![
        station("a", vec![Footpath { target_location_idx: 1, duration: 4 }], 2),
        station("b", vec![Footpath { target_location_idx: 0, duration: 5 }], 3),
    ];
    let c = get_station_contraction(&stations);
    assert_eq!(c.stop_to_group, vec![1, 1]);
    assert_eq!(c.stop_to_group_idx, vec![1, 0]);
    assert_eq!(c.get_transfer_time(0, 0), 4);
    assert_eq!(c.get_transfer_time(1, 1), 3);
    assert_eq!(c.get_transfer_time(1, 0), 5);
}

#[test]
fn contraction_uses_parent_as_group() {
    let mut s0 = station("a", vec![], 1);
    s0.parent_idx = 5;
    let stations = vec![s0, station("b", vec![], 1)];
    let c = get_station_contraction(&stations);
    assert_eq!(c.stop_to_group, vec![5, 1]);
}

fn connection(id: usize, from: usize, to: usize, dep: i32, delay: Option<i16>) -> Connection {
    Connection::new(id, 0, 1, id as i32, false, from, dep, delay, to, dep + 5, None)
}

#[test]
fn sort_departures_uses_projected_times() {
    let mut stations = vec![Station::new("a".to_string(), "A".to_string(), vec![0, 1, 2])];
    let connections = vec![connection(0, 0, 0, 10, None), connection(1, 0, 0, 5, Some(10)), connection(2, 0, 0, 8, None)];
    sort_departures_by_position(&mut stations, &connections);
    assert_eq!(stations[0].departures, vec![2, 0, 1]);
}

#[test]
fn sort_station_departures_asc_follows_order() {
    let mut stations = vec![Station::new("a".to_string(), "A".to_string(), vec![0, 1, 2])];
    // ids 0, 1, 2 live at positions 2, 0, 1
    let connections = vec![connection(1, 0, 0, 30, None), connection(2, 0, 0, 20, None), connection(0, 0, 0, 10, None)];
    let order = vec![2, 0, 1];
    sort_station_departures_asc(&mut stations, &connections, &order);
    assert_eq!(stations[0].departures, vec![0, 2, 1]);
}

#[test]
fn event_refers_to_connection_id() {
    let mut m = HashMap::new();
    m.insert((3usize, 2u16), 100usize);
    let dep = EventChange { transport_idx: 3, day_idx: 2, stop_idx: 4, is_departure: true, location_idx: None, in_out_allowed: None, delay: None };
    assert_eq!(to_connecion_id(&dep, &m), 104);
    let arr = EventChange { is_departure: false, ..dep };
    assert_eq!(to_connecion_id(&arr, &m), 103);
}

#[test]
fn journey_leg_resolves_to_positions() {
    let mut m = HashMap::new();
    m.insert((1usize, 0u16), 2usize);
    let journey = Journey { legs: vec![JourneyLeg { transport_idx: 1, day_idx: 0, from_stop_idx: 1, to_stop_idx: 3, from_location_idx: 0, to_location_idx: 2, is_footpath: false }] };
    let order = vec![6, 5, 4, 3, 2, 1, 0];
    assert_eq!(resolve_connection_idx(&journey, 0, false, &m, &order), order[3]);
    assert_eq!(resolve_connection_idx(&journey, 0, true, &m, &order), order[4]);
}

#[test]
fn samples_pick_stations_of_connections() {
    let stations = vec![station("a", vec![], 1), station("b", vec![], 1), station("c", vec![], 1)];
    let connections = vec![connection(0, 0, 1, 10, None), connection(1, 1, 2, 20, None)];
    let samples = create_simulation_samples(&stations, &connections, 20);
    assert_eq!(samples.len(), 20);
    for s in &samples {
        assert!(s.from_idx == 0 || s.from_idx == 1);
        assert!(s.to_idx == 1 || s.to_idx == 2);
        assert_eq!(s.from_id, stations[s.from_idx].id);
        assert_eq!(s.to_id, stations[s.to_idx].id);
    }
}

#[test]
fn sample_takes_departure_and_arrival_stations() {
    let stations = vec![station("a", vec![], 1), station("b", vec![], 1), station("c", vec![], 1)];
    let connections = vec![connection(0, 0, 1, 10, None), connection(1, 1, 2, 20, None)];
    let s = origin_destination_sample(&stations, &connections, 1, 0);
    assert_eq!(s.from_idx, 1);
    assert_eq!(s.from_id, "b");
    assert_eq!(s.to_idx, 1);
    assert_eq!(s.to_id, "b");
    let s = origin_destination_sample(&stations, &connections, 0, 1);
    assert_eq!((s.from_idx, s.to_idx), (0, 2));
    assert_eq!((s.from_id.as_str(), s.to_id.as_str()), ("a", "c"));
}

#[test]
fn retrieve_builds_timetable() {
    let locations = vec![
        GtfsLocation { id: "a".to_string(), name: "A".to_string(), transfer_time: 2, parent_idx: 0, footpaths: vec![Footpath { target_location_idx: 1, duration: 3 }] },
        GtfsLocation { id: "b".to_string(), name: "B".to_string(), transfer_time: 1, parent_idx: 0, footpaths: vec![] },
    ];
    let routes_in = vec![GtfsRoute { route_idx: 0, clasz: 7 }, GtfsRoute { route_idx: 12, clasz: 2 }];
    let conns_in = vec![
        GtfsConnection { id: 0, route_idx: 1, trip_id: 5, from_idx: 0, to_idx: 1, departure: 30, arrival: 40, in_allowed: true, out_allowed: false, name: "IC 1".to_string() },
        GtfsConnection { id: 1, route_idx: 1, trip_id: 6, from_idx: 0, to_idx: 1, departure: 20, arrival: 35, in_allowed: true, out_allowed: true, name: "IC 2".to_string() },
    ];
    let mut stations = vec![];
    let mut routes = vec![];
    let mut connections = vec![];
    retrieve(locations, &routes_in, &conns_in, &mut stations, &mut routes, &mut connections);
    assert_eq!(stations.len(), 2);
    assert_eq!(stations[0].transfer_time, 2);
    assert_eq!(stations[0].footpaths.len(), 1);
    assert_eq!(routes.len(), 2);
    assert_eq!(routes[1].id, "12");
    assert_eq!(routes[1].product_type, 2);
    assert_eq!(routes[1].name, "IC 1");
    assert_eq!(routes[0].name, "");
    assert_eq!(connections.len(), 2);
    assert_eq!(connections[0].product_type, 2);
    assert!(!connections[0].arrival.in_out_allowed);
    assert_eq!(stations[0].departures, vec![1, 0]);
    assert_eq!(stations[1].arrivals, vec![0, 1]);
}

#[test]
fn contraction_of_footpath_groups() {
    // stations 1, 2 and 3 each walk to the other two; station 4 stands alone
    let fp = |t: usize, d: u16| Footpath { target_location_idx: t, duration: d };
    let stations = vec![
        station("z", vec![], 9),
        station("a", vec![fp(2, 4), fp(3, 6)], 2),
        station("b", vec![fp(3, 7), fp(1, 5)], 3),
        station("c", vec![fp(1, 8), fp(2, 9)], 1),
        station("d", vec![], 4),
    ];
    let c = get_station_contraction(&stations);
    for s in 0..stations.len() {
        assert_eq!(c.get_transfer_time(s, s), stations[s].transfer_time);
        for f in &stations[s].footpaths {
            assert_eq!(c.get_transfer_time(s, f.target_location_idx), f.duration);
            assert_eq!(c.stop_to_group[f.target_location_idx], c.stop_to_group[s]);
        }
    }
    assert_eq!(c.stop_to_group[4], 4);
}
