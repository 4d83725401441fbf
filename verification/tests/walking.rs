use stost::connection::{Connection, Footpath, Station};
use stost::relevant_timetable::create_relevant_timetable_with_extended_walking;
use stost::walking::{
    create_materialized_initial_footpaths, create_materialized_quadratic_footpaths, create_quadratic_footpaths,
    shorten_footpaths, WALKING_MSG, WALKING_PRODUCT_TYPE,
};

fn station(id: &str) -> Station {
    Station::new(id.to_string(), id.to_uppercase(), vec![])
}

#[test]
fn shorten_caps_by_walking_time() {
    let mut s0 = station("a");
    s0.footpaths = vec![Footpath { target_location_idx: 1, duration: 10 }, Footpath { target_location_idx: 2, duration: 3 }];
    s0.transfer_time = 5;
    let mut stations = vec![s0, station("b"), station("c")];
    let walk = |_a: usize, b: usize| -> u16 { if b == 1 { 4 } else { 0 } };
    shorten_footpaths(&mut stations, &walk);
    assert_eq!(stations[0].footpaths[0].duration, 4);
    // a walking time of zero still counts as one minute
    assert_eq!(stations[0].footpaths[1].duration, 1);
    assert_eq!(stations[0].transfer_time, 1);
    assert_eq!(stations[1].transfer_time, 1);
}

#[test]
fn quadratic_footpaths_to_near_stations() {
    let mut stations = vec![station("a"), station("b"), station("c")];
    let walk = |a: usize, b: usize| -> Option<u16> { if a + b == 1 { Some(7) } else { None } };
    create_quadratic_footpaths(&mut stations, &walk);
    assert_eq!(stations[0].footpaths, vec![Footpath { target_location_idx: 1, duration: 7 }]);
    assert_eq!(stations[1].footpaths, vec![Footpath { target_location_idx: 0, duration: 7 }]);
    assert!(stations[2].footpaths.is_empty());
}

fn connection(id: usize, from: usize, to: usize, dep: i32, arr: i32) -> Connection {
    Connection::new(id, id, 1, id as i32, false, from, dep, None, to, arr, None)
}

#[test]
fn initial_footpaths_reach_departures_at_neighbours() {
    let mut s0 = station("o");
    s0.footpaths = vec![Footpath { target_location_idx: 1, duration: 5 }];
    let mut stations = vec![s0, station("n"), station("d")];
    let mut connections = vec![connection(0, 1, 2, 20, 30), connection(1, 1, 2, 6, 16)];
    stations[1].departures = vec![0, 1];
    stations[2].arrivals = vec![0, 1];
    create_materialized_initial_footpaths(0, &mut stations, &mut connections);
    // the departure at 6 would need a start before time zero (6 - 3 - 5 < 0)
    assert_eq!(connections.len(), 3);
    let w = &connections[2];
    assert_eq!(w.id, 2);
    assert_eq!(w.from_idx, 0);
    assert_eq!(w.to_idx, 1);
    assert_eq!(w.trip_id, 0);
    assert_eq!(w.product_type, WALKING_PRODUCT_TYPE);
    assert_eq!(w.message, WALKING_MSG);
    assert_eq!(w.arrival.scheduled, 17);
    assert_eq!(w.departure.scheduled, 12);
    assert!(!w.departure.in_out_allowed);
    assert_eq!(stations[0].departures, vec![2]);
    assert_eq!(stations[1].arrivals, vec![2]);
    assert_eq!(stations[1].departures, vec![1, 0]);
}

#[test]
fn quadratic_walks_continue_arrivals() {
    let mut stations = vec![station("a"), station("b"), station("c")];
    let mut connections = vec![connection(0, 0, 1, 10, 20)];
    stations[0].departures = vec![0];
    stations[1].arrivals = vec![0];
    let walk = |from: usize, to: usize| -> Option<u16> { if from == 1 && to == 2 { Some(4) } else { None } };
    create_materialized_quadratic_footpaths(&mut stations, &mut connections, &walk);
    assert_eq!(connections.len(), 2);
    let w = &connections[1];
    assert_eq!(w.id, 1);
    assert_eq!(w.from_idx, 1);
    assert_eq!(w.to_idx, 2);
    assert_eq!(w.departure.scheduled, 20);
    assert_eq!(w.arrival.scheduled, 24);
    assert_eq!(w.message, WALKING_MSG);
    assert_eq!(stations[1].departures, vec![1]);
    assert_eq!(stations[2].arrivals, vec![1]);
}

#[test]
fn relevant_timetable_joins_pairs_and_adds_walks() {
    let stations = vec![station("a"), station("b"), station("c"), station("d")];
    let connections = vec![
        connection(0, 0, 1, 10, 20),
        connection(1, 1, 2, 21, 30),
        connection(2, 2, 3, 31, 40),
    ];
    let order = vec![0, 1, 2];
    // board connection 0, alight from connection 1 (same run in this example)
    let pairs = vec![(1, 0)];
    let relevant = vec![3];
    let walk = |from: usize, to: usize| -> Option<u16> { if from == 2 && to == 3 { Some(2) } else { None } };
    let (tt, o, d) = create_relevant_timetable_with_extended_walking(&connections, &stations, &order, &pairs, &relevant, 0, 2, &walk);
    assert_eq!(o, 0);
    assert_eq!(d, 1);
    assert_eq!(tt.stations.len(), 3);
    assert_eq!(tt.stations[0].id, "a");
    assert_eq!(tt.stations[1].id, "c");
    assert_eq!(tt.stations[2].id, "d");
    assert_eq!(tt.connections.len(), 2);
    let m = &tt.connections[0];
    assert_eq!((m.id, m.from_idx, m.to_idx), (0, 0, 1));
    assert_eq!(m.departure.scheduled, 10);
    assert_eq!(m.arrival.scheduled, 30);
    let w = &tt.connections[1];
    assert_eq!((w.id, w.from_idx, w.to_idx), (1, 1, 2));
    assert_eq!(w.departure.scheduled, 30);
    assert_eq!(w.arrival.scheduled, 32);
    assert_eq!(tt.order, vec![0, 1]);
    assert!(tt.cut.is_empty());
    assert_eq!(tt.stations[0].departures, vec![0]);
    assert_eq!(tt.stations[1].arrivals, vec![0]);
    assert_eq!(tt.stations[1].departures, vec![1]);
    assert_eq!(tt.stations[2].arrivals, vec![1]);
}

#[test]
fn relevant_timetable_keeps_only_used_stations() {
    let stations = vec![station("a"), station("b"), station("c"), station("d")];
    let connections = vec![connection(0, 0, 1, 10, 20), connection(1, 2, 3, 21, 30)];
    let order = vec![0, 1];
    // only the second connection is joined with itself; origin a, destination b
    let pairs = vec![(1, 1)];
    let no_walk = |_from: usize, _to: usize| -> Option<u16> { None };
    let (tt, o, d) = create_relevant_timetable_with_extended_walking(&connections, &stations, &order, &pairs, &vec![], 0, 1, &no_walk);
    assert_eq!((o, d), (0, 1));
    assert_eq!(tt.stations.len(), 4);
    for (t, s) in tt.stations.iter().enumerate() {
        if t != o && t != d {
            assert!(!s.departures.is_empty() || !s.arrivals.is_empty());
        }
    }
    assert!(tt.stations[o].departures.is_empty() && tt.stations[o].arrivals.is_empty());
}

#[test]
fn initial_walks_along_a_footpath_to_the_origin_itself() {
    let mut stations = vec![station("a"), station("b")];
    stations[0].footpaths = vec![Footpath { target_location_idx: 0, duration: 2 }];
    let mut connections = vec![connection(0, 0, 1, 20, 30)];
    stations[0].departures = vec![0];
    stations[1].arrivals = vec![0];
    create_materialized_initial_footpaths(0, &mut stations, &mut connections);
    assert_eq!(connections.len(), 2);
    let w = &connections[1];
    assert_eq!(w.id, 1);
    assert_eq!(w.from_idx, 0);
    assert_eq!(w.to_idx, 0);
    assert_eq!(w.arrival.scheduled, 17);
    assert_eq!(w.departure.scheduled, 15);
    // the walk departs before connection 0, so it comes first
    assert_eq!(stations[0].departures, vec![1, 0]);
    assert_eq!(stations[0].arrivals, vec![1]);
}
