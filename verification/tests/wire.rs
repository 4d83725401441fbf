use stost::connection::{Connection, Route, Station};
use stost::wire::serde::{deserialize_protobuf, from_mtime, serialize_protobuf, to_mtime, QueryMetadata};
use stost::wire::wire;

#[test]
fn to_mtime_rounds_half_away_from_zero() {
    assert_eq!(to_mtime(1000, 1000), 0);
    assert_eq!(to_mtime(1090, 1000), 2);
    assert_eq!(to_mtime(1029, 1000), 0);
    assert_eq!(to_mtime(1030, 1000), 1);
    assert_eq!(to_mtime(970, 1000), -1);
    assert_eq!(to_mtime(971, 1000), 0);
    assert_eq!(to_mtime(1000 + 3600, 1000), 60);
}

#[test]
fn to_mtime_saturates() {
    assert_eq!(to_mtime(i64::MAX, 0), i32::MAX);
    assert_eq!(to_mtime(i64::MIN, 0), i32::MIN);
}

#[test]
fn from_mtime_is_exact() {
    assert_eq!(from_mtime(0, 1700000000), 1700000000);
    assert_eq!(from_mtime(2, 1000), 1120);
    assert_eq!(from_mtime(-3, 1000), 820);
}

#[test]
fn to_mtime_undoes_from_mtime() {
    for m in [-100, -1, 0, 1, 7, 1440] {
        assert_eq!(to_mtime(from_mtime(m, 1700000000), 1700000000), m);
    }
}

fn stop(scheduled: i64, delay: i32, live: bool) -> Option<wire::StopInfo> {
    Some(wire::StopInfo { scheduled, delay_minutes: delay, is_live: live })
}

fn conn(from: &str, to: &str, dep: i64, arr: i64, delay: Option<i32>) -> wire::Connection {
    wire::Connection {
        from_id: from.to_string(),
        to_id: to.to_string(),
        cancelled: false,
        departure: stop(dep, delay.unwrap_or(0), delay.is_some()),
        arrival: stop(arr, 0, false),
        source_id: 0,
    }
}

fn message() -> wire::Message {
    let start = 1_000_000;
    wire::Message {
        timetable: Some(wire::Timetable {
            stations: vec![
                wire::Station { id: "a".to_string(), name: "A".to_string(), parent: String::new() },
                wire::Station { id: "b".to_string(), name: "B".to_string(), parent: String::new() },
                wire::Station { id: "c".to_string(), name: "C".to_string(), parent: String::new() },
            ],
            routes: vec![
                wire::Route {
                    id: "r1".to_string(),
                    name: "R1".to_string(),
                    product_type: 2,
                    message: String::new(),
                    direction: String::new(),
                    trips: vec![
                        wire::Trip {
                            connections: vec![
                                conn("a", "b", start + 600, start + 1200, Some(3)),
                                conn("b", "c", start + 1260, start + 1800, None),
                            ],
                        },
                        wire::Trip { connections: vec![conn("a", "c", start + 300, start + 1500, None)] },
                    ],
                },
                wire::Route {
                    id: "w".to_string(),
                    name: String::new(),
                    product_type: 100,
                    message: String::new(),
                    direction: String::new(),
                    trips: vec![wire::Trip { connections: vec![conn("c", "a", start + 1900, start + 2000, None)] }],
                },
            ],
            start_time: start,
        }),
        query: Some(wire::Query { origin: "a".to_string(), destination: "c".to_string(), now: 42 }),
        system: "de".to_string(),
    }
}

#[test]
fn deserialize_reads_stations_routes_and_connections() {
    let mut stations = vec![];
    let mut routes = vec![];
    let mut connections = vec![];
    let m = deserialize_protobuf(&message(), &mut stations, &mut routes, &mut connections);
    assert_eq!(stations.len(), 3);
    assert_eq!(stations[1].id, "b");
    assert_eq!(stations[1].name, "B");
    assert_eq!(routes.len(), 2);
    assert_eq!(routes[0].id, "r1");
    assert_eq!(routes[0].name, "");
    assert_eq!(routes[1].product_type, 100);
    assert_eq!(connections.len(), 4);
    let c0 = &connections[0];
    assert_eq!((c0.id, c0.route_idx, c0.trip_id, c0.from_idx, c0.to_idx), (0, 0, 0, 0, 1));
    assert_eq!(c0.departure.scheduled, 10);
    assert_eq!(c0.departure.delay, Some(3));
    assert_eq!(c0.arrival.scheduled, 20);
    assert_eq!(c0.arrival.delay, None);
    assert_eq!(connections[1].trip_id, 0);
    assert_eq!(connections[2].trip_id, 1);
    assert_eq!(connections[3].route_idx, 1);
    assert_eq!(connections[3].trip_id, 0);
    assert!(!connections[3].departure.in_out_allowed);
    assert!(connections[3].arrival.in_out_allowed);
    assert!(connections[0].departure.in_out_allowed);
    // departures sorted by projected departure: trip 1 leaves at 5, trip 0 at 10 + 3
    assert_eq!(stations[0].departures, vec![2, 0]);
    assert_eq!(stations[2].arrivals, vec![1, 2]);
    assert_eq!(stations[0].arrivals, vec![3]);
    assert_eq!(m.start_ts, 1_000_000);
    assert_eq!(m.origin_id, "a");
    assert_eq!(m.origin_idx, 0);
    assert_eq!(m.destination_id, "c");
    assert_eq!(m.destination_idx, 2);
    assert_eq!(m.now, 42);
    assert_eq!(m.system, "de");
}

#[test]
fn deserialize_unknown_query_station_is_zero() {
    let mut msg = message();
    msg.query = Some(wire::Query { origin: "x".to_string(), destination: "b".to_string(), now: 0 });
    let mut stations = vec![];
    let mut routes = vec![];
    let mut connections = vec![];
    let m = deserialize_protobuf(&msg, &mut stations, &mut routes, &mut connections);
    assert_eq!(m.origin_idx, 0);
    assert_eq!(m.destination_idx, 1);
}

#[test]
fn serialize_groups_connections_into_trips() {
    let mut s1 = Station::new("b".to_string(), "B".to_string(), vec![]);
    s1.parent_idx = 12;
    let stations = vec![Station::new("a".to_string(), "A".to_string(), vec![]), s1];
    let routes = vec![Route::new("r".to_string(), "R".to_string(), 2)];
    let mut walk = Connection::new(2, 0, 100, 5, false, 1, 40, None, 0, 45, None);
    walk.message = "walking".to_string();
    let connections = vec![
        Connection::new(0, 0, 2, 7, false, 0, 10, Some(2), 1, 20, None),
        Connection::new(1, 0, 2, 7, false, 1, 21, None, 0, 30, None),
        walk,
    ];
    let metadata = QueryMetadata {
        start_ts: 1000,
        origin_id: "a".to_string(),
        origin_idx: 0,
        destination_id: "b".to_string(),
        destination_idx: 1,
        now: 5,
        system: "x".to_string(),
    };
    let name = |from: usize, to: usize| -> String { format!("{}-{}", from, to) };
    let msg = serialize_protobuf(&stations, &routes, &connections, None, &metadata, &name);
    let tt = msg.timetable.unwrap();
    assert_eq!(tt.start_time, 1000);
    assert_eq!(tt.stations.len(), 2);
    assert_eq!(tt.stations[0].parent, "");
    assert_eq!(tt.stations[1].parent, "12");
    assert_eq!(tt.routes.len(), 2);
    assert_eq!(tt.routes[0].id, "r");
    assert_eq!(tt.routes[0].product_type, 2);
    assert_eq!(tt.routes[1].id, "1");
    assert_eq!(tt.routes[1].name, "1-0");
    assert_eq!(tt.routes[1].product_type, 100);
    assert_eq!(tt.routes[1].trips.len(), 1);
    assert_eq!(tt.routes[1].trips[0].connections.len(), 1);
    // the connections are written from last to first
    assert_eq!(tt.routes[0].trips.len(), 1);
    let trip = &tt.routes[0].trips[0].connections;
    assert_eq!(trip.len(), 2);
    assert_eq!(trip[0].from_id, "b");
    assert_eq!(trip[1].from_id, "a");
    assert_eq!(trip[0].source_id, 1);
    assert_eq!(trip[1].source_id, 0);
    assert_eq!(tt.routes[1].trips[0].connections[0].source_id, 2);
    let dep = trip[1].departure.as_ref().unwrap();
    assert_eq!(dep.scheduled, 1600);
    assert_eq!(dep.delay_minutes, 2);
    assert!(dep.is_live);
    let q = msg.query.unwrap();
    assert_eq!(q.origin, "a");
    assert_eq!(q.destination, "b");
    assert_eq!(q.now, 0);
    assert_eq!(msg.system, "");
}

#[test]
fn read_gives_back_written() {
    let stations = vec![
        Station::new("a".to_string(), "A".to_string(), vec![]),
        Station::new("b".to_string(), "B".to_string(), vec![]),
        Station::new("c".to_string(), "C".to_string(), vec![]),
    ];
    let routes = vec![Route::new("r".to_string(), "R".to_string(), 2), Route::new("s".to_string(), "S".to_string(), 3)];
    let connections = vec![
        Connection::new(0, 0, 2, 7, false, 0, 10, Some(2), 1, 20, None),
        Connection::new(1, 1, 3, 8, false, 1, 21, None, 2, 30, Some(-1)),
        Connection::new(2, 0, 2, 7, false, 1, 22, None, 2, 35, Some(4)),
    ];
    let metadata = QueryMetadata {
        start_ts: 1_700_000_000,
        origin_id: "a".to_string(),
        origin_idx: 0,
        destination_id: "c".to_string(),
        destination_idx: 2,
        now: 0,
        system: String::new(),
    };
    let name = |from: usize, to: usize| -> String { format!("{}-{}", from, to) };
    let msg = serialize_protobuf(&stations, &routes, &connections, None, &metadata, &name);
    let mut read_stations = vec![];
    let mut read_routes = vec![];
    let mut read_connections = vec![];
    let m = deserialize_protobuf(&msg, &mut read_stations, &mut read_routes, &mut read_connections);
    assert_eq!(m.start_ts, metadata.start_ts);
    assert_eq!(m.origin_idx, 0);
    assert_eq!(m.destination_idx, 2);
    assert_eq!(read_stations.len(), 3);
    for (s, r) in stations.iter().zip(read_stations.iter()) {
        assert_eq!(s.id, r.id);
        assert_eq!(s.name, r.name);
    }
    assert_eq!(read_connections.len(), connections.len());
    let key = |c: &Connection| (c.from_idx, c.to_idx, c.departure.scheduled, c.departure.delay, c.arrival.scheduled, c.arrival.delay);
    for r in &read_connections {
        assert!(connections.iter().any(|c| key(c) == key(r)));
    }
    for c in &connections {
        assert!(read_connections.iter().any(|r| key(c) == key(r)));
    }
    // as multisets
    let mut written: Vec<_> = connections.iter().map(key).collect();
    let mut read: Vec<_> = read_connections.iter().map(key).collect();
    written.sort();
    read.sort();
    assert_eq!(written, read);
}

#[test]
fn serialize_writes_parents_in_decimal() {
    let mut stations = vec![];
    for (i, parent) in [9usize, 10, 1203, 100000].iter().enumerate() {
        let mut s = Station::new(format!("s{}", i), "S".to_string(), vec![]);
        s.parent_idx = *parent;
        stations.push(s);
    }
    let metadata = QueryMetadata {
        start_ts: 0,
        origin_id: "s0".to_string(),
        origin_idx: 0,
        destination_id: "s1".to_string(),
        destination_idx: 1,
        now: 0,
        system: String::new(),
    };
    let name = |from: usize, to: usize| -> String { format!("{}-{}", from, to) };
    let msg = serialize_protobuf(&stations, &[], &[], None, &metadata, &name);
    let tt = msg.timetable.unwrap();
    let parents: Vec<String> = tt.stations.iter().map(|s| s.parent.clone()).collect();
    assert_eq!(parents, vec!["9", "10", "1203", "100000"]);
}
