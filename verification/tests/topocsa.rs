use rustc_hash::FxHashSet;

use stost::connection::{Connection, Footpath, Station, StopInfo};
use stost::csameat;
use stost::topocsa::{init_order, preprocess, update, Instrumentation, Reach};

fn always(_a: &StopInfo, _ap: i16, _d: &StopInfo, _dp: i16, _t: i32) -> Reach {
    Reach::Reachable
}

#[test]
fn preprocess_empty_timetable() {
    let s = Station::new("id".to_string(), "name".to_string(), vec![]);
    let stations = vec![s];
    let mut connections: Vec<Connection> = vec![];
    let mut cut = FxHashSet::default();
    let mut order = vec![];
    let mut instr = Instrumentation::new();
    preprocess(&mut connections, &stations, &mut cut, &mut order, true, &always, &mut instr);
    assert_eq!(cut.len(), 0);
    assert!(connections.is_empty());
}

fn chain() -> (Vec<Station>, Vec<Connection>) {
    let mut stations = vec![
        Station::new("a".to_string(), "A".to_string(), vec![]),
        Station::new("b".to_string(), "B".to_string(), vec![]),
        Station::new("c".to_string(), "C".to_string(), vec![]),
    ];
    let connections = vec![
        Connection::new(0, 0, 1, 0, false, 0, 10, None, 1, 20, None),
        Connection::new(1, 1, 1, 1, false, 1, 25, None, 2, 30, None),
    ];
    stations[0].departures = vec![0];
    stations[1].arrivals = vec![0];
    stations[1].departures = vec![1];
    stations[2].arrivals = vec![1];
    (stations, connections)
}

#[test]
fn preprocess_orders_followers_first() {
    let (stations, mut connections) = chain();
    let mut cut = FxHashSet::default();
    let mut order = vec![0, 1];
    let mut instr = Instrumentation::new();
    preprocess(&mut connections, &stations, &mut cut, &mut order, true, &always, &mut instr);
    assert_eq!(connections.len(), 2);
    // every id still leads to the same connection
    assert_eq!(connections[order[0]].id, 0);
    assert_eq!(connections[order[1]].id, 1);
    // connection 1 can follow connection 0, so it finishes first
    assert!(order[1] < order[0]);
    assert!(cut.is_empty());
}

#[test]
fn init_order_is_identity() {
    let mut order = vec![];
    init_order(&mut order, 4);
    assert_eq!(order, vec![0, 1, 2, 3]);
    let mut kept = vec![3, 1];
    init_order(&mut kept, 4);
    assert_eq!(kept, vec![3, 1]);
}

#[test]
fn update_by_id() {
    let (_, mut connections) = chain();
    let order = vec![1, 0];
    connections.swap(0, 1);
    update(&mut connections, &order, 0, true, None, None, Some(4));
    assert_eq!(connections[1].id, 0);
    assert_eq!(connections[1].departure.delay, Some(4));
    assert_eq!(connections[0].departure.delay, None);
}

#[test]
fn csameat_sorts_latest_first() {
    let (_, mut connections) = chain();
    let mut order = vec![0, 1];
    let mut trips = FxHashSet::default();
    csameat::preprocess(&mut connections, &mut order, &mut trips);
    assert_eq!(connections[0].id, 1);
    assert_eq!(connections[1].id, 0);
    assert_eq!(order, vec![1, 0]);
    assert!(trips.contains(&(2, 0)));
    assert_eq!(trips.len(), 1);
}

fn never(_a: &StopInfo, _ap: i16, _d: &StopInfo, _dp: i16, _t: i32) -> Reach {
    Reach::Unreachable
}

/// Two connections between two stations that form a cycle.
fn cycle() -> (Vec<Station>, Vec<Connection>) {
    let mut stations = vec![
        Station::new("a".to_string(), "A".to_string(), vec![]),
        Station::new("b".to_string(), "B".to_string(), vec![]),
    ];
    let connections = vec![
        Connection::new(0, 0, 1, 0, false, 0, 10, None, 1, 20, None),
        Connection::new(1, 1, 1, 1, false, 1, 25, None, 0, 30, None),
    ];
    stations[0].departures = vec![0];
    stations[0].arrivals = vec![1];
    stations[1].departures = vec![1];
    stations[1].arrivals = vec![0];
    (stations, connections)
}

#[test]
fn preprocess_breaks_a_cycle() {
    let (stations, mut connections) = cycle();
    let mut cut = FxHashSet::default();
    let mut order = vec![0, 1];
    let mut instr = Instrumentation::new();
    preprocess(&mut connections, &stations, &mut cut, &mut order, true, &always, &mut instr);
    assert_eq!(connections.len(), 2);
    assert_eq!(connections[order[0]].id, 0);
    assert_eq!(connections[order[1]].id, 1);
    // the transfer with the smallest slack, 1 back to 0 (-20 against 5), is cut
    assert_eq!(cut.len(), 1);
    assert!(cut.contains(&(1, 0)));
}

/// Three connections in a cycle whose lightest transfer lies inside the
/// search path rather than at the transfer that closes it.
fn cycle_of_three() -> (Vec<Station>, Vec<Connection>) {
    let mut stations = vec![
        Station::new("a".to_string(), "A".to_string(), vec![]),
        Station::new("b".to_string(), "B".to_string(), vec![]),
        Station::new("c".to_string(), "C".to_string(), vec![]),
    ];
    let connections = vec![
        Connection::new(0, 0, 1, 0, false, 0, 10, None, 1, 12, None),
        Connection::new(1, 1, 1, 1, false, 1, 5, None, 2, 8, None),
        Connection::new(2, 2, 1, 2, false, 2, 9, None, 0, 20, None),
    ];
    stations[0].departures = vec![0];
    stations[0].arrivals = vec![2];
    stations[1].departures = vec![1];
    stations[1].arrivals = vec![0];
    stations[2].departures = vec![2];
    stations[2].arrivals = vec![1];
    (stations, connections)
}

#[test]
fn preprocess_cuts_the_lightest_transfer_of_a_cycle() {
    let (stations, mut connections) = cycle_of_three();
    let mut cut = FxHashSet::default();
    let mut order = vec![0, 1, 2];
    let mut instr = Instrumentation::new();
    preprocess(&mut connections, &stations, &mut cut, &mut order, true, &always, &mut instr);
    // slacks: 1 -> 2 is 1, 2 -> 0 is -10, 0 -> 1 (closing the cycle) is -7
    assert_eq!(cut.len(), 1);
    assert!(cut.contains(&(2, 0)));
    for id in 0..3 {
        assert_eq!(connections[order[id]].id, id);
    }
    // the remaining transfers keep followers first
    assert!(order[2] < order[1]);
    assert!(order[1] < order[0]);
}

#[test]
fn preprocess_without_recording_keeps_cut_empty() {
    let (stations, mut connections) = cycle();
    let mut cut = FxHashSet::default();
    cut.insert((7, 7));
    let mut order = vec![0, 1];
    let mut instr = Instrumentation::new();
    preprocess(&mut connections, &stations, &mut cut, &mut order, false, &always, &mut instr);
    assert!(cut.is_empty());
    assert_eq!(connections[order[0]].id, 0);
    assert_eq!(connections[order[1]].id, 1);
}

#[test]
fn preprocess_skips_unreachable_transfers() {
    let (stations, mut connections) = chain();
    let mut cut = FxHashSet::default();
    let mut order = vec![0, 1];
    let mut instr = Instrumentation::new();
    preprocess(&mut connections, &stations, &mut cut, &mut order, true, &never, &mut instr);
    // no transfer is followed: the earlier departure is searched and
    // finished first
    assert!(order[0] < order[1]);
    assert!(cut.is_empty());
}

#[test]
fn preprocess_orders_followers_over_footpaths() {
    // 0 arrives at b; b has a footpath to c, where 1 departs; 2 departs at b
    let mut stations = vec![
        Station::new("a".to_string(), "A".to_string(), vec![]),
        Station::new("b".to_string(), "B".to_string(), vec![]),
        Station::new("c".to_string(), "C".to_string(), vec![]),
        Station::new("d".to_string(), "D".to_string(), vec![]),
    ];
    let mut connections = vec![
        Connection::new(0, 0, 1, 0, false, 0, 10, None, 1, 20, None),
        Connection::new(1, 1, 1, 1, false, 2, 30, None, 3, 40, None),
        Connection::new(2, 2, 1, 2, false, 1, 35, None, 3, 45, None),
    ];
    stations[0].departures = vec![0];
    stations[1].arrivals = vec![0];
    stations[1].departures = vec![2];
    stations[1].footpaths = vec![Footpath { target_location_idx: 2, duration: 5 }];
    stations[2].departures = vec![1];
    stations[3].arrivals = vec![1, 2];
    let mut cut = FxHashSet::default();
    let mut order = vec![0, 1, 2];
    let mut instr = Instrumentation::new();
    preprocess(&mut connections, &stations, &mut cut, &mut order, true, &always, &mut instr);
    for id in 0..3 {
        assert_eq!(connections[order[id]].id, id);
    }
    assert!(order[1] < order[0]);
    assert!(order[2] < order[0]);
    assert!(cut.is_empty());
}

fn rest(_a: &StopInfo, _ap: i16, _d: &StopInfo, _dp: i16, _t: i32) -> Reach {
    Reach::UnreachableRest
}

#[test]
fn preprocess_rejecting_a_stop_skips_it_whole() {
    let (stations, mut connections) = chain();
    let mut cut = FxHashSet::default();
    let mut order = vec![0, 1];
    let mut instr = Instrumentation::new();
    preprocess(&mut connections, &stations, &mut cut, &mut order, true, &rest, &mut instr);
    assert!(order[0] < order[1]);
    assert!(cut.is_empty());
}

#[test]
fn preprocess_orders_without_recording_cuts() {
    let (stations, mut connections) = chain();
    let mut cut = FxHashSet::default();
    let mut order = vec![0, 1];
    let mut instr = Instrumentation::new();
    preprocess(&mut connections, &stations, &mut cut, &mut order, false, &always, &mut instr);
    assert_eq!(connections[order[0]].id, 0);
    assert_eq!(connections[order[1]].id, 1);
    assert!(order[1] < order[0]);
    assert!(cut.is_empty());
}

#[test]
fn updates_and_preprocessing_keep_ids_in_place() {
    let (stations, mut connections) = chain();
    let mut cut = FxHashSet::default();
    let mut order = vec![];
    init_order(&mut order, connections.len());
    let mut instr = Instrumentation::new();
    preprocess(&mut connections, &stations, &mut cut, &mut order, true, &always, &mut instr);
    update(&mut connections, &order, 1, false, Some(0), None, Some(3));
    update(&mut connections, &order, 0, true, None, Some(true), None);
    for id in 0..connections.len() {
        assert_eq!(connections[order[id]].id, id);
    }
    assert_eq!(connections[order[1]].to_idx, 0);
    assert_eq!(connections[order[1]].arrival.delay, Some(3));
    preprocess(&mut connections, &stations, &mut cut, &mut order, true, &always, &mut instr);
    let mut ids: Vec<usize> = connections.iter().map(|c| c.id).collect();
    ids.sort();
    assert_eq!(ids, vec![0, 1]);
    for id in 0..connections.len() {
        assert_eq!(connections[order[id]].id, id);
    }
    assert_eq!(connections[order[1]].arrival.delay, Some(3));
}
