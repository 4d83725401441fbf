use stost::connection::{Connection, Station};
use stost::connection_pairs::relevant_connection_pairs;

fn line() -> (Vec<Station>, Vec<Connection>) {
    // trip 7 runs a -> b -> c, trip 9 runs b -> c
    let mut stations = vec![
        Station::new("a".to_string(), "A".to_string(), vec![]),
        Station::new("b".to_string(), "B".to_string(), vec![]),
        Station::new("c".to_string(), "C".to_string(), vec![]),
    ];
    let connections = vec![
        Connection::new(0, 0, 1, 7, false, 0, 10, None, 1, 20, None),
        Connection::new(1, 0, 1, 7, false, 1, 22, None, 2, 30, None),
        Connection::new(2, 0, 1, 9, false, 1, 15, None, 2, 25, None),
    ];
    stations[0].departures = vec![0];
    stations[1].arrivals = vec![0];
    stations[1].departures = vec![1, 2];
    stations[2].arrivals = vec![1, 2];
    (stations, connections)
}

#[test]
fn pairs_follow_the_sorted_entries_of_a_trip() {
    let (stations, connections) = line();
    let order = vec![0, 1, 2];
    // trip 7 at a and b: departure of 0, arrival of 0, departure of 1,
    // sorted by scheduled departure then id, a departure before an arrival
    let pairs = relevant_connection_pairs(&connections, &stations, &order, &vec![0, 1]);
    assert_eq!(pairs, vec![(0, 0)]);
    // all stations: trip 7 first (it is met first), then trip 9
    let pairs = relevant_connection_pairs(&connections, &stations, &order, &vec![0, 1, 2]);
    assert_eq!(pairs, vec![(0, 0), (1, 1), (2, 2)]);
}

#[test]
fn pairs_skip_a_leading_arrival() {
    let (stations, connections) = line();
    let order = vec![0, 1, 2];
    // at b trip 7 starts with the arrival of 0, which is skipped, and the
    // departure of 1 is left alone
    assert!(relevant_connection_pairs(&connections, &stations, &order, &vec![1]).is_empty());
    // at c there are only arrivals
    assert!(relevant_connection_pairs(&connections, &stations, &order, &vec![2]).is_empty());
}

#[test]
fn pairs_read_connections_through_the_order() {
    let (stations, mut connections) = line();
    // the connections stored in reverse, found through the order
    connections.reverse();
    let order = vec![2, 1, 0];
    let pairs = relevant_connection_pairs(&connections, &stations, &order, &vec![0, 1, 2]);
    assert_eq!(pairs, vec![(0, 0), (1, 1), (2, 2)]);
}

#[test]
fn pairs_of_no_station_are_empty() {
    let (stations, connections) = line();
    let order = vec![0, 1, 2];
    assert!(relevant_connection_pairs(&connections, &stations, &order, &vec![]).is_empty());
}
