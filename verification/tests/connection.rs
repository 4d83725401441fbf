use stost::connection::{Connection, Route, Station, StopInfo};

#[test]
fn it_works() {
    assert_eq!(4, 4);
}

#[test]
fn projected_delay() {
    let s = StopInfo::new(5, Some(3));
    assert_eq!(s.projected(), 8);
}

#[test]
fn projected_wo_delay() {
    let s = StopInfo::new(5, None);
    assert_eq!(s.projected(), 5);
}

#[test]
fn projected_negative_delay() {
    let s = StopInfo::new(10, Some(-4));
    assert_eq!(s.projected(), 6);
}

#[test]
fn new_connection_sets_both_ends() {
    let c = Connection::new(7, 2, 1, 3, false, 0, 10, Some(2), 1, 20, None);
    assert_eq!(c.id, 7);
    assert_eq!(c.route_idx, 2);
    assert_eq!(c.product_type, 1);
    assert_eq!(c.trip_id, 3);
    assert_eq!(c.from_idx, 0);
    assert_eq!(c.to_idx, 1);
    assert_eq!(c.departure.scheduled, 10);
    assert_eq!(c.departure.delay, Some(2));
    assert!(c.departure.in_out_allowed);
    assert_eq!(c.arrival.scheduled, 20);
    assert_eq!(c.arrival.delay, None);
    assert!(c.arrival.in_out_allowed);
    assert_eq!(c.message, "");
}

#[test]
fn cancelled_connection_allows_no_boarding() {
    let c = Connection::new(0, 0, 1, 0, true, 0, 10, None, 1, 20, None);
    assert!(!c.departure.in_out_allowed);
    assert!(!c.arrival.in_out_allowed);
}

#[test]
fn merge_pair_joins_boarding_and_alighting() {
    let dep = Connection::new(1, 4, 2, 9, false, 3, 100, Some(1), 5, 110, None);
    let arr = Connection::new(2, 4, 2, 9, false, 5, 112, None, 6, 130, Some(3));
    let m = dep.merge_pair(&arr, 42);
    assert_eq!(m.id, 42);
    assert_eq!(m.from_idx, 3);
    assert_eq!(m.to_idx, 6);
    assert_eq!(m.departure.scheduled, 100);
    assert_eq!(m.departure.delay, Some(1));
    assert_eq!(m.arrival.scheduled, 130);
    assert_eq!(m.arrival.delay, Some(3));
    assert_eq!(m.trip_id, 9);
    assert_eq!(m.route_idx, 4);
}

#[test]
fn consecutive_connections_of_one_trip() {
    let a = Connection::new(1, 4, 2, 9, false, 3, 100, None, 5, 110, None);
    let b = Connection::new(2, 4, 2, 9, false, 5, 112, None, 6, 130, None);
    assert!(a.is_consecutive(&b));
    assert!(!b.is_consecutive(&a));
    let other_trip = Connection::new(3, 4, 2, 10, false, 5, 112, None, 6, 130, None);
    assert!(!a.is_consecutive(&other_trip));
}

#[test]
fn update_changes_only_the_given_end() {
    let mut c = Connection::new(1, 0, 1, 0, false, 3, 100, None, 5, 110, None);
    c.update(true, Some(4), Some(false), Some(5));
    assert_eq!(c.from_idx, 4);
    assert!(!c.departure.in_out_allowed);
    assert_eq!(c.departure.delay, Some(5));
    assert_eq!(c.to_idx, 5);
    assert!(c.arrival.in_out_allowed);
    assert_eq!(c.arrival.delay, None);
    c.update(false, None, None, Some(-2));
    assert_eq!(c.arrival.delay, Some(-2));
    assert_eq!(c.to_idx, 5);
    assert_eq!(c.departure.delay, Some(5));
}

#[test]
fn station_metadata_copy_has_no_connections() {
    let mut s = Station::new("id".to_string(), "name".to_string(), vec![1, 2]);
    s.add_departure(3);
    assert_eq!(s.departures, vec![1, 2, 3]);
    s.transfer_time = 4;
    s.parent_idx = 7;
    let m = s.clone_metadata();
    assert_eq!(m.id, "id");
    assert_eq!(m.name, "name");
    assert_eq!(m.transfer_time, 4);
    assert_eq!(m.parent_idx, 7);
    assert!(m.departures.is_empty());
    assert!(m.arrivals.is_empty());
    assert!(m.footpaths.is_empty());
}

#[test]
fn new_station_defaults() {
    let s = Station::new("a".to_string(), "A".to_string(), vec![]);
    assert_eq!(s.transfer_time, 1);
    assert_eq!(s.parent_idx, 0);
}

#[test]
fn new_route_has_empty_texts() {
    let r = Route::new("r".to_string(), "n".to_string(), 3);
    assert_eq!(r.id, "r");
    assert_eq!(r.name, "n");
    assert_eq!(r.product_type, 3);
    assert_eq!(r.message, "");
    assert_eq!(r.direction, "");
}
