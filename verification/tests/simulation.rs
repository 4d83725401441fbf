use std::collections::HashMap;

use stost::connection::{Connection, Footpath, Station};
use stost::gtfs::{GtfsTimetable, Journey, JourneyLeg};
use stost::simulation::{
    can_take, choose_alternative, current_stop, fix_if_sitting_in_cancelled_trip, get_arrival_time, get_current_time,
    get_det_alternatives, get_transfer_time, log_entry_for, CurrentStop, LogEntry, StepDecision,
};

fn station(id: &str, transfer: u16, fps: Vec<Footpath>) -> Station {
    let mut s = Station::new(id.to_string(), id.to_uppercase(), vec![]);
    s.transfer_time = transfer;
    s.footpaths = fps;
    s
}

/// Stations a, b, c (a footpath of 4 minutes leads from b to c); trip 1 runs
/// a -> b -> c with connections 0 and 1, trip 2 runs b -> c with connection 2.
fn timetable() -> GtfsTimetable {
    let mut tt = GtfsTimetable::new();
    tt.stations = vec![
        station("a", 2, vec![]),
        station("b", 3, vec![Footpath { target_location_idx: 2, duration: 4 }]),
        station("c", 1, vec![]),
    ];
    tt.connections = vec![
        Connection::new(0, 0, 1, 1, false, 0, 10, None, 1, 20, Some(2)),
        Connection::new(1, 0, 1, 1, false, 1, 23, None, 2, 30, None),
        Connection::new(2, 1, 1, 2, false, 1, 21, Some(1), 2, 35, None),
    ];
    tt.order = vec![0, 1, 2];
    tt
}

#[test]
fn current_time_counts_whole_minutes() {
    assert_eq!(get_current_time(3600 + 179, 3600), 2);
    assert_eq!(get_current_time(3600, 3600), 0);
}

#[test]
fn transfer_time_depends_on_the_change() {
    let tt = timetable();
    assert_eq!(get_transfer_time(1, 1, true, &tt.stations), 0);
    assert_eq!(get_transfer_time(1, 1, false, &tt.stations), 3);
    assert_eq!(get_transfer_time(1, 2, false, &tt.stations), 4);
    let short = vec![station("x", 1, vec![Footpath { target_location_idx: 1, duration: 0 }, Footpath { target_location_idx: 1, duration: 9 }]), station("y", 1, vec![])];
    // the first footpath counts, and at least one minute
    assert_eq!(get_transfer_time(0, 1, false, &short), 1);
}

#[test]
fn arrival_time_is_the_latest_of_the_last_connection() {
    let tt = timetable();
    assert_eq!(get_arrival_time(&vec![], 7, &tt), 7);
    let log = vec![LogEntry { conn_id: 0, arrival_time_lower_bound: 5 }];
    // arrival 20 with a delay of 2
    assert_eq!(get_arrival_time(&log, 7, &tt), 22);
    let log = vec![LogEntry { conn_id: 0, arrival_time_lower_bound: 40 }];
    assert_eq!(get_arrival_time(&log, 7, &tt), 40);
}

#[test]
fn can_take_same_trip_or_after_transfer() {
    let mut tt = timetable();
    let log = vec![LogEntry { conn_id: 0, arrival_time_lower_bound: 0 }];
    // staying on trip 1
    assert!(can_take(&tt.connections[1], 22, 3, &log, &tt));
    // changing to trip 2 (departs at 22): 22 + 3 is too late
    assert!(!can_take(&tt.connections[2], 22, 3, &log, &tt));
    assert!(can_take(&tt.connections[2], 19, 3, &log, &tt));
    // nobody can leave a cancelled arrival
    tt.connections[0].arrival.in_out_allowed = false;
    assert!(!can_take(&tt.connections[2], 19, 3, &log, &tt));
    // before the first connection only the departure counts
    assert!(can_take(&tt.connections[0], 10, 0, &vec![], &tt));
}

#[test]
fn current_stop_follows_the_log() {
    let mut tt = timetable();
    assert_eq!(current_stop(0, 0, 2, &vec![], &tt), CurrentStop::At(0));
    let log = vec![LogEntry { conn_id: 0, arrival_time_lower_bound: 0 }];
    // at b, with c a footpath away: not arrived before 22
    assert_eq!(current_stop(21, 0, 2, &log, &tt), CurrentStop::NearDestination);
    assert_eq!(current_stop(22, 0, 2, &log, &tt), CurrentStop::Arrived(26));
    // with a destination out of reach the traveller is at b
    assert_eq!(current_stop(30, 0, 0, &log, &tt), CurrentStop::At(1));
    tt.connections[0].arrival.in_out_allowed = false;
    assert_eq!(current_stop(30, 0, 2, &log, &tt), CurrentStop::NearDestination);
}

#[test]
fn step_takes_the_first_possible_alternative() {
    let tt = timetable();
    let log = vec![LogEntry { conn_id: 0, arrival_time_lower_bound: 0 }];
    let alternatives = vec![(2, 2), (1, 1)];
    // not yet at b
    assert_eq!(choose_alternative(21, 22, 1, &alternatives, &log, &tt), StepDecision::Wait);
    // connection 2 leaves at 22 < 22 + 3; staying on trip 1 is possible, departing at 23
    assert_eq!(choose_alternative(22, 22, 1, &alternatives, &log, &tt), StepDecision::Wait);
    assert_eq!(choose_alternative(23, 22, 1, &alternatives, &log, &tt), StepDecision::Take(1));
    // only the unreachable alternative: stuck
    assert_eq!(choose_alternative(23, 22, 1, &vec![(2, 2)], &log, &tt), StepDecision::Stuck);
}

#[test]
fn log_entry_keeps_the_later_time() {
    let tt = timetable();
    let e = log_entry_for(&tt, 2, 1, 10);
    assert_eq!(e.conn_id, 1);
    assert_eq!(e.arrival_time_lower_bound, 22);
    let e = log_entry_for(&tt, 2, 1, 30);
    assert_eq!(e.arrival_time_lower_bound, 30);
}

#[test]
fn cancelled_trip_is_left_at_the_last_open_stop() {
    let mut tt = timetable();
    // connection 1 lets nobody out: go back to connection 0 of the same trip
    tt.connections[1].arrival.in_out_allowed = false;
    let mut log = vec![LogEntry { conn_id: 1, arrival_time_lower_bound: 5 }];
    let r = fix_if_sitting_in_cancelled_trip(&mut log, Some(0), 0, &tt);
    assert_eq!(log.len(), 1);
    assert_eq!(log[0].conn_id, 0);
    assert_eq!(r, Some(22));
    // nothing to do where the arrival is open
    let mut log = vec![LogEntry { conn_id: 0, arrival_time_lower_bound: 5 }];
    assert_eq!(fix_if_sitting_in_cancelled_trip(&mut log, None, 0, &tt), None);
    assert_eq!(log[0].conn_id, 0);
    // with no open stop after boarding the entry is dropped
    tt.connections[0].arrival.in_out_allowed = false;
    let mut log = vec![LogEntry { conn_id: 1, arrival_time_lower_bound: 5 }];
    assert_eq!(fix_if_sitting_in_cancelled_trip(&mut log, Some(1), 9, &tt), Some(9));
    assert!(log.is_empty());
}

#[test]
fn det_alternative_continues_the_journey() {
    let mut mapping = HashMap::new();
    mapping.insert((7, 0), 0);
    let leg = |from_loc: usize, to_loc: usize, from: u16, to: u16, walk: bool| JourneyLeg {
        transport_idx: 7,
        day_idx: 0,
        from_stop_idx: from,
        to_stop_idx: to,
        from_location_idx: from_loc,
        to_location_idx: to_loc,
        is_footpath: walk,
    };
    let journey = Journey { legs: vec![leg(0, 1, 0, 1, false), leg(1, 3, 0, 0, true), leg(3, 2, 1, 2, false)] };
    let order = vec![2, 1, 0];
    assert_eq!(get_det_alternatives(0, &journey, &mapping, &order), vec![(2, 2)]);
    // from station 1 the journey walks on: the leg after the walk
    assert_eq!(get_det_alternatives(1, &journey, &mapping, &order), vec![(1, 1)]);
    assert!(get_det_alternatives(5, &journey, &mapping, &order).is_empty());
}
