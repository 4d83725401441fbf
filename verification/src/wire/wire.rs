use vstd::prelude::*;

verus! {

/// One end of a connection as exchanged on the wire: a unix timestamp and,
/// where realtime data is live, a delay in minutes.
#[derive(Debug)]
pub struct StopInfo {
    pub scheduled: i64,
    pub delay_minutes: i32,
    pub is_live: bool,
}

/// A connection as exchanged on the wire, between stations named by id.
/// `source_id` is not exchanged: on a written connection it is the id of the
/// timetable connection it was written from, so that what is known about that
/// connection elsewhere can be attached to it; it is not read.
#[derive(Debug)]
pub struct Connection {
    pub from_id: String,
    pub to_id: String,
    pub cancelled: bool,
    pub departure: Option<StopInfo>,
    pub arrival: Option<StopInfo>,
    pub source_id: usize,
}

#[derive(Debug)]
pub struct Trip {
    pub connections: Vec<Connection>,
}

#[derive(Debug)]
pub struct Route {
    pub id: String,
    pub name: String,
    pub product_type: i32,
    pub message: String,
    pub direction: String,
    pub trips: Vec<Trip>,
}

#[derive(Debug)]
pub struct Station {
    pub id: String,
    pub name: String,
    pub parent: String,
}

#[derive(Debug)]
pub struct Timetable {
    pub stations: Vec<Station>,
    pub routes: Vec<Route>,
    pub start_time: i64,
}

#[derive(Debug)]
pub struct Query {
    pub origin: String,
    pub destination: String,
    pub now: i64,
}

/// A request or response: a timetable, a query and the system it is for.
#[derive(Debug)]
pub struct Message {
    pub timetable: Option<Timetable>,
    pub query: Option<Query>,
    pub system: String,
}

} // verus!
