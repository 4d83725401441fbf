use vstd::prelude::*;

use crate::types::Mtime;

verus! {

/// A walking link from a station to another one, with its duration in minutes.
#[derive(Clone, Copy, Debug, PartialEq, Eq)]
pub struct Footpath {
    pub target_location_idx: usize,
    pub duration: u16,
}

#[derive(Debug)]
pub struct Route {
    pub id: String,
    pub name: String,
    pub product_type: i16,
    pub message: String,
    pub direction: String,
}

impl Route {
    pub fn new(id: String, name: String, product_type: i16) -> (r: Route)
        ensures
            r.id == id,
            r.name == name,
            r.product_type == product_type,
            r.message@ == Seq::<char>::empty(),
            r.direction@ == Seq::<char>::empty(),
    {
        Route { id, name, product_type, message: String::new(), direction: String::new() }
    }
}

/// A stop of the timetable. Departures and arrivals hold connection ids.
/// (The geographic position is kept by the caller: it is only used by
/// floating point distance computations.)
#[derive(Debug)]
pub struct Station {
    pub id: String,
    pub name: String,
    pub arrivals: Vec<usize>,
    pub departures: Vec<usize>,
    pub transfer_time: u16,
    pub parent_idx: usize,
    pub footpaths: Vec<Footpath>,
}

impl Station {
    pub fn new(id: String, name: String, departures: Vec<usize>) -> (s: Station)
        ensures
            s.id == id,
            s.name == name,
            s.arrivals@ == Seq::<usize>::empty(),
            s.departures@ == departures@,
            s.transfer_time == 1,
            s.parent_idx == 0,
            s.footpaths@ == Seq::<Footpath>::empty(),
    {
        Station {
            id,
            name,
            arrivals: Vec::new(),
            departures,
            transfer_time: 1,
            parent_idx: 0,
            footpaths: Vec::new(),
        }
    }

    /// A copy of the station's descriptive data, without any connections or footpaths.
    pub fn clone_metadata(&self) -> (s: Station)
        ensures
            s.id == self.id,
            s.name == self.name,
            s.arrivals@ == Seq::<usize>::empty(),
            s.departures@ == Seq::<usize>::empty(),
            s.transfer_time == self.transfer_time,
            s.parent_idx == self.parent_idx,
            s.footpaths@ == Seq::<Footpath>::empty(),
    {
        Station {
            id: self.id.clone(),
            name: self.name.clone(),
            arrivals: Vec::new(),
            departures: Vec::new(),
            transfer_time: self.transfer_time,
            parent_idx: self.parent_idx,
            footpaths: Vec::new(),
        }
    }

    pub fn add_departure(&mut self, c_id: usize)
        ensures
            final(self).departures@ == old(self).departures@.push(c_id),
            final(self).arrivals == old(self).arrivals,
            final(self).footpaths == old(self).footpaths,
            final(self).id == old(self).id,
            final(self).name == old(self).name,
            final(self).transfer_time == old(self).transfer_time,
            final(self).parent_idx == old(self).parent_idx,
    {
        self.departures.push(c_id);
    }
}

/// Scheduled time and realtime information of one end of a connection.
#[derive(Debug)]
pub struct StopInfo {
    pub scheduled: Mtime,
    pub delay: Option<i16>,
    pub in_out_allowed: bool,
    pub scheduled_track: String,
    pub projected_track: String,
}

impl Clone for StopInfo {
    fn clone(&self) -> (r: Self)
        ensures
            r == *self,
    {
        StopInfo {
            scheduled: self.scheduled,
            delay: self.delay,
            in_out_allowed: self.in_out_allowed,
            scheduled_track: self.scheduled_track.clone(),
            projected_track: self.projected_track.clone(),
        }
    }
}

impl StopInfo {
    /// The scheduled time shifted by the realtime delay, if there is one.
    pub open spec fn projected_spec(&self) -> int {
        match self.delay {
            Some(d) => self.scheduled + d,
            None => self.scheduled as int,
        }
    }

    /// The projected time fits in an `Mtime`.
    pub open spec fn projection_fits(&self) -> bool {
        i32::MIN <= self.projected_spec() <= i32::MAX
    }

    pub fn new(scheduled: Mtime, delay: Option<i16>) -> (s: StopInfo)
        ensures
            s.scheduled == scheduled,
            s.delay == delay,
            s.in_out_allowed,
            s.scheduled_track@ == Seq::<char>::empty(),
            s.projected_track@ == Seq::<char>::empty(),
    {
        StopInfo {
            scheduled,
            delay,
            in_out_allowed: true,
            scheduled_track: String::new(),
            projected_track: String::new(),
        }
    }

    pub fn projected(&self) -> (t: Mtime)
        requires
            i32::MIN <= self.projected_spec() <= i32::MAX,
        ensures
            t == self.projected_spec(),
    {
        match self.delay {
            Some(d) => self.scheduled + d as Mtime,
            None => self.scheduled,
        }
    }
}

#[derive(Debug)]
pub struct Connection {
    pub id: usize,
    pub route_idx: usize,
    pub trip_id: i32,
    pub from_idx: usize,
    pub to_idx: usize,
    pub departure: StopInfo,
    pub arrival: StopInfo,
    pub message: String,
    pub product_type: i16,
}

impl Clone for Connection {
    fn clone(&self) -> (r: Self)
        ensures
            r == *self,
    {
        Connection {
            id: self.id,
            route_idx: self.route_idx,
            trip_id: self.trip_id,
            from_idx: self.from_idx,
            to_idx: self.to_idx,
            departure: self.departure.clone(),
            arrival: self.arrival.clone(),
            message: self.message.clone(),
            product_type: self.product_type,
        }
    }
}

impl Connection {
    /// `next` continues the same vehicle run right after `self`.
    pub open spec fn is_consecutive_spec(&self, next: &Connection) -> bool {
        &&& self.trip_id == next.trip_id
        &&& self.route_idx == next.route_idx
        &&& self.arrival.scheduled <= next.departure.scheduled
        &&& self.id != next.id
        &&& self.to_idx == next.from_idx
    }

    pub fn new(
        id: usize,
        route_idx: usize,
        product_type: i16,
        trip_id: i32,
        cancelled: bool,
        from_idx: usize,
        from_scheduled: Mtime,
        from_delay: Option<i16>,
        to_idx: usize,
        to_scheduled: Mtime,
        to_delay: Option<i16>,
    ) -> (c: Connection)
        ensures
            c.id == id,
            c.route_idx == route_idx,
            c.product_type == product_type,
            c.trip_id == trip_id,
            c.from_idx == from_idx,
            c.to_idx == to_idx,
            c.departure.scheduled == from_scheduled,
            c.departure.delay == from_delay,
            c.departure.in_out_allowed == !cancelled,
            c.departure.scheduled_track@ == Seq::<char>::empty(),
            c.departure.projected_track@ == Seq::<char>::empty(),
            c.arrival.scheduled == to_scheduled,
            c.arrival.delay == to_delay,
            c.arrival.in_out_allowed == !cancelled,
            c.arrival.scheduled_track@ == Seq::<char>::empty(),
            c.arrival.projected_track@ == Seq::<char>::empty(),
            c.message@ == Seq::<char>::empty(),
    {
        Connection {
            id,
            route_idx,
            trip_id,
            from_idx,
            to_idx,
            departure: StopInfo {
                scheduled: from_scheduled,
                delay: from_delay,
                in_out_allowed: !cancelled,
                scheduled_track: String::new(),
                projected_track: String::new(),
            },
            arrival: StopInfo {
                scheduled: to_scheduled,
                delay: to_delay,
                in_out_allowed: !cancelled,
                scheduled_track: String::new(),
                projected_track: String::new(),
            },
            message: String::new(),
            product_type,
        }
    }

    /// Joins `self` (boarding) and `arrival` (alighting) of one trip into a
    /// single connection with the given id.
    pub fn merge_pair(&self, arrival: &Connection, id: usize) -> (c: Connection)
        ensures
            c.id == id,
            c.route_idx == arrival.route_idx,
            c.product_type == arrival.product_type,
            c.trip_id == arrival.trip_id,
            c.from_idx == self.from_idx,
            c.to_idx == arrival.to_idx,
            c.departure == self.departure,
            c.arrival == arrival.arrival,
            c.message == self.message,
    {
        Connection {
            id,
            route_idx: arrival.route_idx,
            product_type: arrival.product_type,
            trip_id: arrival.trip_id,
            from_idx: self.from_idx,
            to_idx: arrival.to_idx,
            departure: self.departure.clone(),
            arrival: arrival.arrival.clone(),
            message: self.message.clone(),
        }
    }

    pub fn is_consecutive(&self, next: &Connection) -> (b: bool)
        ensures
            b == self.is_consecutive_spec(next),
    {
        self.trip_id == next.trip_id && self.route_idx == next.route_idx
            && self.arrival.scheduled <= next.departure.scheduled && self.id != next.id
            && self.to_idx == next.from_idx
    }

    /// The connection after a realtime update of one of its ends.
    pub open spec fn updated(
        self,
        is_departure: bool,
        location_idx: Option<usize>,
        in_out_allowed: Option<bool>,
        delay: Option<i16>,
    ) -> Connection {
        let from_idx = if is_departure && location_idx is Some {
            location_idx->0
        } else {
            self.from_idx
        };
        let to_idx = if !is_departure && location_idx is Some {
            location_idx->0
        } else {
            self.to_idx
        };
        let stop = if is_departure { self.departure } else { self.arrival };
        let stop = StopInfo {
            in_out_allowed: if in_out_allowed is Some { in_out_allowed->0 } else { stop.in_out_allowed },
            delay: if delay is Some { delay } else { stop.delay },
            ..stop
        };
        Connection {
            from_idx,
            to_idx,
            departure: if is_departure { stop } else { self.departure },
            arrival: if is_departure { self.arrival } else { stop },
            ..self
        }
    }

    pub fn update(
        &mut self,
        is_departure: bool,
        location_idx: Option<usize>,
        in_out_allowed: Option<bool>,
        delay: Option<i16>,
    )
        ensures
            *final(self) == old(self).updated(is_departure, location_idx, in_out_allowed, delay),
            final(self).from_idx == (if is_departure && location_idx is Some { location_idx->0 } else { old(self).from_idx }),
            final(self).to_idx == (if !is_departure && location_idx is Some { location_idx->0 } else { old(self).to_idx }),
            final(self).departure.in_out_allowed == (if is_departure && in_out_allowed is Some {
                in_out_allowed->0
            } else {
                old(self).departure.in_out_allowed
            }),
            final(self).arrival.in_out_allowed == (if !is_departure && in_out_allowed is Some {
                in_out_allowed->0
            } else {
                old(self).arrival.in_out_allowed
            }),
            final(self).departure.delay == (if is_departure && delay is Some { delay } else { old(self).departure.delay }),
            final(self).arrival.delay == (if !is_departure && delay is Some { delay } else { old(self).arrival.delay }),
            final(self).departure.scheduled == old(self).departure.scheduled,
            final(self).arrival.scheduled == old(self).arrival.scheduled,
            final(self).id == old(self).id,
            final(self).trip_id == old(self).trip_id,
            final(self).route_idx == old(self).route_idx,
    {
        if let Some(l) = location_idx {
            if is_departure {
                self.from_idx = l;
            } else {
                self.to_idx = l;
            }
        }
        if let Some(a) = in_out_allowed {
            if is_departure {
                self.departure.in_out_allowed = a;
            } else {
                self.arrival.in_out_allowed = a;
            }
        }
        if delay.is_some() {
            if is_departure {
                self.departure.delay = delay;
            } else {
                self.arrival.delay = delay;
            }
        }
    }
}

/// A realtime update changes only the end it is about, and there only what
/// it carries: the location of that end, whether people may get in or out
/// there, and its delay. Scheduled times, the id and the trip stay.
pub proof fn lemma_update_effects(
    c: Connection,
    is_departure: bool,
    location_idx: Option<usize>,
    in_out_allowed: Option<bool>,
    delay: Option<i16>,
)
    ensures
        ({
            let u = c.updated(is_departure, location_idx, in_out_allowed, delay);
            &&& is_departure ==> u.arrival == c.arrival && u.to_idx == c.to_idx
            &&& !is_departure ==> u.departure == c.departure && u.from_idx == c.from_idx
            &&& location_idx matches Some(l) ==> (if is_departure { u.from_idx == l } else { u.to_idx == l })
            &&& location_idx is None ==> u.from_idx == c.from_idx && u.to_idx == c.to_idx
            &&& in_out_allowed matches Some(a) ==> (if is_departure {
                u.departure.in_out_allowed == a
            } else {
                u.arrival.in_out_allowed == a
            })
            &&& in_out_allowed is None ==> u.departure.in_out_allowed == c.departure.in_out_allowed
                && u.arrival.in_out_allowed == c.arrival.in_out_allowed
            &&& delay is Some ==> (if is_departure { u.departure.delay == delay } else { u.arrival.delay == delay })
            &&& delay is None ==> u.departure.delay == c.departure.delay && u.arrival.delay == c.arrival.delay
            &&& u.departure.scheduled == c.departure.scheduled
            &&& u.arrival.scheduled == c.arrival.scheduled
            &&& u.id == c.id
            &&& u.trip_id == c.trip_id
            &&& u.route_idx == c.route_idx
        }),
{
}

} // verus!
