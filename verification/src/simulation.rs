use vstd::prelude::*;

use crate::connection::{Connection, Footpath, Station};
use std::collections::HashMap;

use crate::gtfs::{leg_connection_id, resolve_connection_idx, GtfsTimetable, Journey, JourneyLeg};
use crate::types::Mtime;

verus! {

/// Where a simulated traveller is: the id of the connection at whose arrival
/// they are, and a lower bound for the time they are there.
#[derive(Clone, Copy, Debug)]
pub struct LogEntry {
    pub conn_id: usize,
    pub arrival_time_lower_bound: i32,
}

/// Minutes since `reference_ts` of the unix time `mtime`, as the simulation
/// counts them.
pub fn get_current_time(mtime: u64, reference_ts: u64) -> (t: i32)
    requires
        reference_ts <= mtime,
    ensures
        t == ((mtime - reference_ts) / 60) as i32,
{
    ((mtime - reference_ts) / 60) as i32
}

/// The duration of the first footpath from position `i` on that leads to `to`.
pub open spec fn first_footpath_to(fps: Seq<Footpath>, to: usize, i: int) -> Option<u16>
    decreases fps.len() - i,
{
    if i < 0 || i >= fps.len() {
        None
    } else if fps[i].target_location_idx == to {
        Some(fps[i].duration)
    } else {
        first_footpath_to(fps, to, i + 1)
    }
}

/// The minutes needed to change from stop `from` to stop `to`: none before the
/// first connection at the same stop, the stop's transfer time later, and
/// otherwise the first footpath's duration, at least one minute.
pub open spec fn transfer_time_spec(from: usize, to: usize, is_first: bool, stations: Seq<Station>) -> int {
    if from == to {
        if is_first {
            0
        } else {
            stations[from as int].transfer_time as int
        }
    } else {
        let d = first_footpath_to(stations[from as int].footpaths@, to, 0)->0;
        if d >= 1 {
            d as int
        } else {
            1
        }
    }
}

/// A change from stop `from` to stop `to` has a time: they are the same stop
/// or a footpath leads from one to the other.
pub open spec fn transfer_possible(from: usize, to: usize, stations: Seq<Station>) -> bool {
    &&& from < stations.len()
    &&& from == to || first_footpath_to(stations[from as int].footpaths@, to, 0) is Some
}

/// The minutes a simulated traveller needs to change between two stops.
pub fn get_transfer_time(from_stop_idx: usize, to_stop_idx: usize, is_first: bool, stations: &[Station]) -> (t: i32)
    requires
        transfer_possible(from_stop_idx, to_stop_idx, stations@),
    ensures
        t == transfer_time_spec(from_stop_idx, to_stop_idx, is_first, stations@),
{
    if from_stop_idx == to_stop_idx {
        if is_first {
            return 0;
        }
        return stations[from_stop_idx].transfer_time as i32;
    }
    let fps = &stations[from_stop_idx].footpaths;
    let mut i: usize = 0;
    while i < fps.len()
        invariant
            i <= fps@.len(),
            from_stop_idx != to_stop_idx,
            from_stop_idx < stations@.len(),
            fps@ == stations@[from_stop_idx as int].footpaths@,
            first_footpath_to(fps@, to_stop_idx, 0) == first_footpath_to(fps@, to_stop_idx, i as int),
            first_footpath_to(fps@, to_stop_idx, 0) is Some,
        decreases fps@.len() - i,
    {
        if fps[i].target_location_idx == to_stop_idx {
            let d = fps[i].duration;
            assert(first_footpath_to(fps@, to_stop_idx, i as int) == Some(d));
            return if d >= 1 { d as i32 } else { 1 };
        }
        i = i + 1;
    }
    0
}

/// The connection of the last log entry.
pub open spec fn last_connection(log: Seq<LogEntry>, connections: Seq<Connection>, order: Seq<usize>) -> Connection {
    connections[order[log.last().conn_id as int] as int]
}

/// The last log entry, if any, names a connection whose projected times fit.
pub open spec fn log_resolvable(log: Seq<LogEntry>, connections: Seq<Connection>, order: Seq<usize>) -> bool {
    log.len() > 0 ==> {
        &&& log.last().conn_id < order.len()
        &&& order[log.last().conn_id as int] < connections.len()
        &&& last_connection(log, connections, order).departure.projection_fits()
        &&& last_connection(log, connections, order).arrival.projection_fits()
    }
}

/// When the traveller is at the end of the log: the start time before any
/// connection, then the later of the last connection's projected times and
/// the entry's lower bound.
pub open spec fn arrival_time_spec(log: Seq<LogEntry>, start_time: i32, connections: Seq<Connection>, order: Seq<usize>) -> int {
    if log.len() == 0 {
        start_time as int
    } else {
        let c = last_connection(log, connections, order);
        let a = if c.arrival.projected_spec() >= c.departure.projected_spec() {
            c.arrival.projected_spec()
        } else {
            c.departure.projected_spec()
        };
        if a >= log.last().arrival_time_lower_bound {
            a
        } else {
            log.last().arrival_time_lower_bound as int
        }
    }
}

/// When the simulated traveller is at the end of the log.
pub fn get_arrival_time(log: &Vec<LogEntry>, start_time: i32, tt: &GtfsTimetable) -> (t: i32)
    requires
        log_resolvable(log@, tt.connections@, tt.order@),
    ensures
        t == arrival_time_spec(log@, start_time, tt.connections@, tt.order@),
{
    if log.len() == 0 {
        start_time
    } else {
        let last = log[log.len() - 1];
        let c = &tt.connections[tt.order[last.conn_id]];
        let arr = c.arrival.projected();
        let dep = c.departure.projected();
        let a = if arr >= dep { arr } else { dep };
        if a >= last.arrival_time_lower_bound {
            a
        } else {
            last.arrival_time_lower_bound
        }
    }
}

/// Whether connection `next_c` can be taken by a traveller at the end of the
/// log who is there at `arrival_time` and needs `transfer_time` to change:
/// staying on the same trip is always possible, leaving a connection that
/// lets nobody out never, and otherwise the departure must let people in and
/// leave after the transfer.
pub open spec fn can_take_spec(
    next_c: Connection,
    arrival_time: int,
    transfer_time: int,
    log: Seq<LogEntry>,
    connections: Seq<Connection>,
    order: Seq<usize>,
) -> bool {
    let c = last_connection(log, connections, order);
    if log.len() > 0 && c.is_consecutive_spec(&next_c) && c.id < next_c.id {
        true
    } else if log.len() > 0 && !c.arrival.in_out_allowed {
        false
    } else {
        next_c.departure.in_out_allowed && next_c.departure.projected_spec() >= arrival_time + transfer_time
    }
}

/// Staying on the trip (the next connection continues the last one) is
/// always possible. Otherwise the traveller can take `next_c` exactly when
/// the last connection, if any, lets people out, `next_c`'s departure lets
/// people in, and it leaves no earlier than the arrival plus the transfer
/// time; in particular nobody boards a departure that lets nobody in.
pub proof fn lemma_can_take_rules(
    next_c: Connection,
    arrival_time: int,
    transfer_time: int,
    log: Seq<LogEntry>,
    connections: Seq<Connection>,
    order: Seq<usize>,
)
    ensures
        ({
            let last = connections[order[log.last().conn_id as int] as int];
            let stays = log.len() > 0 && last.is_consecutive_spec(&next_c) && last.id < next_c.id;
            let may_leave = log.len() == 0 || last.arrival.in_out_allowed;
            &&& stays ==> can_take_spec(next_c, arrival_time, transfer_time, log, connections, order)
            &&& !stays ==> (can_take_spec(next_c, arrival_time, transfer_time, log, connections, order) <==> (may_leave
                && next_c.departure.in_out_allowed && next_c.departure.projected_spec() >= arrival_time + transfer_time))
            &&& !stays && !next_c.departure.in_out_allowed ==> !can_take_spec(
                next_c,
                arrival_time,
                transfer_time,
                log,
                connections,
                order,
            )
        }),
{
}

/// Whether the simulated traveller can take connection `next_c`.
pub fn can_take(next_c: &Connection, arrival_time: i32, transfer_time: i32, log: &Vec<LogEntry>, tt: &GtfsTimetable) -> (b: bool)
    requires
        log.len() > 0 ==> log@.last().conn_id < tt.order@.len() && tt.order@[log@.last().conn_id as int] < tt.connections@.len(),
        next_c.departure.projection_fits(),
        i32::MIN <= arrival_time + transfer_time <= i32::MAX,
    ensures
        b == can_take_spec(*next_c, arrival_time as int, transfer_time as int, log@, tt.connections@, tt.order@),
        ({
            let last = tt.connections@[tt.order@[log@.last().conn_id as int] as int];
            let stays = log@.len() > 0 && last.is_consecutive_spec(next_c) && last.id < next_c.id;
            &&& stays ==> b
            &&& !stays ==> (b <==> ((log@.len() == 0 || last.arrival.in_out_allowed) && next_c.departure.in_out_allowed
                && next_c.departure.projected_spec() >= arrival_time + transfer_time))
        }),
{
    if log.len() > 0 {
        let c = &tt.connections[tt.order[log[log.len() - 1].conn_id]];
        if c.is_consecutive(next_c) && c.id < next_c.id {
            return true;
        }
        if !c.arrival.in_out_allowed {
            return false;
        }
    }
    if !next_c.departure.in_out_allowed {
        return false;
    }
    next_c.departure.projected() >= arrival_time + transfer_time
}

/// Where a simulated traveller stands.
#[derive(Clone, Copy, Debug, PartialEq, Eq, Structural)]
pub enum CurrentStop {
    /// At this stop, with the destination out of reach.
    At(usize),
    /// The destination is the stop reached or a footpath from it away, but
    /// the traveller has not got there yet.
    NearDestination,
    /// Arrived at the destination at this time.
    Arrived(i32),
}

/// Stop `i` of a stop with footpaths `fps`: the targets of the footpaths,
/// then the stop itself.
pub open spec fn stop_at(fps: Seq<Footpath>, stop: usize, i: int) -> usize {
    if i == fps.len() {
        stop
    } else {
        fps[i].target_location_idx
    }
}

/// The first position from `i` on at which `destination` is reached from
/// `stop`, or -1.
pub open spec fn destination_index(fps: Seq<Footpath>, stop: usize, destination: usize, i: int) -> int
    decreases fps.len() + 1 - i,
{
    if i < 0 || i > fps.len() {
        -1
    } else if stop_at(fps, stop, i) == destination {
        i
    } else {
        destination_index(fps, stop, destination, i + 1)
    }
}

/// Where the traveller at the end of the log stands at `current_time`: at
/// the origin before any connection; else at the last connection's arrival
/// stop, unless the destination is that stop or a footpath from it away, in
/// which case they have arrived once the arrival is due and lets people out,
/// after walking there.
pub open spec fn current_stop_spec(
    current_time: i32,
    origin: usize,
    destination: usize,
    log: Seq<LogEntry>,
    stations: Seq<Station>,
    connections: Seq<Connection>,
    order: Seq<usize>,
) -> CurrentStop {
    if log.len() == 0 {
        CurrentStop::At(origin)
    } else {
        let c = last_connection(log, connections, order);
        let fps = stations[c.to_idx as int].footpaths@;
        let i = destination_index(fps, c.to_idx, destination, 0);
        if i < 0 {
            CurrentStop::At(c.to_idx)
        } else if current_time >= c.arrival.projected_spec() && c.arrival.in_out_allowed {
            CurrentStop::Arrived((c.arrival.projected_spec() + if i == fps.len() { 0int } else { fps[i].duration as int }) as i32)
        } else {
            CurrentStop::NearDestination
        }
    }
}

/// The last connection of the log can be resolved and the arrival by it,
/// walking included, fits in an `Mtime`.
pub open spec fn current_stop_defined(destination: usize, log: Seq<LogEntry>, stations: Seq<Station>, connections: Seq<Connection>, order: Seq<usize>) -> bool {
    log.len() > 0 ==> {
        let c = last_connection(log, connections, order);
        let fps = stations[c.to_idx as int].footpaths@;
        let i = destination_index(fps, c.to_idx, destination, 0);
        &&& log.last().conn_id < order.len()
        &&& order[log.last().conn_id as int] < connections.len()
        &&& c.to_idx < stations.len()
        &&& c.arrival.projection_fits()
        &&& i >= 0 ==> c.arrival.projected_spec() + (if i == fps.len() { 0int } else { fps[i].duration as int }) <= i32::MAX
    }
}

/// Arrived after walking `walking_time` from the arrival of `c`, once that
/// arrival is due and lets people out.
fn arrival_at_destination(current_time: i32, c: &Connection, walking_time: i32) -> (r: CurrentStop)
    requires
        c.arrival.projection_fits(),
        c.arrival.projected_spec() + walking_time <= i32::MAX,
        walking_time >= 0,
    ensures
        r == (if current_time >= c.arrival.projected_spec() && c.arrival.in_out_allowed {
            CurrentStop::Arrived((c.arrival.projected_spec() + walking_time) as i32)
        } else {
            CurrentStop::NearDestination
        }),
{
    let arrival = c.arrival.projected();
    if current_time >= arrival && c.arrival.in_out_allowed {
        CurrentStop::Arrived(arrival + walking_time)
    } else {
        CurrentStop::NearDestination
    }
}

/// Where the traveller of a simulated journey from `origin` to `destination`
/// stands at `current_time`.
#[verifier::loop_isolation(false)]
pub fn current_stop(current_time: i32, origin: usize, destination: usize, log: &Vec<LogEntry>, tt: &GtfsTimetable) -> (r: CurrentStop)
    requires
        current_stop_defined(destination, log@, tt.stations@, tt.connections@, tt.order@),
    ensures
        r == current_stop_spec(current_time, origin, destination, log@, tt.stations@, tt.connections@, tt.order@),
{
    if log.len() == 0 {
        return CurrentStop::At(origin);
    }
    let last_c = &tt.connections[tt.order[log[log.len() - 1].conn_id]];
    let current_stop_idx = last_c.to_idx;
    let footpaths = &tt.stations[current_stop_idx].footpaths;
    let n = footpaths.len();
    let ghost fps = footpaths@;
    let mut i: usize = 0;
    while i < n
        invariant
            i <= n,
            n == fps.len(),
            fps == footpaths@,
            destination_index(fps, current_stop_idx, destination, 0) == destination_index(fps, current_stop_idx, destination, i as int),
        decreases n - i,
    {
        if footpaths[i].target_location_idx == destination {
            assert(destination_index(fps, current_stop_idx, destination, i as int) == i);
            return arrival_at_destination(current_time, last_c, footpaths[i].duration as i32);
        }
        i = i + 1;
    }
    if current_stop_idx == destination {
        assert(destination_index(fps, current_stop_idx, destination, n as int) == n);
        return arrival_at_destination(current_time, last_c, 0);
    }
    assert(destination_index(fps, current_stop_idx, destination, (n + 1) as int) == -1);
    CurrentStop::At(current_stop_idx)
}

/// What a simulated traveller does next.
#[derive(Clone, Copy, Debug, PartialEq, Eq, Structural)]
pub enum StepDecision {
    /// Boards the alternative at this position now.
    Take(usize),
    /// Waits: not at the stop yet, or the first alternative that can be taken
    /// has not departed yet.
    Wait,
    /// No alternative can be taken any more.
    Stuck,
}

/// Alternative `alt` (a connection to board, by position, and the one to
/// leave at) can be taken by a traveller at `current_stop_idx` at `arrival_time`.
pub open spec fn alternative_takeable(
    alt: (usize, usize),
    arrival_time: int,
    current_stop_idx: usize,
    log: Seq<LogEntry>,
    stations: Seq<Station>,
    connections: Seq<Connection>,
    order: Seq<usize>,
) -> bool {
    let next_c = connections[alt.0 as int];
    can_take_spec(next_c, arrival_time, transfer_time_spec(current_stop_idx, next_c.from_idx, log.len() == 0, stations), log, connections, order)
}

/// The decision among the alternatives from position `k` on: the first that
/// can be taken is boarded if it has departed by `current_time`, else the
/// traveller waits; with none, they are stuck.
pub open spec fn step_from(
    current_time: i32,
    arrival_time: i32,
    current_stop_idx: usize,
    alts: Seq<(usize, usize)>,
    k: int,
    log: Seq<LogEntry>,
    stations: Seq<Station>,
    connections: Seq<Connection>,
    order: Seq<usize>,
) -> StepDecision
    decreases alts.len() - k,
{
    if k < 0 || k >= alts.len() {
        StepDecision::Stuck
    } else if alternative_takeable(alts[k], arrival_time as int, current_stop_idx, log, stations, connections, order) {
        if current_time >= connections[alts[k].0 as int].departure.projected_spec() {
            StepDecision::Take(k as usize)
        } else {
            StepDecision::Wait
        }
    } else {
        step_from(current_time, arrival_time, current_stop_idx, alts, k + 1, log, stations, connections, order)
    }
}

/// The alternatives up to the first one that can be taken can be examined:
/// each names a connection that can be reached from the stop, with times that fit.
pub open spec fn step_defined_from(
    arrival_time: i32,
    current_stop_idx: usize,
    alts: Seq<(usize, usize)>,
    k: int,
    log: Seq<LogEntry>,
    stations: Seq<Station>,
    connections: Seq<Connection>,
    order: Seq<usize>,
) -> bool
    decreases alts.len() - k,
{
    if k < 0 || k >= alts.len() {
        true
    } else {
        let next_c = connections[alts[k].0 as int];
        &&& alts[k].0 < connections.len()
        &&& transfer_possible(current_stop_idx, next_c.from_idx, stations)
        &&& next_c.departure.projection_fits()
        &&& i32::MIN <= arrival_time + transfer_time_spec(current_stop_idx, next_c.from_idx, log.len() == 0, stations) <= i32::MAX
        &&& (alternative_takeable(alts[k], arrival_time as int, current_stop_idx, log, stations, connections, order)
            || step_defined_from(arrival_time, current_stop_idx, alts, k + 1, log, stations, connections, order))
    }
}

/// The next step of a traveller at `current_stop_idx`, there since
/// `arrival_time`, with the alternatives ordered by preference.
pub open spec fn step_spec(
    current_time: i32,
    arrival_time: i32,
    current_stop_idx: usize,
    alts: Seq<(usize, usize)>,
    log: Seq<LogEntry>,
    stations: Seq<Station>,
    connections: Seq<Connection>,
    order: Seq<usize>,
) -> StepDecision {
    if current_time < arrival_time {
        StepDecision::Wait
    } else {
        step_from(current_time, arrival_time, current_stop_idx, alts, 0, log, stations, connections, order)
    }
}

/// Decides the next step of a simulated traveller at `current_stop_idx`,
/// there since `arrival_time` (see `get_arrival_time`), among `alternatives`
/// (each the position of the connection to board and of the one to leave at),
/// ordered by preference.
pub fn choose_alternative(
    current_time: i32,
    arrival_time: i32,
    current_stop_idx: usize,
    alternatives: &Vec<(usize, usize)>,
    log: &Vec<LogEntry>,
    tt: &GtfsTimetable,
) -> (r: StepDecision)
    requires
        log.len() > 0 ==> log@.last().conn_id < tt.order@.len() && tt.order@[log@.last().conn_id as int] < tt.connections@.len(),
        current_time >= arrival_time ==> step_defined_from(arrival_time, current_stop_idx, alternatives@, 0, log@, tt.stations@, tt.connections@, tt.order@),
    ensures
        r == step_spec(current_time, arrival_time, current_stop_idx, alternatives@, log@, tt.stations@, tt.connections@, tt.order@),
{
    if current_time < arrival_time {
        return StepDecision::Wait;
    }
    let mut k: usize = 0;
    while k < alternatives.len()
        invariant
            k <= alternatives@.len(),
            current_time >= arrival_time,
            log.len() > 0 ==> log@.last().conn_id < tt.order@.len() && tt.order@[log@.last().conn_id as int] < tt.connections@.len(),
            step_defined_from(arrival_time, current_stop_idx, alternatives@, k as int, log@, tt.stations@, tt.connections@, tt.order@),
            step_from(current_time, arrival_time, current_stop_idx, alternatives@, 0, log@, tt.stations@, tt.connections@, tt.order@)
                == step_from(current_time, arrival_time, current_stop_idx, alternatives@, k as int, log@, tt.stations@, tt.connections@, tt.order@),
        decreases alternatives@.len() - k,
    {
        let alt = alternatives[k];
        let next_c = &tt.connections[alt.0];
        let transfer_time = get_transfer_time(current_stop_idx, next_c.from_idx, log.len() == 0, &tt.stations);
        if can_take(next_c, arrival_time, transfer_time, log, tt) {
            if current_time >= next_c.departure.projected() {
                return StepDecision::Take(k);
            }
            return StepDecision::Wait;
        }
        k = k + 1;
    }
    StepDecision::Stuck
}

/// The log entry for boarding connection `from_conn_idx` and leaving at
/// `to_conn_idx` (positions), having been at the stop since `arrival_time`.
pub fn log_entry_for(tt: &GtfsTimetable, from_conn_idx: usize, to_conn_idx: usize, arrival_time: i32) -> (e: LogEntry)
    requires
        from_conn_idx < tt.connections@.len(),
        to_conn_idx < tt.connections@.len(),
        tt.connections@[from_conn_idx as int].departure.projection_fits(),
    ensures
        e.conn_id == tt.connections@[to_conn_idx as int].id,
        e.arrival_time_lower_bound == (if tt.connections@[from_conn_idx as int].departure.projected_spec() >= arrival_time {
            tt.connections@[from_conn_idx as int].departure.projected_spec()
        } else {
            arrival_time as int
        }),
{
    let dep = tt.connections[from_conn_idx].departure.projected();
    LogEntry {
        conn_id: tt.connections[to_conn_idx].id,
        arrival_time_lower_bound: if dep >= arrival_time { dep } else { arrival_time },
    }
}

/// Going back through the ids of a trip from `c_id`: the first connection,
/// not before id `boarded`, whose arrival lets people out.
pub open spec fn walk_back(connections: Seq<Connection>, order: Seq<usize>, c_id: int, boarded: int) -> int
    decreases c_id,
{
    if c_id <= boarded || c_id <= 0 || connections[order[c_id] as int].arrival.in_out_allowed {
        c_id
    } else {
        walk_back(connections, order, c_id - 1, boarded)
    }
}

/// The log after leaving a cancelled trip: where the last connection lets
/// nobody out, the traveller goes back to the last stop of the trip, after
/// `boarded`, that lets them out, or, with none, to where they boarded (the
/// last entry is dropped).
pub open spec fn fixed_log(log: Seq<LogEntry>, boarded: Option<usize>, connections: Seq<Connection>, order: Seq<usize>) -> Seq<LogEntry> {
    let c0 = log.last().conn_id;
    let b = match boarded {
        Some(b) => b,
        None => c0,
    };
    let c2 = walk_back(connections, order, c0 as int, b as int);
    if connections[order[c2] as int].arrival.in_out_allowed {
        log.update(log.len() - 1, LogEntry { conn_id: c2 as usize, arrival_time_lower_bound: log.last().arrival_time_lower_bound })
    } else {
        log.drop_last()
    }
}

/// The last connection of the log lets nobody out.
pub open spec fn sitting_in_cancelled_trip(log: Seq<LogEntry>, connections: Seq<Connection>, order: Seq<usize>) -> bool {
    log.len() > 0 && !last_connection(log, connections, order).arrival.in_out_allowed
}

/// Where a simulated traveller sits in a trip whose remaining stops let
/// nobody out, they go back along the trip (see `fixed_log`); `boarded` is
/// the id of the connection they boarded the trip with, if known. Returns the
/// new arrival time in that case, and nothing otherwise.
pub fn fix_if_sitting_in_cancelled_trip(log: &mut Vec<LogEntry>, boarded: Option<usize>, start_time: i32, tt: &GtfsTimetable) -> (r: Option<Mtime>)
    requires
        old(log)@.len() > 0 ==> {
            let c0 = old(log)@.last().conn_id as int;
            let lower = match boarded {
                Some(b) => if b < c0 { b as int } else { c0 },
                None => c0,
            };
            &&& c0 < tt.order@.len()
            &&& forall|id: int|
                lower <= id <= c0 ==> #[trigger] tt.order@[id] < tt.connections@.len()
                    && tt.connections@[tt.order@[id] as int].departure.projection_fits()
                    && tt.connections@[tt.order@[id] as int].arrival.projection_fits()
        },
        log_resolvable(old(log)@.drop_last(), tt.connections@, tt.order@),
    ensures
        sitting_in_cancelled_trip(old(log)@, tt.connections@, tt.order@) ==> {
            let fixed = fixed_log(old(log)@, boarded, tt.connections@, tt.order@);
            &&& final(log)@ == fixed
            &&& r == Some(arrival_time_spec(fixed, start_time, tt.connections@, tt.order@) as i32)
        },
        !sitting_in_cancelled_trip(old(log)@, tt.connections@, tt.order@) ==> r is None && final(log)@ == old(log)@,
{
    if log.len() == 0 {
        return None;
    }
    let last = log.len() - 1;
    let c0 = log[last].conn_id;
    let mut c_id = c0;
    if tt.connections[tt.order[c_id]].arrival.in_out_allowed {
        return None;
    }
    let b = match boarded {
        Some(b) => b,
        None => c0,
    };
    let ghost lower: int = if b < c0 { b as int } else { c0 as int };
    while !tt.connections[tt.order[c_id]].arrival.in_out_allowed && c_id > b
        invariant
            lower <= c_id <= c0,
            lower == (if b < c0 { b as int } else { c0 as int }),
            c0 < tt.order@.len(),
            forall|id: int|
                lower <= id <= c0 ==> #[trigger] tt.order@[id] < tt.connections@.len()
                    && tt.connections@[tt.order@[id] as int].departure.projection_fits()
                    && tt.connections@[tt.order@[id] as int].arrival.projection_fits(),
            walk_back(tt.connections@, tt.order@, c0 as int, b as int) == walk_back(tt.connections@, tt.order@, c_id as int, b as int),
        decreases c_id,
    {
        c_id = c_id - 1;
    }
    assert(walk_back(tt.connections@, tt.order@, c_id as int, b as int) == c_id);
    let ghost old_log = log@;
    if !tt.connections[tt.order[c_id]].arrival.in_out_allowed {
        log.pop();
        assert(log@ == old_log.drop_last());
    } else {
        let entry = LogEntry { conn_id: c_id, arrival_time_lower_bound: log[last].arrival_time_lower_bound };
        log.set(last, entry);
        assert(log@.last() == entry);
        assert(log_resolvable(log@, tt.connections@, tt.order@));
    }
    Some(get_arrival_time(log, start_time, tt))
}

/// The leg of a journey that continues from stop `stop`, looking from leg
/// `i` on: the first leg leaving from it, or the leg after it where that one
/// is walked; the number of legs where none leaves from it.
pub open spec fn next_leg_from(legs: Seq<JourneyLeg>, stop: usize, i: int) -> int
    decreases legs.len() - i,
{
    if i < 0 || i >= legs.len() {
        legs.len() as int
    } else if legs[i].from_location_idx == stop {
        if legs[i].is_footpath {
            i + 1
        } else {
            i
        }
    } else {
        next_leg_from(legs, stop, i + 1)
    }
}

/// Leg `k` of the journey can be resolved to the positions of the
/// connections it boards and leaves.
pub open spec fn leg_resolvable(legs: Seq<JourneyLeg>, k: int, mapping: Map<(usize, u16), usize>, order: Seq<usize>) -> bool {
    let leg = legs[k];
    &&& mapping.contains_key((leg.transport_idx, leg.day_idx))
    &&& leg.to_stop_idx >= 1
    &&& leg_connection_id(leg, false, mapping[(leg.transport_idx, leg.day_idx)] as int) < order.len()
    &&& leg_connection_id(leg, true, mapping[(leg.transport_idx, leg.day_idx)] as int) < order.len()
}

/// The alternative that a journey found by the router offers at stop
/// `current_stop_idx`: the positions of the connections that its next leg
/// boards and leaves, or none where the journey does not continue from there.
pub fn get_det_alternatives(
    current_stop_idx: usize,
    journey: &Journey,
    mapping: &HashMap<(usize, u16), usize>,
    order: &[usize],
) -> (r: Vec<(usize, usize)>)
    requires
        ({
            let k = next_leg_from(journey.legs@, current_stop_idx, 0);
            k < journey.legs@.len() ==> leg_resolvable(journey.legs@, k, mapping@, order@)
        }),
    ensures
        ({
            let legs = journey.legs@;
            let k = next_leg_from(legs, current_stop_idx, 0);
            if k >= legs.len() {
                r@.len() == 0
            } else {
                let leg = legs[k];
                let first = mapping@[(leg.transport_idx, leg.day_idx)] as int;
                r@ == seq![(order@[leg_connection_id(leg, false, first)], order@[leg_connection_id(leg, true, first)])]
            }
        }),
{
    let n = journey.legs.len();
    let mut next_leg: usize = 0;
    while next_leg < n
        invariant_except_break
            next_leg <= n,
            next_leg_from(journey.legs@, current_stop_idx, 0) == next_leg_from(journey.legs@, current_stop_idx, next_leg as int),
        invariant
            n == journey.legs@.len(),
        ensures
            next_leg_from(journey.legs@, current_stop_idx, 0) == next_leg as int,
        decreases n - next_leg,
    {
        let l = &journey.legs[next_leg];
        if l.from_location_idx == current_stop_idx {
            if l.is_footpath {
                next_leg = next_leg + 1;
            }
            break;
        }
        next_leg = next_leg + 1;
    }
    let mut alternatives: Vec<(usize, usize)> = Vec::new();
    if next_leg >= n {
        return alternatives;
    }
    let departure_idx = resolve_connection_idx(journey, next_leg, false, mapping, order);
    let arrival_idx = resolve_connection_idx(journey, next_leg, true, mapping, order);
    alternatives.push((departure_idx, arrival_idx));
    alternatives
}

} // verus!
