use vstd::prelude::*;
use vstd::multiset::Multiset;
use vstd::string::StringExecFns;

use indexmap::IndexMap;

use crate::connection::{Connection, Route, Station, StopInfo};
use crate::gtfs::{sort_departures_by_position, StationContraction};
use crate::types::Mtime;
use crate::wire::wire;
use crate::walking::{WALKING_MSG, WALKING_PRODUCT_TYPE, arrivals_extended, connections_registered, departures_extended, lemma_registered_push, lemma_registered_start};

verus! {

broadcast use {vstd::seq_lib::group_to_multiset_ensures, vstd::multiset::group_multiset_axioms};

/// What a request carries besides the timetable: the query and the system.
#[derive(Debug)]
pub struct QueryMetadata {
    pub start_ts: i64,
    pub origin_id: String,
    pub origin_idx: usize,
    pub destination_id: String,
    pub destination_idx: usize,
    pub now: i64,
    pub system: String,
}

/// `d` seconds in whole minutes, rounded half away from zero.
pub open spec fn rounded_minutes(d: int) -> int {
    if d >= 0 {
        (d + 30) / 60
    } else {
        -((-d + 30) / 60)
    }
}

/// `x` clamped to the range of `i32`.
pub open spec fn saturate_i32(x: int) -> int {
    if x > i32::MAX {
        i32::MAX as int
    } else if x < i32::MIN {
        i32::MIN as int
    } else {
        x
    }
}

/// The minutes from `reference` to the unix timestamp `t`, rounded half away
/// from zero and clamped to the range of `Mtime`.
pub open spec fn to_mtime_spec(t: int, reference: int) -> int {
    saturate_i32(rounded_minutes(t - reference))
}

/// The time `t` (unix seconds) in minutes relative to `reference`.
pub fn to_mtime(t: i64, reference: i64) -> (m: Mtime)
    requires
        i64::MIN <= t - reference <= i64::MAX,
    ensures
        m == to_mtime_spec(t as int, reference as int),
{
    let d: i128 = t as i128 - reference as i128;
    let q: i128 = if d >= 0 {
        (d + 30) / 60
    } else {
        -((-d + 30) / 60)
    };
    if q > i32::MAX as i128 {
        i32::MAX
    } else if q < i32::MIN as i128 {
        i32::MIN
    } else {
        q as i32
    }
}

/// The unix timestamp of `mtime` minutes after `reference`.
pub fn from_mtime(mtime: Mtime, reference: i64) -> (t: i64)
    requires
        i32::MIN <= mtime * 60 <= i32::MAX,
        i64::MIN <= mtime * 60 + reference <= i64::MAX,
    ensures
        t == mtime * 60 + reference,
{
    (mtime * 60) as i64 + reference
}

/// Converting minutes to a timestamp and back gives the minutes again.
pub proof fn lemma_mtime_round_trip(m: int, reference: int)
    requires
        i32::MIN <= m <= i32::MAX,
    ensures
        to_mtime_spec(m * 60 + reference, reference) == m,
{
    if m < 0 {
        assert((-(m * 60) + 30) / 60 == -m) by (nonlinear_arith)
            requires
                m < 0,
        ;
    } else {
        assert((m * 60 + 30) / 60 == m) by (nonlinear_arith)
            requires
                m >= 0,
        ;
    }
}

/// The decimal digits of `n`, without leading zeros.
pub open spec fn decimal(n: nat) -> Seq<char>
    decreases n,
{
    if n < 10 {
        seq![((48 + n) as u8) as char]
    } else {
        decimal(n / 10).push(((48 + n % 10) as u8) as char)
    }
}

/// The decimal digit `d` as a string of one character.
fn digit_str(d: usize) -> (s: &'static str)
    requires
        d < 10,
    ensures
        s@ == seq![((48 + d) as u8) as char],
{
    match d {
        0 => {
            proof {
                reveal_strlit("0");
            }
            "0"
        },
        1 => {
            proof {
                reveal_strlit("1");
            }
            "1"
        },
        2 => {
            proof {
                reveal_strlit("2");
            }
            "2"
        },
        3 => {
            proof {
                reveal_strlit("3");
            }
            "3"
        },
        4 => {
            proof {
                reveal_strlit("4");
            }
            "4"
        },
        5 => {
            proof {
                reveal_strlit("5");
            }
            "5"
        },
        6 => {
            proof {
                reveal_strlit("6");
            }
            "6"
        },
        7 => {
            proof {
                reveal_strlit("7");
            }
            "7"
        },
        8 => {
            proof {
                reveal_strlit("8");
            }
            "8"
        },
        _ => {
            proof {
                reveal_strlit("9");
            }
            "9"
        },
    }
}

/// The decimal representation of `n`, without leading zeros.
pub(crate) fn usize_to_string(n: usize) -> (s: String)
    ensures
        s@ == decimal(n as nat),
    decreases n,
{
    if n < 10 {
        let mut s = String::new();
        s.append(digit_str(n));
        proof {
            assert(s@ =~= decimal(n as nat));
        }
        s
    } else {
        let mut s = usize_to_string(n / 10);
        let ghost before = s@;
        s.append(digit_str(n % 10));
        proof {
            assert(s@ =~= before.push(((48 + n % 10) as u8) as char));
        }
        s
    }
}

/// The position of the last station in `ws[0..n]` with id `id`, or -1.
pub open spec fn last_with_id(ws: Seq<wire::Station>, id: Seq<char>, n: int) -> int
    decreases n,
{
    if n <= 0 {
        -1
    } else if ws[n - 1].id@ == id {
        n - 1
    } else {
        last_with_id(ws, id, n - 1)
    }
}

proof fn lemma_last_with_id(ws: Seq<wire::Station>, id: Seq<char>, n: int)
    requires
        0 <= n <= ws.len(),
    ensures
        -1 <= last_with_id(ws, id, n) < n,
        last_with_id(ws, id, n) >= 0 ==> ws[last_with_id(ws, id, n)].id@ == id,
        last_with_id(ws, id, n) >= 0 <==> exists|k: int| 0 <= k < n && ws[k].id@ == id,
    decreases n,
{
    if n > 0 {
        lemma_last_with_id(ws, id, n - 1);
        if ws[n - 1].id@ != id && last_with_id(ws, id, n - 1) < 0 {
            assert forall|k: int| 0 <= k < n implies ws[k].id@ != id by {
                if k < n - 1 {
                    assert(!(exists|k: int| 0 <= k < n - 1 && ws[k].id@ == id));
                }
            }
        }
    }
}

/// The position of the last station of `ws` with the id `id`.
fn find_last_station(ws: &Vec<wire::Station>, id: &String) -> (k: Option<usize>)
    ensures
        match k {
            Some(k) => k == last_with_id(ws@, id@, ws@.len() as int),
            None => last_with_id(ws@, id@, ws@.len() as int) == -1,
        },
{
    let mut n = ws.len();
    while n > 0
        invariant
            n <= ws@.len(),
            last_with_id(ws@, id@, ws@.len() as int) == last_with_id(ws@, id@, n as int),
        decreases n,
    {
        if ws[n - 1].id == *id {
            return Some(n - 1);
        }
        n = n - 1;
    }
    None
}

/// The connections of the first `n` trips, each with its trip's position.
pub open spec fn trip_conns(trips: Seq<wire::Trip>, n: int) -> Seq<(int, wire::Connection)>
    decreases n,
{
    if n <= 0 {
        Seq::empty()
    } else {
        trip_conns(trips, n - 1) + trips[n - 1].connections@.map_values(|c: wire::Connection| (n - 1, c))
    }
}

/// The connections of the first `n` routes, each with its route's and its
/// trip's position, route by route and trip by trip.
pub open spec fn route_conns(routes: Seq<wire::Route>, n: int) -> Seq<(int, int, wire::Connection)>
    decreases n,
{
    if n <= 0 {
        Seq::empty()
    } else {
        route_conns(routes, n - 1) + trip_conns(routes[n - 1].trips@, routes[n - 1].trips@.len() as int).map_values(
            |e: (int, wire::Connection)| (n - 1, e.0, e.1),
        )
    }
}

/// One end of a connection read from the wire.
pub open spec fn stop_from_wire(s: StopInfo, w: wire::StopInfo, start_time: i64) -> bool {
    &&& s.scheduled == to_mtime_spec(w.scheduled as int, start_time as int)
    &&& s.delay == (if w.is_live { Some(w.delay_minutes as i16) } else { None::<i16> })
    &&& s.scheduled_track@.len() == 0
    &&& s.projected_track@.len() == 0
}

/// `c`, with id `id`, is wire connection `w` of trip `trip` of route `route`
/// (product type `product_type`) between the stations at `from_idx` and `to_idx`.
pub open spec fn connection_from_wire(
    c: Connection,
    w: wire::Connection,
    route: int,
    trip: int,
    product_type: i32,
    from_idx: int,
    to_idx: int,
    start_time: i64,
    id: int,
) -> bool {
    &&& c.id == id
    &&& c.route_idx == route
    &&& c.trip_id == trip
    &&& c.product_type == product_type as i16
    &&& c.from_idx == from_idx
    &&& c.to_idx == to_idx
    &&& w.departure is Some && stop_from_wire(c.departure, w.departure->0, start_time)
    &&& w.arrival is Some && stop_from_wire(c.arrival, w.arrival->0, start_time)
    &&& c.departure.in_out_allowed == (!w.cancelled && product_type as i16 != 100)
    &&& c.arrival.in_out_allowed == !w.cancelled
    &&& c.message@.len() == 0
}

/// The station that a wire id refers to: the last one with that id among the
/// stations read from the wire, which follow the first `n_old` stations.
pub open spec fn wire_station_idx(ws: Seq<wire::Station>, id: Seq<char>, n_old: int) -> int {
    n_old + last_with_id(ws, id, ws.len() as int)
}

/// `c`, with id `id`, is the connection read from entry `e` of `route_conns`.
pub open spec fn loaded_connection(
    c: Connection,
    e: (int, int, wire::Connection),
    routes: Seq<wire::Route>,
    ws: Seq<wire::Station>,
    n_old: int,
    start_time: i64,
    id: int,
) -> bool {
    connection_from_wire(
        c,
        e.2,
        e.0,
        e.1,
        routes[e.0].product_type,
        wire_station_idx(ws, e.2.from_id@, n_old),
        wire_station_idx(ws, e.2.to_id@, n_old),
        start_time,
        id,
    )
}

/// The wire connection can be read: both ends are present, both stations are
/// known, the times convert without overflow and the projected departure
/// fits in an `Mtime`.
pub open spec fn wire_connection_readable(w: wire::Connection, ws: Seq<wire::Station>, start_time: i64) -> bool {
    &&& w.departure is Some
    &&& w.arrival is Some
    &&& exists|k: int| 0 <= k < ws.len() && ws[k].id@ == w.from_id@
    &&& exists|k: int| 0 <= k < ws.len() && ws[k].id@ == w.to_id@
    &&& i64::MIN <= w.departure->0.scheduled - start_time <= i64::MAX
    &&& i64::MIN <= w.arrival->0.scheduled - start_time <= i64::MAX
    &&& i32::MIN <= to_mtime_spec(w.departure->0.scheduled as int, start_time as int)
        + (if w.departure->0.is_live { w.departure->0.delay_minutes as i16 as int } else { 0int }) <= i32::MAX
}

/// Reads one trip's connections: each becomes the next connection, runs
/// between the stations that its ids name and is registered at them.
fn load_trip(
    trip: &wire::Trip,
    route: usize,
    trip_id: i32,
    product_type: i32,
    ws: &Vec<wire::Station>,
    n_old: usize,
    start_time: i64,
    stations: &mut Vec<Station>,
    connections: &mut Vec<Connection>,
    Ghost(base): Ghost<Seq<Station>>,
    Ghost(n0): Ghost<int>,
)
    requires
        forall|j: int|
            #![trigger trip.connections@[j]]
            0 <= j < trip.connections@.len() ==> wire_connection_readable(trip.connections@[j], ws@, start_time),
        old(stations)@.len() == n_old + ws@.len(),
        connections_registered(base, old(stations)@, old(connections)@, n0),
        0 <= n0 <= old(connections)@.len(),
        old(connections)@.len() + trip.connections@.len() <= usize::MAX,
    ensures
        final(stations)@.len() == old(stations)@.len(),
        connections_registered(base, final(stations)@, final(connections)@, n0),
        final(connections)@.len() == old(connections)@.len() + trip.connections@.len(),
        final(connections)@.subrange(0, old(connections)@.len() as int) == old(connections)@,
        forall|j: int|
            #![trigger trip.connections@[j]]
            0 <= j < trip.connections@.len() ==> connection_from_wire(
                final(connections)@[old(connections)@.len() + j],
                trip.connections@[j],
                route as int,
                trip_id as int,
                product_type,
                wire_station_idx(ws@, trip.connections@[j].from_id@, n_old as int),
                wire_station_idx(ws@, trip.connections@[j].to_id@, n_old as int),
                start_time,
                old(connections)@.len() + j,
            ),
{
    let ghost c_old = connections@;
    let mut j: usize = 0;
    while j < trip.connections.len()
        invariant
            j <= trip.connections@.len(),
            forall|jj: int|
                #![trigger trip.connections@[jj]]
                0 <= jj < trip.connections@.len() ==> wire_connection_readable(trip.connections@[jj], ws@, start_time),
            stations@.len() == n_old + ws@.len(),
            connections_registered(base, stations@, connections@, n0),
            0 <= n0 <= c_old.len(),
            c_old.len() + trip.connections@.len() <= usize::MAX,
            connections@.len() == c_old.len() + j,
            connections@.subrange(0, c_old.len() as int) == c_old,
            forall|jj: int|
                #![trigger trip.connections@[jj]]
                0 <= jj < j ==> connection_from_wire(
                    connections@[c_old.len() + jj],
                    trip.connections@[jj],
                    route as int,
                    trip_id as int,
                    product_type,
                    wire_station_idx(ws@, trip.connections@[jj].from_id@, n_old as int),
                    wire_station_idx(ws@, trip.connections@[jj].to_id@, n_old as int),
                    start_time,
                    c_old.len() + jj,
                ),
        decreases trip.connections@.len() - j,
    {
        let w = &trip.connections[j];
        assert(wire_connection_readable(*w, ws@, start_time));
        proof {
            lemma_last_with_id(ws@, w.from_id@, ws@.len() as int);
            lemma_last_with_id(ws@, w.to_id@, ws@.len() as int);
        }
        let ns = stations.len();
        let from_k = find_last_station(ws, &w.from_id);
        let to_k = find_last_station(ws, &w.to_id);
        let from_idx = match from_k {
            Some(k) => {
                assert(n_old + k < ns);
                n_old + k
            },
            None => n_old,
        };
        let to_idx = match to_k {
            Some(k) => {
                assert(n_old + k < ns);
                n_old + k
            },
            None => n_old,
        };
        let (dep_scheduled, dep_delay) = match &w.departure {
            Some(d) => (to_mtime(d.scheduled, start_time), if d.is_live { Some(d.delay_minutes as i16) } else { None }),
            None => (0, None),
        };
        let (arr_scheduled, arr_delay) = match &w.arrival {
            Some(a) => (to_mtime(a.scheduled, start_time), if a.is_live { Some(a.delay_minutes as i16) } else { None }),
            None => (0, None),
        };
        let id = connections.len();
        let mut nc = Connection::new(
            id,
            route,
            product_type as i16,
            trip_id,
            w.cancelled,
            from_idx,
            dep_scheduled,
            dep_delay,
            to_idx,
            arr_scheduled,
            arr_delay,
        );
        if nc.product_type == 100 {
            nc.departure.in_out_allowed = false;
        }
        let ghost st_before = stations@;
        let ghost cb = connections@;
        stations[from_idx].departures.push(id);
        stations[to_idx].arrivals.push(id);
        proof {
            lemma_registered_push(base, st_before, stations@, cb, nc, n0);
        }
        connections.push(nc);
        proof {
            assert(connections@.subrange(0, c_old.len() as int) =~= cb.subrange(0, c_old.len() as int));
            assert forall|jj: int|
                #![trigger trip.connections@[jj]]
                0 <= jj < j + 1 implies connection_from_wire(
                    connections@[c_old.len() + jj],
                    trip.connections@[jj],
                    route as int,
                    trip_id as int,
                    product_type,
                    wire_station_idx(ws@, trip.connections@[jj].from_id@, n_old as int),
                    wire_station_idx(ws@, trip.connections@[jj].to_id@, n_old as int),
                    start_time,
                    c_old.len() + jj,
                ) by {
                if jj < j {
                    assert(connections@[c_old.len() + jj] == cb[c_old.len() + jj]);
                }
            }
        }
        j = j + 1;
    }
}

proof fn lemma_trip_conns_len(trips: Seq<wire::Trip>, n: int)
    requires
        0 <= n,
    ensures
        trip_conns(trips, n).len() >= 0,
        forall|m: int| 0 <= m <= n ==> #[trigger] trip_conns(trips, m).len() <= trip_conns(trips, n).len(),
    decreases n,
{
    if n > 0 {
        lemma_trip_conns_len(trips, n - 1);
    }
}

proof fn lemma_route_conns_len(routes: Seq<wire::Route>, n: int)
    requires
        0 <= n,
    ensures
        forall|m: int| 0 <= m <= n ==> #[trigger] route_conns(routes, m).len() <= route_conns(routes, n).len(),
    decreases n,
{
    if n > 0 {
        lemma_route_conns_len(routes, n - 1);
    }
}

/// Every connection of every trip can be read.
pub open spec fn trips_readable(trips: Seq<wire::Trip>, ws: Seq<wire::Station>, start_time: i64) -> bool {
    forall|t: int, j: int|
        #![trigger trips[t].connections@[j]]
        0 <= t < trips.len() && 0 <= j < trips[t].connections@.len()
            ==> wire_connection_readable(trips[t].connections@[j], ws, start_time)
}

/// Reads one route's trips in order; trip `t` gets trip id `t`.
fn load_route(
    r: &wire::Route,
    route: usize,
    ws: &Vec<wire::Station>,
    n_old: usize,
    start_time: i64,
    stations: &mut Vec<Station>,
    connections: &mut Vec<Connection>,
    Ghost(base): Ghost<Seq<Station>>,
    Ghost(n0): Ghost<int>,
)
    requires
        trips_readable(r.trips@, ws@, start_time),
        r.trips@.len() <= i32::MAX,
        old(stations)@.len() == n_old + ws@.len(),
        connections_registered(base, old(stations)@, old(connections)@, n0),
        0 <= n0 <= old(connections)@.len(),
        old(connections)@.len() + trip_conns(r.trips@, r.trips@.len() as int).len() <= usize::MAX,
    ensures
        final(stations)@.len() == old(stations)@.len(),
        connections_registered(base, final(stations)@, final(connections)@, n0),
        final(connections)@.len() == old(connections)@.len() + trip_conns(r.trips@, r.trips@.len() as int).len(),
        final(connections)@.subrange(0, old(connections)@.len() as int) == old(connections)@,
        forall|k: int|
            #![trigger trip_conns(r.trips@, r.trips@.len() as int)[k]]
            0 <= k < trip_conns(r.trips@, r.trips@.len() as int).len() ==> {
                let e = trip_conns(r.trips@, r.trips@.len() as int)[k];
                connection_from_wire(
                    final(connections)@[old(connections)@.len() + k],
                    e.1,
                    route as int,
                    e.0,
                    r.product_type,
                    wire_station_idx(ws@, e.1.from_id@, n_old as int),
                    wire_station_idx(ws@, e.1.to_id@, n_old as int),
                    start_time,
                    old(connections)@.len() + k,
                )
            },
{
    let ghost c_old = connections@;
    let ghost trips = r.trips@;
    proof {
        lemma_trip_conns_len(trips, trips.len() as int);
    }
    let mut t: usize = 0;
    let mut trip_id: i32 = 0;
    while t < r.trips.len()
        invariant
            t <= trips.len(),
            trips == r.trips@,
            trip_id == t,
            trips.len() <= i32::MAX,
            trips_readable(trips, ws@, start_time),
            stations@.len() == n_old + ws@.len(),
            connections_registered(base, stations@, connections@, n0),
            0 <= n0 <= c_old.len(),
            c_old.len() + trip_conns(trips, trips.len() as int).len() <= usize::MAX,
            forall|m: int| 0 <= m <= trips.len() ==> #[trigger] trip_conns(trips, m).len() <= trip_conns(trips, trips.len() as int).len(),
            connections@.len() == c_old.len() + trip_conns(trips, t as int).len(),
            connections@.subrange(0, c_old.len() as int) == c_old,
            forall|k: int|
                #![trigger trip_conns(trips, t as int)[k]]
                0 <= k < trip_conns(trips, t as int).len() ==> {
                    let e = trip_conns(trips, t as int)[k];
                    connection_from_wire(
                        connections@[c_old.len() + k],
                        e.1,
                        route as int,
                        e.0,
                        r.product_type,
                        wire_station_idx(ws@, e.1.from_id@, n_old as int),
                        wire_station_idx(ws@, e.1.to_id@, n_old as int),
                        start_time,
                        c_old.len() + k,
                    )
                },
        decreases trips.len() - t,
    {
        let ghost cb = connections@;
        let ghost before = trip_conns(trips, t as int);
        let ghost added = trips[t as int].connections@.map_values(|c: wire::Connection| (t as int, c));
        assert(trip_conns(trips, t as int + 1) == before + added);
        assert(trip_conns(trips, t as int + 1).len() <= trip_conns(trips, trips.len() as int).len());
        load_trip(&r.trips[t], route, trip_id, r.product_type, ws, n_old, start_time, stations, connections, Ghost(base), Ghost(n0));
        proof {
            assert(connections@.subrange(0, c_old.len() as int) =~= connections@.subrange(0, cb.len() as int).subrange(0, c_old.len() as int));
            let after = trip_conns(trips, t as int + 1);
            assert forall|k: int|
                #![trigger after[k]]
                0 <= k < after.len() implies {
                    let e = after[k];
                    connection_from_wire(
                        connections@[c_old.len() + k],
                        e.1,
                        route as int,
                        e.0,
                        r.product_type,
                        wire_station_idx(ws@, e.1.from_id@, n_old as int),
                        wire_station_idx(ws@, e.1.to_id@, n_old as int),
                        start_time,
                        c_old.len() + k,
                    )
                } by {
                if k < before.len() {
                    assert(after[k] == before[k]);
                    assert(connections@[c_old.len() + k] == connections@.subrange(0, cb.len() as int)[c_old.len() + k]);
                } else {
                    let j = k - before.len();
                    assert(after[k] == added[j]);
                    assert(trips[t as int].connections@[j] == r.trips@[t as int].connections@[j]);
                }
            }
        }
        t = t + 1;
        trip_id = trip_id + 1;
    }
}

proof fn lemma_trip_conns_readable(trips: Seq<wire::Trip>, ws: Seq<wire::Station>, start_time: i64, n: int, j: int)
    requires
        trips_readable(trips, ws, start_time),
        0 <= n <= trips.len(),
        0 <= j < trip_conns(trips, n).len(),
    ensures
        wire_connection_readable(trip_conns(trips, n)[j].1, ws, start_time),
    decreases n,
{
    if n > 0 {
        let before = trip_conns(trips, n - 1);
        if j < before.len() {
            lemma_trip_conns_readable(trips, ws, start_time, n - 1, j);
        } else {
            let x = j - before.len();
            assert(trip_conns(trips, n)[j] == (n - 1, trips[n - 1].connections@[x]));
        }
    }
}

proof fn lemma_route_conns_readable(rs: Seq<wire::Route>, ws: Seq<wire::Station>, start_time: i64, n: int, k: int)
    requires
        forall|x: int| #![trigger rs[x]] 0 <= x < rs.len() ==> trips_readable(rs[x].trips@, ws, start_time),
        0 <= n <= rs.len(),
        0 <= k < route_conns(rs, n).len(),
    ensures
        wire_connection_readable(route_conns(rs, n)[k].2, ws, start_time),
    decreases n,
{
    if n > 0 {
        let before = route_conns(rs, n - 1);
        if k < before.len() {
            lemma_route_conns_readable(rs, ws, start_time, n - 1, k);
        } else {
            let j = k - before.len();
            let tc = trip_conns(rs[n - 1].trips@, rs[n - 1].trips@.len() as int);
            assert(route_conns(rs, n)[k] == (n - 1, tc[j].0, tc[j].1));
            assert(trips_readable(rs[n - 1].trips@, ws, start_time));
            lemma_trip_conns_readable(rs[n - 1].trips@, ws, start_time, rs[n - 1].trips@.len() as int, j);
        }
    }
}

/// The stations after reading and sorting: the old ones keep their data and
/// connections, the new ones list the connections read.
proof fn lemma_stations_loaded(
    old_stations: Seq<Station>,
    base: Seq<Station>,
    st_built: Seq<Station>,
    st: Seq<Station>,
    old_conns: Seq<Connection>,
    conns: Seq<Connection>,
    ws: Seq<wire::Station>,
)
    requires
        base.len() == old_stations.len() + ws.len(),
        base.subrange(0, old_stations.len() as int) == old_stations,
        forall|k: int|
            #![trigger base[k]]
            old_stations.len() <= k < base.len() ==> {
                &&& base[k].id == ws[k - old_stations.len()].id
                &&& base[k].name == ws[k - old_stations.len()].name
                &&& base[k].transfer_time == 1
                &&& base[k].parent_idx == 0
                &&& base[k].footpaths@.len() == 0
                &&& base[k].departures@.len() == 0
                &&& base[k].arrivals@.len() == 0
            },
        connections_registered(base, st_built, conns, old_conns.len() as int),
        old_conns.len() <= conns.len(),
        forall|p: int|
            #![trigger conns[p]]
            old_conns.len() <= p < conns.len() ==> conns[p].from_idx >= old_stations.len() && conns[p].to_idx >= old_stations.len(),
        st.len() == st_built.len(),
        forall|t: int|
            #![trigger st[t]]
            0 <= t < st.len() ==> {
                &&& st[t].departures@.to_multiset() == st_built[t].departures@.to_multiset()
                &&& st[t].id == st_built[t].id
                &&& st[t].name == st_built[t].name
                &&& st[t].arrivals == st_built[t].arrivals
                &&& st[t].transfer_time == st_built[t].transfer_time
                &&& st[t].parent_idx == st_built[t].parent_idx
                &&& st[t].footpaths == st_built[t].footpaths
            },
    ensures
        forall|t: int|
            #![trigger st[t]]
            0 <= t < old_stations.len() ==> {
                &&& st[t].id == old_stations[t].id
                &&& st[t].name == old_stations[t].name
                &&& st[t].transfer_time == old_stations[t].transfer_time
                &&& st[t].parent_idx == old_stations[t].parent_idx
                &&& st[t].footpaths == old_stations[t].footpaths
                &&& st[t].arrivals@ == old_stations[t].arrivals@
                &&& st[t].departures@.to_multiset() == old_stations[t].departures@.to_multiset()
            },
        forall|t: int|
            #![trigger st[t]]
            old_stations.len() <= t < st.len() ==> station_from_wire(st[t], ws[t - old_stations.len()], conns, old_conns.len() as int, t),
{
    reveal(connections_registered);
    let n_old = old_stations.len() as int;
    let n0 = old_conns.len() as int;
    assert forall|t: int| #![trigger st[t]] 0 <= t < n_old implies {
        &&& st[t].id == old_stations[t].id
        &&& st[t].name == old_stations[t].name
        &&& st[t].transfer_time == old_stations[t].transfer_time
        &&& st[t].parent_idx == old_stations[t].parent_idx
        &&& st[t].footpaths == old_stations[t].footpaths
        &&& st[t].arrivals@ == old_stations[t].arrivals@
        &&& st[t].departures@.to_multiset() == old_stations[t].departures@.to_multiset()
    } by {
        assert(base[t] == base.subrange(0, n_old)[t]);
        assert(st_built[t] == st_built[t]);
        let od = base[t].departures@;
        let d = st_built[t].departures@;
        let oa = base[t].arrivals@;
        let a = st_built[t].arrivals@;
        assert(departures_extended(od, d, conns, n0, t));
        assert(arrivals_extended(oa, a, conns, n0, t));
        if d.len() > od.len() {
            assert(conns[d[od.len() as int] as int].from_idx == t);
        }
        assert(d =~= d.subrange(0, od.len() as int));
        if a.len() > oa.len() {
            assert(conns[a[oa.len() as int] as int].to_idx == t);
        }
        assert(a =~= a.subrange(0, oa.len() as int));
        assert(st_built[t].arrivals@ == old_stations[t].arrivals@);
    }
    assert forall|t: int| #![trigger st[t]] n_old <= t < st.len() implies station_from_wire(st[t], ws[t - n_old], conns, n0, t) by {
        assert(st_built[t] == st_built[t]);
        let e = Seq::<usize>::empty();
        let d0 = st_built[t].departures@;
        let d = st[t].departures@;
        assert(base[t].departures@ =~= e);
        assert(base[t].arrivals@ =~= e);
        assert(departures_extended(e, d0, conns, n0, t));
        assert(d0.no_duplicates()) by {
            assert forall|x: int, y: int| 0 <= x < d0.len() && 0 <= y < d0.len() && x != y implies d0[x] != d0[y] by {
                if x < y {
                    assert(d0[x] < d0[y]);
                } else {
                    assert(d0[y] < d0[x]);
                }
            }
        }
        d0.lemma_multiset_has_no_duplicates();
        d.lemma_multiset_has_no_duplicates_conv();
        assert forall|m: int| #![trigger d[m]] 0 <= m < d.len() implies n0 <= d[m] < conns.len() && conns[d[m] as int].from_idx == t by {
            assert(d.to_multiset().count(d[m]) > 0);
            assert(d0.to_multiset().count(d[m]) > 0);
            assert(d0.contains(d[m]));
            let m0 = choose|m0: int| 0 <= m0 < d0.len() && d0[m0] == d[m];
        }
        assert forall|k: int| #![trigger conns[k]] n0 <= k < conns.len() && conns[k].from_idx == t implies d.contains(k as usize) by {
            let m0 = choose|m0: int| 0 <= m0 < d0.len() && d0[m0] == k;
            assert(d0.to_multiset().count(k as usize) > 0);
            assert(d.to_multiset().count(k as usize) > 0);
        }
    }
}

/// `r` is read from wire route `w`.
pub open spec fn route_from_wire(r: Route, w: wire::Route) -> bool {
    &&& r.id == w.id
    &&& r.name@.len() == 0
    &&& r.product_type == w.product_type as i16
    &&& r.message@.len() == 0
    &&& r.direction@.len() == 0
}

/// `st`, at position `t`, is wire station `w` with the ids (from `n0` on, in
/// increasing order) of the connections arriving at it, and exactly the ids
/// of those departing from it, each once.
pub open spec fn station_from_wire(st: Station, w: wire::Station, conns: Seq<Connection>, n0: int, t: int) -> bool {
    let dep = st.departures@;
    &&& st.id == w.id
    &&& st.name == w.name
    &&& st.transfer_time == 1
    &&& st.parent_idx == 0
    &&& st.footpaths@.len() == 0
    &&& arrivals_extended(Seq::empty(), st.arrivals@, conns, n0, t)
    &&& dep.no_duplicates()
    &&& forall|m: int| #![trigger dep[m]] 0 <= m < dep.len() ==> n0 <= dep[m] < conns.len() && conns[dep[m] as int].from_idx == t
    &&& forall|k: int| #![trigger conns[k]] n0 <= k < conns.len() && conns[k].from_idx == t ==> dep.contains(k as usize)
}

/// The position that a query names: that of the last wire station with the
/// id, or 0 where there is none.
pub open spec fn queried_station_idx(ws: Seq<wire::Station>, id: Seq<char>, n_old: int) -> int {
    if last_with_id(ws, id, ws.len() as int) >= 0 {
        wire_station_idx(ws, id, n_old)
    } else {
        0
    }
}

/// The model after reading `message` into stations `old_stations`, routes
/// `old_routes` and connections `old_conns`: the new stations, routes and
/// connections follow the old ones, as `deserialize_protobuf` reads them, and
/// `m` is the query's data.
pub open spec fn timetable_read(
    message: wire::Message,
    old_stations: Seq<Station>,
    old_routes: Seq<Route>,
    old_conns: Seq<Connection>,
    new_stations: Seq<Station>,
    new_routes: Seq<Route>,
    new_conns: Seq<Connection>,
    m: QueryMetadata,
) -> bool {
    let tt = message.timetable->0;
    let q = message.query->0;
    let ws = tt.stations@;
    let n_old = old_stations.len() as int;
    let n0 = old_conns.len() as int;
    let rc = route_conns(tt.routes@, tt.routes@.len() as int);
    let conns = new_conns;
    &&& message.timetable is Some
    &&& message.query is Some
    &&& conns.len() == n0 + rc.len()
    &&& conns.subrange(0, n0) == old_conns
    &&& forall|k: int|
        #![trigger rc[k]]
        0 <= k < rc.len() ==> loaded_connection(conns[n0 + k], rc[k], tt.routes@, ws, n_old, tt.start_time, n0 + k)
    &&& new_routes.len() == old_routes.len() + tt.routes@.len()
    &&& new_routes.subrange(0, old_routes.len() as int) == old_routes
    &&& forall|k: int|
        #![trigger tt.routes@[k]]
        0 <= k < tt.routes@.len() ==> route_from_wire(new_routes[old_routes.len() + k], tt.routes@[k])
    &&& new_stations.len() == n_old + ws.len()
    &&& forall|t: int|
        #![trigger new_stations[t]]
        0 <= t < n_old ==> {
            &&& new_stations[t].id == old_stations[t].id
            &&& new_stations[t].name == old_stations[t].name
            &&& new_stations[t].transfer_time == old_stations[t].transfer_time
            &&& new_stations[t].parent_idx == old_stations[t].parent_idx
            &&& new_stations[t].footpaths == old_stations[t].footpaths
            &&& new_stations[t].arrivals@ == old_stations[t].arrivals@
            &&& new_stations[t].departures@.to_multiset() == old_stations[t].departures@.to_multiset()
        }
    &&& forall|t: int|
        #![trigger new_stations[t]]
        n_old <= t < new_stations.len() ==> station_from_wire(new_stations[t], ws[t - n_old], conns, n0, t)
    &&& forall|t: int|
        #![trigger new_stations[t]]
        0 <= t < new_stations.len() ==> forall|a: int, b: int|
            0 <= a <= b < new_stations[t].departures@.len()
                ==> conns[new_stations[t].departures@[a] as int].departure.projected_spec()
                <= conns[new_stations[t].departures@[b] as int].departure.projected_spec()
    &&& m.start_ts == tt.start_time
    &&& m.origin_id == q.origin
    &&& m.origin_idx == queried_station_idx(ws, q.origin@, n_old)
    &&& m.destination_id == q.destination
    &&& m.destination_idx == queried_station_idx(ws, q.destination@, n_old)
    &&& m.now == q.now
    &&& m.system == message.system
}

/// Reads a request: its stations, then its routes with their trips'
/// connections (in that order; the departure of a walking connection, of
/// product type 100, does not allow boarding), registers each connection at
/// its stations, sorts every station's departures by projected departure,
/// and returns the query's data. Delay distributions carried by the request
/// are not read here.
pub fn deserialize_protobuf(
    message: &wire::Message,
    stations: &mut Vec<Station>,
    routes: &mut Vec<Route>,
    connections: &mut Vec<Connection>,
) -> (m: QueryMetadata)
    requires
        message.timetable is Some,
        message.query is Some,
        forall|r: int|
            #![trigger message.timetable->0.routes@[r]]
            0 <= r < message.timetable->0.routes@.len() ==> trips_readable(
                message.timetable->0.routes@[r].trips@,
                message.timetable->0.stations@,
                message.timetable->0.start_time,
            ) && message.timetable->0.routes@[r].trips@.len() <= i32::MAX,
        old(connections)@.len() + route_conns(message.timetable->0.routes@, message.timetable->0.routes@.len() as int).len()
            <= usize::MAX,
        forall|s: int, k: int|
            #![trigger old(stations)@[s].departures@[k]]
            0 <= s < old(stations)@.len() && 0 <= k < old(stations)@[s].departures@.len()
                ==> old(stations)@[s].departures@[k] < old(connections)@.len(),
        forall|p: int| #![trigger old(connections)@[p]] 0 <= p < old(connections)@.len() ==> old(connections)@[p].departure.projection_fits(),
    ensures
        timetable_read(*message, old(stations)@, old(routes)@, old(connections)@, final(stations)@, final(routes)@, final(connections)@, m),
{
    let tt = message.timetable.as_ref().unwrap();
    let ws = &tt.stations;
    let n_old = stations.len();
    let n0 = connections.len();
    let ghost old_stations = stations@;
    let ghost old_routes = routes@;
    let ghost old_conns = connections@;
    let mut i: usize = 0;
    while i < ws.len()
        invariant
            i <= ws@.len(),
            n_old == old_stations.len(),
            stations@.len() == n_old + i,
            stations@.subrange(0, n_old as int) == old_stations,
            forall|k: int|
                #![trigger stations@[k]]
                n_old <= k < n_old + i ==> {
                    &&& stations@[k].id == ws@[k - n_old].id
                    &&& stations@[k].name == ws@[k - n_old].name
                    &&& stations@[k].transfer_time == 1
                    &&& stations@[k].parent_idx == 0
                    &&& stations@[k].footpaths@.len() == 0
                    &&& stations@[k].departures@.len() == 0
                    &&& stations@[k].arrivals@.len() == 0
                },
        decreases ws@.len() - i,
    {
        let ghost before = stations@;
        stations.push(Station::new(ws[i].id.clone(), ws[i].name.clone(), Vec::new()));
        proof {
            assert(stations@.subrange(0, n_old as int) =~= before.subrange(0, n_old as int));
        }
        i = i + 1;
    }
    let ghost base = stations@;
    proof {
        lemma_registered_start(base, old_conns);
        lemma_route_conns_len(tt.routes@, tt.routes@.len() as int);
    }
    let ghost rs = tt.routes@;
    let mut r: usize = 0;
    while r < tt.routes.len()
        invariant
            r <= rs.len(),
            rs == tt.routes@,
            forall|x: int|
                #![trigger rs[x]]
                0 <= x < rs.len() ==> trips_readable(rs[x].trips@, ws@, tt.start_time) && rs[x].trips@.len() <= i32::MAX,
            n0 == old_conns.len(),
            n_old == old_stations.len(),
            stations@.len() == n_old + ws@.len(),
            connections_registered(base, stations@, connections@, n0 as int),
            old_conns.len() + route_conns(rs, rs.len() as int).len() <= usize::MAX,
            forall|m: int| 0 <= m <= rs.len() ==> #[trigger] route_conns(rs, m).len() <= route_conns(rs, rs.len() as int).len(),
            connections@.len() == n0 + route_conns(rs, r as int).len(),
            connections@.subrange(0, n0 as int) == old_conns,
            forall|k: int|
                #![trigger route_conns(rs, r as int)[k]]
                0 <= k < route_conns(rs, r as int).len() ==> loaded_connection(
                    connections@[n0 + k],
                    route_conns(rs, r as int)[k],
                    rs,
                    ws@,
                    n_old as int,
                    tt.start_time,
                    n0 + k,
                ),
            routes@.len() == old_routes.len() + r,
            routes@.subrange(0, old_routes.len() as int) == old_routes,
            forall|k: int| #![trigger rs[k]] 0 <= k < r ==> route_from_wire(routes@[old_routes.len() + k], rs[k]),
        decreases rs.len() - r,
    {
        let wr = &tt.routes[r];
        let ghost routes_before = routes@;
        routes.push(Route {
            id: wr.id.clone(),
            direction: String::new(),
            name: String::new(),
            product_type: wr.product_type as i16,
            message: String::new(),
        });
        proof {
            assert(routes@.subrange(0, old_routes.len() as int) =~= routes_before.subrange(0, old_routes.len() as int));
            assert forall|k: int| #![trigger rs[k]] 0 <= k < r + 1 implies route_from_wire(routes@[old_routes.len() + k], rs[k]) by {
                if k < r {
                    assert(routes@[old_routes.len() + k] == routes_before[old_routes.len() + k]);
                }
            }
        }
        let ghost cb = connections@;
        let ghost before = route_conns(rs, r as int);
        let ghost added = trip_conns(rs[r as int].trips@, rs[r as int].trips@.len() as int).map_values(
            |e: (int, wire::Connection)| (r as int, e.0, e.1),
        );
        assert(route_conns(rs, r as int + 1) == before + added);
        assert(route_conns(rs, r as int + 1).len() <= route_conns(rs, rs.len() as int).len());
        assert(trips_readable(rs[r as int].trips@, ws@, tt.start_time));
        load_route(wr, r, ws, n_old, tt.start_time, stations, connections, Ghost(base), Ghost(n0 as int));
        proof {
            assert(connections@.subrange(0, n0 as int) =~= connections@.subrange(0, cb.len() as int).subrange(0, n0 as int));
            let after = route_conns(rs, r as int + 1);
            let tc = trip_conns(rs[r as int].trips@, rs[r as int].trips@.len() as int);
            assert forall|k: int|
                #![trigger after[k]]
                0 <= k < after.len() implies loaded_connection(connections@[n0 + k], after[k], rs, ws@, n_old as int, tt.start_time, n0 + k) by {
                if k < before.len() {
                    assert(after[k] == before[k]);
                    assert(connections@[n0 + k] == connections@.subrange(0, cb.len() as int)[n0 + k]);
                } else {
                    let j = k - before.len();
                    assert(after[k] == added[j]);
                    assert(added[j] == (r as int, tc[j].0, tc[j].1));
                }
            }
        }
        r = r + 1;
    }
    let ghost st_built = stations@;
    let ghost rc = route_conns(rs, rs.len() as int);
    proof {
        reveal(connections_registered);
        assert forall|k: int| #![trigger rc[k]] 0 <= k < rc.len() implies
            connections@[n0 + k].from_idx >= n_old && connections@[n0 + k].to_idx >= n_old
            && connections@[n0 + k].from_idx < stations@.len() && connections@[n0 + k].to_idx < stations@.len()
            && connections@[n0 + k].departure.projection_fits() by {
            assert(loaded_connection(connections@[n0 + k], rc[k], rs, ws@, n_old as int, tt.start_time, n0 + k));
            lemma_route_conns_readable(rs, ws@, tt.start_time, rs.len() as int, k);
            lemma_last_with_id(ws@, rc[k].2.from_id@, ws@.len() as int);
            lemma_last_with_id(ws@, rc[k].2.to_id@, ws@.len() as int);
        }
        assert forall|p: int| #![trigger connections@[p]] 0 <= p < connections@.len() implies connections@[p].departure.projection_fits() by {
            if p < n0 {
                assert(connections@[p] == connections@.subrange(0, n0 as int)[p]);
            } else {
                assert(rc[p - n0] == rc[p - n0]);
            }
        }
        assert forall|s: int, k: int|
            #![trigger st_built[s].departures@[k]]
            0 <= s < st_built.len() && 0 <= k < st_built[s].departures@.len() implies st_built[s].departures@[k] < connections@.len() by {
            assert(departures_extended(base[s].departures@, st_built[s].departures@, connections@, n0 as int, s));
            if k < base[s].departures@.len() {
                assert(st_built[s].departures@[k] == st_built[s].departures@.subrange(0, base[s].departures@.len() as int)[k]);
                if s < n_old {
                    assert(base[s] == base.subrange(0, n_old as int)[s]);
                } else {
                    assert(base[s].departures@.len() == 0);
                }
            }
        }
    }
    sort_departures_by_position(stations, connections);
    let q = message.query.as_ref().unwrap();
    proof {
        lemma_last_with_id(ws@, q.origin@, ws@.len() as int);
        lemma_last_with_id(ws@, q.destination@, ws@.len() as int);
    }
    let ns = stations.len();
    let origin_idx = match find_last_station(ws, &q.origin) {
        Some(k) => {
            assert(n_old + k < ns);
            n_old + k
        },
        None => 0,
    };
    let destination_idx = match find_last_station(ws, &q.destination) {
        Some(k) => {
            assert(n_old + k < ns);
            n_old + k
        },
        None => 0,
    };
    proof {
        assert forall|p: int| #![trigger connections@[p]] n0 <= p < connections@.len()
            implies connections@[p].from_idx >= n_old && connections@[p].to_idx >= n_old by {
            assert(rc[p - n0] == rc[p - n0]);
        }
        lemma_stations_loaded(old_stations, base, st_built, stations@, old_conns, connections@, ws@);
    }
    QueryMetadata {
        start_ts: tt.start_time,
        origin_id: q.origin.clone(),
        origin_idx,
        destination_id: q.destination.clone(),
        destination_idx,
        now: q.now,
        system: message.system.clone(),
    }
}

#[verifier::external_type_specification]
#[verifier::external_body]
#[verifier::reject_recursive_types(K)]
#[verifier::reject_recursive_types(V)]
#[verifier::reject_recursive_types(S)]
pub struct ExIndexMap<K, V, S>(IndexMap<K, V, S>);

/// Map from (trip id, route position) to the trip's index among the route's trips.
pub type TripSlots = IndexMap<(i32, usize), usize>;

/// The contents of the map from (trip id, route position) to the trip's index.
pub uninterp spec fn trip_slots(m: TripSlots) -> Map<(i32, usize), usize>;

/// Calls `IndexMap::new`: the new map is empty.
#[verifier::external_body]
fn trip_slots_new() -> (m: TripSlots)
    ensures
        trip_slots(m).dom() == Set::<(i32, usize)>::empty(),
{
    IndexMap::new()
}

/// Calls `IndexMap::get`: the value stored for the key, if there is one.
#[verifier::external_body]
fn trip_slots_get(m: &TripSlots, trip_id: i32, route_idx: usize) -> (r: Option<usize>)
    ensures
        r == (if trip_slots(*m).contains_key((trip_id, route_idx)) {
            Some(trip_slots(*m)[(trip_id, route_idx)])
        } else {
            None
        }),
{
    m.get(&(trip_id, route_idx)).copied()
}

/// Calls `IndexMap::insert`: afterwards the key maps to `slot`, and every
/// other key to what it mapped to before.
#[verifier::external_body]
fn trip_slots_insert(m: &mut TripSlots, trip_id: i32, route_idx: usize, slot: usize)
    ensures
        trip_slots(*final(m)) == trip_slots(*old(m)).insert((trip_id, route_idx), slot),
{
    m.insert((trip_id, route_idx), slot);
}

/// The distinct keys of `keys` in the order of their first occurrence.
pub open spec fn first_keys(keys: Seq<(i32, usize)>) -> Seq<(i32, usize)>
    decreases keys.len(),
{
    if keys.len() == 0 {
        Seq::empty()
    } else {
        let prev = first_keys(keys.drop_last());
        if keys.drop_last().contains(keys.last()) {
            prev
        } else {
            prev.push(keys.last())
        }
    }
}

/// The values whose key is `k`, in order.
pub open spec fn group_of(keys: Seq<(i32, usize)>, vals: Seq<wire::Connection>, k: (i32, usize)) -> Seq<wire::Connection>
    decreases keys.len(),
{
    if keys.len() == 0 || vals.len() != keys.len() {
        Seq::empty()
    } else {
        let prev = group_of(keys.drop_last(), vals.drop_last(), k);
        if keys.last() == k {
            prev.push(vals.last())
        } else {
            prev
        }
    }
}

/// A connection carries the walking message.
pub open spec fn is_walk(c: Connection) -> bool {
    c.message@ == WALKING_MSG@
}

/// How many of the first `j` connections of `rev` walk.
pub open spec fn walks_before(rev: Seq<Connection>, j: int) -> int
    decreases j,
{
    if j <= 0 {
        0
    } else {
        walks_before(rev, j - 1) + if is_walk(rev[j - 1]) { 1int } else { 0int }
    }
}

/// The route that connection `rev[j]` is written under: a walk gets a route
/// of its own after the `n_routes` routes, the others keep theirs.
pub open spec fn serial_route(rev: Seq<Connection>, n_routes: int, j: int) -> usize {
    if is_walk(rev[j]) {
        (n_routes + walks_before(rev, j)) as usize
    } else {
        rev[j].route_idx
    }
}

/// The trip that connection `rev[j]` is written in: its trip id under its route.
pub open spec fn serial_key(rev: Seq<Connection>, n_routes: int, j: int) -> (i32, usize) {
    (rev[j].trip_id, serial_route(rev, n_routes, j))
}

/// One end of a connection as written: a unix timestamp and the delay, if any.
pub open spec fn wire_stop(s: StopInfo, start_ts: i64) -> wire::StopInfo {
    wire::StopInfo {
        scheduled: (s.scheduled * 60 + start_ts) as i64,
        delay_minutes: match s.delay {
            Some(d) => d as i32,
            None => 0i32,
        },
        is_live: s.delay is Some,
    }
}

/// A connection as written, between the ids of its stations.
pub open spec fn wire_of(c: Connection, stations: Seq<Station>, start_ts: i64) -> wire::Connection {
    wire::Connection {
        from_id: stations[c.from_idx as int].id,
        to_id: stations[c.to_idx as int].id,
        cancelled: false,
        departure: Some(wire_stop(c.departure, start_ts)),
        arrival: Some(wire_stop(c.arrival, start_ts)),
        source_id: c.id,
    }
}

/// The keys of the first `j` connections of `rev`.
pub open spec fn serial_keys(rev: Seq<Connection>, n_routes: int, j: int) -> Seq<(i32, usize)> {
    Seq::new(j as nat, |x: int| serial_key(rev, n_routes, x))
}

/// The first `j` connections of `rev` as written.
pub open spec fn serial_vals(rev: Seq<Connection>, stations: Seq<Station>, start_ts: i64, j: int) -> Seq<wire::Connection> {
    Seq::new(j as nat, |x: int| wire_of(rev[x], stations, start_ts))
}

/// Keeps the keys of route `r`.
pub open spec fn route_is(r: int) -> spec_fn((i32, usize)) -> bool {
    |k: (i32, usize)| k.1 == r
}

/// The values of a key.
pub open spec fn group_fn(keys: Seq<(i32, usize)>, vals: Seq<wire::Connection>) -> spec_fn((i32, usize)) -> Seq<wire::Connection> {
    |k: (i32, usize)| group_of(keys, vals, k)
}

/// The trips of route `r` written from `keys` and `vals`: one per key with
/// that route, in the order of first occurrence, each with its values in order.
pub open spec fn grouped_trips(keys: Seq<(i32, usize)>, vals: Seq<wire::Connection>, r: int) -> Seq<Seq<wire::Connection>> {
    first_keys(keys).filter(route_is(r)).map_values(group_fn(keys, vals))
}

/// The trips of route `r` once the first `j` connections of `rev` are written.
pub open spec fn serial_trips(
    rev: Seq<Connection>,
    stations: Seq<Station>,
    start_ts: i64,
    n_routes: int,
    j: int,
    r: int,
) -> Seq<Seq<wire::Connection>> {
    grouped_trips(serial_keys(rev, n_routes, j), serial_vals(rev, stations, start_ts, j), r)
}

proof fn lemma_first_keys(keys: Seq<(i32, usize)>)
    ensures
        first_keys(keys).no_duplicates(),
        forall|k: (i32, usize)| #[trigger] first_keys(keys).contains(k) <==> keys.contains(k),
    decreases keys.len(),
{
    if keys.len() > 0 {
        let prev = keys.drop_last();
        let last = keys.last();
        lemma_first_keys(prev);
        assert(keys =~= prev.push(last));
        let fp = first_keys(prev);
        assert forall|k: (i32, usize)| keys.contains(k) <==> (prev.contains(k) || k == last) by {
            if keys.contains(k) {
                let i = choose|i: int| 0 <= i < keys.len() && keys[i] == k;
                if i < prev.len() {
                    assert(prev[i] == k);
                }
            }
            if prev.contains(k) {
                let i = choose|i: int| 0 <= i < prev.len() && prev[i] == k;
                assert(keys[i] == k);
            }
            if k == last {
                assert(keys[keys.len() - 1] == k);
            }
        }
        if !prev.contains(last) {
            let f = fp.push(last);
            assert(!fp.contains(last));
            assert forall|k: (i32, usize)| f.contains(k) <==> (fp.contains(k) || k == last) by {
                if f.contains(k) {
                    let i = choose|i: int| 0 <= i < f.len() && f[i] == k;
                    if i < fp.len() {
                        assert(fp[i] == k);
                    }
                }
                if fp.contains(k) {
                    let i = choose|i: int| 0 <= i < fp.len() && fp[i] == k;
                    assert(f[i] == k);
                }
                if k == last {
                    assert(f[f.len() - 1] == k);
                }
            }
            assert forall|a: int, b: int| 0 <= a < f.len() && 0 <= b < f.len() && a != b implies f[a] != f[b] by {
                if a == fp.len() && b < fp.len() {
                    assert(fp.contains(fp[b]));
                } else if b == fp.len() && a < fp.len() {
                    assert(fp.contains(fp[a]));
                }
            }
        }
    }
}

proof fn lemma_first_keys_push(keys: Seq<(i32, usize)>, k: (i32, usize))
    ensures
        first_keys(keys.push(k)) == if keys.contains(k) { first_keys(keys) } else { first_keys(keys).push(k) },
{
    assert(keys.push(k).drop_last() =~= keys);
}

proof fn lemma_group_push(keys: Seq<(i32, usize)>, vals: Seq<wire::Connection>, k: (i32, usize), v: wire::Connection, k2: (i32, usize))
    requires
        keys.len() == vals.len(),
    ensures
        group_of(keys.push(k), vals.push(v), k2) == if k2 == k { group_of(keys, vals, k2).push(v) } else { group_of(keys, vals, k2) },
{
    assert(keys.push(k).drop_last() =~= keys);
    assert(vals.push(v).drop_last() =~= vals);
}

proof fn lemma_group_absent(keys: Seq<(i32, usize)>, vals: Seq<wire::Connection>, k: (i32, usize))
    requires
        !keys.contains(k),
    ensures
        group_of(keys, vals, k) == Seq::<wire::Connection>::empty(),
    decreases keys.len(),
{
    if keys.len() > 0 && vals.len() == keys.len() {
        assert(!keys.drop_last().contains(k)) by {
            if keys.drop_last().contains(k) {
                let i = choose|i: int| 0 <= i < keys.drop_last().len() && keys.drop_last()[i] == k;
                assert(keys[i] == k);
            }
        }
        lemma_group_absent(keys.drop_last(), vals.drop_last(), k);
        assert(keys[keys.len() - 1] != k);
    }
}

/// The element at position `i` of `s`, kept by `pred`, is the one after the
/// kept elements before it.
proof fn lemma_filter_index(s: Seq<(i32, usize)>, pred: spec_fn((i32, usize)) -> bool, i: int)
    requires
        0 <= i < s.len(),
        pred(s[i]),
    ensures
        s.take(i).filter(pred).len() < s.filter(pred).len(),
        s.filter(pred)[s.take(i).filter(pred).len() as int] == s[i],
    decreases s.len(),
{
    reveal(Seq::filter);
    let last = s.len() - 1;
    if i == last {
        assert(s.drop_last() =~= s.take(i));
    } else {
        assert(s.drop_last().take(i) =~= s.take(i));
        lemma_filter_index(s.drop_last(), pred, i);
    }
}

pub(crate) proof fn lemma_filter_no_duplicates<A>(s: Seq<A>, pred: spec_fn(A) -> bool)
    requires
        s.no_duplicates(),
    ensures
        s.filter(pred).no_duplicates(),
        forall|k: A| #[trigger] s.filter(pred).contains(k) ==> s.contains(k) && pred(k),
    decreases s.len(),
{
    reveal(Seq::filter);
    if s.len() > 0 {
        let p = s.drop_last();
        assert(p.no_duplicates()) by {
            assert forall|a: int, b: int| 0 <= a < p.len() && 0 <= b < p.len() && a != b implies p[a] != p[b] by {
                assert(p[a] == s[a] && p[b] == s[b]);
            }
        }
        lemma_filter_no_duplicates(p, pred);
        assert(!p.contains(s.last())) by {
            if p.contains(s.last()) {
                let a = choose|a: int| 0 <= a < p.len() && p[a] == s.last();
                assert(s[a] == s[s.len() - 1]);
            }
        }
        assert forall|k: A| #[trigger] s.filter(pred).contains(k) implies s.contains(k) && pred(k) by {
            let a = choose|a: int| 0 <= a < s.filter(pred).len() && s.filter(pred)[a] == k;
            if a < p.filter(pred).len() {
                assert(p.filter(pred)[a] == k);
                assert(p.filter(pred).contains(k));
                let b = choose|b: int| 0 <= b < p.len() && p[b] == k;
                assert(s[b] == k);
            } else {
                assert(s[s.len() - 1] == k);
            }
        }
        if pred(s.last()) {
            let f = p.filter(pred);
            assert forall|a: int, b: int| 0 <= a < f.push(s.last()).len() && 0 <= b < f.push(s.last()).len() && a != b
                implies f.push(s.last())[a] != f.push(s.last())[b] by {
                if a == f.len() && b < f.len() {
                    assert(f.contains(f[b]));
                } else if b == f.len() && a < f.len() {
                    assert(f.contains(f[a]));
                }
            }
        }
    }
}

proof fn lemma_serial_push(rev: Seq<Connection>, stations: Seq<Station>, start_ts: i64, n_routes: int, j: int)
    requires
        0 <= j,
    ensures
        serial_keys(rev, n_routes, j + 1) == serial_keys(rev, n_routes, j).push(serial_key(rev, n_routes, j)),
        serial_vals(rev, stations, start_ts, j + 1) == serial_vals(rev, stations, start_ts, j).push(wire_of(rev[j], stations, start_ts)),
{
    assert(serial_keys(rev, n_routes, j + 1) =~= serial_keys(rev, n_routes, j).push(serial_key(rev, n_routes, j)));
    assert(serial_vals(rev, stations, start_ts, j + 1) =~= serial_vals(rev, stations, start_ts, j).push(wire_of(rev[j], stations, start_ts)));
}

/// The trips of a written route, each as its connections.
pub open spec fn trips_view(w: wire::Route) -> Seq<Seq<wire::Connection>> {
    w.trips@.map_values(|t: wire::Trip| t.connections@)
}

/// Writing one more connection under a trip that exists already appends it
/// to that trip.
proof fn lemma_grouped_present(keys: Seq<(i32, usize)>, vals: Seq<wire::Connection>, k: (i32, usize), v: wire::Connection, r: int, t: int)
    requires
        keys.len() == vals.len(),
        keys.contains(k),
        r == k.1 ==> 0 <= t < first_keys(keys).filter(route_is(r)).len()
            && first_keys(keys).filter(route_is(r))[t] == k,
    ensures
        r == k.1 ==> grouped_trips(keys.push(k), vals.push(v), r) == grouped_trips(keys, vals, r).update(
            t,
            grouped_trips(keys, vals, r)[t].push(v),
        ),
        r != k.1 ==> grouped_trips(keys.push(k), vals.push(v), r) == grouped_trips(keys, vals, r),
{
    let pr = route_is(r);
    lemma_first_keys_push(keys, k);
    lemma_first_keys(keys);
    let f = first_keys(keys).filter(pr);
    assert(first_keys(keys.push(k)).filter(pr) == f);
    lemma_filter_no_duplicates(first_keys(keys), pr);
    let old = grouped_trips(keys, vals, r);
    let new = grouped_trips(keys.push(k), vals.push(v), r);
    assert forall|u: int| 0 <= u < f.len() implies #[trigger] new[u] == (if f[u] == k { old[u].push(v) } else { old[u] }) by {
        lemma_group_push(keys, vals, k, v, f[u]);
    }
    if r == k.1 {
        assert forall|u: int| 0 <= u < f.len() && u != t implies f[u] != k by {
            assert(f[u] != f[t]);
        }
        assert(new =~= old.update(t, old[t].push(v)));
    } else {
        assert forall|u: int| 0 <= u < f.len() implies f[u] != k by {
            assert(f.contains(f[u]));
        }
        assert(new =~= old);
    }
}

/// Writing a connection under a new trip opens that trip last in its route.
proof fn lemma_grouped_absent(keys: Seq<(i32, usize)>, vals: Seq<wire::Connection>, k: (i32, usize), v: wire::Connection, r: int)
    requires
        keys.len() == vals.len(),
        !keys.contains(k),
    ensures
        r == k.1 ==> grouped_trips(keys.push(k), vals.push(v), r) == grouped_trips(keys, vals, r).push(seq![v]),
        r != k.1 ==> grouped_trips(keys.push(k), vals.push(v), r) == grouped_trips(keys, vals, r),
{
    let pr = route_is(r);
    lemma_first_keys_push(keys, k);
    lemma_first_keys(keys);
    let fk = first_keys(keys);
    fk.lemma_filter_push(k, pr);
    let f = fk.filter(pr);
    lemma_filter_no_duplicates(fk, pr);
    let old = grouped_trips(keys, vals, r);
    let new = grouped_trips(keys.push(k), vals.push(v), r);
    assert forall|u: int| 0 <= u < f.len() implies f[u] != k by {
        assert(f.contains(f[u]));
    }
    assert forall|u: int| 0 <= u < f.len() implies #[trigger] new[u] == old[u] by {
        lemma_group_push(keys, vals, k, v, f[u]);
    }
    if r == k.1 {
        lemma_group_push(keys, vals, k, v, k);
        lemma_group_absent(keys, vals, k);
        assert(new[f.len() as int] == seq![v]);
        assert(new =~= old.push(seq![v]));
    } else {
        assert(new =~= old);
    }
}

/// A route that none of the keys names has no trips.
proof fn lemma_grouped_unused(keys: Seq<(i32, usize)>, vals: Seq<wire::Connection>, r: int)
    requires
        forall|x: int| 0 <= x < keys.len() ==> keys[x].1 < r,
    ensures
        grouped_trips(keys, vals, r) == Seq::<Seq<wire::Connection>>::empty(),
{
    let pr = route_is(r);
    lemma_first_keys(keys);
    let fk = first_keys(keys);
    lemma_filter_no_duplicates(fk, pr);
    let f = fk.filter(pr);
    if f.len() > 0 {
        assert(f.contains(f[0]));
        assert(keys.contains(f[0]));
    }
    assert(grouped_trips(keys, vals, r) =~= Seq::<Seq<wire::Connection>>::empty());
}

/// `a` and `b` agree in everything but their trips.
pub open spec fn same_route_data(a: wire::Route, b: wire::Route) -> bool {
    &&& a.id == b.id
    &&& a.name == b.name
    &&& a.product_type == b.product_type
    &&& a.message == b.message
    &&& a.direction == b.direction
}

/// `w` is route `r` written.
pub open spec fn route_written(w: wire::Route, r: Route) -> bool {
    &&& w.id == r.id
    &&& w.name == r.name
    &&& w.product_type == r.product_type as i32
    &&& w.message == r.message
    &&& w.direction == r.direction
}

/// `w` is the route of its own written for walk `c`, at position `idx`.
pub open spec fn walk_route_written<F: Fn(usize, usize) -> String>(w: wire::Route, c: Connection, idx: int, walk_name: F) -> bool {
    &&& w.id@ == decimal(idx as nat)
    &&& walk_name.ensures((c.from_idx, c.to_idx), w.name)
    &&& w.product_type == WALKING_PRODUCT_TYPE as i32
    &&& w.message@.len() == 0
    &&& w.direction@.len() == 0
}

/// `w` is station `s` written: its parent, if any, as a decimal position.
pub open spec fn station_written(w: wire::Station, s: Station) -> bool {
    &&& w.id == s.id
    &&& w.name == s.name
    &&& w.parent@ == (if s.parent_idx != 0 { decimal(s.parent_idx as nat) } else { Seq::<char>::empty() })
}

/// The times of `c` can be written as timestamps.
pub open spec fn times_writable(c: Connection, start_ts: i64) -> bool {
    &&& i32::MIN <= c.departure.scheduled * 60 <= i32::MAX
    &&& i64::MIN <= c.departure.scheduled * 60 + start_ts <= i64::MAX
    &&& i32::MIN <= c.arrival.scheduled * 60 <= i32::MAX
    &&& i64::MIN <= c.arrival.scheduled * 60 + start_ts <= i64::MAX
}

/// `msg` is the timetable `stations`, `routes`, `connections` written as a
/// response, as `serialize_protobuf` writes it.
pub open spec fn timetable_written<F: Fn(usize, usize) -> String>(
    stations: Seq<Station>,
    routes: Seq<Route>,
    connections: Seq<Connection>,
    metadata: QueryMetadata,
    walk_name: F,
    msg: wire::Message,
) -> bool {
    &&& msg.timetable is Some
    &&& msg.query is Some
    &&& msg.system@.len() == 0
    &&& {
        let tt = msg.timetable->0;
        let q = msg.query->0;
        let rev = connections.reverse();
        let n = connections.len() as int;
        let nr = routes.len() as int;
        &&& tt.start_time == metadata.start_ts
        &&& tt.stations@.len() == stations.len()
        &&& forall|k: int| #![trigger tt.stations@[k]] 0 <= k < stations.len() ==> station_written(tt.stations@[k], stations[k])
        &&& tt.routes@.len() == nr + walks_before(rev, n)
        &&& forall|r: int| #![trigger tt.routes@[r]] 0 <= r < nr ==> route_written(tt.routes@[r], routes[r])
        &&& forall|x: int|
            #![trigger rev[x]]
            0 <= x < n && is_walk(rev[x]) ==> walk_route_written(tt.routes@[nr + walks_before(rev, x)], rev[x], nr + walks_before(rev, x), walk_name)
        &&& forall|r: int|
            #![trigger tt.routes@[r]]
            0 <= r < tt.routes@.len() ==> trips_view(tt.routes@[r]) == serial_trips(rev, stations, metadata.start_ts, nr, n, r)
        &&& q.origin == stations[metadata.origin_idx as int].id
        &&& q.destination == stations[metadata.destination_idx as int].id
        &&& q.now == 0
    }
}

/// Writes a timetable as a response: the stations, the routes, then, going
/// through the connections from last to first, each connection under the
/// trip named by its trip id and route (a walking connection gets a route of
/// its own, named by `walk_name`), trips in the order they first occur;
/// and the query's origin and destination.
pub fn serialize_protobuf<F>(
    stations: &[Station],
    routes: &[Route],
    connections: &[Connection],
    _contraction: Option<&StationContraction>,
    metadata: &QueryMetadata,
    walk_name: &F,
) -> (msg: wire::Message)
    where F: Fn(usize, usize) -> String
    requires
        forall|a: usize, b: usize| walk_name.requires((a, b)),
        forall|p: int|
            #![trigger connections@[p]]
            0 <= p < connections@.len() ==> {
                &&& connections@[p].from_idx < stations@.len()
                &&& connections@[p].to_idx < stations@.len()
                &&& !is_walk(connections@[p]) ==> connections@[p].route_idx < routes@.len()
                &&& times_writable(connections@[p], metadata.start_ts)
            },
        metadata.origin_idx < stations@.len(),
        metadata.destination_idx < stations@.len(),
        routes@.len() + connections@.len() <= usize::MAX,
    ensures
        timetable_written(stations@, routes@, connections@, *metadata, *walk_name, msg),
{
    let n = connections.len();
    let nr = routes.len();
    let ghost rev = connections@.reverse();
    let mut wire_stations: Vec<wire::Station> = Vec::new();
    let mut i: usize = 0;
    while i < stations.len()
        invariant
            i <= stations@.len(),
            wire_stations@.len() == i,
            forall|k: int| #![trigger wire_stations@[k]] 0 <= k < i ==> station_written(wire_stations@[k], stations@[k]),
        decreases stations@.len() - i,
    {
        let s = &stations[i];
        let parent = if s.parent_idx != 0 { usize_to_string(s.parent_idx) } else { String::new() };
        wire_stations.push(wire::Station { id: s.id.clone(), name: s.name.clone(), parent });
        i = i + 1;
    }
    let mut wire_routes: Vec<wire::Route> = Vec::new();
    let mut i: usize = 0;
    while i < nr
        invariant
            i <= nr,
            nr == routes@.len(),
            wire_routes@.len() == i,
            forall|r: int| #![trigger wire_routes@[r]] 0 <= r < i ==> route_written(wire_routes@[r], routes@[r])
                && wire_routes@[r].trips@.len() == 0,
        decreases nr - i,
    {
        let r = &routes[i];
        wire_routes.push(wire::Route {
            id: r.id.clone(),
            name: r.name.clone(),
            product_type: r.product_type as i32,
            message: r.message.clone(),
            direction: r.direction.clone(),
            trips: Vec::new(),
        });
        i = i + 1;
    }
    let mut slots = trip_slots_new();
    let ghost mut slot_keys: Seq<(i32, usize)> = Seq::empty();
    let walking_msg = WALKING_MSG.to_string();
    proof {
        assert forall|r: int| #![trigger wire_routes@[r]] 0 <= r < wire_routes@.len() implies
            trips_view(wire_routes@[r]) == serial_trips(rev, stations@, metadata.start_ts, nr as int, 0, r) by {
            lemma_grouped_unused(serial_keys(rev, nr as int, 0), serial_vals(rev, stations@, metadata.start_ts, 0), r);
            assert(trips_view(wire_routes@[r]) =~= Seq::<Seq<wire::Connection>>::empty());
        }
        assert(slot_keys =~= first_keys(serial_keys(rev, nr as int, 0)));
    }
    let mut j: usize = 0;
    while j < n
        invariant
            j <= n,
            n == connections@.len(),
            nr == routes@.len(),
            rev == connections@.reverse(),
            walking_msg@ == WALKING_MSG@,
            nr + n <= usize::MAX,
            forall|a: usize, b: usize| walk_name.requires((a, b)),
            forall|p: int|
                #![trigger connections@[p]]
                0 <= p < connections@.len() ==> {
                    &&& connections@[p].from_idx < stations@.len()
                    &&& connections@[p].to_idx < stations@.len()
                    &&& !is_walk(connections@[p]) ==> connections@[p].route_idx < routes@.len()
                    &&& times_writable(connections@[p], metadata.start_ts)
                },
            0 <= walks_before(rev, j as int) <= j,
            wire_routes@.len() == nr + walks_before(rev, j as int),
            forall|r: int| #![trigger wire_routes@[r]] 0 <= r < nr ==> route_written(wire_routes@[r], routes@[r]),
            forall|x: int|
                #![trigger rev[x]]
                0 <= x < j && is_walk(rev[x]) ==> walk_route_written(wire_routes@[nr + walks_before(rev, x)], rev[x], nr + walks_before(rev, x), *walk_name),
            forall|r: int|
                #![trigger wire_routes@[r]]
                0 <= r < wire_routes@.len() ==> trips_view(wire_routes@[r]) == serial_trips(rev, stations@, metadata.start_ts, nr as int, j as int, r),
            forall|x: int| 0 <= x < j ==> #[trigger] serial_route(rev, nr as int, x) < wire_routes@.len(),
            slot_keys == first_keys(serial_keys(rev, nr as int, j as int)),
            forall|s: int|
                #![trigger slot_keys[s]]
                0 <= s < slot_keys.len() ==> trip_slots(slots).contains_key(slot_keys[s])
                    && trip_slots(slots)[slot_keys[s]] == slot_keys.take(s).filter(route_is(slot_keys[s].1 as int)).len(),
            forall|k: (i32, usize)| #[trigger] trip_slots(slots).contains_key(k) ==> slot_keys.contains(k),
        decreases n - j,
    {
        proof {
            lemma_walks_before_step(rev, j as int);
        }
        let c = &connections[n - 1 - j];
        assert(*c == rev[j as int]);
        let mut route_idx = c.route_idx;
        let ghost routes_before = wire_routes@;
        if c.message == walking_msg {
            route_idx = wire_routes.len();
            let id = usize_to_string(wire_routes.len());
            let name = walk_name(c.from_idx, c.to_idx);
            wire_routes.push(wire::Route {
                id,
                name,
                product_type: WALKING_PRODUCT_TYPE as i32,
                message: String::new(),
                direction: String::new(),
                trips: Vec::new(),
            });
            proof {
                lemma_grouped_unused(serial_keys(rev, nr as int, j as int), serial_vals(rev, stations@, metadata.start_ts, j as int), route_idx as int);
                assert(trips_view(wire_routes@[route_idx as int]) =~= Seq::<Seq<wire::Connection>>::empty());
            }
        }
        let ghost wr_mid = wire_routes@;
        assert(route_idx == serial_route(rev, nr as int, j as int));
        assert(route_idx < wire_routes@.len());
        let wc = wire::Connection {
            from_id: stations[c.from_idx].id.clone(),
            to_id: stations[c.to_idx].id.clone(),
            cancelled: false,
            departure: Some(wire::StopInfo {
                scheduled: from_mtime(c.departure.scheduled, metadata.start_ts),
                delay_minutes: match c.departure.delay {
                    Some(d) => d as i32,
                    None => 0,
                },
                is_live: c.departure.delay.is_some(),
            }),
            arrival: Some(wire::StopInfo {
                scheduled: from_mtime(c.arrival.scheduled, metadata.start_ts),
                delay_minutes: match c.arrival.delay {
                    Some(d) => d as i32,
                    None => 0,
                },
                is_live: c.arrival.delay.is_some(),
            }),
            source_id: c.id,
        };
        assert(wc == wire_of(rev[j as int], stations@, metadata.start_ts));
        let ghost keys = serial_keys(rev, nr as int, j as int);
        let ghost vals = serial_vals(rev, stations@, metadata.start_ts, j as int);
        let ghost key = serial_key(rev, nr as int, j as int);
        proof {
            lemma_serial_push(rev, stations@, metadata.start_ts, nr as int, j as int);
            lemma_first_keys(keys);
        }
        match trip_slots_get(&slots, c.trip_id, route_idx) {
            Some(t) => {
                proof {
                    assert(slot_keys.contains(key));
                    let s0 = choose|s0: int| 0 <= s0 < slot_keys.len() && slot_keys[s0] == key;
                    assert(trip_slots(slots)[slot_keys[s0]] == slot_keys.take(s0).filter(route_is(route_idx as int)).len());
                    lemma_filter_index(slot_keys, route_is(route_idx as int), s0);
                }
                proof {
                    assert forall|r: int| 0 <= r < wire_routes@.len() implies
                        #[trigger] grouped_trips(keys.push(key), vals.push(wc), r) == (if r == route_idx {
                            grouped_trips(keys, vals, r).update(t as int, grouped_trips(keys, vals, r)[t as int].push(wc))
                        } else {
                            grouped_trips(keys, vals, r)
                        }) by {
                        lemma_grouped_present(keys, vals, key, wc, r, t as int);
                    }
                }
                let ghost trips_before = wire_routes@[route_idx as int].trips@;
                wire_routes[route_idx].trips[t].connections.push(wc);
                proof {
                    lemma_first_keys_push(keys, key);
                    assert forall|r: int|
                        #![trigger wire_routes@[r]]
                        0 <= r < wire_routes@.len() implies trips_view(wire_routes@[r]) == serial_trips(rev, stations@, metadata.start_ts, nr as int, j + 1, r) by {
                        if r == route_idx {
                            assert(trips_view(wire_routes@[r]) =~= trips_view(wr_mid[r]).update(t as int, trips_view(wr_mid[r])[t as int].push(wc)));
                        } else {
                            assert(wire_routes@[r] == wr_mid[r]);
                        }
                    }
                }
            },
            None => {
                proof {
                    assert(!keys.contains(key)) by {
                        if keys.contains(key) {
                            assert(first_keys(keys).contains(key));
                            let s0 = choose|s0: int| 0 <= s0 < slot_keys.len() && slot_keys[s0] == key;
                        }
                    }
                }
                let ghost s = slot_keys.len();
                let t = wire_routes[route_idx].trips.len();
                let ghost sk_old = slot_keys;
                proof {
                    assert forall|r: int| 0 <= r < wire_routes@.len() implies
                        #[trigger] grouped_trips(keys.push(key), vals.push(wc), r) == (if r == route_idx {
                            grouped_trips(keys, vals, r).push(seq![wc])
                        } else {
                            grouped_trips(keys, vals, r)
                        }) by {
                        lemma_grouped_absent(keys, vals, key, wc, r);
                    }
                    assert(t == slot_keys.filter(route_is(route_idx as int)).len());
                }
                let ghost map_old = trip_slots(slots);
                trip_slots_insert(&mut slots, c.trip_id, route_idx, t);
                proof {
                    slot_keys = slot_keys.push((c.trip_id, route_idx));
                    assert forall|k: (i32, usize)| #[trigger] trip_slots(slots).contains_key(k) implies slot_keys.contains(k) by {
                        if k == key {
                            assert(slot_keys[s as int] == k);
                        } else {
                            assert(map_old.contains_key(k));
                            assert(sk_old.contains(k));
                            let i0 = choose|i0: int| 0 <= i0 < sk_old.len() && sk_old[i0] == k;
                            assert(slot_keys[i0] == k);
                        }
                    }
                }
                let mut first: Vec<wire::Connection> = Vec::new();
                first.push(wc);
                wire_routes[route_idx].trips.push(wire::Trip { connections: first });
                proof {
                    lemma_first_keys_push(keys, key);
                    assert forall|r: int|
                        #![trigger wire_routes@[r]]
                        0 <= r < wire_routes@.len() implies trips_view(wire_routes@[r]) == serial_trips(rev, stations@, metadata.start_ts, nr as int, j + 1, r) by {
                        if r == route_idx {
                            assert(trips_view(wire_routes@[r]) =~= trips_view(wr_mid[r]).push(seq![wc]));
                        } else {
                            assert(wire_routes@[r] == wr_mid[r]);
                        }
                    }
                    assert forall|s2: int|
                        #![trigger slot_keys[s2]]
                        0 <= s2 < slot_keys.len() implies trip_slots(slots).contains_key(slot_keys[s2])
                            && trip_slots(slots)[slot_keys[s2]] == slot_keys.take(s2).filter(route_is(slot_keys[s2].1 as int)).len() by {
                        if s2 < s {
                            assert(slot_keys[s2] == sk_old[s2]);
                            assert(map_old.contains_key(sk_old[s2]));
                            assert(sk_old[s2] != key);
                            assert(slot_keys.take(s2) =~= sk_old.take(s2));
                        } else {
                            assert(slot_keys[s2] == (c.trip_id, route_idx));
                            assert(slot_keys.take(s2) =~= sk_old);
                        }
                    }
                }
            },
        }
        proof {
            assert forall|r: int| 0 <= r < routes_before.len() implies #[trigger] same_route_data(wire_routes@[r], routes_before[r]) by {
                assert(same_route_data(wr_mid[r], routes_before[r]));
            }
            assert forall|r: int| #![trigger wire_routes@[r]] 0 <= r < nr implies route_written(wire_routes@[r], routes@[r]) by {
                assert(same_route_data(wire_routes@[r], routes_before[r]));
            }
            assert forall|x: int|
                #![trigger rev[x]]
                0 <= x < j + 1 && is_walk(rev[x]) implies walk_route_written(wire_routes@[nr + walks_before(rev, x)], rev[x], nr + walks_before(rev, x), *walk_name) by {
                if x < j {
                    lemma_walks_before_step(rev, x);
                    lemma_walks_before_mono(rev, x + 1, j as int);
                    assert(same_route_data(wire_routes@[nr + walks_before(rev, x)], routes_before[nr + walks_before(rev, x)]));
                } else {
                    assert(same_route_data(wire_routes@[route_idx as int], wr_mid[route_idx as int]));
                }
            }
        }
        j = j + 1;
    }
    let q = wire::Query { origin: stations[metadata.origin_idx].id.clone(), destination: stations[metadata.destination_idx].id.clone(), now: 0 };
    wire::Message {
        timetable: Some(wire::Timetable { stations: wire_stations, routes: wire_routes, start_time: metadata.start_ts }),
        query: Some(q),
        system: String::new(),
    }
}

proof fn lemma_walks_before_mono(rev: Seq<Connection>, a: int, b: int)
    requires
        0 <= a <= b,
    ensures
        walks_before(rev, a) <= walks_before(rev, b),
    decreases b - a,
{
    if a < b {
        lemma_walks_before_mono(rev, a, b - 1);
    }
}

proof fn lemma_walks_before_step(rev: Seq<Connection>, j: int)
    requires
        0 <= j,
    ensures
        walks_before(rev, j + 1) == walks_before(rev, j) + if is_walk(rev[j]) { 1int } else { 0int },
        0 <= walks_before(rev, j) <= j,
    decreases j,
{
    if j > 0 {
        lemma_walks_before_step(rev, j - 1);
    }
}

/// With distinct ids, the last wire station with the id of station `f` is
/// the one written for it.
proof fn lemma_last_with_written_id(ws: Seq<wire::Station>, stations: Seq<Station>, f: int, n: int)
    requires
        ws.len() == stations.len(),
        forall|k: int| #![trigger ws[k]] 0 <= k < ws.len() ==> ws[k].id@ == stations[k].id@,
        forall|a: int, b: int|
            #![trigger stations[a], stations[b]]
            0 <= a < stations.len() && 0 <= b < stations.len() && a != b ==> stations[a].id@ != stations[b].id@,
        0 <= f < n <= ws.len(),
    ensures
        last_with_id(ws, stations[f].id@, n) == f,
    decreases n,
{
    if n - 1 != f {
        assert(ws[n - 1].id@ != stations[f].id@) by {
            assert(stations[n - 1].id@ != stations[f].id@);
        }
        lemma_last_with_written_id(ws, stations, f, n - 1);
    } else {
        assert(ws[f].id@ == stations[f].id@);
    }
}

/// Every value of a group is the value of an entry with that key.
proof fn lemma_group_of_member(keys: Seq<(i32, usize)>, vals: Seq<wire::Connection>, k: (i32, usize), j: int)
    requires
        0 <= j < group_of(keys, vals, k).len(),
    ensures
        exists|x: int| 0 <= x < keys.len() && keys[x] == k && vals.len() == keys.len() && #[trigger] vals[x] == group_of(keys, vals, k)[j],
    decreases keys.len(),
{
    let prev = group_of(keys.drop_last(), vals.drop_last(), k);
    if keys.last() == k && j == prev.len() {
        let x = keys.len() - 1;
        assert(vals[x] == group_of(keys, vals, k)[j]);
    } else {
        lemma_group_of_member(keys.drop_last(), vals.drop_last(), k, j);
        let x = choose|x: int| 0 <= x < keys.drop_last().len() && keys.drop_last()[x] == k && vals.drop_last().len() == keys.drop_last().len() && #[trigger] vals.drop_last()[x] == prev[j];
        assert(vals[x] == group_of(keys, vals, k)[j]);
    }
}

/// The value of every entry is in the group of its key.
proof fn lemma_group_of_contains(keys: Seq<(i32, usize)>, vals: Seq<wire::Connection>, x: int)
    requires
        keys.len() == vals.len(),
        0 <= x < keys.len(),
    ensures
        exists|j: int| 0 <= j < group_of(keys, vals, keys[x]).len() && #[trigger] group_of(keys, vals, keys[x])[j] == vals[x],
    decreases keys.len(),
{
    let k = keys[x];
    let prev = group_of(keys.drop_last(), vals.drop_last(), k);
    if x == keys.len() - 1 {
        assert(group_of(keys, vals, k)[prev.len() as int] == vals[x]);
    } else {
        lemma_group_of_contains(keys.drop_last(), vals.drop_last(), x);
        assert(keys.drop_last()[x] == k);
        let j = choose|j: int| 0 <= j < prev.len() && #[trigger] prev[j] == vals.drop_last()[x];
        assert(group_of(keys, vals, k)[j] == vals[x]);
    }
}

/// Every entry of `trip_conns` is a connection of the trip it names.
proof fn lemma_trip_conns_member(trips: Seq<wire::Trip>, n: int, k: int)
    requires
        0 <= n <= trips.len(),
        0 <= k < trip_conns(trips, n).len(),
    ensures
        0 <= trip_conns(trips, n)[k].0 < n,
        exists|j: int|
            0 <= j < trips[trip_conns(trips, n)[k].0].connections@.len()
                && #[trigger] trips[trip_conns(trips, n)[k].0].connections@[j] == trip_conns(trips, n)[k].1,
    decreases n,
{
    let prev = trip_conns(trips, n - 1);
    if k < prev.len() {
        lemma_trip_conns_member(trips, n - 1, k);
        assert(trip_conns(trips, n)[k] == prev[k]);
    } else {
        let j = k - prev.len();
        assert(trip_conns(trips, n)[k] == (n - 1, trips[n - 1].connections@[j]));
    }
}

/// Every connection of every trip has its entry in `trip_conns`.
proof fn lemma_trip_conns_contains(trips: Seq<wire::Trip>, n: int, t: int, j: int)
    requires
        0 <= t < n <= trips.len(),
        0 <= j < trips[t].connections@.len(),
    ensures
        exists|k: int| 0 <= k < trip_conns(trips, n).len() && #[trigger] trip_conns(trips, n)[k] == (t, trips[t].connections@[j]),
    decreases n,
{
    let prev = trip_conns(trips, n - 1);
    if t < n - 1 {
        lemma_trip_conns_contains(trips, n - 1, t, j);
        let k = choose|k: int| 0 <= k < prev.len() && #[trigger] prev[k] == (t, trips[t].connections@[j]);
        assert(trip_conns(trips, n)[k] == prev[k]);
    } else {
        assert(trip_conns(trips, n)[prev.len() + j] == (t, trips[t].connections@[j]));
    }
}

/// Every entry of `route_conns` is a connection of the route and trip it names.
proof fn lemma_route_conns_member(routes: Seq<wire::Route>, n: int, k: int)
    requires
        0 <= n <= routes.len(),
        0 <= k < route_conns(routes, n).len(),
    ensures
        0 <= route_conns(routes, n)[k].0 < n,
        0 <= route_conns(routes, n)[k].1 < routes[route_conns(routes, n)[k].0].trips@.len(),
        exists|j: int|
            0 <= j < routes[route_conns(routes, n)[k].0].trips@[route_conns(routes, n)[k].1].connections@.len()
                && #[trigger] routes[route_conns(routes, n)[k].0].trips@[route_conns(routes, n)[k].1].connections@[j] == route_conns(routes, n)[k].2,
    decreases n,
{
    let prev = route_conns(routes, n - 1);
    if k < prev.len() {
        lemma_route_conns_member(routes, n - 1, k);
        assert(route_conns(routes, n)[k] == prev[k]);
    } else {
        let trips = routes[n - 1].trips@;
        let tc = trip_conns(trips, trips.len() as int);
        let i = k - prev.len();
        assert(route_conns(routes, n)[k] == (n - 1, tc[i].0, tc[i].1));
        lemma_trip_conns_member(trips, trips.len() as int, i);
    }
}

/// Every connection of every trip of every route has its entry in `route_conns`.
proof fn lemma_route_conns_contains(routes: Seq<wire::Route>, n: int, r: int, t: int, j: int)
    requires
        0 <= r < n <= routes.len(),
        0 <= t < routes[r].trips@.len(),
        0 <= j < routes[r].trips@[t].connections@.len(),
    ensures
        exists|k: int|
            0 <= k < route_conns(routes, n).len() && #[trigger] route_conns(routes, n)[k] == (r, t, routes[r].trips@[t].connections@[j]),
    decreases n,
{
    let prev = route_conns(routes, n - 1);
    if r < n - 1 {
        lemma_route_conns_contains(routes, n - 1, r, t, j);
        let k = choose|k: int| 0 <= k < prev.len() && #[trigger] prev[k] == (r, t, routes[r].trips@[t].connections@[j]);
        assert(route_conns(routes, n)[k] == prev[k]);
    } else {
        let trips = routes[r].trips@;
        let tc = trip_conns(trips, trips.len() as int);
        lemma_trip_conns_contains(trips, trips.len() as int, t, j);
        let i = choose|i: int| 0 <= i < tc.len() && #[trigger] tc[i] == (t, trips[t].connections@[j]);
        assert(route_conns(routes, n)[prev.len() + i] == (r, t, routes[r].trips@[t].connections@[j]));
    }
}

/// `a` runs between the same stations as `b`, at the same scheduled times and
/// with the same delays.
pub open spec fn same_times_and_stops(a: Connection, b: Connection) -> bool {
    &&& a.from_idx == b.from_idx
    &&& a.to_idx == b.to_idx
    &&& a.departure.scheduled == b.departure.scheduled
    &&& a.departure.delay == b.departure.delay
    &&& a.arrival.scheduled == b.arrival.scheduled
    &&& a.arrival.delay == b.arrival.delay
}

/// `c` has the stations, times and delays of one of `connections`.
pub open spec fn matches_one_of(c: Connection, connections: Seq<Connection>) -> bool {
    exists|p: int| 0 <= p < connections.len() && #[trigger] same_times_and_stops(c, connections[p])
}

/// One of `read_conns` has the stations, times and delays of `c`.
pub open spec fn matched_by_one_of(c: Connection, read_conns: Seq<Connection>) -> bool {
    exists|k: int| 0 <= k < read_conns.len() && #[trigger] same_times_and_stops(read_conns[k], c)
}

/// A stop written and read back keeps its time and its delay.
proof fn lemma_stop_read_back(read: StopInfo, s: StopInfo, start_ts: i64)
    requires
        i32::MIN <= s.scheduled * 60 <= i32::MAX,
        i64::MIN <= s.scheduled * 60 + start_ts <= i64::MAX,
        stop_from_wire(read, wire_stop(s, start_ts), start_ts),
    ensures
        read.scheduled == s.scheduled,
        read.delay == s.delay,
{
    lemma_mtime_round_trip(s.scheduled as int, start_ts as int);
    assert(wire_stop(s, start_ts).scheduled == s.scheduled * 60 + start_ts);
}

/// A connection written and read back (with distinct station ids) runs
/// between the same stations, at the same times, with the same delays.
proof fn lemma_connection_read_back(
    read: Connection,
    c: Connection,
    e: (int, int, wire::Connection),
    wroutes: Seq<wire::Route>,
    ws: Seq<wire::Station>,
    stations: Seq<Station>,
    start_ts: i64,
    id: int,
)
    requires
        e.2 == wire_of(c, stations, start_ts),
        loaded_connection(read, e, wroutes, ws, 0, start_ts, id),
        ws.len() == stations.len(),
        forall|k: int| #![trigger ws[k]] 0 <= k < ws.len() ==> ws[k].id@ == stations[k].id@,
        forall|a: int, b: int|
            #![trigger stations[a], stations[b]]
            0 <= a < stations.len() && 0 <= b < stations.len() && a != b ==> stations[a].id@ != stations[b].id@,
        c.from_idx < stations.len(),
        c.to_idx < stations.len(),
        times_writable(c, start_ts),
    ensures
        same_times_and_stops(read, c),
{
    lemma_last_with_written_id(ws, stations, c.from_idx as int, ws.len() as int);
    lemma_last_with_written_id(ws, stations, c.to_idx as int, ws.len() as int);
    lemma_stop_read_back(read.departure, c.departure, start_ts);
    lemma_stop_read_back(read.arrival, c.arrival, start_ts);
}

/// The number of values in the groups of the keys `ks`.
pub open spec fn group_sizes(keys: Seq<(i32, usize)>, vals: Seq<wire::Connection>, ks: Seq<(i32, usize)>) -> int
    decreases ks.len(),
{
    if ks.len() == 0 {
        0
    } else {
        group_sizes(keys, vals, ks.drop_last()) + group_of(keys, vals, ks.last()).len()
    }
}

/// The number of values in the groups of the keys `ks` of routes below `r`.
pub open spec fn route_group_sizes(keys: Seq<(i32, usize)>, vals: Seq<wire::Connection>, ks: Seq<(i32, usize)>, r: int) -> int
    decreases r,
{
    if r <= 0 {
        0
    } else {
        route_group_sizes(keys, vals, ks, r - 1) + group_sizes(keys, vals, ks.filter(route_is(r - 1)))
    }
}

/// The number of connections of the first `n` trips.
pub open spec fn trips_size(trips: Seq<wire::Trip>, n: int) -> int
    decreases n,
{
    if n <= 0 {
        0
    } else {
        trips_size(trips, n - 1) + trips[n - 1].connections@.len()
    }
}

/// The number of connections of the trips of the first `n` routes.
pub open spec fn routes_size(routes: Seq<wire::Route>, n: int) -> int
    decreases n,
{
    if n <= 0 {
        0
    } else {
        routes_size(routes, n - 1) + trips_size(routes[n - 1].trips@, routes[n - 1].trips@.len() as int)
    }
}

proof fn lemma_trip_conns_size(trips: Seq<wire::Trip>, n: int)
    requires
        0 <= n <= trips.len(),
    ensures
        trip_conns(trips, n).len() == trips_size(trips, n),
    decreases n,
{
    if n > 0 {
        lemma_trip_conns_size(trips, n - 1);
    }
}

proof fn lemma_route_conns_size(routes: Seq<wire::Route>, n: int)
    requires
        0 <= n <= routes.len(),
    ensures
        route_conns(routes, n).len() == routes_size(routes, n),
    decreases n,
{
    if n > 0 {
        lemma_route_conns_size(routes, n - 1);
        let trips = routes[n - 1].trips@;
        lemma_trip_conns_size(trips, trips.len() as int);
    }
}

/// Writing one more value adds one to the sizes of distinct keys that
/// include its key.
proof fn lemma_group_sizes_push(keys: Seq<(i32, usize)>, vals: Seq<wire::Connection>, k: (i32, usize), v: wire::Connection, ks: Seq<(i32, usize)>)
    requires
        keys.len() == vals.len(),
        ks.no_duplicates(),
    ensures
        group_sizes(keys.push(k), vals.push(v), ks) == group_sizes(keys, vals, ks) + if ks.contains(k) { 1int } else { 0int },
    decreases ks.len(),
{
    if ks.len() > 0 {
        let p = ks.drop_last();
        let l = ks.last();
        assert(p.no_duplicates()) by {
            assert forall|a: int, b: int| 0 <= a < p.len() && 0 <= b < p.len() && a != b implies p[a] != p[b] by {
                assert(p[a] == ks[a] && p[b] == ks[b]);
            }
        }
        lemma_group_sizes_push(keys, vals, k, v, p);
        lemma_group_push(keys, vals, k, v, l);
        assert(ks =~= p.push(l));
        assert(ks.contains(k) <==> (p.contains(k) || l == k)) by {
            if ks.contains(k) {
                let i = choose|i: int| 0 <= i < ks.len() && ks[i] == k;
                if i < p.len() {
                    assert(p[i] == k);
                }
            }
            if p.contains(k) {
                let i = choose|i: int| 0 <= i < p.len() && p[i] == k;
                assert(ks[i] == k);
            }
        }
        assert(!(p.contains(k) && l == k)) by {
            if p.contains(k) && l == k {
                let i = choose|i: int| 0 <= i < p.len() && p[i] == k;
                assert(ks[i] == ks[ks.len() - 1]);
            }
        }
    }
}

/// The groups of the distinct keys hold every value once.
proof fn lemma_group_sizes_all(keys: Seq<(i32, usize)>, vals: Seq<wire::Connection>)
    requires
        keys.len() == vals.len(),
    ensures
        group_sizes(keys, vals, first_keys(keys)) == keys.len(),
    decreases keys.len(),
{
    if keys.len() > 0 {
        let kp = keys.drop_last();
        let vp = vals.drop_last();
        let k = keys.last();
        let v = vals.last();
        assert(kp.push(k) =~= keys);
        assert(vp.push(v) =~= vals);
        lemma_group_sizes_all(kp, vp);
        lemma_first_keys(kp);
        lemma_first_keys_push(kp, k);
        let fp = first_keys(kp);
        lemma_group_sizes_push(kp, vp, k, v, fp);
        if !kp.contains(k) {
            lemma_group_absent(kp, vp, k);
            lemma_group_push(kp, vp, k, v, k);
            assert(fp.push(k).drop_last() =~= fp);
        }
    }
}

/// One more key adds its group's size to the routes below `r` that include its route.
proof fn lemma_route_group_sizes_push(keys: Seq<(i32, usize)>, vals: Seq<wire::Connection>, ks: Seq<(i32, usize)>, l: (i32, usize), r: int)
    requires
        0 <= r,
    ensures
        route_group_sizes(keys, vals, ks.push(l), r) == route_group_sizes(keys, vals, ks, r) + if l.1 < r { group_of(keys, vals, l).len() as int } else { 0int },
    decreases r,
{
    if r > 0 {
        lemma_route_group_sizes_push(keys, vals, ks, l, r - 1);
        ks.lemma_filter_push(l, route_is(r - 1));
        let f = ks.filter(route_is(r - 1));
        if l.1 == r - 1 {
            assert(f.push(l).drop_last() =~= f);
        }
    }
}

/// Split by route, the keys' groups hold as many values as together.
proof fn lemma_route_group_sizes(keys: Seq<(i32, usize)>, vals: Seq<wire::Connection>, ks: Seq<(i32, usize)>, r: int)
    requires
        0 <= r,
        forall|i: int| 0 <= i < ks.len() ==> (#[trigger] ks[i]).1 < r,
    ensures
        route_group_sizes(keys, vals, ks, r) == group_sizes(keys, vals, ks),
    decreases ks.len(),
{
    if ks.len() == 0 {
        lemma_route_group_sizes_empty(keys, vals, ks, r);
    } else {
        let p = ks.drop_last();
        let l = ks.last();
        assert(p.push(l) =~= ks);
        assert forall|i: int| 0 <= i < p.len() implies (#[trigger] p[i]).1 < r by {
            assert(p[i] == ks[i]);
        }
        lemma_route_group_sizes(keys, vals, p, r);
        lemma_route_group_sizes_push(keys, vals, p, l, r);
        assert(ks[ks.len() - 1].1 < r);
    }
}

proof fn lemma_route_group_sizes_empty(keys: Seq<(i32, usize)>, vals: Seq<wire::Connection>, ks: Seq<(i32, usize)>, r: int)
    requires
        ks.len() == 0,
        0 <= r,
    ensures
        route_group_sizes(keys, vals, ks, r) == 0,
    decreases r,
{
    if r > 0 {
        lemma_route_group_sizes_empty(keys, vals, ks, r - 1);
        reveal(Seq::filter);
        assert(ks.filter(route_is(r - 1)).len() == 0);
    }
}

/// The trips of a route whose trips are the groups of `ks` hold as many
/// connections as those groups.
proof fn lemma_trips_size_groups(trips: Seq<wire::Trip>, keys: Seq<(i32, usize)>, vals: Seq<wire::Connection>, ks: Seq<(i32, usize)>, n: int)
    requires
        trips.len() == ks.len(),
        forall|t: int| #![trigger trips[t]] 0 <= t < trips.len() ==> trips[t].connections@ == group_of(keys, vals, ks[t]),
        0 <= n <= trips.len(),
    ensures
        trips_size(trips, n) == group_sizes(keys, vals, ks.take(n)),
    decreases n,
{
    if n > 0 {
        lemma_trips_size_groups(trips, keys, vals, ks, n - 1);
        assert(ks.take(n).drop_last() =~= ks.take(n - 1));
        assert(trips[n - 1].connections@ == group_of(keys, vals, ks[n - 1]));
    } else {
        assert(ks.take(0).len() == 0);
    }
}

/// The written routes hold, route by route, as many connections as the
/// groups of the keys of their routes.
proof fn lemma_routes_size_groups(
    wroutes: Seq<wire::Route>,
    keys: Seq<(i32, usize)>,
    vals: Seq<wire::Connection>,
    n: int,
)
    requires
        forall|r: int|
            #![trigger wroutes[r]]
            0 <= r < wroutes.len() ==> trips_view(wroutes[r]) == first_keys(keys).filter(route_is(r)).map_values(group_fn(keys, vals)),
        0 <= n <= wroutes.len(),
    ensures
        routes_size(wroutes, n) == route_group_sizes(keys, vals, first_keys(keys), n),
    decreases n,
{
    if n > 0 {
        lemma_routes_size_groups(wroutes, keys, vals, n - 1);
        let r = n - 1;
        let trips = wroutes[r].trips@;
        let fkr = first_keys(keys).filter(route_is(r));
        assert(trips_view(wroutes[r]) == fkr.map_values(group_fn(keys, vals)));
        assert(trips_view(wroutes[r]).len() == trips.len());
        assert forall|t: int| #![trigger trips[t]] 0 <= t < trips.len() implies trips[t].connections@ == group_of(keys, vals, fkr[t]) by {
            assert(trips_view(wroutes[r])[t] == trips[t].connections@);
        }
        lemma_trips_size_groups(trips, keys, vals, fkr, trips.len() as int);
        assert(fkr.take(fkr.len() as int) =~= fkr);
    }
}

/// What a written message shows of the timetable written, as the lemmas
/// below use it: the written stations' ids and the trips of every route.
pub open spec fn written_shape(
    stations: Seq<Station>,
    routes: Seq<Route>,
    connections: Seq<Connection>,
    start: i64,
    wroutes: Seq<wire::Route>,
    ws: Seq<wire::Station>,
) -> bool {
    let rev = connections.reverse();
    &&& ws.len() == stations.len()
    &&& forall|k: int| #![trigger ws[k]] 0 <= k < ws.len() ==> ws[k].id@ == stations[k].id@
    &&& forall|p: int|
        #![trigger connections[p]]
        0 <= p < connections.len() ==> {
            &&& connections[p].from_idx < stations.len()
            &&& connections[p].to_idx < stations.len()
            &&& !is_walk(connections[p]) ==> connections[p].route_idx < routes.len()
            &&& times_writable(connections[p], start)
        }
    &&& routes.len() + connections.len() <= usize::MAX
    &&& wroutes.len() == routes.len() + walks_before(rev, connections.len() as int)
    &&& forall|r: int|
        #![trigger wroutes[r]]
        0 <= r < wroutes.len() ==> trips_view(wroutes[r]) == serial_trips(rev, stations, start, routes.len() as int, connections.len() as int, r)
}

/// What a written message and the model read back from it share: the shape
/// of the message, distinct station ids, and the connection read from each
/// entry of `route_conns`.
pub open spec fn written_and_read(
    stations: Seq<Station>,
    routes: Seq<Route>,
    connections: Seq<Connection>,
    start: i64,
    wroutes: Seq<wire::Route>,
    ws: Seq<wire::Station>,
    read_conns: Seq<Connection>,
) -> bool {
    let rc = route_conns(wroutes, wroutes.len() as int);
    &&& written_shape(stations, routes, connections, start, wroutes, ws)
    &&& forall|a: int, b: int|
        #![trigger stations[a], stations[b]]
        0 <= a < stations.len() && 0 <= b < stations.len() && a != b ==> stations[a].id@ != stations[b].id@
    &&& read_conns.len() == rc.len()
    &&& forall|k: int| #![trigger rc[k]] 0 <= k < rc.len() ==> loaded_connection(read_conns[k], rc[k], wroutes, ws, 0, start, k)
}

/// Every connection read back is one written.
proof fn lemma_read_is_written(
    stations: Seq<Station>,
    routes: Seq<Route>,
    connections: Seq<Connection>,
    start: i64,
    wroutes: Seq<wire::Route>,
    ws: Seq<wire::Station>,
    read_conns: Seq<Connection>,
    k: int,
)
    requires
        written_and_read(stations, routes, connections, start, wroutes, ws, read_conns),
        0 <= k < read_conns.len(),
    ensures
        matches_one_of(read_conns[k], connections),
        exists|x: int|
            0 <= x < connections.len() && route_conns(wroutes, wroutes.len() as int)[k].2 == wire_of(
                connections.reverse()[x],
                stations,
                start,
            ) && #[trigger] same_times_and_stops(read_conns[k], connections.reverse()[x]),
{
    let rev = connections.reverse();
    let n = connections.len() as int;
    let nr = routes.len() as int;
    let keys = serial_keys(rev, nr, n);
    let vals = serial_vals(rev, stations, start, n);
    let rc = route_conns(wroutes, wroutes.len() as int);
    assert(loaded_connection(read_conns[k], rc[k], wroutes, ws, 0, start, k));
    lemma_route_conns_member(wroutes, wroutes.len() as int, k);
    let r = rc[k].0;
    let t = rc[k].1;
    let j = choose|j: int| 0 <= j < wroutes[r].trips@[t].connections@.len() && #[trigger] wroutes[r].trips@[t].connections@[j] == rc[k].2;
    let fkr = first_keys(keys).filter(route_is(r));
    assert(trips_view(wroutes[r]) == serial_trips(rev, stations, start, nr, n, r));
    assert(trips_view(wroutes[r]).len() == wroutes[r].trips@.len());
    assert(serial_trips(rev, stations, start, nr, n, r).len() == fkr.len());
    assert(trips_view(wroutes[r])[t] == wroutes[r].trips@[t].connections@);
    assert(serial_trips(rev, stations, start, nr, n, r)[t] == group_of(keys, vals, fkr[t]));
    assert(wroutes[r].trips@[t].connections@ == group_of(keys, vals, fkr[t]));
    lemma_group_of_member(keys, vals, fkr[t], j);
    let x = choose|x: int| 0 <= x < keys.len() && keys[x] == fkr[t] && vals.len() == keys.len() && #[trigger] vals[x] == group_of(keys, vals, fkr[t])[j];
    let p = n - 1 - x;
    assert(rev[x] == connections[p]);
    assert(vals[x] == wire_of(rev[x], stations, start));
    lemma_connection_read_back(read_conns[k], rev[x], rc[k], wroutes, ws, stations, start, k);
    assert(same_times_and_stops(read_conns[k], connections[p]));
    assert(same_times_and_stops(read_conns[k], connections.reverse()[x]));
}

/// Every connection written is read back.
proof fn lemma_written_is_read(
    stations: Seq<Station>,
    routes: Seq<Route>,
    connections: Seq<Connection>,
    start: i64,
    wroutes: Seq<wire::Route>,
    ws: Seq<wire::Station>,
    read_conns: Seq<Connection>,
    p: int,
)
    requires
        written_and_read(stations, routes, connections, start, wroutes, ws, read_conns),
        0 <= p < connections.len(),
    ensures
        matched_by_one_of(connections[p], read_conns),
{
    let rev = connections.reverse();
    let n = connections.len() as int;
    let nr = routes.len() as int;
    let keys = serial_keys(rev, nr, n);
    let vals = serial_vals(rev, stations, start, n);
    let rc = route_conns(wroutes, wroutes.len() as int);
    let x = n - 1 - p;
    assert(rev[x] == connections[p]);
    let key = keys[x];
    let r = key.1 as int;
    lemma_walks_before_step(rev, x);
    lemma_walks_before_mono(rev, x + 1, n);
    assert(r < wroutes.len());
    lemma_first_keys(keys);
    assert(keys.contains(key));
    let fk = first_keys(keys);
    assert(fk.contains(key));
    let i = choose|i: int| 0 <= i < fk.len() && fk[i] == key;
    fk.lemma_filter_contains(route_is(r), i);
    let fkr = fk.filter(route_is(r));
    let t = choose|t: int| 0 <= t < fkr.len() && fkr[t] == key;
    assert(trips_view(wroutes[r]) == serial_trips(rev, stations, start, nr, n, r));
    assert(trips_view(wroutes[r]).len() == wroutes[r].trips@.len());
    assert(serial_trips(rev, stations, start, nr, n, r).len() == fkr.len());
    assert(trips_view(wroutes[r])[t] == wroutes[r].trips@[t].connections@);
    assert(serial_trips(rev, stations, start, nr, n, r)[t] == group_of(keys, vals, key));
    assert(wroutes[r].trips@[t].connections@ == group_of(keys, vals, key));
    lemma_group_of_contains(keys, vals, x);
    let j = choose|j: int| 0 <= j < group_of(keys, vals, keys[x]).len() && #[trigger] group_of(keys, vals, keys[x])[j] == vals[x];
    lemma_route_conns_contains(wroutes, wroutes.len() as int, r, t, j);
    let k = choose|k: int| 0 <= k < rc.len() && #[trigger] rc[k] == (r, t, wroutes[r].trips@[t].connections@[j]);
    assert(loaded_connection(read_conns[k], rc[k], wroutes, ws, 0, start, k));
    assert(vals[x] == wire_of(rev[x], stations, start));
    lemma_connection_read_back(read_conns[k], rev[x], rc[k], wroutes, ws, stations, start, k);
}

/// As many connections are read back as were written.
proof fn lemma_read_count(
    stations: Seq<Station>,
    routes: Seq<Route>,
    connections: Seq<Connection>,
    start: i64,
    wroutes: Seq<wire::Route>,
    ws: Seq<wire::Station>,
    read_conns: Seq<Connection>,
)
    requires
        written_and_read(stations, routes, connections, start, wroutes, ws, read_conns),
    ensures
        read_conns.len() == connections.len(),
{
    lemma_written_count(stations, routes, connections, start, wroutes, ws);
}

/// A written message holds as many connections as were written.
proof fn lemma_written_count(
    stations: Seq<Station>,
    routes: Seq<Route>,
    connections: Seq<Connection>,
    start: i64,
    wroutes: Seq<wire::Route>,
    ws: Seq<wire::Station>,
)
    requires
        written_shape(stations, routes, connections, start, wroutes, ws),
    ensures
        route_conns(wroutes, wroutes.len() as int).len() == connections.len(),
{
    let rev = connections.reverse();
    let n = connections.len() as int;
    let nr = routes.len() as int;
    let keys = serial_keys(rev, nr, n);
    let vals = serial_vals(rev, stations, start, n);
    let fk = first_keys(keys);
    let nw = wroutes.len() as int;
    lemma_route_conns_size(wroutes, nw);
    assert forall|r: int|
        #![trigger wroutes[r]]
        0 <= r < wroutes.len() implies trips_view(wroutes[r]) == first_keys(keys).filter(route_is(r)).map_values(group_fn(keys, vals)) by {
        assert(trips_view(wroutes[r]) == serial_trips(rev, stations, start, nr, n, r));
    }
    lemma_routes_size_groups(wroutes, keys, vals, nw);
    lemma_first_keys(keys);
    assert forall|i: int| 0 <= i < fk.len() implies (#[trigger] fk[i]).1 < nw by {
        assert(fk.contains(fk[i]));
        assert(keys.contains(fk[i]));
        let x = choose|x: int| 0 <= x < keys.len() && keys[x] == fk[i];
        lemma_walks_before_step(rev, x);
        lemma_walks_before_mono(rev, x + 1, n);
        if !is_walk(rev[x]) {
            assert(rev[x] == connections[n - 1 - x]);
        }
    }
    lemma_route_group_sizes(keys, vals, fk, nw);
    lemma_group_sizes_all(keys, vals);
}

/// The wire connection of an entry of `route_conns`.
pub open spec fn wire_part() -> spec_fn((int, int, wire::Connection)) -> wire::Connection {
    |e: (int, int, wire::Connection)| e.2
}

/// The wire connection of an entry of `trip_conns`.
pub open spec fn trip_part() -> spec_fn((int, wire::Connection)) -> wire::Connection {
    |e: (int, wire::Connection)| e.1
}

/// The values in the groups of the keys `ks`, as a multiset.
pub open spec fn group_ms(keys: Seq<(i32, usize)>, vals: Seq<wire::Connection>, ks: Seq<(i32, usize)>) -> Multiset<wire::Connection>
    decreases ks.len(),
{
    if ks.len() == 0 {
        Multiset::empty()
    } else {
        group_ms(keys, vals, ks.drop_last()).add(group_of(keys, vals, ks.last()).to_multiset())
    }
}

/// The values in the groups of the keys `ks` of routes below `r`.
pub open spec fn route_group_ms(keys: Seq<(i32, usize)>, vals: Seq<wire::Connection>, ks: Seq<(i32, usize)>, r: int) -> Multiset<wire::Connection>
    decreases r,
{
    if r <= 0 {
        Multiset::empty()
    } else {
        route_group_ms(keys, vals, ks, r - 1).add(group_ms(keys, vals, ks.filter(route_is(r - 1))))
    }
}

/// The connections of the first `n` trips, as a multiset.
pub open spec fn trips_ms(trips: Seq<wire::Trip>, n: int) -> Multiset<wire::Connection>
    decreases n,
{
    if n <= 0 {
        Multiset::empty()
    } else {
        trips_ms(trips, n - 1).add(trips[n - 1].connections@.to_multiset())
    }
}

/// The connections of the trips of the first `n` routes, as a multiset.
pub open spec fn routes_ms(routes: Seq<wire::Route>, n: int) -> Multiset<wire::Connection>
    decreases n,
{
    if n <= 0 {
        Multiset::empty()
    } else {
        routes_ms(routes, n - 1).add(trips_ms(routes[n - 1].trips@, routes[n - 1].trips@.len() as int))
    }
}

proof fn lemma_group_ms_push(keys: Seq<(i32, usize)>, vals: Seq<wire::Connection>, k: (i32, usize), v: wire::Connection, ks: Seq<(i32, usize)>)
    requires
        keys.len() == vals.len(),
        ks.no_duplicates(),
    ensures
        group_ms(keys.push(k), vals.push(v), ks) == if ks.contains(k) {
            group_ms(keys, vals, ks).insert(v)
        } else {
            group_ms(keys, vals, ks)
        },
    decreases ks.len(),
{
    if ks.len() > 0 {
        let p = ks.drop_last();
        let l = ks.last();
        assert(p.no_duplicates()) by {
            assert forall|a: int, b: int| 0 <= a < p.len() && 0 <= b < p.len() && a != b implies p[a] != p[b] by {
                assert(p[a] == ks[a] && p[b] == ks[b]);
            }
        }
        lemma_group_ms_push(keys, vals, k, v, p);
        lemma_group_push(keys, vals, k, v, l);
        assert(ks =~= p.push(l));
        assert(ks.contains(k) <==> (p.contains(k) || l == k)) by {
            if ks.contains(k) {
                let i = choose|i: int| 0 <= i < ks.len() && ks[i] == k;
                if i < p.len() {
                    assert(p[i] == k);
                }
            }
            if p.contains(k) {
                let i = choose|i: int| 0 <= i < p.len() && p[i] == k;
                assert(ks[i] == k);
            }
        }
        assert(!(p.contains(k) && l == k)) by {
            if p.contains(k) && l == k {
                let i = choose|i: int| 0 <= i < p.len() && p[i] == k;
                assert(ks[i] == ks[ks.len() - 1]);
            }
        }
        let g = group_of(keys, vals, l);
        if l == k {
            assert(g.push(v).to_multiset() =~= g.to_multiset().insert(v));
            assert(group_ms(keys.push(k), vals.push(v), ks) =~= group_ms(keys, vals, ks).insert(v));
        } else if p.contains(k) {
            assert(group_ms(keys.push(k), vals.push(v), ks) =~= group_ms(keys, vals, ks).insert(v));
        }
    }
}

/// The groups of the distinct keys hold every value once.
proof fn lemma_group_ms_all(keys: Seq<(i32, usize)>, vals: Seq<wire::Connection>)
    requires
        keys.len() == vals.len(),
    ensures
        group_ms(keys, vals, first_keys(keys)) == vals.to_multiset(),
    decreases keys.len(),
{
    if keys.len() == 0 {
        assert(vals.to_multiset() =~= Multiset::empty());
    } else {
        let kp = keys.drop_last();
        let vp = vals.drop_last();
        let k = keys.last();
        let v = vals.last();
        assert(kp.push(k) =~= keys);
        assert(vp.push(v) =~= vals);
        lemma_group_ms_all(kp, vp);
        lemma_first_keys(kp);
        lemma_first_keys_push(kp, k);
        let fp = first_keys(kp);
        lemma_group_ms_push(kp, vp, k, v, fp);
        if !kp.contains(k) {
            lemma_group_absent(kp, vp, k);
            lemma_group_push(kp, vp, k, v, k);
            assert(fp.push(k).drop_last() =~= fp);
            lemma_group_ms_push(kp, vp, k, v, fp);
            assert(group_of(kp, vp, k).push(v) =~= seq![v]);
            assert(seq![v].to_multiset() =~= Multiset::empty().insert(v));
            assert(group_ms(keys, vals, fp.push(k)) =~= vals.to_multiset());
        } else {
            assert(group_ms(keys, vals, fp) =~= vals.to_multiset());
        }
    }
}

proof fn lemma_route_group_ms_push(keys: Seq<(i32, usize)>, vals: Seq<wire::Connection>, ks: Seq<(i32, usize)>, l: (i32, usize), r: int)
    requires
        0 <= r,
    ensures
        route_group_ms(keys, vals, ks.push(l), r) == route_group_ms(keys, vals, ks, r).add(
            if l.1 < r { group_of(keys, vals, l).to_multiset() } else { Multiset::empty() },
        ),
    decreases r,
{
    if r > 0 {
        lemma_route_group_ms_push(keys, vals, ks, l, r - 1);
        ks.lemma_filter_push(l, route_is(r - 1));
        let f = ks.filter(route_is(r - 1));
        if l.1 == r - 1 {
            assert(f.push(l).drop_last() =~= f);
        }
        assert(route_group_ms(keys, vals, ks.push(l), r) =~= route_group_ms(keys, vals, ks, r).add(
            if l.1 < r { group_of(keys, vals, l).to_multiset() } else { Multiset::empty() },
        ));
    } else {
        assert(route_group_ms(keys, vals, ks.push(l), r) =~= route_group_ms(keys, vals, ks, r).add(Multiset::empty()));
    }
}

proof fn lemma_route_group_ms_empty(keys: Seq<(i32, usize)>, vals: Seq<wire::Connection>, ks: Seq<(i32, usize)>, r: int)
    requires
        ks.len() == 0,
        0 <= r,
    ensures
        route_group_ms(keys, vals, ks, r) == Multiset::<wire::Connection>::empty(),
    decreases r,
{
    if r > 0 {
        lemma_route_group_ms_empty(keys, vals, ks, r - 1);
        reveal(Seq::filter);
        assert(ks.filter(route_is(r - 1)).len() == 0);
        assert(route_group_ms(keys, vals, ks, r) =~= Multiset::<wire::Connection>::empty());
    }
}

/// Split by route, the keys' groups hold the same values as together.
proof fn lemma_route_group_ms(keys: Seq<(i32, usize)>, vals: Seq<wire::Connection>, ks: Seq<(i32, usize)>, r: int)
    requires
        0 <= r,
        forall|i: int| 0 <= i < ks.len() ==> (#[trigger] ks[i]).1 < r,
    ensures
        route_group_ms(keys, vals, ks, r) == group_ms(keys, vals, ks),
    decreases ks.len(),
{
    if ks.len() == 0 {
        lemma_route_group_ms_empty(keys, vals, ks, r);
    } else {
        let p = ks.drop_last();
        let l = ks.last();
        assert(p.push(l) =~= ks);
        assert forall|i: int| 0 <= i < p.len() implies (#[trigger] p[i]).1 < r by {
            assert(p[i] == ks[i]);
        }
        lemma_route_group_ms(keys, vals, p, r);
        lemma_route_group_ms_push(keys, vals, p, l, r);
        assert(ks[ks.len() - 1].1 < r);
    }
}

proof fn lemma_trips_ms_groups(trips: Seq<wire::Trip>, keys: Seq<(i32, usize)>, vals: Seq<wire::Connection>, ks: Seq<(i32, usize)>, n: int)
    requires
        trips.len() == ks.len(),
        forall|t: int| #![trigger trips[t]] 0 <= t < trips.len() ==> trips[t].connections@ == group_of(keys, vals, ks[t]),
        0 <= n <= trips.len(),
    ensures
        trips_ms(trips, n) == group_ms(keys, vals, ks.take(n)),
    decreases n,
{
    if n > 0 {
        lemma_trips_ms_groups(trips, keys, vals, ks, n - 1);
        assert(ks.take(n).drop_last() =~= ks.take(n - 1));
        assert(trips[n - 1].connections@ == group_of(keys, vals, ks[n - 1]));
    } else {
        assert(ks.take(0).len() == 0);
    }
}

proof fn lemma_routes_ms_groups(
    wroutes: Seq<wire::Route>,
    keys: Seq<(i32, usize)>,
    vals: Seq<wire::Connection>,
    n: int,
)
    requires
        forall|r: int|
            #![trigger wroutes[r]]
            0 <= r < wroutes.len() ==> trips_view(wroutes[r]) == first_keys(keys).filter(route_is(r)).map_values(group_fn(keys, vals)),
        0 <= n <= wroutes.len(),
    ensures
        routes_ms(wroutes, n) == route_group_ms(keys, vals, first_keys(keys), n),
    decreases n,
{
    if n > 0 {
        lemma_routes_ms_groups(wroutes, keys, vals, n - 1);
        let r = n - 1;
        let trips = wroutes[r].trips@;
        let fkr = first_keys(keys).filter(route_is(r));
        assert(trips_view(wroutes[r]) == fkr.map_values(group_fn(keys, vals)));
        assert(trips_view(wroutes[r]).len() == trips.len());
        assert forall|t: int| #![trigger trips[t]] 0 <= t < trips.len() implies trips[t].connections@ == group_of(keys, vals, fkr[t]) by {
            assert(trips_view(wroutes[r])[t] == trips[t].connections@);
        }
        lemma_trips_ms_groups(trips, keys, vals, fkr, trips.len() as int);
        assert(fkr.take(fkr.len() as int) =~= fkr);
    }
}

proof fn lemma_trip_conns_ms(trips: Seq<wire::Trip>, n: int)
    requires
        0 <= n <= trips.len(),
    ensures
        trip_conns(trips, n).map_values(trip_part()).to_multiset() == trips_ms(trips, n),
    decreases n,
{
    if n > 0 {
        lemma_trip_conns_ms(trips, n - 1);
        let a = trip_conns(trips, n - 1);
        let b = trips[n - 1].connections@.map_values(|c: wire::Connection| (n - 1, c));
        assert((a + b).map_values(trip_part()) =~= a.map_values(trip_part()) + b.map_values(trip_part()));
        assert(b.map_values(trip_part()) =~= trips[n - 1].connections@);
        vstd::seq_lib::lemma_multiset_commutative(a.map_values(trip_part()), b.map_values(trip_part()));
    } else {
        assert(trip_conns(trips, n).map_values(trip_part()).to_multiset() =~= Multiset::empty());
    }
}

proof fn lemma_route_conns_ms(routes: Seq<wire::Route>, n: int)
    requires
        0 <= n <= routes.len(),
    ensures
        route_conns(routes, n).map_values(wire_part()).to_multiset() == routes_ms(routes, n),
    decreases n,
{
    if n > 0 {
        lemma_route_conns_ms(routes, n - 1);
        let trips = routes[n - 1].trips@;
        let tc = trip_conns(trips, trips.len() as int);
        lemma_trip_conns_ms(trips, trips.len() as int);
        let a = route_conns(routes, n - 1);
        let b = tc.map_values(|e: (int, wire::Connection)| (n - 1, e.0, e.1));
        assert((a + b).map_values(wire_part()) =~= a.map_values(wire_part()) + b.map_values(wire_part()));
        assert(b.map_values(wire_part()) =~= tc.map_values(trip_part()));
        vstd::seq_lib::lemma_multiset_commutative(a.map_values(wire_part()), b.map_values(wire_part()));
    } else {
        assert(route_conns(routes, n).map_values(wire_part()).to_multiset() =~= Multiset::empty());
    }
}

/// Sequences with the same elements, mapped by the same function, still
/// have the same elements.
proof fn lemma_map_multiset<A, B>(s1: Seq<A>, s2: Seq<A>, f: spec_fn(A) -> B)
    requires
        s1.to_multiset() == s2.to_multiset(),
    ensures
        s1.map_values(f).to_multiset() == s2.map_values(f).to_multiset(),
    decreases s1.len(),
{
    if s1.len() == 0 {
        assert(s2.to_multiset().len() == 0);
        assert(s2.len() == 0);
        assert(s1.map_values(f) =~= s2.map_values(f));
    } else {
        let x = s1.last();
        let s1p = s1.drop_last();
        assert(s1p.push(x) =~= s1);
        assert(s2.to_multiset().count(x) > 0);
        assert(s2.contains(x));
        let i = choose|i: int| 0 <= i < s2.len() && s2[i] == x;
        let s2p = s2.remove(i);
        assert(s1p.to_multiset() =~= s2p.to_multiset());
        lemma_map_multiset(s1p, s2p, f);
        assert(s1.map_values(f) =~= s1p.map_values(f).push(f(x)));
        assert(s2.map_values(f).remove(i) =~= s2p.map_values(f));
        assert(s2.map_values(f)[i] == f(x));
        assert(s2.map_values(f).to_multiset() =~= s2p.map_values(f).to_multiset().insert(f(x)));
    }
}

/// The connections read back are, as a multiset, the connections written.
proof fn lemma_read_multiset(
    stations: Seq<Station>,
    routes: Seq<Route>,
    connections: Seq<Connection>,
    start: i64,
    wroutes: Seq<wire::Route>,
    ws: Seq<wire::Station>,
    read_conns: Seq<Connection>,
)
    requires
        written_and_read(stations, routes, connections, start, wroutes, ws, read_conns),
    ensures
        route_conns(wroutes, wroutes.len() as int).map_values(wire_part()).to_multiset()
            == serial_vals(connections.reverse(), stations, start, connections.len() as int).to_multiset(),
{
    let rev = connections.reverse();
    let n = connections.len() as int;
    let nr = routes.len() as int;
    let keys = serial_keys(rev, nr, n);
    let vals = serial_vals(rev, stations, start, n);
    let fk = first_keys(keys);
    let nw = wroutes.len() as int;
    lemma_route_conns_ms(wroutes, nw);
    assert forall|r: int|
        #![trigger wroutes[r]]
        0 <= r < wroutes.len() implies trips_view(wroutes[r]) == first_keys(keys).filter(route_is(r)).map_values(group_fn(keys, vals)) by {
        assert(trips_view(wroutes[r]) == serial_trips(rev, stations, start, nr, n, r));
    }
    lemma_routes_ms_groups(wroutes, keys, vals, nw);
    lemma_first_keys(keys);
    assert forall|i: int| 0 <= i < fk.len() implies (#[trigger] fk[i]).1 < nw by {
        assert(fk.contains(fk[i]));
        assert(keys.contains(fk[i]));
        let x = choose|x: int| 0 <= x < keys.len() && keys[x] == fk[i];
        lemma_walks_before_step(rev, x);
        lemma_walks_before_mono(rev, x + 1, n);
        if !is_walk(rev[x]) {
            assert(rev[x] == connections[n - 1 - x]);
        }
    }
    lemma_route_group_ms(keys, vals, fk, nw);
    lemma_group_ms_all(keys, vals);
}

/// The stations, times and delays of a connection.
pub open spec fn stops_and_times(c: Connection) -> (usize, usize, Mtime, Option<i16>, Mtime, Option<i16>) {
    (c.from_idx, c.to_idx, c.departure.scheduled, c.departure.delay, c.arrival.scheduled, c.arrival.delay)
}

pub open spec fn stops_and_times_fn() -> spec_fn(Connection) -> (usize, usize, Mtime, Option<i16>, Mtime, Option<i16>) {
    |c: Connection| stops_and_times(c)
}

/// The stations, times and delays of a connection of `connections` written as `w`.
spec fn written_stops_and_times(
    connections: Seq<Connection>,
    stations: Seq<Station>,
    start: i64,
) -> spec_fn(wire::Connection) -> (usize, usize, Mtime, Option<i16>, Mtime, Option<i16>) {
    |w: wire::Connection| stops_and_times(choose|c: Connection| connections.contains(c) && wire_of(c, stations, start) == w)
}

/// What is written of a connection determines its stations, times and delays.
proof fn lemma_written_determines(connections: Seq<Connection>, stations: Seq<Station>, start: i64, c: Connection)
    requires
        connections.contains(c),
        forall|p: int|
            #![trigger connections[p]]
            0 <= p < connections.len() ==> {
                &&& connections[p].from_idx < stations.len()
                &&& connections[p].to_idx < stations.len()
                &&& times_writable(connections[p], start)
            },
        forall|a: int, b: int|
            #![trigger stations[a], stations[b]]
            0 <= a < stations.len() && 0 <= b < stations.len() && a != b ==> stations[a].id@ != stations[b].id@,
    ensures
        written_stops_and_times(connections, stations, start)(wire_of(c, stations, start)) == stops_and_times(c),
{
    let w = wire_of(c, stations, start);
    let c2 = choose|c2: Connection| connections.contains(c2) && wire_of(c2, stations, start) == w;
    assert(connections.contains(c2) && wire_of(c2, stations, start) == w);
    let p = choose|p: int| 0 <= p < connections.len() && connections[p] == c;
    let p2 = choose|p2: int| 0 <= p2 < connections.len() && connections[p2] == c2;
    assert(connections[p] == c && connections[p2] == c2);
    assert(stations[c2.from_idx as int].id@ == stations[c.from_idx as int].id@);
    assert(stations[c2.to_idx as int].id@ == stations[c.to_idx as int].id@);
    assert(wire_stop(c2.departure, start) == wire_stop(c.departure, start));
    assert(wire_stop(c2.arrival, start) == wire_stop(c.arrival, start));
    assert(c2.departure.scheduled == c.departure.scheduled);
    assert(c2.arrival.scheduled == c.arrival.scheduled);
    assert(c2.departure.delay == c.departure.delay) by {
        if c.departure.delay is Some {
            assert(c2.departure.delay is Some);
        }
    }
    assert(c2.arrival.delay == c.arrival.delay) by {
        if c.arrival.delay is Some {
            assert(c2.arrival.delay is Some);
        }
    }
}

/// Reading back a written timetable, into an empty model, gives back its
/// stations and its connections, where no two stations share an id: the
/// stations come back in order with their ids and names, the query's origin
/// and destination positions and its start time come back, and the connections read are,
/// counted with multiplicity, the connections written, each with the same
/// stations, scheduled times and delays (so every connection read matches one
/// written, and every connection written is read back).
pub proof fn lemma_read_gives_back_written<F: Fn(usize, usize) -> String>(
    stations: Seq<Station>,
    routes: Seq<Route>,
    connections: Seq<Connection>,
    metadata: QueryMetadata,
    walk_name: F,
    msg: wire::Message,
    read_stations: Seq<Station>,
    read_routes: Seq<Route>,
    read_conns: Seq<Connection>,
    m: QueryMetadata,
)
    requires
        forall|p: int|
            #![trigger connections[p]]
            0 <= p < connections.len() ==> {
                &&& connections[p].from_idx < stations.len()
                &&& connections[p].to_idx < stations.len()
                &&& !is_walk(connections[p]) ==> connections[p].route_idx < routes.len()
                &&& times_writable(connections[p], metadata.start_ts)
            },
        routes.len() + connections.len() <= usize::MAX,
        forall|a: int, b: int|
            #![trigger stations[a], stations[b]]
            0 <= a < stations.len() && 0 <= b < stations.len() && a != b ==> stations[a].id@ != stations[b].id@,
        metadata.origin_idx < stations.len(),
        metadata.destination_idx < stations.len(),
        timetable_written(stations, routes, connections, metadata, walk_name, msg),
        timetable_read(msg, Seq::empty(), Seq::empty(), Seq::empty(), read_stations, read_routes, read_conns, m),
    ensures
        read_stations.len() == stations.len(),
        read_conns.len() == connections.len(),
        forall|t: int|
            #![trigger read_stations[t]]
            0 <= t < read_stations.len() ==> read_stations[t].id == stations[t].id && read_stations[t].name == stations[t].name,
        m.origin_idx == metadata.origin_idx,
        m.destination_idx == metadata.destination_idx,
        m.start_ts == metadata.start_ts,
        forall|k: int| 0 <= k < read_conns.len() ==> #[trigger] matches_one_of(read_conns[k], connections),
        forall|p: int| 0 <= p < connections.len() ==> #[trigger] matched_by_one_of(connections[p], read_conns),
        read_conns.map_values(stops_and_times_fn()).to_multiset() == connections.map_values(stops_and_times_fn()).to_multiset(),
{
    let tt = msg.timetable->0;
    let wroutes = tt.routes@;
    let ws = tt.stations@;
    let start = metadata.start_ts;
    assert forall|k: int| #![trigger ws[k]] 0 <= k < ws.len() implies ws[k].id@ == stations[k].id@ by {
        assert(station_written(ws[k], stations[k]));
    }
    assert forall|t: int|
        #![trigger read_stations[t]]
        0 <= t < read_stations.len() implies read_stations[t].id == stations[t].id && read_stations[t].name == stations[t].name by {
        assert(station_from_wire(read_stations[t], ws[t], read_conns, 0, t));
        assert(station_written(ws[t], stations[t]));
    }
    lemma_last_with_written_id(ws, stations, metadata.origin_idx as int, ws.len() as int);
    lemma_last_with_written_id(ws, stations, metadata.destination_idx as int, ws.len() as int);
    assert(written_and_read(stations, routes, connections, start, wroutes, ws, read_conns));
    lemma_read_count(stations, routes, connections, start, wroutes, ws, read_conns);
    assert forall|k: int| 0 <= k < read_conns.len() implies #[trigger] matches_one_of(read_conns[k], connections) by {
        lemma_read_is_written(stations, routes, connections, start, wroutes, ws, read_conns, k);
    }
    assert forall|p: int| 0 <= p < connections.len() implies #[trigger] matched_by_one_of(connections[p], read_conns) by {
        lemma_written_is_read(stations, routes, connections, start, wroutes, ws, read_conns, p);
    }
    // as multisets
    let rev = connections.reverse();
    let n = connections.len() as int;
    let vals = serial_vals(rev, stations, start, n);
    let rc = route_conns(wroutes, wroutes.len() as int);
    let wire_read = rc.map_values(wire_part());
    let pw = written_stops_and_times(connections, stations, start);
    lemma_read_multiset(stations, routes, connections, start, wroutes, ws, read_conns);
    lemma_map_multiset(wire_read, vals, pw);
    assert forall|x: int| 0 <= x < n implies #[trigger] rev[x] == connections[n - 1 - x] && connections.contains(rev[x]) by {
        assert(connections[n - 1 - x] == rev[x]);
    }
    assert(read_conns.map_values(stops_and_times_fn()) =~= wire_read.map_values(pw)) by {
        assert forall|k: int| 0 <= k < read_conns.len() implies read_conns.map_values(stops_and_times_fn())[k]
            == #[trigger] wire_read.map_values(pw)[k] by {
            lemma_read_is_written(stations, routes, connections, start, wroutes, ws, read_conns, k);
            let x = choose|x: int|
                0 <= x < connections.len() && rc[k].2 == wire_of(rev[x], stations, start)
                    && #[trigger] same_times_and_stops(read_conns[k], rev[x]);
            assert(connections.contains(rev[x]));
            lemma_written_determines(connections, stations, start, rev[x]);
        }
    }
    assert(vals.map_values(pw) =~= rev.map_values(stops_and_times_fn())) by {
        assert forall|x: int| 0 <= x < n implies vals.map_values(pw)[x] == #[trigger] rev.map_values(stops_and_times_fn())[x] by {
            assert(connections.contains(rev[x]));
            lemma_written_determines(connections, stations, start, rev[x]);
        }
    }
    assert(rev.map_values(stops_and_times_fn()) =~= connections.map_values(stops_and_times_fn()).reverse());
    connections.map_values(stops_and_times_fn()).lemma_reverse_to_multiset();
}

/// There are no more distinct keys than keys.
proof fn lemma_first_keys_len(keys: Seq<(i32, usize)>)
    ensures
        first_keys(keys).len() <= keys.len(),
    decreases keys.len(),
{
    if keys.len() > 0 {
        lemma_first_keys_len(keys.drop_last());
    }
}

/// A connection as written can be read back.
proof fn lemma_wire_of_readable(c: Connection, stations: Seq<Station>, ws: Seq<wire::Station>, start: i64)
    requires
        c.from_idx < stations.len(),
        c.to_idx < stations.len(),
        ws.len() == stations.len(),
        forall|k: int| #![trigger ws[k]] 0 <= k < ws.len() ==> ws[k].id@ == stations[k].id@,
        times_writable(c, start),
    ensures
        wire_connection_readable(wire_of(c, stations, start), ws, start),
{
    let w = wire_of(c, stations, start);
    assert(ws[c.from_idx as int].id@ == w.from_id@);
    assert(ws[c.to_idx as int].id@ == w.to_id@);
    lemma_mtime_round_trip(c.departure.scheduled as int, start as int);
    assert(w.departure->0.scheduled == c.departure.scheduled * 60 + start);
    assert(w.arrival->0.scheduled == c.arrival.scheduled * 60 + start);
    assert(to_mtime_spec(w.departure->0.scheduled as int, start as int) == c.departure.scheduled);
    if c.departure.delay is Some {
        let d = c.departure.delay->0;
        assert(w.departure->0.delay_minutes == d as i32);
        assert((d as i32) as i16 == d);
    }
}

/// What `serialize_protobuf` writes can be read by `deserialize_protobuf`
/// into an empty model: the message has a timetable and a query, every
/// connection of every trip can be read, no route has more trips than an
/// `i32` counts (where there are no more connections than that), and the
/// message holds exactly as many connections as were written.
pub proof fn lemma_written_is_readable<F: Fn(usize, usize) -> String>(
    stations: Seq<Station>,
    routes: Seq<Route>,
    connections: Seq<Connection>,
    metadata: QueryMetadata,
    walk_name: F,
    msg: wire::Message,
)
    requires
        forall|p: int|
            #![trigger connections[p]]
            0 <= p < connections.len() ==> {
                &&& connections[p].from_idx < stations.len()
                &&& connections[p].to_idx < stations.len()
                &&& !is_walk(connections[p]) ==> connections[p].route_idx < routes.len()
                &&& times_writable(connections[p], metadata.start_ts)
            },
        routes.len() + connections.len() <= usize::MAX,
        connections.len() <= i32::MAX,
        timetable_written(stations, routes, connections, metadata, walk_name, msg),
    ensures
        msg.timetable is Some,
        msg.query is Some,
        forall|r: int|
            #![trigger msg.timetable->0.routes@[r]]
            0 <= r < msg.timetable->0.routes@.len() ==> trips_readable(
                msg.timetable->0.routes@[r].trips@,
                msg.timetable->0.stations@,
                msg.timetable->0.start_time,
            ) && msg.timetable->0.routes@[r].trips@.len() <= i32::MAX,
        route_conns(msg.timetable->0.routes@, msg.timetable->0.routes@.len() as int).len() == connections.len(),
{
    let tt = msg.timetable->0;
    let wroutes = tt.routes@;
    let ws = tt.stations@;
    let start = metadata.start_ts;
    assert forall|k: int| #![trigger ws[k]] 0 <= k < ws.len() implies ws[k].id@ == stations[k].id@ by {
        assert(station_written(ws[k], stations[k]));
    }
    assert(written_shape(stations, routes, connections, start, wroutes, ws));
    lemma_written_count(stations, routes, connections, start, wroutes, ws);
    let rev = connections.reverse();
    let n = connections.len() as int;
    let nr = routes.len() as int;
    let keys = serial_keys(rev, nr, n);
    let vals = serial_vals(rev, stations, start, n);
    let fk = first_keys(keys);
    lemma_first_keys_len(keys);
    assert forall|r: int|
        #![trigger wroutes[r]]
        0 <= r < wroutes.len() implies trips_readable(wroutes[r].trips@, ws, start) && wroutes[r].trips@.len() <= i32::MAX by {
        let fkr = fk.filter(route_is(r));
        let trips = wroutes[r].trips@;
        assert(trips_view(wroutes[r]) == serial_trips(rev, stations, start, nr, n, r));
        assert(trips_view(wroutes[r]).len() == trips.len());
        assert(serial_trips(rev, stations, start, nr, n, r).len() == fkr.len());
        fk.lemma_filter_len(route_is(r));
        assert forall|t: int, j: int|
            #![trigger trips[t].connections@[j]]
            0 <= t < trips.len() && 0 <= j < trips[t].connections@.len()
                implies wire_connection_readable(trips[t].connections@[j], ws, start) by {
            assert(trips_view(wroutes[r])[t] == trips[t].connections@);
            assert(serial_trips(rev, stations, start, nr, n, r)[t] == group_of(keys, vals, fkr[t]));
            lemma_group_of_member(keys, vals, fkr[t], j);
            let x = choose|x: int| 0 <= x < keys.len() && keys[x] == fkr[t] && vals.len() == keys.len() && #[trigger] vals[x] == group_of(keys, vals, fkr[t])[j];
            let c = rev[x];
            assert(c == connections[n - 1 - x]);
            assert(vals[x] == wire_of(c, stations, start));
            lemma_wire_of_readable(c, stations, ws, start);
        }
    }
}

} // verus!
