use vstd::prelude::*;

use std::collections::HashMap;

use rand::Rng;
use rustc_hash::FxHashSet;

use crate::connection::{Connection, Footpath, Route, Station};
use crate::cut::cut_new;
use crate::sorting::{sort_by_keys, sorted_by_keys};
use crate::types::Mtime;
use crate::walking::{arrivals_extended, connections_registered, departures_extended, lemma_registered_push, lemma_registered_start};
use crate::wire::serde::{decimal, usize_to_string};

verus! {

broadcast use {vstd::seq_lib::group_to_multiset_ensures, vstd::multiset::group_multiset_axioms};

/// A timetable loaded from GTFS: stations, connections, the transfers that
/// preprocessing cut, the id-to-position map and the map from a transport on a
/// day to the id of its first connection.
pub struct GtfsTimetable {
    pub stations: Vec<Station>,
    pub connections: Vec<Connection>,
    pub cut: FxHashSet<(usize, usize)>,
    pub order: Vec<usize>,
    pub transport_and_day_to_connection_id: HashMap<(usize, u16), usize>,
}

impl GtfsTimetable {
    pub fn new() -> (t: GtfsTimetable)
        ensures
            t.stations@.len() == 0,
            t.connections@.len() == 0,
            t.cut@ == Set::<(usize, usize)>::empty(),
            t.order@.len() == 0,
            t.transport_and_day_to_connection_id@ == Map::<(usize, u16), usize>::empty(),
    {
        GtfsTimetable {
            stations: Vec::new(),
            connections: Vec::new(),
            cut: cut_new(),
            order: Vec::new(),
            transport_and_day_to_connection_id: HashMap::new(),
        }
    }
}

/// Stops grouped with the stops reachable from them by footpath, and the
/// transfer time between any two stops of a group.
#[derive(Debug)]
pub struct StationContraction {
    pub stop_to_group: Vec<usize>,
    pub stop_to_group_idx: Vec<usize>,
    max_group_size: usize,
    pub transfer_times: Vec<u16>,
}

/// The abstract contents of a station contraction.
pub struct ContractionView {
    pub stop_to_group: Seq<usize>,
    pub stop_to_group_idx: Seq<usize>,
    pub group_size: nat,
    pub transfer_times: Seq<u16>,
}

impl View for StationContraction {
    type V = ContractionView;

    closed spec fn view(&self) -> ContractionView {
        ContractionView {
            stop_to_group: self.stop_to_group@,
            stop_to_group_idx: self.stop_to_group_idx@,
            group_size: self.max_group_size as nat,
            transfer_times: self.transfer_times@,
        }
    }
}

impl ContractionView {
    pub open spec fn wf(&self) -> bool {
        &&& self.stop_to_group.len() == self.stop_to_group_idx.len()
        &&& self.transfer_times.len() == self.stop_to_group_idx.len() * self.group_size
        &&& forall|i: int|
            0 <= i < self.stop_to_group_idx.len() ==> #[trigger] self.stop_to_group_idx[i] < self.group_size
    }

    /// Transfer time from stop `from` to stop `to` of its group.
    pub open spec fn transfer_time_spec(&self, from: int, to: int) -> u16 {
        self.transfer_times[from * self.group_size + self.stop_to_group_idx[to]]
    }
}

impl StationContraction {
    pub fn get_transfer_time(&self, from_stop_idx: usize, to_stop_idx: usize) -> (t: u16)
        requires
            self@.wf(),
            from_stop_idx < self@.stop_to_group_idx.len(),
            to_stop_idx < self@.stop_to_group_idx.len(),
        ensures
            t == self@.transfer_time_spec(from_stop_idx as int, to_stop_idx as int),
    {
        proof {
            lemma_slot_in_bounds(
                from_stop_idx as int,
                self.stop_to_group_idx@[to_stop_idx as int] as int,
                self.stop_to_group_idx@.len() as int,
                self.max_group_size as int,
            );
            vstd::std_specs::vec::axiom_spec_len(&self.transfer_times);
            assert(from_stop_idx * self.max_group_size + self.stop_to_group_idx@[to_stop_idx as int] < self.transfer_times@.len());
            assert(0 <= from_stop_idx * self.max_group_size <= from_stop_idx * self.max_group_size + self.stop_to_group_idx@[to_stop_idx as int]);
        }
        self.transfer_times[from_stop_idx * self.max_group_size + self.stop_to_group_idx[to_stop_idx]]
    }
}

proof fn lemma_slot_in_bounds(from: int, idx: int, n: int, g: int)
    by (nonlinear_arith)
    requires
        0 <= from < n,
        0 <= idx < g,
    ensures
        0 <= from * g + idx < n * g,
{
}

/// The realtime change of one stop event of a transport on a day.
#[derive(Clone, Copy, Debug)]
pub struct EventChange {
    pub transport_idx: usize,
    pub day_idx: u16,
    pub stop_idx: u16,
    pub is_departure: bool,
    pub location_idx: Option<usize>,
    pub in_out_allowed: Option<bool>,
    pub delay: Option<i16>,
}

/// Calls `HashMap::get` on the map from (transport, day) to connection id.
#[verifier::external_body]
fn lookup_transport_day(m: &HashMap<(usize, u16), usize>, transport_idx: usize, day_idx: u16) -> (r: Option<usize>)
    ensures
        r == (if m@.contains_key((transport_idx, day_idx)) {
            Some(m@[(transport_idx, day_idx)])
        } else {
            None
        }),
{
    m.get(&(transport_idx, day_idx)).copied()
}

/// The id of the connection that an event refers to: a departure belongs to
/// the connection leaving stop `stop_idx` of the transport, an arrival to the
/// one reaching it.
pub open spec fn connection_id_of(e: EventChange, first: int) -> int {
    first - (if e.is_departure { 0int } else { 1int }) + e.stop_idx
}

pub fn to_connecion_id(e: &EventChange, transport_and_day_to_connection_id: &HashMap<(usize, u16), usize>) -> (id: usize)
    requires
        transport_and_day_to_connection_id@.contains_key((e.transport_idx, e.day_idx)),
        ({
            let first = transport_and_day_to_connection_id@[(e.transport_idx, e.day_idx)] as int;
            first >= (if e.is_departure { 0int } else { 1int })
                && connection_id_of(*e, first) <= usize::MAX
        }),
    ensures
        id == connection_id_of(*e, transport_and_day_to_connection_id@[(e.transport_idx, e.day_idx)] as int),
{
    let dep_offset: usize = if e.is_departure { 0 } else { 1 };
    let initial = match lookup_transport_day(transport_and_day_to_connection_id, e.transport_idx, e.day_idx) {
        Some(v) => v,
        None => 0,
    };
    initial - dep_offset + e.stop_idx as usize
}

/// The departures of every station reordered by ascending projected departure
/// time; `order` maps a connection id to the connection's position.
pub open spec fn departures_sorted_by_projection(
    departures: Seq<usize>,
    connections: Seq<Connection>,
    order: Seq<usize>,
) -> bool {
    forall|i: int, j: int|
        0 <= i <= j < departures.len() ==> connections[order[departures[i] as int] as int].departure.projected_spec()
            <= connections[order[departures[j] as int] as int].departure.projected_spec()
}

pub fn sort_station_departures_asc(stations: &mut Vec<Station>, connections: &[Connection], order: &[usize])
    requires
        forall|s: int, k: int|
            #![trigger old(stations)@[s].departures@[k]]
            0 <= s < old(stations)@.len() && 0 <= k < old(stations)@[s].departures@.len() ==> {
                let id = old(stations)@[s].departures@[k] as int;
                &&& id < order@.len()
                &&& order@[id] < connections@.len()
                &&& connections@[order@[id] as int].departure.projection_fits()
            },
    ensures
        final(stations)@.len() == old(stations)@.len(),
        forall|s: int|
            #![trigger final(stations)@[s]]
            0 <= s < final(stations)@.len() ==> {
                &&& final(stations)@[s].departures@.to_multiset() == old(stations)@[s].departures@.to_multiset()
                &&& departures_sorted_by_projection(final(stations)@[s].departures@, connections@, order@)
                &&& final(stations)@[s].id == old(stations)@[s].id
                &&& final(stations)@[s].name == old(stations)@[s].name
                &&& final(stations)@[s].arrivals == old(stations)@[s].arrivals
                &&& final(stations)@[s].transfer_time == old(stations)@[s].transfer_time
                &&& final(stations)@[s].parent_idx == old(stations)@[s].parent_idx
                &&& final(stations)@[s].footpaths == old(stations)@[s].footpaths
            },
{
    let ghost old_stations = stations@;
    // the sort key of every connection id that some station departs with
    let mut keys: Vec<i128> = Vec::new();
    let mut id: usize = 0;
    while id < order.len()
        invariant
            id <= order@.len(),
            keys@.len() == id,
        decreases order@.len() - id,
    {
        keys.push(0);
        id = id + 1;
    }
    let mut s: usize = 0;
    while s < stations.len()
        invariant
            s <= stations@.len(),
            stations@ == old_stations,
            keys@.len() == order@.len(),
            forall|t: int, k: int|
                #![trigger old_stations[t].departures@[k]]
                0 <= t < old_stations.len() && 0 <= k < old_stations[t].departures@.len() ==> {
                    let id = old_stations[t].departures@[k] as int;
                    &&& id < order@.len()
                    &&& order@[id] < connections@.len()
                    &&& connections@[order@[id] as int].departure.projection_fits()
                },
            forall|t: int, k: int|
                #![trigger old_stations[t].departures@[k]]
                0 <= t < s && 0 <= k < old_stations[t].departures@.len() ==> keys@[old_stations[t].departures@[k] as int]
                    == connections@[order@[old_stations[t].departures@[k] as int] as int].departure.projected_spec(),
        decreases stations@.len() - s,
    {
        let mut k: usize = 0;
        while k < stations[s].departures.len()
            invariant
                s < stations@.len(),
                stations@ == old_stations,
                k <= old_stations[s as int].departures@.len(),
                keys@.len() == order@.len(),
                forall|t: int, k: int|
                    #![trigger old_stations[t].departures@[k]]
                    0 <= t < old_stations.len() && 0 <= k < old_stations[t].departures@.len() ==> {
                        let id = old_stations[t].departures@[k] as int;
                        &&& id < order@.len()
                        &&& order@[id] < connections@.len()
                        &&& connections@[order@[id] as int].departure.projection_fits()
                    },
                forall|t: int, j: int|
                    #![trigger old_stations[t].departures@[j]]
                    ((0 <= t < s && 0 <= j < old_stations[t].departures@.len()) || (t == s && 0 <= j < k))
                        ==> keys@[old_stations[t].departures@[j] as int]
                        == connections@[order@[old_stations[t].departures@[j] as int] as int].departure.projected_spec(),
            decreases old_stations[s as int].departures@.len() - k,
        {
            let d = stations[s].departures[k];
            assert(old_stations[s as int].departures@[k as int] == d);
            let p = order[d];
            keys.set(d, connections[p].departure.projected() as i128);
            k = k + 1;
        }
        s = s + 1;
    }
    let mut s: usize = 0;
    while s < stations.len()
        invariant
            s <= stations@.len(),
            stations@.len() == old_stations.len(),
            keys@.len() == order@.len(),
            forall|t: int, k: int|
                #![trigger old_stations[t].departures@[k]]
                0 <= t < old_stations.len() && 0 <= k < old_stations[t].departures@.len()
                    ==> old_stations[t].departures@[k] < order@.len() && keys@[old_stations[t].departures@[k] as int]
                    == connections@[order@[old_stations[t].departures@[k] as int] as int].departure.projected_spec(),
            forall|t: int|
                #![trigger stations@[t]]
                s <= t < stations@.len() ==> stations@[t] == old_stations[t],
            forall|t: int|
                #![trigger stations@[t]]
                0 <= t < s ==> {
                    &&& stations@[t].departures@.to_multiset() == old_stations[t].departures@.to_multiset()
                    &&& departures_sorted_by_projection(stations@[t].departures@, connections@, order@)
                    &&& stations@[t].id == old_stations[t].id
                    &&& stations@[t].name == old_stations[t].name
                    &&& stations@[t].arrivals == old_stations[t].arrivals
                    &&& stations@[t].transfer_time == old_stations[t].transfer_time
                    &&& stations@[t].parent_idx == old_stations[t].parent_idx
                    &&& stations@[t].footpaths == old_stations[t].footpaths
                },
        decreases stations@.len() - s,
    {
        assert(stations@[s as int] == old_stations[s as int]);
        let deps = stations[s].departures.clone();
        assert(deps@ == old_stations[s as int].departures@);
        assert forall|i: int| 0 <= i < deps@.len() implies #[trigger] deps@[i] < keys@.len() by {
            assert(old_stations[s as int].departures@[i] < order@.len());
        }
        let sorted = sort_by_keys(deps, &keys);
        assert(sorted_by_keys(sorted@, keys@));
        assert forall|i: int| 0 <= i < sorted@.len() implies keys@[#[trigger] sorted@[i] as int]
            == connections@[order@[sorted@[i] as int] as int].departure.projected_spec() by {
            let x = sorted@[i];
            sorted@.to_multiset_ensures();
            deps@.to_multiset_ensures();
            assert(sorted@.to_multiset().count(x) > 0);
            assert(deps@.contains(x));
            let j = choose|j: int| 0 <= j < deps@.len() && deps@[j] == x;
            assert(old_stations[s as int].departures@[j] == x);
        }
        assert forall|i: int, j: int| 0 <= i <= j < sorted@.len() implies connections@[order@[sorted@[i] as int] as int].departure.projected_spec()
            <= connections@[order@[sorted@[j] as int] as int].departure.projected_spec() by {
            assert(keys@[sorted@[i] as int] <= keys@[sorted@[j] as int]);
        }
        stations[s].departures = sorted;
        s = s + 1;
    }
}


/// Sorts the departures of every station by ascending projected departure,
/// where a connection id is the connection's position.
pub fn sort_departures_by_position(stations: &mut Vec<Station>, connections: &Vec<Connection>)
    requires
        forall|s: int, k: int|
            #![trigger old(stations)@[s].departures@[k]]
            0 <= s < old(stations)@.len() && 0 <= k < old(stations)@[s].departures@.len()
                ==> old(stations)@[s].departures@[k] < connections@.len(),
        forall|p: int| #![trigger connections@[p]] 0 <= p < connections@.len() ==> connections@[p].departure.projection_fits(),
    ensures
        final(stations)@.len() == old(stations)@.len(),
        forall|s: int|
            #![trigger final(stations)@[s]]
            0 <= s < final(stations)@.len() ==> {
                &&& final(stations)@[s].departures@.to_multiset() == old(stations)@[s].departures@.to_multiset()
                &&& forall|a: int, b: int|
                    0 <= a <= b < final(stations)@[s].departures@.len()
                        ==> connections@[final(stations)@[s].departures@[a] as int].departure.projected_spec()
                        <= connections@[final(stations)@[s].departures@[b] as int].departure.projected_spec()
                &&& final(stations)@[s].id == old(stations)@[s].id
                &&& final(stations)@[s].name == old(stations)@[s].name
                &&& final(stations)@[s].arrivals == old(stations)@[s].arrivals
                &&& final(stations)@[s].transfer_time == old(stations)@[s].transfer_time
                &&& final(stations)@[s].parent_idx == old(stations)@[s].parent_idx
                &&& final(stations)@[s].footpaths == old(stations)@[s].footpaths
            },
{
    let mut keys: Vec<i128> = Vec::new();
    let mut p: usize = 0;
    while p < connections.len()
        invariant
            p <= connections@.len(),
            keys@.len() == p,
            forall|q: int| #![trigger connections@[q]] 0 <= q < connections@.len() ==> connections@[q].departure.projection_fits(),
            forall|q: int| #![trigger keys@[q]] 0 <= q < p ==> keys@[q] == connections@[q].departure.projected_spec(),
        decreases connections@.len() - p,
    {
        assert(connections@[p as int].departure.projection_fits());
        keys.push(connections[p].departure.projected() as i128);
        p = p + 1;
    }
    let ghost old_stations = stations@;
    let mut s: usize = 0;
    while s < stations.len()
        invariant
            s <= stations@.len(),
            stations@.len() == old_stations.len(),
            keys@.len() == connections@.len(),
            forall|q: int| #![trigger keys@[q]] 0 <= q < connections@.len() ==> keys@[q] == connections@[q].departure.projected_spec(),
            forall|t: int, k: int|
                #![trigger old_stations[t].departures@[k]]
                0 <= t < old_stations.len() && 0 <= k < old_stations[t].departures@.len()
                    ==> old_stations[t].departures@[k] < connections@.len(),
            forall|t: int| #![trigger stations@[t]] s <= t < stations@.len() ==> stations@[t] == old_stations[t],
            forall|t: int|
                #![trigger stations@[t]]
                0 <= t < s ==> {
                    &&& stations@[t].departures@.to_multiset() == old_stations[t].departures@.to_multiset()
                    &&& forall|a: int, b: int|
                        0 <= a <= b < stations@[t].departures@.len()
                            ==> connections@[stations@[t].departures@[a] as int].departure.projected_spec()
                            <= connections@[stations@[t].departures@[b] as int].departure.projected_spec()
                    &&& stations@[t].id == old_stations[t].id
                    &&& stations@[t].name == old_stations[t].name
                    &&& stations@[t].arrivals == old_stations[t].arrivals
                    &&& stations@[t].transfer_time == old_stations[t].transfer_time
                    &&& stations@[t].parent_idx == old_stations[t].parent_idx
                    &&& stations@[t].footpaths == old_stations[t].footpaths
                },
        decreases stations@.len() - s,
    {
        assert(stations@[s as int] == old_stations[s as int]);
        let deps = stations[s].departures.clone();
        let sorted = sort_by_keys(deps, &keys);
        assert forall|a: int, b: int| 0 <= a <= b < sorted@.len() implies connections@[sorted@[a] as int].departure.projected_spec()
            <= connections@[sorted@[b] as int].departure.projected_spec() by {
            assert(keys@[sorted@[a] as int] <= keys@[sorted@[b] as int]);
        }
        stations[s].departures = sorted;
        s = s + 1;
    }
}

/// A random origin and destination pair for simulations.
#[derive(Debug)]
pub struct OriginDestinationSample {
    pub from_idx: usize,
    pub from_id: String,
    pub to_idx: usize,
    pub to_id: String,
}

/// Calls `rand::thread_rng().gen_range(0..connection_count)`: some index below
/// `connection_count`, chosen at random.
#[verifier::external_body]
fn get_rand_conn_idx(connection_count: usize) -> (i: usize)
    requires
        connection_count > 0,
    ensures
        i < connection_count,
{
    let mut rng = rand::thread_rng();
    rng.gen_range(0..connection_count)
}

/// The sample whose origin is the departure station of connection
/// `origin_conn` and whose destination is the arrival station of connection
/// `destination_conn`.
pub fn origin_destination_sample(
    stations: &Vec<Station>,
    connections: &Vec<Connection>,
    origin_conn: usize,
    destination_conn: usize,
) -> (sample: OriginDestinationSample)
    requires
        origin_conn < connections@.len(),
        destination_conn < connections@.len(),
        connections@[origin_conn as int].from_idx < stations@.len(),
        connections@[destination_conn as int].to_idx < stations@.len(),
    ensures
        sample.from_idx == connections@[origin_conn as int].from_idx,
        sample.to_idx == connections@[destination_conn as int].to_idx,
        sample.from_id == stations@[sample.from_idx as int].id,
        sample.to_id == stations@[sample.to_idx as int].id,
{
    let origin = connections[origin_conn].from_idx;
    let destination = connections[destination_conn].to_idx;
    OriginDestinationSample {
        from_idx: origin,
        from_id: stations[origin].id.clone(),
        to_idx: destination,
        to_id: stations[destination].id.clone(),
    }
}

/// `sample_count` origin and destination pairs: each origin is the departure
/// station of a randomly chosen connection and each destination the arrival
/// station of another randomly chosen connection.
pub fn create_simulation_samples(
    stations: &Vec<Station>,
    connections: &Vec<Connection>,
    sample_count: usize,
) -> (samples: Vec<OriginDestinationSample>)
    requires
        connections@.len() > 0,
        forall|p: int|
            #![trigger connections@[p]]
            0 <= p < connections@.len() ==> connections@[p].from_idx < stations@.len()
                && connections@[p].to_idx < stations@.len(),
    ensures
        samples@.len() == sample_count,
        forall|i: int|
            #![trigger samples@[i]]
            0 <= i < sample_count ==> {
                &&& exists|p: int| 0 <= p < connections@.len() && connections@[p].from_idx == samples@[i].from_idx
                &&& exists|p: int| 0 <= p < connections@.len() && connections@[p].to_idx == samples@[i].to_idx
                &&& samples@[i].from_idx < stations@.len()
                &&& samples@[i].to_idx < stations@.len()
                &&& samples@[i].from_id == stations@[samples@[i].from_idx as int].id
                &&& samples@[i].to_id == stations@[samples@[i].to_idx as int].id
            },
{
    let mut samples: Vec<OriginDestinationSample> = Vec::new();
    let mut i: usize = 0;
    while i < sample_count
        invariant
            i <= sample_count,
            samples@.len() == i,
            connections@.len() > 0,
            forall|p: int|
                #![trigger connections@[p]]
                0 <= p < connections@.len() ==> connections@[p].from_idx < stations@.len()
                    && connections@[p].to_idx < stations@.len(),
            forall|j: int|
                #![trigger samples@[j]]
                0 <= j < i ==> {
                    &&& exists|p: int| 0 <= p < connections@.len() && connections@[p].from_idx == samples@[j].from_idx
                    &&& exists|p: int| 0 <= p < connections@.len() && connections@[p].to_idx == samples@[j].to_idx
                    &&& samples@[j].from_idx < stations@.len()
                    &&& samples@[j].to_idx < stations@.len()
                    &&& samples@[j].from_id == stations@[samples@[j].from_idx as int].id
                    &&& samples@[j].to_id == stations@[samples@[j].to_idx as int].id
                },
        decreases sample_count - i,
    {
        let a = get_rand_conn_idx(connections.len());
        let b = get_rand_conn_idx(connections.len());
        assert(connections@[a as int].from_idx < stations@.len());
        assert(connections@[b as int].to_idx < stations@.len());
        let sample = origin_destination_sample(stations, connections, a, b);
        samples.push(sample);
        i = i + 1;
    }
    samples
}

/// A stop as the GTFS loader delivers it.
#[derive(Debug)]
pub struct GtfsLocation {
    pub id: String,
    pub name: String,
    pub transfer_time: u16,
    pub parent_idx: usize,
    pub footpaths: Vec<Footpath>,
}

/// A route as the GTFS loader delivers it: its position and its class.
#[derive(Debug)]
pub struct GtfsRoute {
    pub route_idx: usize,
    pub clasz: i16,
}

/// A connection as the GTFS loader delivers it.
#[derive(Debug)]
pub struct GtfsConnection {
    pub id: usize,
    pub route_idx: usize,
    pub trip_id: i32,
    pub from_idx: usize,
    pub to_idx: usize,
    pub departure: Mtime,
    pub arrival: Mtime,
    pub in_allowed: bool,
    pub out_allowed: bool,
    pub name: String,
}

/// `st` is location `l`, with the ids (from `n0` on, in increasing order) of
/// the connections arriving at it, and exactly those departing from it, once each.
pub open spec fn station_from_location(st: Station, l: GtfsLocation, conns: Seq<Connection>, n0: int, t: int) -> bool {
    let dep = st.departures@;
    &&& st.id == l.id
    &&& st.name == l.name
    &&& st.transfer_time == l.transfer_time
    &&& st.parent_idx == l.parent_idx
    &&& st.footpaths@ == l.footpaths@
    &&& arrivals_extended(Seq::empty(), st.arrivals@, conns, n0, t)
    &&& dep.no_duplicates()
    &&& forall|m: int| #![trigger dep[m]] 0 <= m < dep.len() ==> n0 <= dep[m] < conns.len() && conns[dep[m] as int].from_idx == t
    &&& forall|k: int| #![trigger conns[k]] n0 <= k < conns.len() && conns[k].from_idx == t ==> dep.contains(k as usize)
}

/// `c` is the GTFS connection `g` on a route of product type `product_type`.
pub open spec fn connection_from_gtfs(c: Connection, g: GtfsConnection, product_type: i16) -> bool {
    &&& c.id == g.id
    &&& c.route_idx == g.route_idx
    &&& c.product_type == product_type
    &&& c.trip_id == g.trip_id
    &&& c.from_idx == g.from_idx
    &&& c.to_idx == g.to_idx
    &&& c.departure.scheduled == g.departure
    &&& c.departure.delay is None
    &&& c.departure.in_out_allowed == g.in_allowed
    &&& c.departure.scheduled_track@.len() == 0
    &&& c.departure.projected_track@.len() == 0
    &&& c.arrival.scheduled == g.arrival
    &&& c.arrival.delay is None
    &&& c.arrival.in_out_allowed == g.out_allowed
    &&& c.arrival.scheduled_track@.len() == 0
    &&& c.arrival.projected_track@.len() == 0
    &&& c.message@.len() == 0
}

/// The name that route `r` has after the connections of `gc` have been read:
/// its own where that is not empty, else that of the first connection on it.
pub open spec fn route_name_after(name: Seq<char>, gc: Seq<GtfsConnection>, r: int, n: int) -> Seq<char>
    decreases n,
{
    if n <= 0 {
        name
    } else {
        let before = route_name_after(name, gc, r, n - 1);
        if gc[n - 1].route_idx == r && before.len() == 0 {
            gc[n - 1].name@
        } else {
            before
        }
    }
}

/// The stations after reading and sorting: the old ones keep their data and
/// gain the connections that depart from or arrive at them, the new ones are
/// the locations with their connections.
proof fn lemma_retrieved_stations(
    old_stations: Seq<Station>,
    base: Seq<Station>,
    st_built: Seq<Station>,
    st: Seq<Station>,
    old_conns: Seq<Connection>,
    conns: Seq<Connection>,
    locs: Seq<GtfsLocation>,
)
    requires
        base.len() == old_stations.len() + locs.len(),
        base.subrange(0, old_stations.len() as int) == old_stations,
        forall|k: int|
            #![trigger base[k]]
            old_stations.len() <= k < base.len() ==> {
                &&& base[k].id == locs[k - old_stations.len()].id
                &&& base[k].name == locs[k - old_stations.len()].name
                &&& base[k].transfer_time == locs[k - old_stations.len()].transfer_time
                &&& base[k].parent_idx == locs[k - old_stations.len()].parent_idx
                &&& base[k].footpaths@ == locs[k - old_stations.len()].footpaths@
                &&& base[k].departures@.len() == 0
                &&& base[k].arrivals@.len() == 0
            },
        connections_registered(base, st_built, conns, old_conns.len() as int),
        old_conns.len() <= conns.len(),
        st.len() == st_built.len(),
        forall|t: int|
            #![trigger st[t]]
            0 <= t < st.len() ==> {
                &&& st[t].departures@.to_multiset() == st_built[t].departures@.to_multiset()
                &&& st[t].id == st_built[t].id
                &&& st[t].name == st_built[t].name
                &&& st[t].arrivals == st_built[t].arrivals
                &&& st[t].transfer_time == st_built[t].transfer_time
                &&& st[t].parent_idx == st_built[t].parent_idx
                &&& st[t].footpaths == st_built[t].footpaths
            },
    ensures
        forall|t: int|
            #![trigger st[t]]
            0 <= t < old_stations.len() ==> {
                &&& st[t].id == old_stations[t].id
                &&& st[t].name == old_stations[t].name
                &&& st[t].transfer_time == old_stations[t].transfer_time
                &&& st[t].parent_idx == old_stations[t].parent_idx
                &&& st[t].footpaths == old_stations[t].footpaths
                &&& exists|x: Seq<usize>|
                    departures_extended(old_stations[t].departures@, x, conns, old_conns.len() as int, t)
                        && st[t].departures@.to_multiset() == x.to_multiset()
                &&& arrivals_extended(old_stations[t].arrivals@, st[t].arrivals@, conns, old_conns.len() as int, t)
            },
        forall|t: int|
            #![trigger st[t]]
            old_stations.len() <= t < st.len() ==> station_from_location(st[t], locs[t - old_stations.len()], conns, old_conns.len() as int, t),
{
    reveal(connections_registered);
    let n_old = old_stations.len() as int;
    let n0 = old_conns.len() as int;
    assert forall|t: int| #![trigger st[t]] 0 <= t < n_old implies {
        &&& st[t].id == old_stations[t].id
        &&& st[t].name == old_stations[t].name
        &&& st[t].transfer_time == old_stations[t].transfer_time
        &&& st[t].parent_idx == old_stations[t].parent_idx
        &&& st[t].footpaths == old_stations[t].footpaths
        &&& exists|x: Seq<usize>|
            departures_extended(old_stations[t].departures@, x, conns, n0, t)
                && st[t].departures@.to_multiset() == x.to_multiset()
        &&& arrivals_extended(old_stations[t].arrivals@, st[t].arrivals@, conns, n0, t)
    } by {
        assert(base[t] == base.subrange(0, n_old)[t]);
        assert(st_built[t] == st_built[t]);
        assert(departures_extended(old_stations[t].departures@, st_built[t].departures@, conns, n0, t));
    }
    assert forall|t: int| #![trigger st[t]] n_old <= t < st.len() implies station_from_location(st[t], locs[t - n_old], conns, n0, t) by {
        assert(st_built[t] == st_built[t]);
        let e = Seq::<usize>::empty();
        let d0 = st_built[t].departures@;
        let d = st[t].departures@;
        assert(base[t].departures@ =~= e);
        assert(base[t].arrivals@ =~= e);
        assert(departures_extended(e, d0, conns, n0, t));
        assert(d0.no_duplicates()) by {
            assert forall|x: int, y: int| 0 <= x < d0.len() && 0 <= y < d0.len() && x != y implies d0[x] != d0[y] by {
                if x < y {
                    assert(d0[x] < d0[y]);
                } else {
                    assert(d0[y] < d0[x]);
                }
            }
        }
        d0.lemma_multiset_has_no_duplicates();
        d.lemma_multiset_has_no_duplicates_conv();
        assert forall|m: int| #![trigger d[m]] 0 <= m < d.len() implies n0 <= d[m] < conns.len() && conns[d[m] as int].from_idx == t by {
            assert(d.to_multiset().count(d[m]) > 0);
            assert(d0.to_multiset().count(d[m]) > 0);
            assert(d0.contains(d[m]));
            let m0 = choose|m0: int| 0 <= m0 < d0.len() && d0[m0] == d[m];
        }
        assert forall|k: int| #![trigger conns[k]] n0 <= k < conns.len() && conns[k].from_idx == t implies d.contains(k as usize) by {
            let m0 = choose|m0: int| 0 <= m0 < d0.len() && d0[m0] == k;
            assert(d0.to_multiset().count(k as usize) > 0);
            assert(d.to_multiset().count(k as usize) > 0);
        }
    }
}

/// Reads a GTFS timetable: appends a station per location, a route per route
/// (its id the decimal route position) and a connection per connection (a
/// route without a name takes that of its first connection), registers each
/// connection at its stations and sorts every station's departures by
/// projected departure.
pub fn retrieve(
    locations: Vec<GtfsLocation>,
    gtfs_routes: &Vec<GtfsRoute>,
    gtfs_connections: &Vec<GtfsConnection>,
    stations: &mut Vec<Station>,
    routes: &mut Vec<Route>,
    connections: &mut Vec<Connection>,
)
    requires
        forall|k: int|
            #![trigger gtfs_connections@[k]]
            0 <= k < gtfs_connections@.len() ==> {
                &&& gtfs_connections@[k].id == old(connections)@.len() + k
                &&& gtfs_connections@[k].route_idx < old(routes)@.len() + gtfs_routes@.len()
                &&& gtfs_connections@[k].from_idx < old(stations)@.len() + locations@.len()
                &&& gtfs_connections@[k].to_idx < old(stations)@.len() + locations@.len()
            },
        forall|s: int, k: int|
            #![trigger old(stations)@[s].departures@[k]]
            0 <= s < old(stations)@.len() && 0 <= k < old(stations)@[s].departures@.len()
                ==> old(stations)@[s].departures@[k] < old(connections)@.len(),
        forall|p: int| #![trigger old(connections)@[p]] 0 <= p < old(connections)@.len() ==> old(connections)@[p].departure.projection_fits(),
    ensures
        ({
            let n_old = old(stations)@.len() as int;
            let r_old = old(routes)@.len() as int;
            let n0 = old(connections)@.len() as int;
            let conns = final(connections)@;
            &&& final(stations)@.len() == n_old + locations@.len()
            &&& final(routes)@.len() == r_old + gtfs_routes@.len()
            &&& conns.len() == n0 + gtfs_connections@.len()
            &&& conns.subrange(0, n0) == old(connections)@
            &&& forall|k: int|
                #![trigger gtfs_connections@[k]]
                0 <= k < gtfs_connections@.len() ==> connection_from_gtfs(
                    conns[n0 + k],
                    gtfs_connections@[k],
                    final(routes)@[gtfs_connections@[k].route_idx as int].product_type,
                )
            &&& forall|k: int|
                #![trigger final(routes)@[k]]
                0 <= k < r_old ==> final(routes)@[k].id == old(routes)@[k].id
                    && final(routes)@[k].product_type == old(routes)@[k].product_type
                    && final(routes)@[k].message == old(routes)@[k].message
                    && final(routes)@[k].direction == old(routes)@[k].direction
                    && final(routes)@[k].name@ == route_name_after(old(routes)@[k].name@, gtfs_connections@, k, gtfs_connections@.len() as int)
            &&& forall|k: int|
                #![trigger final(routes)@[k]]
                r_old <= k < final(routes)@.len() ==> final(routes)@[k].id@ == decimal(gtfs_routes@[k - r_old].route_idx as nat)
                    && final(routes)@[k].product_type == gtfs_routes@[k - r_old].clasz
                    && final(routes)@[k].message@.len() == 0
                    && final(routes)@[k].direction@.len() == 0
                    && final(routes)@[k].name@ == route_name_after(Seq::empty(), gtfs_connections@, k, gtfs_connections@.len() as int)
            &&& forall|t: int|
                #![trigger final(stations)@[t]]
                0 <= t < n_old ==> {
                    &&& final(stations)@[t].id == old(stations)@[t].id
                    &&& final(stations)@[t].name == old(stations)@[t].name
                    &&& final(stations)@[t].transfer_time == old(stations)@[t].transfer_time
                    &&& final(stations)@[t].parent_idx == old(stations)@[t].parent_idx
                    &&& final(stations)@[t].footpaths == old(stations)@[t].footpaths
                    &&& exists|x: Seq<usize>|
                        departures_extended(old(stations)@[t].departures@, x, conns, n0, t)
                            && final(stations)@[t].departures@.to_multiset() == x.to_multiset()
                    &&& arrivals_extended(old(stations)@[t].arrivals@, final(stations)@[t].arrivals@, conns, n0, t)
                }
            &&& forall|t: int|
                #![trigger final(stations)@[t]]
                n_old <= t < final(stations)@.len() ==> station_from_location(final(stations)@[t], locations@[t - n_old], conns, n0, t)
            &&& forall|t: int|
                #![trigger final(stations)@[t]]
                0 <= t < final(stations)@.len() ==> forall|a: int, b: int|
                    0 <= a <= b < final(stations)@[t].departures@.len()
                        ==> conns[final(stations)@[t].departures@[a] as int].departure.projected_spec()
                        <= conns[final(stations)@[t].departures@[b] as int].departure.projected_spec()
        }),
        forall|k: int|
            #![trigger final(connections)@[k]]
            old(connections)@.len() <= k < final(connections)@.len() ==> {
                &&& final(connections)@[k].id == k
                &&& final(connections)@[k].departure.delay is None
                &&& final(connections)@[k].arrival.delay is None
                &&& final(stations)@[final(connections)@[k].from_idx as int].departures@.contains(k as usize)
                &&& final(stations)@[final(connections)@[k].to_idx as int].arrivals@.contains(k as usize)
            },
{
    let ghost old_stations = stations@;
    let ghost old_routes = routes@;
    let ghost old_conns = connections@;
    let ghost locs = locations@;
    let n_old = stations.len();
    let n0 = connections.len();
    let r_old = routes.len();
    let mut locations = locations;
    let mut i: usize = 0;
    while i < locations.len()
        invariant
            i <= locs.len(),
            locations@.len() == locs.len(),
            forall|k: int| #![trigger locations@[k]] i <= k < locs.len() ==> locations@[k] == locs[k],
            forall|k: int| #![trigger locations@[k]] 0 <= k < i ==> locations@[k].id == locs[k].id
                && locations@[k].name == locs[k].name,
            n_old == old_stations.len(),
            stations@.len() == n_old + i,
            stations@.subrange(0, n_old as int) == old_stations,
            forall|k: int|
                #![trigger stations@[k]]
                n_old <= k < n_old + i ==> {
                    &&& stations@[k].id == locs[k - n_old].id
                    &&& stations@[k].name == locs[k - n_old].name
                    &&& stations@[k].transfer_time == locs[k - n_old].transfer_time
                    &&& stations@[k].parent_idx == locs[k - n_old].parent_idx
                    &&& stations@[k].footpaths@ == locs[k - n_old].footpaths@
                    &&& stations@[k].departures@.len() == 0
                    &&& stations@[k].arrivals@.len() == 0
                },
        decreases locs.len() - i,
    {
        let ghost before = stations@;
        let ghost lbefore = locations@;
        let mut fps: Vec<Footpath> = Vec::new();
        std::mem::swap(&mut fps, &mut locations[i].footpaths);
        let l = &locations[i];
        stations.push(Station {
            id: l.id.clone(),
            name: l.name.clone(),
            arrivals: Vec::new(),
            departures: Vec::new(),
            transfer_time: l.transfer_time,
            parent_idx: l.parent_idx,
            footpaths: fps,
        });
        proof {
            assert(lbefore[i as int] == locs[i as int]);
            assert(stations@.subrange(0, n_old as int) =~= before.subrange(0, n_old as int));
            assert forall|k: int| #![trigger locations@[k]] i + 1 <= k < locs.len() implies locations@[k] == locs[k] by {
                assert(locations@[k] == lbefore[k]);
            }
            assert forall|k: int| #![trigger locations@[k]] 0 <= k < i + 1 implies locations@[k].id == locs[k].id
                && locations@[k].name == locs[k].name by {
                assert(locations@[k].id == lbefore[k].id);
            }
        }
        i = i + 1;
    }
    let mut r: usize = 0;
    while r < gtfs_routes.len()
        invariant
            r <= gtfs_routes@.len(),
            r_old == old_routes.len(),
            routes@.len() == r_old + r,
            routes@.subrange(0, r_old as int) == old_routes,
            forall|k: int|
                #![trigger routes@[k]]
                r_old <= k < r_old + r ==> routes@[k].id@ == decimal(gtfs_routes@[k - r_old].route_idx as nat)
                    && routes@[k].product_type == gtfs_routes@[k - r_old].clasz
                    && routes@[k].message@.len() == 0
                    && routes@[k].direction@.len() == 0
                    && routes@[k].name@ == Seq::<char>::empty(),
        decreases gtfs_routes@.len() - r,
    {
        let ghost before = routes@;
        routes.push(Route::new(usize_to_string(gtfs_routes[r].route_idx), String::new(), gtfs_routes[r].clasz));
        proof {
            assert(routes@.subrange(0, r_old as int) =~= before.subrange(0, r_old as int));
        }
        r = r + 1;
    }
    let ghost base = stations@;
    let ghost routes_base = routes@;
    proof {
        lemma_registered_start(base, old_conns);
    }
    let mut k: usize = 0;
    while k < gtfs_connections.len()
        invariant
            k <= gtfs_connections@.len(),
            n0 == old_conns.len(),
            n_old == old_stations.len(),
            stations@.len() == base.len(),
            base.len() == n_old + locs.len(),
            routes@.len() == routes_base.len(),
            routes_base.len() == r_old + gtfs_routes@.len(),
            forall|x: int|
                #![trigger gtfs_connections@[x]]
                0 <= x < gtfs_connections@.len() ==> {
                    &&& gtfs_connections@[x].id == old_conns.len() + x
                    &&& gtfs_connections@[x].route_idx < r_old + gtfs_routes@.len()
                    &&& gtfs_connections@[x].from_idx < n_old + locs.len()
                    &&& gtfs_connections@[x].to_idx < n_old + locs.len()
                },
            connections_registered(base, stations@, connections@, n0 as int),
            connections@.len() == n0 + k,
            connections@.subrange(0, n0 as int) == old_conns,
            forall|x: int|
                #![trigger routes@[x]]
                0 <= x < routes@.len() ==> routes@[x].id == routes_base[x].id
                    && routes@[x].product_type == routes_base[x].product_type
                    && routes@[x].message == routes_base[x].message
                    && routes@[x].direction == routes_base[x].direction
                    && routes@[x].name@ == route_name_after(routes_base[x].name@, gtfs_connections@, x, k as int),
            forall|x: int|
                #![trigger gtfs_connections@[x]]
                0 <= x < k ==> connection_from_gtfs(
                    connections@[n0 + x],
                    gtfs_connections@[x],
                    routes_base[gtfs_connections@[x].route_idx as int].product_type,
                ),
        decreases gtfs_connections@.len() - k,
    {
        let c = &gtfs_connections[k];
        let ghost routes_before = routes@;
        let product_type = routes[c.route_idx].product_type;
        let unnamed = routes[c.route_idx].name == String::new();
        proof {
            if routes@[c.route_idx as int].name@.len() == 0 {
                assert(routes@[c.route_idx as int].name@ =~= Seq::<char>::empty());
            }
        }
        if unnamed {
            routes[c.route_idx].name = c.name.clone();
        }
        proof {
            assert forall|x: int|
                #![trigger routes@[x]]
                0 <= x < routes@.len() implies routes@[x].id == routes_base[x].id
                    && routes@[x].product_type == routes_base[x].product_type
                    && routes@[x].message == routes_base[x].message
                    && routes@[x].direction == routes_base[x].direction
                    && routes@[x].name@ == route_name_after(routes_base[x].name@, gtfs_connections@, x, k + 1) by {
                assert(routes_before[x].name@ == route_name_after(routes_base[x].name@, gtfs_connections@, x, k as int));
            }
        }
        let id = connections.len();
        let mut conn = Connection::new(
            id,
            c.route_idx,
            product_type,
            c.trip_id,
            false,
            c.from_idx,
            c.departure,
            None,
            c.to_idx,
            c.arrival,
            None,
        );
        conn.departure.in_out_allowed = c.in_allowed;
        conn.arrival.in_out_allowed = c.out_allowed;
        let ghost st_before = stations@;
        let ghost cb = connections@;
        stations[c.from_idx].departures.push(id);
        stations[c.to_idx].arrivals.push(id);
        proof {
            lemma_registered_push(base, st_before, stations@, cb, conn, n0 as int);
        }
        connections.push(conn);
        proof {
            assert(connections@.subrange(0, n0 as int) =~= cb.subrange(0, n0 as int));
            assert forall|x: int|
                #![trigger gtfs_connections@[x]]
                0 <= x < k + 1 implies connection_from_gtfs(
                    connections@[n0 + x],
                    gtfs_connections@[x],
                    routes_base[gtfs_connections@[x].route_idx as int].product_type,
                ) by {
                if x < k {
                    assert(connections@[n0 + x] == cb[n0 + x]);
                }
            }
        }
        k = k + 1;
    }
    let ghost st_built = stations@;
    proof {
        reveal(connections_registered);
        assert forall|p: int| #![trigger connections@[p]] 0 <= p < connections@.len() implies connections@[p].departure.projection_fits() by {
            if p < n0 {
                assert(connections@[p] == connections@.subrange(0, n0 as int)[p]);
            } else {
                let x = p - n0;
                assert(connection_from_gtfs(connections@[n0 + x], gtfs_connections@[x], routes_base[gtfs_connections@[x].route_idx as int].product_type));
                assert(connections@[n0 + x].departure.projected_spec() == connections@[n0 + x].departure.scheduled);
            }
        }
        assert forall|s: int, x: int|
            #![trigger st_built[s].departures@[x]]
            0 <= s < st_built.len() && 0 <= x < st_built[s].departures@.len() implies st_built[s].departures@[x] < connections@.len() by {
            assert(departures_extended(base[s].departures@, st_built[s].departures@, connections@, n0 as int, s));
            if x < base[s].departures@.len() {
                assert(st_built[s].departures@[x] == st_built[s].departures@.subrange(0, base[s].departures@.len() as int)[x]);
                if s < n_old {
                    assert(base[s] == base.subrange(0, n_old as int)[s]);
                } else {
                    assert(base[s].departures@.len() == 0);
                }
            }
        }
    }
    sort_departures_by_position(stations, connections);
    proof {
        lemma_retrieved_stations(old_stations, base, st_built, stations@, old_conns, connections@, locs);
        let conns = connections@;
        assert forall|k: int|
            #![trigger conns[k]]
            n0 <= k < conns.len() implies {
                &&& conns[k].id == k
                &&& conns[k].departure.delay is None
                &&& conns[k].arrival.delay is None
                &&& stations@[conns[k].from_idx as int].departures@.contains(k as usize)
                &&& stations@[conns[k].to_idx as int].arrivals@.contains(k as usize)
            } by {
            let x = k - n0;
            let g = gtfs_connections@[x];
            assert(connection_from_gtfs(conns[n0 + x], g, routes@[g.route_idx as int].product_type));
            let f = conns[k].from_idx as int;
            let t = conns[k].to_idx as int;
            assert(f < stations@.len() && t < stations@.len());
            if f < n_old {
                let st = stations@[f];
                let xs = choose|xs: Seq<usize>|
                    departures_extended(old_stations[f].departures@, xs, conns, n0 as int, f)
                        && st.departures@.to_multiset() == xs.to_multiset();
                let m = choose|m: int| old_stations[f].departures@.len() <= m < xs.len() && xs[m] == k;
                assert(xs.contains(k as usize));
                assert(xs.to_multiset().count(k as usize) > 0);
                assert(st.departures@.to_multiset().count(k as usize) > 0);
            } else {
                assert(station_from_location(stations@[f], locs[f - n_old], conns, n0 as int, f));
            }
            if t < n_old {
                assert(arrivals_extended(old_stations[t].arrivals@, stations@[t].arrivals@, conns, n0 as int, t));
                let m = choose|m: int| old_stations[t].arrivals@.len() <= m < stations@[t].arrivals@.len() && stations@[t].arrivals@[m] == k;
                assert(stations@[t].arrivals@.contains(k as usize));
            } else {
                assert(station_from_location(stations@[t], locs[t - n_old], conns, n0 as int, t));
                let m = choose|m: int| 0 <= m < stations@[t].arrivals@.len() && stations@[t].arrivals@[m] == k;
                assert(stations@[t].arrivals@.contains(k as usize));
            }
        }
    }
}

/// The largest number of footpaths of any of the first `n` stations.
pub open spec fn max_footpaths(stations: Seq<Station>, n: int) -> int
    decreases n,
{
    if n <= 0 {
        0
    } else {
        let m = max_footpaths(stations, n - 1);
        let l = stations[n - 1].footpaths@.len() as int;
        if m < l { l } else { m }
    }
}

/// Group and position in the group after the first `j` footpaths `fps` of a
/// station have put their targets into group `g`, target of footpath `x` at
/// position `x + 1`.
pub open spec fn assign_members(fps: Seq<Footpath>, j: int, g: usize, grp: Seq<usize>, idx: Seq<usize>) -> (Seq<usize>, Seq<usize>)
    decreases j,
{
    if j <= 0 {
        (grp, idx)
    } else {
        let prev = assign_members(fps, j - 1, g, grp, idx);
        let t = fps[j - 1].target_location_idx as int;
        (prev.0.update(t, g), prev.1.update(t, j as usize))
    }
}

/// Transfer times after the first `j` footpaths `fps` of the station whose
/// row starts at `base` have written their durations at their targets'
/// positions in the group.
pub open spec fn write_footpath_times(fps: Seq<Footpath>, j: int, base: int, idx: Seq<usize>, tt: Seq<u16>) -> Seq<u16>
    decreases j,
{
    if j <= 0 {
        tt
    } else {
        write_footpath_times(fps, j - 1, base, idx, tt).update(base + idx[fps[j - 1].target_location_idx as int], fps[j - 1].duration)
    }
}

/// The group of station `k` when it opens one: its parent, if it has one, else itself.
pub open spec fn own_group(st: Station, k: int) -> usize {
    if st.parent_idx != 0 {
        st.parent_idx
    } else {
        k as usize
    }
}

/// Groups, positions in groups and transfer times after the first `i`
/// stations have been visited, with rows of `g` transfer times: a station
/// whose group is still 0 opens a group with the targets of its footpaths;
/// each station then writes its own transfer time and its footpaths'
/// durations into its row.
pub open spec fn contraction_state(stations: Seq<Station>, g: int, i: int) -> (Seq<usize>, Seq<usize>, Seq<u16>)
    decreases i,
{
    if i <= 0 {
        (
            Seq::new(stations.len(), |x: int| 0usize),
            Seq::new(stations.len(), |x: int| 0usize),
            Seq::new((stations.len() * g) as nat, |x: int| 0u16),
        )
    } else {
        let prev = contraction_state(stations, g, i - 1);
        let k = i - 1;
        let st = stations[k];
        let fps = st.footpaths@;
        let gi = if prev.0[k] == 0 {
            assign_members(fps, fps.len() as int, own_group(st, k), prev.0.update(k, own_group(st, k)), prev.1.update(k, 0usize))
        } else {
            (prev.0, prev.1)
        };
        let tt = write_footpath_times(fps, fps.len() as int, k * g, gi.1, prev.2.update(k * g + gi.1[k], st.transfer_time));
        (gi.0, gi.1, tt)
    }
}

proof fn lemma_max_footpaths(stations: Seq<Station>, n: int)
    requires
        0 <= n <= stations.len(),
    ensures
        forall|k: int| 0 <= k < n ==> #[trigger] stations[k].footpaths@.len() <= max_footpaths(stations, n),
        0 <= max_footpaths(stations, n),
        n > 0 ==> exists|k: int| 0 <= k < n && stations[k].footpaths@.len() == max_footpaths(stations, n),
    decreases n,
{
    if n > 0 {
        lemma_max_footpaths(stations, n - 1);
    }
}

/// Groups each station with the targets of its footpaths (a station not yet
/// in a group opens one, named by its parent or itself, at position 0, its
/// footpaths' targets following in footpath order) and lays out, per
/// station, a row of transfer times indexed by position in the group: the
/// station's own transfer time and its footpaths' durations.
pub fn get_station_contraction(stations: &[Station]) -> (contr: StationContraction)
    requires
        stations@.len() > 0,
        forall|s: int, f: int|
            #![trigger stations@[s].footpaths@[f]]
            0 <= s < stations@.len() && 0 <= f < stations@[s].footpaths@.len()
                ==> stations@[s].footpaths@[f].target_location_idx < stations@.len(),
        stations@.len() * (max_footpaths(stations@, stations@.len() as int) + 1) <= usize::MAX,
    ensures
        contr@.wf(),
        contr@.stop_to_group.len() == stations@.len(),
        contr@.stop_to_group_idx.len() == stations@.len(),
        contr@.transfer_times.len() == stations@.len() * contr@.group_size,
        forall|s: int| 0 <= s < stations@.len() ==> #[trigger] contr@.stop_to_group_idx[s] < contr@.group_size,
        contr@.group_size == max_footpaths(stations@, stations@.len() as int) + 1,
        contr@.stop_to_group == contraction_state(stations@, contr@.group_size as int, stations@.len() as int).0,
        contr@.stop_to_group_idx == contraction_state(stations@, contr@.group_size as int, stations@.len() as int).1,
        contr@.transfer_times == contraction_state(stations@, contr@.group_size as int, stations@.len() as int).2,
        footpath_groups(stations@) ==> forall|s: int|
            #![trigger stations@[s]]
            0 <= s < stations@.len() ==> contr@.transfer_time_spec(s, s) == stations@[s].transfer_time,
        footpath_groups(stations@) ==> forall|s: int, f: int|
            #![trigger fp_target(stations@, s, f)]
            0 <= s < stations@.len() && 0 <= f < stations@[s].footpaths@.len() ==> {
                &&& contr@.transfer_time_spec(s, fp_target(stations@, s, f)) == stations@[s].footpaths@[f].duration
                &&& contr@.stop_to_group[fp_target(stations@, s, f)] == contr@.stop_to_group[s]
            },
{
    let n = stations.len();
    let mut max_fps: usize = 0;
    let mut i: usize = 0;
    while i < n
        invariant
            i <= n,
            n == stations@.len(),
            max_fps == max_footpaths(stations@, i as int),
        decreases n - i,
    {
        if max_fps < stations[i].footpaths.len() {
            max_fps = stations[i].footpaths.len();
        }
        i = i + 1;
    }
    proof {
        lemma_max_footpaths(stations@, n as int);
    }
    assert(n * (max_fps + 1) <= usize::MAX);
    assert(max_fps + 1 <= n * (max_fps + 1)) by (nonlinear_arith)
        requires
            n > 0,
    ;
    let g: usize = max_fps + 1;
    let ghost init = contraction_state(stations@, g as int, 0);
    let mut grp: Vec<usize> = Vec::new();
    let mut idx: Vec<usize> = Vec::new();
    let mut x: usize = 0;
    while x < n
        invariant
            x <= n,
            grp@.len() == x,
            idx@.len() == x,
            forall|y: int| #![trigger grp@[y]] 0 <= y < x ==> grp@[y] == 0,
            forall|y: int| #![trigger idx@[y]] 0 <= y < x ==> idx@[y] == 0,
        decreases n - x,
    {
        grp.push(0);
        idx.push(0);
        x = x + 1;
    }
    let total = n * g;
    let mut tt: Vec<u16> = Vec::new();
    let mut y: usize = 0;
    while y < total
        invariant
            y <= total,
            tt@.len() == y,
            forall|z: int| #![trigger tt@[z]] 0 <= z < y ==> tt@[z] == 0,
        decreases total - y,
    {
        tt.push(0);
        y = y + 1;
    }
    proof {
        assert(grp@ =~= init.0);
        assert(idx@ =~= init.1);
        assert(tt@ =~= init.2);
    }
    let mut i: usize = 0;
    while i < n
        invariant
            i <= n,
            n == stations@.len(),
            g == max_fps + 1,
            max_fps == max_footpaths(stations@, n as int),
            total == n * g,
            forall|k: int| 0 <= k < n ==> #[trigger] stations@[k].footpaths@.len() <= max_fps,
            forall|s: int, f: int|
                #![trigger stations@[s].footpaths@[f]]
                0 <= s < stations@.len() && 0 <= f < stations@[s].footpaths@.len()
                    ==> stations@[s].footpaths@[f].target_location_idx < stations@.len(),
            grp@ == contraction_state(stations@, g as int, i as int).0,
            idx@ == contraction_state(stations@, g as int, i as int).1,
            tt@ == contraction_state(stations@, g as int, i as int).2,
            grp@.len() == n,
            idx@.len() == n,
            tt@.len() == total,
            forall|y: int| #![trigger idx@[y]] 0 <= y < n ==> idx@[y] < g,
        decreases n - i,
    {
        let st = &stations[i];
        let nf = st.footpaths.len();
        if grp[i] == 0 {
            let own = if st.parent_idx != 0 { st.parent_idx } else { i };
            grp.set(i, own);
            idx.set(i, 0);
            let ghost grp0 = grp@;
            let ghost idx0 = idx@;
            let mut j: usize = 0;
            while j < nf
                invariant
                    j <= nf,
                    nf == st.footpaths@.len(),
                    nf <= max_fps,
                    g == max_fps + 1,
                    grp@.len() == n,
                    idx@.len() == n,
                    n == stations@.len(),
                    st == stations@[i as int],
                    i < n,
                    forall|f: int|
                        #![trigger st.footpaths@[f]]
                        0 <= f < nf ==> st.footpaths@[f].target_location_idx < n,
                    (grp@, idx@) == assign_members(st.footpaths@, j as int, own, grp0, idx0),
                    forall|y: int| #![trigger idx@[y]] 0 <= y < n ==> idx@[y] < g,
                decreases nf - j,
            {
                let t = st.footpaths[j].target_location_idx;
                assert(stations@[i as int].footpaths@[j as int].target_location_idx < n);
                grp.set(t, own);
                idx.set(t, j + 1);
                j = j + 1;
            }
        }
        let ghost gi = (grp@, idx@);
        proof {
            assert(i * g + idx@[i as int] < total) by (nonlinear_arith)
                requires
                    i < n,
                    idx@[i as int] < g,
                    total == n * g,
            ;
        }
        tt.set(i * g + idx[i], st.transfer_time);
        let ghost tt0 = tt@;
        let mut j: usize = 0;
        while j < nf
            invariant
                j <= nf,
                nf == st.footpaths@.len(),
                i < n,
                n == stations@.len(),
                st == stations@[i as int],
                total == n * g,
                tt@.len() == total,
                idx@.len() == n,
                forall|f: int|
                    #![trigger st.footpaths@[f]]
                    0 <= f < nf ==> st.footpaths@[f].target_location_idx < n,
                forall|y: int| #![trigger idx@[y]] 0 <= y < n ==> idx@[y] < g,
                tt@ == write_footpath_times(st.footpaths@, j as int, i * g, idx@, tt0),
            decreases nf - j,
        {
            let t = st.footpaths[j].target_location_idx;
            assert(stations@[i as int].footpaths@[j as int].target_location_idx < n);
            assert(idx@[t as int] < g);
            proof {
                assert(i * g + idx@[t as int] < total) by (nonlinear_arith)
                    requires
                        i < n,
                        idx@[t as int] < g,
                        total == n * g,
                ;
            }
            tt.set(i * g + idx[t], st.footpaths[j].duration);
            j = j + 1;
        }
        i = i + 1;
    }
    let contr = StationContraction { stop_to_group: grp, stop_to_group_idx: idx, max_group_size: g, transfer_times: tt };
    proof {
        if footpath_groups(stations@) {
            lemma_contraction_transfer_times(stations@, contr@);
        }
    }
    contr
}

/// One leg of a journey found by the GTFS router: the transport and day it
/// rides, the stops (positions along the transport) where it is boarded and
/// left, the stations it leads from and to, and whether it is walked.
#[derive(Clone, Copy, Debug)]
pub struct JourneyLeg {
    pub transport_idx: usize,
    pub day_idx: u16,
    pub from_stop_idx: u16,
    pub to_stop_idx: u16,
    pub from_location_idx: usize,
    pub to_location_idx: usize,
    pub is_footpath: bool,
}

/// A journey found by the GTFS router.
#[derive(Debug)]
pub struct Journey {
    pub legs: Vec<JourneyLeg>,
}

/// The id of the connection that leg `leg` boards at (`to` false) or leaves
/// at (`to` true), given the id `first` of its transport's first connection.
pub open spec fn leg_connection_id(leg: JourneyLeg, to: bool, first: int) -> int {
    first + if to { leg.to_stop_idx - 1 } else { leg.from_stop_idx as int }
}

/// The position of the connection that a leg of the journey boards at or
/// leaves at.
pub fn resolve_connection_idx(
    journey: &Journey,
    leg_idx: usize,
    to: bool,
    mapping: &HashMap<(usize, u16), usize>,
    order: &[usize],
) -> (p: usize)
    requires
        leg_idx < journey.legs@.len(),
        mapping@.contains_key((journey.legs@[leg_idx as int].transport_idx, journey.legs@[leg_idx as int].day_idx)),
        to ==> journey.legs@[leg_idx as int].to_stop_idx >= 1,
        ({
            let leg = journey.legs@[leg_idx as int];
            leg_connection_id(leg, to, mapping@[(leg.transport_idx, leg.day_idx)] as int) < order@.len()
        }),
    ensures
        ({
            let leg = journey.legs@[leg_idx as int];
            p == order@[leg_connection_id(leg, to, mapping@[(leg.transport_idx, leg.day_idx)] as int)]
        }),
{
    let leg = &journey.legs[leg_idx];
    let first = match lookup_transport_day(mapping, leg.transport_idx, leg.day_idx) {
        Some(v) => v,
        None => 0,
    };
    let stop: usize = if to {
        (leg.to_stop_idx - 1) as usize
    } else {
        leg.from_stop_idx as usize
    };
    let n = order.len();
    assert(first + stop == leg_connection_id(*leg, to, first as int));
    assert(first + stop < n);
    order[first + stop]
}

/// Target of footpath `f` of station `s`.
pub open spec fn fp_target(stations: Seq<Station>, s: int, f: int) -> int {
    stations[s].footpaths@[f].target_location_idx as int
}

/// The stops of the group of station `x`: itself and the targets of its footpaths.
pub open spec fn group_stops(stations: Seq<Station>, x: int) -> Set<int> {
    Set::new(
        |y: int|
            y == x || exists|f: int|
                0 <= f < stations[x].footpaths@.len() && #[trigger] fp_target(stations, x, f) == y,
    )
}

/// The footpaths form groups of stops: every footpath leads to another
/// station, no station lists a target twice, every member of a group lists
/// the same group, and station 0 has no footpaths.
pub open spec fn footpath_groups(stations: Seq<Station>) -> bool {
    &&& stations.len() > 0
    &&& stations[0].footpaths@.len() == 0
    &&& forall|s: int, f: int|
        #![trigger fp_target(stations, s, f)]
        0 <= s < stations.len() && 0 <= f < stations[s].footpaths@.len() ==> {
            &&& 0 <= fp_target(stations, s, f) < stations.len()
            &&& fp_target(stations, s, f) != s
            &&& group_stops(stations, fp_target(stations, s, f)) == group_stops(stations, s)
        }
    &&& forall|s: int, f1: int, f2: int|
        #![trigger fp_target(stations, s, f1), fp_target(stations, s, f2)]
        0 <= s < stations.len() && 0 <= f1 < stations[s].footpaths@.len() && 0 <= f2 < stations[s].footpaths@.len() && f1
            != f2 ==> fp_target(stations, s, f1) != fp_target(stations, s, f2)
}

/// No footpath among the first `j` leads to `x`.
pub open spec fn targets_avoid(fps: Seq<Footpath>, j: int, x: int) -> bool {
    forall|f: int| 0 <= f < j ==> (#[trigger] fps[f]).target_location_idx != x
}

/// Putting the targets of distinct footpaths into a group sets exactly their
/// entries.
proof fn lemma_assign_members(fps: Seq<Footpath>, j: int, g: usize, grp: Seq<usize>, idx: Seq<usize>)
    requires
        0 <= j <= fps.len(),
        fps.len() <= usize::MAX,
        grp.len() == idx.len(),
        forall|f: int| 0 <= f < j ==> (#[trigger] fps[f]).target_location_idx < grp.len(),
        forall|f1: int, f2: int|
            0 <= f1 < j && 0 <= f2 < j && f1 != f2 ==> (#[trigger] fps[f1]).target_location_idx != (#[trigger] fps[f2]).target_location_idx,
    ensures
        assign_members(fps, j, g, grp, idx).0.len() == grp.len(),
        assign_members(fps, j, g, grp, idx).1.len() == grp.len(),
        forall|f: int|
            0 <= f < j ==> assign_members(fps, j, g, grp, idx).0[(#[trigger] fps[f]).target_location_idx as int] == g
                && assign_members(fps, j, g, grp, idx).1[fps[f].target_location_idx as int] == f + 1,
    decreases j,
{
    if j > 0 {
        lemma_assign_members(fps, j - 1, g, grp, idx);
        let t = fps[j - 1].target_location_idx as int;
        let r = assign_members(fps, j, g, grp, idx);
        let prev = assign_members(fps, j - 1, g, grp, idx);
        assert(r == (prev.0.update(t, g), prev.1.update(t, j as usize)));
        assert forall|f: int| 0 <= f < j implies r.0[(#[trigger] fps[f]).target_location_idx as int] == g
            && r.1[fps[f].target_location_idx as int] == f + 1 by {
            if f < j - 1 {
                assert(fps[f].target_location_idx != fps[j - 1].target_location_idx);
            }
        }
    }
}

proof fn lemma_assign_members_other(fps: Seq<Footpath>, j: int, g: usize, grp: Seq<usize>, idx: Seq<usize>, x: int)
    requires
        0 <= j <= fps.len(),
        grp.len() == idx.len(),
        0 <= x < grp.len(),
        forall|f: int| 0 <= f < j ==> (#[trigger] fps[f]).target_location_idx < grp.len(),
        targets_avoid(fps, j, x),
    ensures
        assign_members(fps, j, g, grp, idx).0.len() == grp.len(),
        assign_members(fps, j, g, grp, idx).1.len() == grp.len(),
        assign_members(fps, j, g, grp, idx).0[x] == grp[x],
        assign_members(fps, j, g, grp, idx).1[x] == idx[x],
    decreases j,
{
    if j > 0 {
        assert(fps[j - 1].target_location_idx != x);
        assert(fps[j - 1].target_location_idx < grp.len());
        lemma_assign_members_other(fps, j - 1, g, grp, idx, x);
    }
}

/// Writing the durations of footpaths whose slots are distinct sets exactly
/// those slots.
proof fn lemma_write_footpath_times(fps: Seq<Footpath>, j: int, base: int, idx: Seq<usize>, tt: Seq<u16>)
    requires
        0 <= j <= fps.len(),
        forall|f: int|
            0 <= f < j ==> (#[trigger] fps[f]).target_location_idx < idx.len()
                && 0 <= base + idx[fps[f].target_location_idx as int] < tt.len(),
        forall|f1: int, f2: int|
            0 <= f1 < j && 0 <= f2 < j && f1 != f2 ==> idx[(#[trigger] fps[f1]).target_location_idx as int]
                != idx[(#[trigger] fps[f2]).target_location_idx as int],
    ensures
        write_footpath_times(fps, j, base, idx, tt).len() == tt.len(),
        forall|f: int|
            0 <= f < j ==> write_footpath_times(fps, j, base, idx, tt)[base + idx[(#[trigger] fps[f]).target_location_idx as int]]
                == fps[f].duration,
        forall|y: int|
            0 <= y < tt.len() && (forall|f: int| 0 <= f < j ==> y != base + idx[(#[trigger] fps[f]).target_location_idx as int])
                ==> #[trigger] write_footpath_times(fps, j, base, idx, tt)[y] == tt[y],
    decreases j,
{
    if j > 0 {
        lemma_write_footpath_times(fps, j - 1, base, idx, tt);
        assert(fps[j - 1].target_location_idx < idx.len());
    }
}

/// No stop of the group of `o` comes before `o`.
pub open spec fn is_group_min(stations: Seq<Station>, o: int) -> bool {
    forall|m: int| #[trigger] group_stops(stations, o).contains(m) ==> m >= o
}

/// What the first `i` steps of the contraction have established, with rows
/// of `g` transfer times.
spec fn contraction_inv(stations: Seq<Station>, g: int, i: int) -> bool {
    let st = contraction_state(stations, g, i);
    let n = stations.len() as int;
    &&& st.0.len() == n
    &&& st.1.len() == n
    &&& st.2.len() == n * g
    &&& forall|x: int| #![trigger st.1[x]] 0 <= x < n ==> st.1[x] < g
    // a group none of whose stops was visited is still unassigned
    &&& forall|x: int|
        #![trigger st.0[x]]
        0 <= x < n && (forall|m: int| #[trigger] group_stops(stations, x).contains(m) ==> m >= i) ==> st.0[x] == 0
    // a group with a visited stop is assigned
    &&& forall|x: int, m: int|
        #![trigger st.0[x], group_stops(stations, x).contains(m)]
        0 <= x < n && x != 0 && group_stops(stations, x).contains(m) && m < i ==> st.0[x] != 0
    // the group opened by its first stop: that stop at position 0, its footpaths' targets after it
    &&& forall|o: int| 0 <= o < i && is_group_min(stations, o) ==> #[trigger] opened_entries(stations, st.0, st.1, o)
    // the rows written so far
    &&& forall|r: int| 0 <= r < i ==> #[trigger] row_written(stations, g, st.2, st.1, r)
}

/// The group opened by stop `o`: `o` at position 0, the targets of its
/// footpaths after it, all in `o`'s group.
spec fn opened_entries(stations: Seq<Station>, grp: Seq<usize>, idx: Seq<usize>, o: int) -> bool {
    &&& grp[o] == own_group(stations[o], o)
    &&& idx[o] == 0
    &&& forall|f: int|
        #![trigger fp_target(stations, o, f)]
        0 <= f < stations[o].footpaths@.len() ==> grp[fp_target(stations, o, f)] == own_group(stations[o], o)
            && idx[fp_target(stations, o, f)] == f + 1
}

/// Row `r` holds the transfer time of stop `r` at its own position and each
/// footpath's duration at its target's position.
spec fn row_written(stations: Seq<Station>, g: int, tt: Seq<u16>, idx: Seq<usize>, r: int) -> bool {
    &&& tt[r * g + idx[r]] == stations[r].transfer_time
    &&& forall|f: int|
        #![trigger fp_target(stations, r, f)]
        0 <= f < stations[r].footpaths@.len() ==> tt[r * g + idx[fp_target(stations, r, f)]] == stations[r].footpaths@[f].duration
}

/// A stop of a group has the same group.
proof fn lemma_group_sym(stations: Seq<Station>, x: int, y: int)
    requires
        footpath_groups(stations),
        0 <= x < stations.len(),
        group_stops(stations, x).contains(y),
    ensures
        group_stops(stations, y) == group_stops(stations, x),
        0 <= y < stations.len(),
{
    if y != x {
        let f = choose|f: int| 0 <= f < stations[x].footpaths@.len() && #[trigger] fp_target(stations, x, f) == y;
        assert(fp_target(stations, x, f) == y);
    }
}

/// A set of naturals with an element has a least element.
proof fn lemma_has_min(s: Set<int>, m: int)
    requires
        s.contains(m),
        m >= 0,
    ensures
        exists|o: int| s.contains(o) && o <= m && forall|y: int| #[trigger] s.contains(y) && y >= 0 ==> y >= o,
    decreases m,
{
    if exists|y: int| s.contains(y) && 0 <= y < m {
        let y = choose|y: int| s.contains(y) && 0 <= y < m;
        lemma_has_min(s, y);
    } else {
        assert(forall|y: int| #[trigger] s.contains(y) && y >= 0 ==> y >= m);
    }
}

/// Every stop of a group is a natural below the number of stations.
proof fn lemma_group_in_range(stations: Seq<Station>, x: int, y: int)
    requires
        footpath_groups(stations),
        0 <= x < stations.len(),
        group_stops(stations, x).contains(y),
    ensures
        0 <= y < stations.len(),
{
    lemma_group_sym(stations, x, y);
}

/// Distinct stops of an opened group sit at distinct positions.
proof fn lemma_positions_distinct(stations: Seq<Station>, idx: Seq<usize>, o: int, y1: int, y2: int)
    requires
        0 <= o < stations.len(),
        idx[o] == 0,
        forall|f: int|
            #![trigger fp_target(stations, o, f)]
            0 <= f < stations[o].footpaths@.len() ==> idx[fp_target(stations, o, f)] == f + 1,
        group_stops(stations, o).contains(y1),
        group_stops(stations, o).contains(y2),
        y1 != y2,
    ensures
        idx[y1] != idx[y2],
{
    if y1 != o {
        let f1 = choose|f: int| 0 <= f < stations[o].footpaths@.len() && #[trigger] fp_target(stations, o, f) == y1;
        assert(idx[fp_target(stations, o, f1)] == f1 + 1);
        if y2 != o {
            let f2 = choose|f: int| 0 <= f < stations[o].footpaths@.len() && #[trigger] fp_target(stations, o, f) == y2;
            assert(idx[fp_target(stations, o, f2)] == f2 + 1);
        }
    } else {
        let f2 = choose|f: int| 0 <= f < stations[o].footpaths@.len() && #[trigger] fp_target(stations, o, f) == y2;
        assert(idx[fp_target(stations, o, f2)] == f2 + 1);
    }
}

/// Stops of groups are naturals.
proof fn lemma_group_nonneg(stations: Seq<Station>, x: int, m: int)
    requires
        0 <= x,
        group_stops(stations, x).contains(m),
    ensures
        m >= 0,
{
    if m != x {
        let f = choose|f: int| 0 <= f < stations[x].footpaths@.len() && #[trigger] fp_target(stations, x, f) == m;
        assert(fp_target(stations, x, f) == m);
    }
}

/// Group and position entries after one more step: the group of stop `k`
/// was opened by its least stop `o` (now, if `o` is `k`), whose entries are
/// set; the entries of stops outside that group stay.
proof fn lemma_step_opener(stations: Seq<Station>, g: int, k: int) -> (o: int)
    requires
        footpath_groups(stations),
        0 <= k < stations.len(),
        g == max_footpaths(stations, stations.len() as int) + 1,
        contraction_inv(stations, g, k),
    ensures
        ({
            let n = stations.len() as int;
            let prev = contraction_state(stations, g, k);
            let cur = contraction_state(stations, g, k + 1);
            &&& 0 <= o <= k
            &&& group_stops(stations, o) == group_stops(stations, k)
            &&& is_group_min(stations, o)
            &&& (o == k <==> prev.0[k] == 0)
            &&& (o < k ==> cur.0 == prev.0 && cur.1 == prev.1)
            &&& cur.0.len() == n
            &&& cur.1.len() == n
            &&& forall|x: int|
                #![trigger cur.0[x]]
                #![trigger cur.1[x]]
                0 <= x < n && !group_stops(stations, k).contains(x) ==> cur.0[x] == prev.0[x] && cur.1[x] == prev.1[x]
            &&& cur.0[o] == own_group(stations[o], o)
            &&& cur.1[o] == 0
            &&& forall|f: int|
                #![trigger fp_target(stations, o, f)]
                0 <= f < stations[o].footpaths@.len() ==> cur.0[fp_target(stations, o, f)] == own_group(stations[o], o)
                    && cur.1[fp_target(stations, o, f)] == f + 1
            &&& forall|x: int|
                #[trigger] group_stops(stations, k).contains(x) ==> 0 <= x < n && cur.0[x] == own_group(stations[o], o)
                    && cur.1[x] < g
        }),
{
    let n = stations.len() as int;
    let prev = contraction_state(stations, g, k);
    let st = stations[k];
    let fps = st.footpaths@;
    let nf = fps.len() as int;
    let own = own_group(st, k);
    let opened = prev.0[k] == 0;
    let gi = if opened {
        assign_members(fps, nf, own, prev.0.update(k, own), prev.1.update(k, 0usize))
    } else {
        (prev.0, prev.1)
    };
    let cur = contraction_state(stations, g, k + 1);
    assert(cur.0 == gi.0 && cur.1 == gi.1);
    lemma_max_footpaths(stations, n);
    vstd::std_specs::vec::axiom_spec_len(&stations[k].footpaths);
    assert(group_stops(stations, k).contains(k));
    assert forall|f: int| 0 <= f < nf implies #[trigger] fps[f].target_location_idx == fp_target(stations, k, f)
        && 0 <= fp_target(stations, k, f) < n && fp_target(stations, k, f) != k
        && group_stops(stations, k).contains(fp_target(stations, k, f)) by {
        assert(fp_target(stations, k, f) == fp_target(stations, k, f));
    }
    assert forall|f1: int, f2: int| 0 <= f1 < nf && 0 <= f2 < nf && f1 != f2
        implies (#[trigger] fps[f1]).target_location_idx != (#[trigger] fps[f2]).target_location_idx by {
        assert(fp_target(stations, k, f1) != fp_target(stations, k, f2));
    }
    if opened {
        assert(is_group_min(stations, k)) by {
            assert forall|m: int| #[trigger] group_stops(stations, k).contains(m) implies m >= k by {
                lemma_group_nonneg(stations, k, m);
                if m < k && k != 0 {
                    assert(prev.0[k] != 0);
                }
            }
        }
        lemma_assign_members(fps, nf, own, prev.0.update(k, own), prev.1.update(k, 0usize));
        lemma_assign_members_other(fps, nf, own, prev.0.update(k, own), prev.1.update(k, 0usize), k);
        assert forall|x: int| 0 <= x < n && !group_stops(stations, k).contains(x)
            implies #[trigger] gi.0[x] == prev.0[x] && gi.1[x] == prev.1[x] by {
            assert(targets_avoid(fps, nf, x)) by {
                assert forall|f: int| 0 <= f < nf implies (#[trigger] fps[f]).target_location_idx != x by {
                    assert(group_stops(stations, k).contains(fp_target(stations, k, f)));
                }
            }
            lemma_assign_members_other(fps, nf, own, prev.0.update(k, own), prev.1.update(k, 0usize), x);
        }
    }
    let o: int = if opened {
        k
    } else {
        assert(exists|m: int| #[trigger] group_stops(stations, k).contains(m) && m < k) by {
            if !(exists|m: int| #[trigger] group_stops(stations, k).contains(m) && m < k) {
                assert(forall|m: int| #[trigger] group_stops(stations, k).contains(m) ==> m >= k);
            }
        }
        let m = choose|m: int| #[trigger] group_stops(stations, k).contains(m) && m < k;
        lemma_group_nonneg(stations, k, m);
        lemma_has_min(group_stops(stations, k), m);
        choose|o: int| group_stops(stations, k).contains(o) && o <= m && forall|y: int| #[trigger] group_stops(stations, k).contains(y) && y >= 0 ==> y >= o
    };
    assert(0 <= o <= k && group_stops(stations, k).contains(o)) by {
        if !opened {
            lemma_group_nonneg(stations, k, o);
        }
    }
    lemma_group_sym(stations, k, o);
    assert(is_group_min(stations, o)) by {
        assert forall|m: int| #[trigger] group_stops(stations, o).contains(m) implies m >= o by {
            lemma_group_nonneg(stations, o, m);
        }
    }
    if !opened {
        assert(opened_entries(stations, prev.0, prev.1, o));
    }
    assert(gi.1[o] == 0 && gi.0[o] == own_group(stations[o], o));
    assert forall|f: int| 0 <= f < stations[o].footpaths@.len()
        implies gi.0[#[trigger] fp_target(stations, o, f)] == own_group(stations[o], o) && gi.1[fp_target(stations, o, f)] == f + 1 by {
        if opened {
            assert(fps[f].target_location_idx == fp_target(stations, k, f));
        }
    }
    assert forall|x: int| #[trigger] group_stops(stations, k).contains(x)
        implies 0 <= x < n && gi.0[x] == own_group(stations[o], o) && gi.1[x] < g by {
        lemma_group_in_range(stations, k, x);
        assert(group_stops(stations, o).contains(x));
        if x != o {
            let f = choose|f: int| 0 <= f < stations[o].footpaths@.len() && #[trigger] fp_target(stations, o, f) == x;
            assert(gi.0[fp_target(stations, o, f)] == own_group(stations[o], o));
            assert(stations[o].footpaths@.len() <= g - 1);
        }
    }
    o
}

/// The row of stop `k` after its step, and the rows before it unchanged.
proof fn lemma_step_rows(stations: Seq<Station>, g: int, k: int, o: int)
    requires
        footpath_groups(stations),
        0 <= k < stations.len(),
        g == max_footpaths(stations, stations.len() as int) + 1,
        contraction_inv(stations, g, k),
        ({
            let n = stations.len() as int;
            let prev = contraction_state(stations, g, k);
            let cur = contraction_state(stations, g, k + 1);
            &&& 0 <= o <= k
            &&& group_stops(stations, o) == group_stops(stations, k)
            &&& is_group_min(stations, o)
            &&& (o == k <==> prev.0[k] == 0)
            &&& (o < k ==> cur.0 == prev.0 && cur.1 == prev.1)
            &&& cur.0.len() == n
            &&& cur.1.len() == n
            &&& forall|x: int|
                #![trigger cur.0[x]]
                #![trigger cur.1[x]]
                0 <= x < n && !group_stops(stations, k).contains(x) ==> cur.0[x] == prev.0[x] && cur.1[x] == prev.1[x]
            &&& cur.1[o] == 0
            &&& forall|f: int|
                #![trigger fp_target(stations, o, f)]
                0 <= f < stations[o].footpaths@.len() ==> cur.1[fp_target(stations, o, f)] == f + 1
            &&& forall|x: int| #[trigger] group_stops(stations, k).contains(x) ==> 0 <= x < n && cur.1[x] < g
        }),
    ensures
        ({
            let cur = contraction_state(stations, g, k + 1);
            &&& cur.2.len() == stations.len() * g
            &&& forall|r: int| 0 <= r < k + 1 ==> #[trigger] row_written(stations, g, cur.2, cur.1, r)
        }),
{
    let n = stations.len() as int;
    let prev = contraction_state(stations, g, k);
    let cur = contraction_state(stations, g, k + 1);
    let st = stations[k];
    let fps = st.footpaths@;
    let nf = fps.len() as int;
    let tt0 = prev.2.update(k * g + cur.1[k], st.transfer_time);
    assert(cur.2 == write_footpath_times(fps, nf, k * g, cur.1, tt0));
    assert(group_stops(stations, k).contains(k));
    assert(0 <= k * g + cur.1[k] < n * g) by (nonlinear_arith)
        requires
            0 <= k < n,
            0 <= cur.1[k] < g,
    ;
    assert forall|f: int| 0 <= f < nf implies (#[trigger] fps[f]).target_location_idx < cur.1.len()
        && 0 <= k * g + cur.1[fps[f].target_location_idx as int] < tt0.len()
        && cur.1[fps[f].target_location_idx as int] != cur.1[k] by {
        let t = fp_target(stations, k, f);
        assert(fps[f].target_location_idx == t);
        assert(group_stops(stations, k).contains(t));
        let e = cur.1[t];
        assert(0 <= e < g);
        assert(0 <= k * g + e < n * g) by (nonlinear_arith)
            requires
                0 <= k < n,
                0 <= e < g,
        ;
        lemma_positions_distinct(stations, cur.1, o, t, k);
    }
    assert forall|f1: int, f2: int| 0 <= f1 < nf && 0 <= f2 < nf && f1 != f2
        implies cur.1[(#[trigger] fps[f1]).target_location_idx as int] != cur.1[(#[trigger] fps[f2]).target_location_idx as int] by {
        let t1 = fp_target(stations, k, f1);
        let t2 = fp_target(stations, k, f2);
        assert(fps[f1].target_location_idx == t1 && fps[f2].target_location_idx == t2);
        assert(group_stops(stations, k).contains(t1) && group_stops(stations, k).contains(t2));
        lemma_positions_distinct(stations, cur.1, o, t1, t2);
    }
    lemma_write_footpath_times(fps, nf, k * g, cur.1, tt0);
    assert forall|r: int| 0 <= r < k + 1 implies #[trigger] row_written(stations, g, cur.2, cur.1, r) by {
        if r == k {
            assert forall|f: int|
                #![trigger fp_target(stations, r, f)]
                0 <= f < stations[r].footpaths@.len() implies cur.2[r * g + cur.1[fp_target(stations, r, f)]]
                    == stations[r].footpaths@[f].duration by {
                assert(fps[f].target_location_idx == fp_target(stations, k, f));
            }
        } else {
            // rows before k are untouched, and so are the positions of their stops
            assert(group_stops(stations, r).contains(r));
            assert(!group_stops(stations, k).contains(r) || o < k) by {
                if group_stops(stations, k).contains(r) && o == k {
                    assert(is_group_min(stations, o));
                }
            }
            let same = |x: int| cur.1[x] == prev.1[x];
            assert(same(r)) by {
                if o == k {
                    assert(!group_stops(stations, k).contains(r));
                }
            }
            assert(row_written(stations, g, prev.2, prev.1, r));
            assert(prev.1[r] < g);
            let slot = r * g + prev.1[r];
            assert(0 <= slot < k * g) by (nonlinear_arith)
                requires
                    0 <= r < k,
                    0 <= prev.1[r] < g,
                    slot == r * g + prev.1[r],
            ;
            assert(k * g <= n * g) by (nonlinear_arith)
                requires
                    k < n,
                    g >= 1,
            ;
            assert forall|y: int| 0 <= y < k * g implies #[trigger] cur.2[y] == prev.2[y] by {
                assert forall|f: int| 0 <= f < nf implies y != k * g + cur.1[(#[trigger] fps[f]).target_location_idx as int] by {}
                assert(y != k * g + cur.1[k]);
            }
            assert(cur.2[slot] == prev.2[slot]);
            assert forall|f: int|
                #![trigger fp_target(stations, r, f)]
                0 <= f < stations[r].footpaths@.len() implies cur.2[r * g + cur.1[fp_target(stations, r, f)]]
                    == stations[r].footpaths@[f].duration by {
                let t = fp_target(stations, r, f);
                assert(group_stops(stations, r).contains(t));
                lemma_group_in_range(stations, r, t);
                assert(same(t)) by {
                    if o == k {
                        if group_stops(stations, k).contains(t) {
                            lemma_group_sym(stations, r, t);
                            lemma_group_sym(stations, k, t);
                            assert(group_stops(stations, k).contains(r));
                        }
                    }
                }
                assert(prev.1[t] < g);
                let slot2 = r * g + prev.1[t];
                assert(0 <= slot2 < k * g) by (nonlinear_arith)
                    requires
                        0 <= r < k,
                        0 <= prev.1[t] < g,
                        slot2 == r * g + prev.1[t],
                ;
                assert(cur.2[slot2] == prev.2[slot2]);
            }
        }
    }
}

/// One more step of the contraction keeps what was established.
proof fn lemma_contraction_step(stations: Seq<Station>, g: int, k: int)
    requires
        footpath_groups(stations),
        stations.len() <= usize::MAX,
        0 <= k < stations.len(),
        g == max_footpaths(stations, stations.len() as int) + 1,
        contraction_inv(stations, g, k),
    ensures
        contraction_inv(stations, g, k + 1),
{
    let n = stations.len() as int;
    let prev = contraction_state(stations, g, k);
    let cur = contraction_state(stations, g, k + 1);
    let o = lemma_step_opener(stations, g, k);
    lemma_step_rows(stations, g, k, o);
    assert(group_stops(stations, k).contains(k));
    assert forall|x: int| #![trigger cur.1[x]] 0 <= x < n implies cur.1[x] < g by {
        if !group_stops(stations, k).contains(x) {
            assert(prev.1[x] < g);
        }
    }
    assert forall|x: int|
        #![trigger cur.0[x]]
        0 <= x < n && (forall|m: int| #[trigger] group_stops(stations, x).contains(m) ==> m >= k + 1) implies cur.0[x] == 0 by {
        if group_stops(stations, k).contains(x) {
            lemma_group_sym(stations, k, x);
            assert(group_stops(stations, x).contains(k));
        }
        assert(prev.0[x] == 0);
    }
    assert forall|x: int, m: int|
        #![trigger cur.0[x], group_stops(stations, x).contains(m)]
        0 <= x < n && x != 0 && group_stops(stations, x).contains(m) && m < k + 1 implies cur.0[x] != 0 by {
        if group_stops(stations, k).contains(x) {
            assert(cur.0[x] == own_group(stations[o], o));
            if o == 0 {
                assert(group_stops(stations, o).contains(x));
                assert(!(exists|f: int| 0 <= f < stations[0].footpaths@.len() && #[trigger] fp_target(stations, 0, f) == x));
                assert(x == 0);
            }
        } else {
            assert(cur.0[x] == prev.0[x]);
            if m == k {
                lemma_group_sym(stations, x, k);
                assert(group_stops(stations, x).contains(x));
                assert(group_stops(stations, k).contains(x));
            }
            assert(prev.0[x] != 0);
        }
    }
    assert forall|o2: int| 0 <= o2 < k + 1 && is_group_min(stations, o2) implies #[trigger] opened_entries(stations, cur.0, cur.1, o2) by {
        assert(group_stops(stations, o2).contains(o2));
        if group_stops(stations, k).contains(o2) {
            lemma_group_sym(stations, k, o2);
            assert(group_stops(stations, o2).contains(o));
            assert(group_stops(stations, o).contains(o2));
            assert(o2 == o);
        } else {
            assert(o2 < k);
            assert(opened_entries(stations, prev.0, prev.1, o2));
            assert forall|f: int|
                #![trigger fp_target(stations, o2, f)]
                0 <= f < stations[o2].footpaths@.len() implies cur.0[fp_target(stations, o2, f)] == own_group(stations[o2], o2)
                    && cur.1[fp_target(stations, o2, f)] == f + 1 by {
                let t = fp_target(stations, o2, f);
                assert(group_stops(stations, o2).contains(t));
                lemma_group_in_range(stations, o2, t);
                if group_stops(stations, k).contains(t) {
                    lemma_group_sym(stations, o2, t);
                    lemma_group_sym(stations, k, t);
                    assert(group_stops(stations, k).contains(o2));
                }
            }
        }
    }
}

/// What the first `i` steps of the contraction establish.
proof fn lemma_contraction_upto(stations: Seq<Station>, g: int, i: int)
    requires
        footpath_groups(stations),
        stations.len() <= usize::MAX,
        0 <= i <= stations.len(),
        g == max_footpaths(stations, stations.len() as int) + 1,
    ensures
        contraction_inv(stations, g, i),
    decreases i,
{
    if i == 0 {
        let st = contraction_state(stations, g, 0);
        lemma_max_footpaths(stations, stations.len() as int);
        assert forall|x: int, m: int|
            0 <= x < stations.len() && x != 0 && #[trigger] group_stops(stations, x).contains(m) implies m >= 0 by {
            lemma_group_nonneg(stations, x, m);
        }
        assert(st.2.len() == stations.len() * g);
    } else {
        lemma_contraction_upto(stations, g, i - 1);
        lemma_contraction_step(stations, g, i - 1);
    }
}

/// Where the footpaths form groups of stops (`footpath_groups`), the
/// contraction built by `get_station_contraction` puts the targets of a
/// station's footpaths into the station's group, and `get_transfer_time`
/// gives the station's own transfer time from a station to itself and a
/// footpath's duration from a station to the footpath's target.
pub proof fn lemma_contraction_transfer_times(stations: Seq<Station>, contr: ContractionView)
    requires
        footpath_groups(stations),
        stations.len() <= usize::MAX,
        contr.group_size == max_footpaths(stations, stations.len() as int) + 1,
        contr.stop_to_group == contraction_state(stations, contr.group_size as int, stations.len() as int).0,
        contr.stop_to_group_idx == contraction_state(stations, contr.group_size as int, stations.len() as int).1,
        contr.transfer_times == contraction_state(stations, contr.group_size as int, stations.len() as int).2,
    ensures
        forall|s: int|
            #![trigger stations[s]]
            0 <= s < stations.len() ==> contr.transfer_time_spec(s, s) == stations[s].transfer_time,
        forall|s: int, f: int|
            #![trigger fp_target(stations, s, f)]
            0 <= s < stations.len() && 0 <= f < stations[s].footpaths@.len() ==> {
                &&& contr.transfer_time_spec(s, fp_target(stations, s, f)) == stations[s].footpaths@[f].duration
                &&& contr.stop_to_group[fp_target(stations, s, f)] == contr.stop_to_group[s]
            },
{
    let n = stations.len() as int;
    let g = contr.group_size as int;
    lemma_contraction_upto(stations, g, n);
    let st = contraction_state(stations, g, n);
    assert forall|s: int| #![trigger stations[s]] 0 <= s < n implies contr.transfer_time_spec(s, s) == stations[s].transfer_time by {
        assert(row_written(stations, g, st.2, st.1, s));
    }
    assert forall|s: int, f: int|
        #![trigger fp_target(stations, s, f)]
        0 <= s < n && 0 <= f < stations[s].footpaths@.len() implies {
            &&& contr.transfer_time_spec(s, fp_target(stations, s, f)) == stations[s].footpaths@[f].duration
            &&& contr.stop_to_group[fp_target(stations, s, f)] == contr.stop_to_group[s]
        } by {
        assert(row_written(stations, g, st.2, st.1, s));
        let t = fp_target(stations, s, f);
        assert(group_stops(stations, s).contains(s));
        assert(group_stops(stations, s).contains(t));
        lemma_has_min(group_stops(stations, s), s);
        let o = choose|o: int| group_stops(stations, s).contains(o) && o <= s && forall|y: int| #[trigger] group_stops(stations, s).contains(y) && y >= 0 ==> y >= o;
        lemma_group_nonneg(stations, s, o);
        lemma_group_sym(stations, s, o);
        assert(is_group_min(stations, o)) by {
            assert forall|m: int| #[trigger] group_stops(stations, o).contains(m) implies m >= o by {
                lemma_group_nonneg(stations, o, m);
            }
        }
        assert(opened_entries(stations, st.0, st.1, o));
        assert forall|y: int| #[trigger] group_stops(stations, o).contains(y) implies st.0[y] == own_group(stations[o], o) by {
            if y != o {
                let f2 = choose|f2: int| 0 <= f2 < stations[o].footpaths@.len() && #[trigger] fp_target(stations, o, f2) == y;
                assert(st.0[fp_target(stations, o, f2)] == own_group(stations[o], o));
            }
        }
        assert(st.0[s] == own_group(stations[o], o));
        assert(st.0[t] == own_group(stations[o], o));
    }
}

} // verus!
