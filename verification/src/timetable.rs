use vstd::prelude::*;

use crate::connection::{Connection, Station};

verus! {

/// Every departure and arrival id of every station names a connection, and
/// every footpath leads to a station.
pub open spec fn stations_wf(stations: Seq<Station>, n_connections: int) -> bool {
    &&& forall|s: int, k: int|
        #![trigger stations[s].departures@[k]]
        0 <= s < stations.len() && 0 <= k < stations[s].departures@.len()
            ==> stations[s].departures@[k] < n_connections
    &&& forall|s: int, k: int|
        #![trigger stations[s].arrivals@[k]]
        0 <= s < stations.len() && 0 <= k < stations[s].arrivals@.len()
            ==> stations[s].arrivals@[k] < n_connections
    &&& forall|s: int, f: int|
        #![trigger stations[s].footpaths@[f]]
        0 <= s < stations.len() && 0 <= f < stations[s].footpaths@.len()
            ==> stations[s].footpaths@[f].target_location_idx < stations.len()
}

/// Every connection runs between stations of the timetable.
pub open spec fn connections_wf(connections: Seq<Connection>, n_stations: int) -> bool {
    forall|p: int|
        #![trigger connections[p]]
        0 <= p < connections.len() ==> {
            &&& connections[p].from_idx < n_stations
            &&& connections[p].to_idx < n_stations
        }
}

/// `order` maps each connection id to the position of that connection, and the
/// ids are exactly `0..n`.
pub open spec fn order_wf(connections: Seq<Connection>, order: Seq<usize>) -> bool {
    &&& order.len() == connections.len()
    &&& forall|p: int|
        #![trigger connections[p]]
        0 <= p < connections.len() ==> connections[p].id < order.len() && order[connections[p].id as int] == p
    &&& forall|id: int|
        #![trigger order[id]]
        0 <= id < order.len() ==> order[id] < connections.len() && connections[order[id] as int].id == id
}

/// The timetable is consistent: stations, connections and the id-to-position map agree.
pub open spec fn timetable_wf(connections: Seq<Connection>, stations: Seq<Station>, order: Seq<usize>) -> bool {
    &&& connections_wf(connections, stations.len() as int)
    &&& stations_wf(stations, connections.len() as int)
    &&& order_wf(connections, order)
}

/// A sequence of distinct values below `n` has at most `n` elements.
pub proof fn lemma_distinct_bounded(s: Seq<usize>, n: nat)
    requires
        s.no_duplicates(),
        n <= usize::MAX,
        forall|i: int| 0 <= i < s.len() ==> s[i] < n,
    ensures
        s.len() <= n,
{
    let r = Seq::new(n, |i: int| i as usize);
    assert forall|i: int, j: int| 0 <= i < r.len() && 0 <= j < r.len() && i != j implies r[i] != r[j] by {
        assert(r[i] == i);
        assert(r[j] == j);
    }
    s.unique_seq_to_set();
    r.unique_seq_to_set();
    assert forall|x: usize| s.to_set().contains(x) implies r.to_set().contains(x) by {
        let k = choose|k: int| 0 <= k < s.len() && s[k] == x;
        assert(r[x as int] == x);
    }
    vstd::seq_lib::seq_to_set_is_finite(r);
    vstd::set_lib::lemma_len_subset(s.to_set(), r.to_set());
}

} // verus!
