use vstd::prelude::*;

use std::collections::HashMap;

use crate::connection::{Connection, Station};
use crate::sorting::{sort_by_keys, sorted_by_keys};

verus! {

broadcast use {
    vstd::std_specs::hash::group_hash_axioms,
    vstd::seq_lib::group_to_multiset_ensures,
    vstd::multiset::group_multiset_axioms,
};

/// The most relevant stations whose connections are paired.
pub const MAX_PAIRED_STATIONS: usize = 1000;

/// The entries that station `s` contributes: the positions of its arriving
/// connections, then those of its departing ones, each with whether it departs.
pub open spec fn station_entries(stations: Seq<Station>, order: Seq<usize>, s: int) -> Seq<(usize, bool)> {
    stations[s].arrivals@.map_values(|a: usize| (order[a as int], false)) + stations[s].departures@.map_values(
        |d: usize| (order[d as int], true),
    )
}

/// The entries of the first `n` of the stations `sel`, station by station.
pub open spec fn selected_entries(stations: Seq<Station>, order: Seq<usize>, sel: Seq<usize>, n: int) -> Seq<(usize, bool)>
    decreases n,
{
    if n <= 0 {
        Seq::empty()
    } else {
        selected_entries(stations, order, sel, n - 1) + station_entries(stations, order, sel[n - 1] as int)
    }
}

/// The trip of an entry.
pub open spec fn trip_fn(connections: Seq<Connection>) -> spec_fn((usize, bool)) -> i32 {
    |e: (usize, bool)| connections[e.0 as int].trip_id
}

/// Keeps the entries of trip `t`.
pub open spec fn trip_is(connections: Seq<Connection>, t: i32) -> spec_fn((usize, bool)) -> bool {
    |e: (usize, bool)| connections[e.0 as int].trip_id == t
}

/// The distinct trips in the order of their first occurrence.
pub open spec fn first_trips(trips: Seq<i32>) -> Seq<i32>
    decreases trips.len(),
{
    if trips.len() == 0 {
        Seq::empty()
    } else {
        let prev = first_trips(trips.drop_last());
        if trips.drop_last().contains(trips.last()) {
            prev
        } else {
            prev.push(trips.last())
        }
    }
}

/// Order of the entries of a trip: by scheduled departure, then by id, a
/// departure before an arrival of the same connection.
pub open spec fn entry_key(connections: Seq<Connection>, e: (usize, bool)) -> int {
    connections[e.0 as int].departure.scheduled * 0x4_0000_0000_0000_0000 + connections[e.0 as int].id * 2 + if e.1 {
        0int
    } else {
        1int
    }
}

/// The pairs (alighting id, boarding id) of the entries `g[i..]`, taken two by two.
pub open spec fn pairs_from(connections: Seq<Connection>, g: Seq<(usize, bool)>, i: int) -> Seq<(i32, i32)>
    decreases g.len() - i,
{
    if 0 <= i && i + 1 < g.len() {
        seq![(connections[g[i + 1].0 as int].id as i32, connections[g[i].0 as int].id as i32)] + pairs_from(connections, g, i + 2)
    } else {
        Seq::empty()
    }
}

/// The pairs of a sorted trip: from its start, or from its second entry
/// where the first is an arrival.
pub open spec fn group_pairs(connections: Seq<Connection>, g: Seq<(usize, bool)>) -> Seq<(i32, i32)> {
    if g.len() == 0 {
        Seq::empty()
    } else {
        pairs_from(connections, g, if !g[0].1 { 1int } else { 0int })
    }
}

/// `g` takes its entries from `base` at the positions `r`, a permutation of
/// the positions of `base`.
pub open spec fn reorders(base: Seq<(usize, bool)>, g: Seq<(usize, bool)>, r: Seq<usize>) -> bool {
    &&& r.len() == base.len()
    &&& r.to_multiset() == Seq::new(base.len(), |i: int| i as usize).to_multiset()
    &&& forall|i: int| #![trigger g[i]] 0 <= i < g.len() ==> r[i] < base.len() && g[i] == base[r[i] as int]
}

/// `g` is `base` reordered by entry key.
pub open spec fn sorted_permutation(connections: Seq<Connection>, base: Seq<(usize, bool)>, g: Seq<(usize, bool)>) -> bool {
    &&& g.len() == base.len()
    &&& exists|r: Seq<usize>| #[trigger] reorders(base, g, r)
    &&& forall|a: int, b: int| 0 <= a <= b < g.len() ==> entry_key(connections, g[a]) <= entry_key(connections, g[b])
}

/// The entries of a trip sorted by entry key.
fn sort_trip(connections: &[Connection], group: &Vec<(usize, bool)>) -> (g: Vec<(usize, bool)>)
    requires
        forall|i: int| #![trigger group@[i]] 0 <= i < group@.len() ==> group@[i].0 < connections@.len(),
    ensures
        sorted_permutation(connections@, group@, g@),
{
    let n = group.len();
    let mut keys: Vec<i128> = Vec::new();
    let mut positions: Vec<usize> = Vec::new();
    let mut i: usize = 0;
    while i < n
        invariant
            i <= n,
            n == group@.len(),
            keys@.len() == i,
            positions@ == Seq::new(i as nat, |x: int| x as usize),
            forall|x: int| #![trigger group@[x]] 0 <= x < group@.len() ==> group@[x].0 < connections@.len(),
            forall|x: int| #![trigger keys@[x]] 0 <= x < i ==> keys@[x] == entry_key(connections@, group@[x]),
        decreases n - i,
    {
        let e = group[i];
        let c = &connections[e.0];
        let flag: i128 = if e.1 { 0 } else { 1 };
        let key: i128 = c.departure.scheduled as i128 * 0x4_0000_0000_0000_0000i128 + c.id as i128 * 2 + flag;
        keys.push(key);
        positions.push(i);
        proof {
            assert(positions@ =~= Seq::new((i + 1) as nat, |x: int| x as usize));
        }
        i = i + 1;
    }
    let ghost pos0 = positions@;
    let r = sort_by_keys(positions, &keys);
    let mut g: Vec<(usize, bool)> = Vec::new();
    let mut k: usize = 0;
    while k < n
        invariant
            k <= n,
            n == group@.len(),
            r@.len() == n,
            keys@.len() == n,
            forall|x: int| 0 <= x < r@.len() ==> r@[x] < n,
            g@.len() == k,
            forall|x: int| #![trigger g@[x]] 0 <= x < k ==> g@[x] == group@[r@[x] as int],
        decreases n - k,
    {
        assert(r@[k as int] < n);
        g.push(group[r[k]]);
        k = k + 1;
    }
    proof {
        assert(r@.to_multiset() == Seq::new(group@.len(), |x: int| x as usize).to_multiset());
        assert(reorders(group@, g@, r@));
        assert forall|a: int, b: int| 0 <= a <= b < g@.len() implies entry_key(connections@, g@[a]) <= entry_key(connections@, g@[b]) by {
            assert(keys@[r@[a] as int] <= keys@[r@[b] as int]);
        }
    }
    g
}

/// Adds an entry to the group of its trip, opening a group for a new trip.
fn insert_entry(
    connections: &[Connection],
    entry: (usize, bool),
    trip_slot: &mut HashMap<i32, usize>,
    trips: &mut Vec<i32>,
    groups: &mut Vec<Vec<(usize, bool)>>,
    Ghost(es): Ghost<Seq<(usize, bool)>>,
)
    requires
        entry.0 < connections@.len(),
        forall|x: int| 0 <= x < es.len() ==> #[trigger] es[x].0 < connections@.len(),
        grouping(connections@, es, *old(trip_slot), old(trips)@, old(groups)@),
    ensures
        grouping(connections@, es.push(entry), *final(trip_slot), final(trips)@, final(groups)@),
{
    let t = connections[entry.0].trip_id;
    let ghost es2 = es.push(entry);
    proof {
        lemma_first_trips_push(es.map_values(trip_fn(connections@)), t);
        assert(es2.map_values(trip_fn(connections@)) =~= es.map_values(trip_fn(connections@)).push(t));
        lemma_first_trips(es.map_values(trip_fn(connections@)));
    }
    match trip_slot.get(&t) {
        Some(s) => {
            let s = *s;
            proof {
                assert(trips@.contains(t));
                let s0 = choose|s0: int| 0 <= s0 < trips@.len() && trips@[s0] == t;
                assert(trip_slot@[trips@[s0]] == s0);
            }
            let ghost groups_before = groups@;
            groups[s].push(entry);
            proof {
                assert forall|g: int| #![trigger groups@[g]] 0 <= g < groups@.len() implies groups@[g]@ == es2.filter(trip_is(connections@, trips@[g])) by {
                    es.lemma_filter_push(entry, trip_is(connections@, trips@[g]));
                    if g != s {
                        assert(groups@[g] == groups_before[g]);
                        assert(trips@[g] != t) by {
                            lemma_first_trips(es.map_values(trip_fn(connections@)));
                        }
                    }
                }
            }
        },
        None => {
            proof {
                assert(!es.map_values(trip_fn(connections@)).contains(t)) by {
                    if es.map_values(trip_fn(connections@)).contains(t) {
                        assert(first_trips(es.map_values(trip_fn(connections@))).contains(t));
                        let s0 = choose|s0: int| 0 <= s0 < trips@.len() && trips@[s0] == t;
                        assert(trip_slot@.contains_key(trips@[s0]));
                    }
                }
                lemma_trip_absent(connections@, es, t);
            }
            let s = trips.len();
            let ghost map_old = trip_slot@;
            let ghost trips_old = trips@;
            let ghost groups_before = groups@;
            trip_slot.insert(t, s);
            trips.push(t);
            let mut first: Vec<(usize, bool)> = Vec::new();
            first.push(entry);
            groups.push(first);
            proof {
                assert forall|g: int| #![trigger groups@[g]] 0 <= g < groups@.len() implies groups@[g]@ == es2.filter(trip_is(connections@, trips@[g])) by {
                    es.lemma_filter_push(entry, trip_is(connections@, trips@[g]));
                    if g < s {
                        assert(groups@[g] == groups_before[g]);
                        assert(trips@[g] == trips_old[g]);
                        assert(trips_old[g] != t) by {
                            assert(first_trips(es.map_values(trip_fn(connections@))).contains(trips_old[g]));
                        }
                    } else {
                        assert(es2.filter(trip_is(connections@, t)) =~= seq![entry]);
                    }
                }
                assert forall|g: int| #![trigger trips@[g]] 0 <= g < trips@.len() implies trip_slot@.contains_key(trips@[g]) && trip_slot@[trips@[g]] == g by {
                    if g < s {
                        assert(trips@[g] == trips_old[g]);
                    }
                }
                assert forall|k: i32| #[trigger] trip_slot@.contains_key(k) implies trips@.contains(k) by {
                    if k == t {
                        assert(trips@[s as int] == k);
                    } else {
                        assert(map_old.contains_key(k));
                        let i0 = choose|i0: int| 0 <= i0 < trips_old.len() && trips_old[i0] == k;
                        assert(trips@[i0] == k);
                    }
                }
            }
        },
    }
}

/// `trips` are the trips of the entries `es` in the order they first occur,
/// `groups[g]` holds the entries of trip `trips[g]` in order, and `trip_slot`
/// maps each of the trips to its position.
pub open spec fn grouping(
    connections: Seq<Connection>,
    es: Seq<(usize, bool)>,
    trip_slot: HashMap<i32, usize>,
    trips: Seq<i32>,
    groups: Seq<Vec<(usize, bool)>>,
) -> bool {
    &&& trips == first_trips(es.map_values(trip_fn(connections)))
    &&& groups.len() == trips.len()
    &&& forall|g: int| #![trigger groups[g]] 0 <= g < groups.len() ==> groups[g]@ == es.filter(trip_is(connections, trips[g]))
    &&& forall|g: int| #![trigger trips[g]] 0 <= g < trips.len() ==> trip_slot@.contains_key(trips[g]) && trip_slot@[trips[g]] == g
    &&& forall|k: i32| #[trigger] trip_slot@.contains_key(k) ==> trips.contains(k)
}

proof fn lemma_first_trips(trips: Seq<i32>)
    ensures
        first_trips(trips).no_duplicates(),
        forall|k: i32| #[trigger] first_trips(trips).contains(k) <==> trips.contains(k),
    decreases trips.len(),
{
    if trips.len() > 0 {
        let prev = trips.drop_last();
        let last = trips.last();
        lemma_first_trips(prev);
        assert(trips =~= prev.push(last));
        let fp = first_trips(prev);
        assert forall|k: i32| trips.contains(k) <==> (prev.contains(k) || k == last) by {
            if trips.contains(k) {
                let i = choose|i: int| 0 <= i < trips.len() && trips[i] == k;
                if i < prev.len() {
                    assert(prev[i] == k);
                }
            }
            if prev.contains(k) {
                let i = choose|i: int| 0 <= i < prev.len() && prev[i] == k;
                assert(trips[i] == k);
            }
            if k == last {
                assert(trips[trips.len() - 1] == k);
            }
        }
        if !prev.contains(last) {
            let f = fp.push(last);
            assert(!fp.contains(last));
            assert forall|k: i32| f.contains(k) <==> (fp.contains(k) || k == last) by {
                if f.contains(k) {
                    let i = choose|i: int| 0 <= i < f.len() && f[i] == k;
                    if i < fp.len() {
                        assert(fp[i] == k);
                    }
                }
                if fp.contains(k) {
                    let i = choose|i: int| 0 <= i < fp.len() && fp[i] == k;
                    assert(f[i] == k);
                }
                if k == last {
                    assert(f[f.len() - 1] == k);
                }
            }
            assert forall|a: int, b: int| 0 <= a < f.len() && 0 <= b < f.len() && a != b implies f[a] != f[b] by {
                if a == fp.len() && b < fp.len() {
                    assert(fp.contains(fp[b]));
                } else if b == fp.len() && a < fp.len() {
                    assert(fp.contains(fp[a]));
                }
            }
        }
    }
}

proof fn lemma_first_trips_push(trips: Seq<i32>, t: i32)
    ensures
        first_trips(trips.push(t)) == if trips.contains(t) { first_trips(trips) } else { first_trips(trips).push(t) },
{
    assert(trips.push(t).drop_last() =~= trips);
}

/// No entry belongs to a trip that none of their trips is.
proof fn lemma_trip_absent(connections: Seq<Connection>, es: Seq<(usize, bool)>, t: i32)
    requires
        !es.map_values(trip_fn(connections)).contains(t),
    ensures
        es.filter(trip_is(connections, t)) == Seq::<(usize, bool)>::empty(),
    decreases es.len(),
{
    reveal(Seq::filter);
    if es.len() > 0 {
        let p = es.drop_last();
        assert(!p.map_values(trip_fn(connections)).contains(t)) by {
            if p.map_values(trip_fn(connections)).contains(t) {
                let i = choose|i: int| 0 <= i < p.map_values(trip_fn(connections)).len() && p.map_values(trip_fn(connections))[i] == t;
                assert(es.map_values(trip_fn(connections))[i] == t);
            }
        }
        lemma_trip_absent(connections, p, t);
        assert(es.map_values(trip_fn(connections))[es.len() - 1] != t);
    }
}

proof fn lemma_sorted_permutation_elements(connections: Seq<Connection>, base: Seq<(usize, bool)>, g: Seq<(usize, bool)>)
    requires
        sorted_permutation(connections, base, g),
    ensures
        forall|x: int| 0 <= x < g.len() ==> #[trigger] base.contains(g[x]),
{
    let r = choose|r: Seq<usize>| #[trigger] reorders(base, g, r);
    assert forall|x: int| 0 <= x < g.len() implies #[trigger] base.contains(g[x]) by {
        assert(g[x] == base[r[x] as int]);
    }
}

/// The pairs of a sorted trip.
pub open spec fn pairs_fn(connections: Seq<Connection>) -> spec_fn(Seq<(usize, bool)>) -> Seq<(i32, i32)> {
    |g: Seq<(usize, bool)>| group_pairs(connections, g)
}

/// Every arrival and departure id of the station names a connection.
pub open spec fn entries_known(st: Station, order: Seq<usize>, n: int) -> bool {
    &&& forall|k: int|
        #![trigger st.arrivals@[k]]
        0 <= k < st.arrivals@.len() ==> st.arrivals@[k] < order.len() && order[st.arrivals@[k] as int] < n
    &&& forall|k: int|
        #![trigger st.departures@[k]]
        0 <= k < st.departures@.len() ==> st.departures@[k] < order.len() && order[st.departures@[k] as int] < n
}

/// `pairs` are the connection pairs of the trips through the first
/// `MAX_PAIRED_STATIONS` stations of `sel`: their entries grouped by trip
/// (trips in the order of first occurrence), each group sorted by entry key,
/// and paired two by two.
pub open spec fn relevant_pairs(
    connections: Seq<Connection>,
    stations: Seq<Station>,
    order: Seq<usize>,
    sel: Seq<usize>,
    pairs: Seq<(i32, i32)>,
) -> bool {
    let n = if sel.len() < MAX_PAIRED_STATIONS { sel.len() as int } else { MAX_PAIRED_STATIONS as int };
    let es = selected_entries(stations, order, sel, n);
    let ts = first_trips(es.map_values(trip_fn(connections)));
    exists|groups: Seq<Seq<(usize, bool)>>|
        #![trigger groups.map_values(pairs_fn(connections))]
        groups.len() == ts.len() && (forall|g: int|
            #![trigger groups[g]]
            0 <= g < groups.len() ==> sorted_permutation(connections, es.filter(trip_is(connections, ts[g])), groups[g]))
            && pairs == groups.map_values(pairs_fn(connections)).flatten()
}

/// Pairs the connections of the trips that pass the most relevant stations:
/// each trip's arrivals and departures at the first `MAX_PAIRED_STATIONS`
/// stations of `station_idxs` (ordered by relevance), sorted by departure,
/// are paired two by two as (alighting id, boarding id).
pub fn relevant_connection_pairs(
    connections: &[Connection],
    stations: &[Station],
    order: &[usize],
    station_idxs: &Vec<usize>,
) -> (pairs: Vec<(i32, i32)>)
    requires
        forall|i: int|
            #![trigger station_idxs@[i]]
            0 <= i < station_idxs@.len() && i < MAX_PAIRED_STATIONS ==> station_idxs@[i] < stations@.len()
                && entries_known(stations@[station_idxs@[i] as int], order@, connections@.len() as int),
    ensures
        relevant_pairs(connections@, stations@, order@, station_idxs@, pairs@),
{
    let n = if station_idxs.len() < MAX_PAIRED_STATIONS { station_idxs.len() } else { MAX_PAIRED_STATIONS };
    let mut trip_slot: HashMap<i32, usize> = HashMap::new();
    let mut trips: Vec<i32> = Vec::new();
    let mut groups: Vec<Vec<(usize, bool)>> = Vec::new();
    let ghost mut es: Seq<(usize, bool)> = Seq::empty();
    proof {
        assert(es.map_values(trip_fn(connections@)) =~= Seq::<i32>::empty());
        assert(grouping(connections@, es, trip_slot, trips@, groups@));
    }
    let mut i: usize = 0;
    while i < n
        invariant
            i <= n,
            n <= station_idxs@.len(),
            n == (if station_idxs@.len() < MAX_PAIRED_STATIONS { station_idxs@.len() as int } else { MAX_PAIRED_STATIONS as int }),
            forall|x: int|
                #![trigger station_idxs@[x]]
                0 <= x < station_idxs@.len() && x < MAX_PAIRED_STATIONS ==> station_idxs@[x] < stations@.len()
                    && entries_known(stations@[station_idxs@[x] as int], order@, connections@.len() as int),
            es == selected_entries(stations@, order@, station_idxs@, i as int),
            forall|x: int| 0 <= x < es.len() ==> #[trigger] es[x].0 < connections@.len(),
            grouping(connections@, es, trip_slot, trips@, groups@),
        decreases n - i,
    {
        let s = station_idxs[i];
        let st = &stations[s];
        let ghost base = es;
        let ghost arr = st.arrivals@.map_values(|a: usize| (order@[a as int], false));
        let ghost dep = st.departures@.map_values(|d: usize| (order@[d as int], true));
        let mut a: usize = 0;
        while a < st.arrivals.len()
            invariant
                a <= st.arrivals@.len(),
                st == stations@[s as int],
                s < stations@.len(),
                arr == st.arrivals@.map_values(|a: usize| (order@[a as int], false)),
                entries_known(*st, order@, connections@.len() as int),
                es == base + arr.take(a as int),
                forall|x: int| 0 <= x < es.len() ==> #[trigger] es[x].0 < connections@.len(),
                grouping(connections@, es, trip_slot, trips@, groups@),
            decreases st.arrivals@.len() - a,
        {
            let id = st.arrivals[a];
            assert(st.arrivals@[a as int] < order@.len());
            let entry = (order[id], false);
            insert_entry(connections, entry, &mut trip_slot, &mut trips, &mut groups, Ghost(es));
            proof {
                assert(base + arr.take(a + 1) =~= (base + arr.take(a as int)).push(entry));
                es = es.push(entry);
            }
            a = a + 1;
        }
        let mut d: usize = 0;
        while d < st.departures.len()
            invariant
                d <= st.departures@.len(),
                st == stations@[s as int],
                s < stations@.len(),
                arr == st.arrivals@.map_values(|a: usize| (order@[a as int], false)),
                dep == st.departures@.map_values(|d: usize| (order@[d as int], true)),
                entries_known(*st, order@, connections@.len() as int),
                es == base + arr + dep.take(d as int),
                forall|x: int| 0 <= x < es.len() ==> #[trigger] es[x].0 < connections@.len(),
                grouping(connections@, es, trip_slot, trips@, groups@),
            decreases st.departures@.len() - d,
        {
            let id = st.departures[d];
            assert(st.departures@[d as int] < order@.len());
            let entry = (order[id], true);
            insert_entry(connections, entry, &mut trip_slot, &mut trips, &mut groups, Ghost(es));
            proof {
                assert(base + arr + dep.take(d + 1) =~= (base + arr + dep.take(d as int)).push(entry));
                es = es.push(entry);
            }
            d = d + 1;
        }
        proof {
            assert(arr.take(arr.len() as int) =~= arr);
            assert(dep.take(dep.len() as int) =~= dep);
            assert(es =~= selected_entries(stations@, order@, station_idxs@, i + 1));
        }
        i = i + 1;
    }
    let mut pairs: Vec<(i32, i32)> = Vec::new();
    let ghost mut sorted: Seq<Seq<(usize, bool)>> = Seq::empty();
    let mut g: usize = 0;
    while g < groups.len()
        invariant
            g <= groups@.len(),
            grouping(connections@, es, trip_slot, trips@, groups@),
            forall|x: int| 0 <= x < es.len() ==> #[trigger] es[x].0 < connections@.len(),
            sorted.len() == g,
            forall|x: int|
                #![trigger sorted[x]]
                0 <= x < g ==> sorted_permutation(connections@, es.filter(trip_is(connections@, trips@[x])), sorted[x]),
            pairs@ == sorted.map_values(pairs_fn(connections@)).flatten(),
        decreases groups@.len() - g,
    {
        proof {
            assert forall|x: int| #![trigger groups@[g as int]@[x]] 0 <= x < groups@[g as int]@.len() implies groups@[g as int]@[x].0 < connections@.len() by {
                let f = es.filter(trip_is(connections@, trips@[g as int]));
                assert(f.contains(f[x]));
                es.lemma_filter_contains_rev(trip_is(connections@, trips@[g as int]), f[x]);
            }
        }
        let sg = sort_trip(connections, &groups[g]);
        let ghost before = pairs@;
        let len = sg.len();
        let mut k: usize = if len > 0 && !sg[0].1 { 1 } else { 0 };
        let ghost k0 = k as int;
        proof {
            lemma_sorted_permutation_elements(connections@, groups@[g as int]@, sg@);
            assert forall|x: int| 0 <= x < sg@.len() implies #[trigger] sg@[x].0 < connections@.len() by {
                assert(groups@[g as int]@.contains(sg@[x]));
                let f = es.filter(trip_is(connections@, trips@[g as int]));
                es.lemma_filter_contains_rev(trip_is(connections@, trips@[g as int]), sg@[x]);
            }
        }
        while k < len && k + 1 < len
            invariant
                len == sg@.len(),
                k <= len || len == 0,
                0 <= k0 <= 1,
                k0 <= k,
                forall|x: int| 0 <= x < sg@.len() ==> #[trigger] sg@[x].0 < connections@.len(),
                pairs@ + pairs_from(connections@, sg@, k as int) == before + pairs_from(connections@, sg@, k0),
            decreases len - k,
        {
            let alight = connections[sg[k + 1].0].id as i32;
            let board = connections[sg[k].0].id as i32;
            proof {
                assert(pairs_from(connections@, sg@, k as int) == seq![(alight, board)] + pairs_from(connections@, sg@, k + 2));
            }
            pairs.push((alight, board));
            proof {
                assert(pairs@ =~= (pairs@.drop_last()).push((alight, board)));
                assert(pairs@ + pairs_from(connections@, sg@, k + 2) =~= pairs@.drop_last() + (seq![(alight, board)] + pairs_from(connections@, sg@, k + 2)));
            }
            k = k + 2;
        }
        proof {
            assert(pairs_from(connections@, sg@, k as int) =~= Seq::<(i32, i32)>::empty());
            assert(pairs@ =~= before + group_pairs(connections@, sg@));
            sorted.map_values(pairs_fn(connections@)).lemma_flatten_push(group_pairs(connections@, sg@));
            assert(sorted.push(sg@).map_values(pairs_fn(connections@)) =~= sorted.map_values(pairs_fn(connections@)).push(group_pairs(connections@, sg@)));
            sorted = sorted.push(sg@);
        }
        g = g + 1;
    }
    proof {
        assert(groups@.len() == trips@.len());
        assert(relevant_pairs(connections@, stations@, order@, station_idxs@, pairs@)) by {
            assert(sorted.len() == first_trips(es.map_values(trip_fn(connections@))).len());
        }
    }
    pairs
}

/// `pair` joins two entries of one trip among `es`: it holds the ids of a
/// connection `a` and of a connection `d` of the same trip that departs no
/// later than `a`.
pub open spec fn joins_trip_entries(connections: Seq<Connection>, es: Seq<(usize, bool)>, pair: (i32, i32)) -> bool {
    exists|ea: (usize, bool), ed: (usize, bool)|
        #![trigger es.contains(ea), es.contains(ed)]
        es.contains(ea) && es.contains(ed) && pair == (
            connections[ea.0 as int].id as i32,
            connections[ed.0 as int].id as i32,
        ) && connections[ea.0 as int].trip_id == connections[ed.0 as int].trip_id
            && connections[ed.0 as int].departure.scheduled <= connections[ea.0 as int].departure.scheduled
}

/// A property of every element of every inner sequence holds of every element
/// of the flattened sequence.
proof fn lemma_flatten_all<A>(s: Seq<Seq<A>>, p: spec_fn(A) -> bool)
    requires
        forall|g: int, j: int| 0 <= g < s.len() && 0 <= j < s[g].len() ==> p(#[trigger] s[g][j]),
    ensures
        forall|q: int| 0 <= q < s.flatten().len() ==> p(#[trigger] s.flatten()[q]),
    decreases s.len(),
{
    if s.len() > 0 {
        let rest = s.drop_first();
        assert forall|g: int, j: int| 0 <= g < rest.len() && 0 <= j < rest[g].len() implies p(#[trigger] rest[g][j]) by {
            assert(rest[g] == s[g + 1]);
        }
        lemma_flatten_all(rest, p);
        assert(s.flatten() == s.first() + rest.flatten());
        assert forall|q: int| 0 <= q < s.flatten().len() implies p(#[trigger] s.flatten()[q]) by {
            if q < s.first().len() {
                assert(s.flatten()[q] == s[0][q]);
            } else {
                assert(s.flatten()[q] == rest.flatten()[q - s.first().len()]);
            }
        }
    }
}

/// The pairs taken two by two from a sorted run of entries of trip `t` in `es`
/// join entries of that trip.
proof fn lemma_pairs_from_join(connections: Seq<Connection>, es: Seq<(usize, bool)>, g: Seq<(usize, bool)>, t: i32, i: int)
    requires
        0 <= i,
        forall|j: int| 0 <= j < g.len() ==> #[trigger] es.contains(g[j]),
        forall|j: int| 0 <= j < g.len() ==> connections[#[trigger] g[j].0 as int].trip_id == t,
        forall|a: int, b: int| 0 <= a <= b < g.len() ==> entry_key(connections, g[a]) <= entry_key(connections, g[b]),
    ensures
        forall|q: int| 0 <= q < pairs_from(connections, g, i).len()
            ==> joins_trip_entries(connections, es, #[trigger] pairs_from(connections, g, i)[q]),
    decreases g.len() - i,
{
    if i + 1 < g.len() {
        let rest = pairs_from(connections, g, i + 2);
        lemma_pairs_from_join(connections, es, g, t, i + 2);
        let ea = g[i + 1];
        let ed = g[i];
        assert(es.contains(ea) && es.contains(ed));
        assert(connections[ea.0 as int].trip_id == t && connections[ed.0 as int].trip_id == t);
        assert(entry_key(connections, ed) <= entry_key(connections, ea));
        assert(connections[ed.0 as int].departure.scheduled <= connections[ea.0 as int].departure.scheduled);
        assert(joins_trip_entries(connections, es, (connections[ea.0 as int].id as i32, connections[ed.0 as int].id as i32)));
        assert(pairs_from(connections, g, i) == seq![(connections[ea.0 as int].id as i32, connections[ed.0 as int].id as i32)] + rest);
        assert forall|q: int| 0 <= q < pairs_from(connections, g, i).len()
            implies joins_trip_entries(connections, es, #[trigger] pairs_from(connections, g, i)[q]) by {
            if q > 0 {
                assert(pairs_from(connections, g, i)[q] == rest[q - 1]);
            }
        }
    }
}

/// Every relevant pair joins two entries of one trip at the most relevant
/// stations: the ids of a connection and of an earlier-or-equal departing
/// connection of the same trip, both arriving at or departing from one of the
/// first `MAX_PAIRED_STATIONS` stations of `sel`.
pub proof fn lemma_relevant_pairs_join_trips(
    connections: Seq<Connection>,
    stations: Seq<Station>,
    order: Seq<usize>,
    sel: Seq<usize>,
    pairs: Seq<(i32, i32)>,
)
    requires
        relevant_pairs(connections, stations, order, sel, pairs),
    ensures
        forall|q: int| 0 <= q < pairs.len() ==> joins_trip_entries(
            connections,
            selected_entries(
                stations,
                order,
                sel,
                if sel.len() < MAX_PAIRED_STATIONS { sel.len() as int } else { MAX_PAIRED_STATIONS as int },
            ),
            #[trigger] pairs[q],
        ),
{
    let n = if sel.len() < MAX_PAIRED_STATIONS { sel.len() as int } else { MAX_PAIRED_STATIONS as int };
    let es = selected_entries(stations, order, sel, n);
    let ts = first_trips(es.map_values(trip_fn(connections)));
    let groups = choose|groups: Seq<Seq<(usize, bool)>>|
        #![trigger groups.map_values(pairs_fn(connections))]
        groups.len() == ts.len() && (forall|g: int|
            #![trigger groups[g]]
            0 <= g < groups.len() ==> sorted_permutation(connections, es.filter(trip_is(connections, ts[g])), groups[g]))
            && pairs == groups.map_values(pairs_fn(connections)).flatten();
    let mp = groups.map_values(pairs_fn(connections));
    let prop = |pair: (i32, i32)| joins_trip_entries(connections, es, pair);
    assert forall|g: int, j: int| 0 <= g < mp.len() && 0 <= j < mp[g].len() implies prop(#[trigger] mp[g][j]) by {
        let pred = trip_is(connections, ts[g]);
        let base = es.filter(pred);
        let gr = groups[g];
        assert(sorted_permutation(connections, base, gr));
        lemma_sorted_permutation_elements(connections, base, gr);
        assert forall|x: int| 0 <= x < gr.len() implies #[trigger] es.contains(gr[x])
            && connections[gr[x].0 as int].trip_id == ts[g] by {
            assert(base.contains(gr[x]));
            let k = choose|k: int| 0 <= k < base.len() && base[k] == gr[x];
            es.lemma_filter_pred(pred, k);
            es.lemma_filter_contains_rev(pred, gr[x]);
        }
        assert(mp[g] == group_pairs(connections, gr));
        if gr.len() > 0 {
            let start: int = if !gr[0].1 { 1 } else { 0 };
            lemma_pairs_from_join(connections, es, gr, ts[g], start);
            assert(mp[g] == pairs_from(connections, gr, start));
            assert(joins_trip_entries(connections, es, pairs_from(connections, gr, start)[j]));
        }
    }
    lemma_flatten_all(mp, prop);
    assert forall|q: int| 0 <= q < pairs.len() implies joins_trip_entries(connections, es, #[trigger] pairs[q]) by {
        assert(prop(mp.flatten()[q]));
    }
}

/// Distinct positions hold connections with distinct ids, each of which fits
/// in an `i32`.
pub open spec fn ids_distinct_i32(connections: Seq<Connection>) -> bool {
    &&& forall|p1: int, p2: int|
        #![trigger connections[p1], connections[p2]]
        0 <= p1 < connections.len() && 0 <= p2 < connections.len() && p1 != p2 ==> connections[p1].id != connections[p2].id
    &&& forall|p: int| #![trigger connections[p]] 0 <= p < connections.len() ==> connections[p].id <= i32::MAX
}

/// No two pairs of `s` board the same connection.
pub open spec fn boards_distinct(s: Seq<(i32, i32)>) -> bool {
    forall|a: int, b: int| #![trigger s[a], s[b]] 0 <= a < s.len() && 0 <= b < s.len() && a != b ==> s[a].1 != s[b].1
}

/// In a run of distinct entries sorted by entry key, entries two or more
/// apart belong to different connections.
proof fn lemma_far_entries_differ(connections: Seq<Connection>, g: Seq<(usize, bool)>, a: int, b: int)
    requires
        g.no_duplicates(),
        forall|j: int| 0 <= j < g.len() ==> #[trigger] g[j].0 < connections.len(),
        forall|x: int, y: int| 0 <= x <= y < g.len() ==> entry_key(connections, g[x]) <= entry_key(connections, g[y]),
        ids_distinct_i32(connections),
        0 <= a,
        a + 2 <= b < g.len(),
    ensures
        connections[g[a].0 as int].id != connections[g[b].0 as int].id,
{
    if connections[g[a].0 as int].id == connections[g[b].0 as int].id {
        let pa = g[a].0 as int;
        let pb = g[b].0 as int;
        assert(connections[pa] == connections[pa] && connections[pb] == connections[pb]);
        assert(pa == pb);
        assert(g[a] != g[b]);
        assert(g[a].1 != g[b].1);
        let c = a + 1;
        let pc = g[c].0 as int;
        let ka = entry_key(connections, g[a]);
        let kb = entry_key(connections, g[b]);
        let kc = entry_key(connections, g[c]);
        assert(ka <= kc && kc <= kb);
        assert(ka <= kb);
        assert(g[a].1 && !g[b].1);
        let s0 = connections[pa].departure.scheduled;
        let sc = connections[pc].departure.scheduled;
        let ida = connections[pa].id;
        let idc = connections[pc].id;
        assert(ka == s0 * 0x4_0000_0000_0000_0000 + ida * 2);
        assert(kb == ka + 1);
        let fc: int = if g[c].1 { 0 } else { 1 };
        assert(kc == sc * 0x4_0000_0000_0000_0000 + idc * 2 + fc);
        assert(sc == s0) by {
            if sc > s0 {
                assert(sc * 0x4_0000_0000_0000_0000 >= s0 * 0x4_0000_0000_0000_0000 + 0x4_0000_0000_0000_0000);
            } else if sc < s0 {
                assert(sc * 0x4_0000_0000_0000_0000 + 0x4_0000_0000_0000_0000 <= s0 * 0x4_0000_0000_0000_0000);
            }
        }
        assert(idc == ida);
        assert(connections[pc] == connections[pc]);
        assert(pc == pa);
        if g[c].1 {
            assert(g[c] == g[a]);
        } else {
            assert(g[c] == g[b]);
        }
    }
}

/// The pairs taken two by two from a sorted run of distinct entries board
/// distinct connections, each that of an entry from `i` on.
proof fn lemma_pairs_from_boards(connections: Seq<Connection>, g: Seq<(usize, bool)>, i: int)
    requires
        0 <= i,
        g.no_duplicates(),
        forall|j: int| 0 <= j < g.len() ==> #[trigger] g[j].0 < connections.len(),
        forall|x: int, y: int| 0 <= x <= y < g.len() ==> entry_key(connections, g[x]) <= entry_key(connections, g[y]),
        ids_distinct_i32(connections),
    ensures
        boards_distinct(pairs_from(connections, g, i)),
        forall|q: int| 0 <= q < pairs_from(connections, g, i).len() ==> exists|j: int|
            i <= j < g.len() && #[trigger] pairs_from(connections, g, i)[q].1 == connections[g[j].0 as int].id as i32,
    decreases g.len() - i,
{
    if i + 1 < g.len() {
        let rest = pairs_from(connections, g, i + 2);
        lemma_pairs_from_boards(connections, g, i + 2);
        let first = (connections[g[i + 1].0 as int].id as i32, connections[g[i].0 as int].id as i32);
        let pf = pairs_from(connections, g, i);
        assert(pf == seq![first] + rest);
        assert forall|q: int| 0 <= q < rest.len() implies #[trigger] rest[q].1 != first.1 by {
            let j = choose|j: int| i + 2 <= j < g.len() && #[trigger] rest[q].1 == connections[g[j].0 as int].id as i32;
            lemma_far_entries_differ(connections, g, i, j);
            let pi = g[i].0 as int;
            let pj = g[j].0 as int;
            assert(connections[pi].id <= i32::MAX && connections[pj].id <= i32::MAX);
        }
        assert forall|a: int, b: int| #![trigger pf[a], pf[b]] 0 <= a < pf.len() && 0 <= b < pf.len() && a != b implies pf[a].1 != pf[b].1 by {
            if a == 0 {
                assert(pf[b] == rest[b - 1]);
            } else if b == 0 {
                assert(pf[a] == rest[a - 1]);
            } else {
                assert(pf[a] == rest[a - 1] && pf[b] == rest[b - 1]);
            }
        }
        assert forall|q: int| 0 <= q < pf.len() implies exists|j: int|
            i <= j < g.len() && #[trigger] pf[q].1 == connections[g[j].0 as int].id as i32 by {
            if q == 0 {
                assert(pf[0].1 == connections[g[i].0 as int].id as i32);
            } else {
                assert(pf[q] == rest[q - 1]);
                let j = choose|j: int| i + 2 <= j < g.len() && #[trigger] rest[q - 1].1 == connections[g[j].0 as int].id as i32;
                assert(pf[q].1 == connections[g[j].0 as int].id as i32);
            }
        }
    }
}

/// The entries of the stations whose connections are paired: the first
/// `MAX_PAIRED_STATIONS` of `sel`.
pub open spec fn paired_entries(stations: Seq<Station>, order: Seq<usize>, sel: Seq<usize>) -> Seq<(usize, bool)> {
    selected_entries(
        stations,
        order,
        sel,
        if sel.len() < MAX_PAIRED_STATIONS { sel.len() as int } else { MAX_PAIRED_STATIONS as int },
    )
}

/// Every pair of `s` boards a connection of trip `t`.
pub open spec fn boards_of_trip(connections: Seq<Connection>, s: Seq<(i32, i32)>, t: i32) -> bool {
    forall|q: int| #![trigger s[q]] 0 <= q < s.len() ==> exists|p: int|
        #![trigger connections[p]]
        0 <= p < connections.len() && connections[p].trip_id == t && s[q].1 == connections[p].id as i32
}

/// Sequences that each board distinct connections, and board no connection
/// that another of them boards, flatten into one that boards distinct connections.
proof fn lemma_flatten_boards(s: Seq<Seq<(i32, i32)>>)
    requires
        forall|g: int| 0 <= g < s.len() ==> boards_distinct(#[trigger] s[g]),
        forall|g1: int, g2: int, j1: int, j2: int|
            0 <= g1 < s.len() && 0 <= g2 < s.len() && g1 != g2 && 0 <= j1 < s[g1].len() && 0 <= j2 < s[g2].len()
                ==> #[trigger] s[g1][j1].1 != #[trigger] s[g2][j2].1,
    ensures
        boards_distinct(s.flatten()),
    decreases s.len(),
{
    if s.len() > 0 {
        let rest = s.drop_first();
        let f0 = s[0];
        assert forall|g: int| 0 <= g < rest.len() implies boards_distinct(#[trigger] rest[g]) by {
            assert(rest[g] == s[g + 1]);
        }
        assert forall|g1: int, g2: int, j1: int, j2: int|
            0 <= g1 < rest.len() && 0 <= g2 < rest.len() && g1 != g2 && 0 <= j1 < rest[g1].len() && 0 <= j2 < rest[g2].len()
                implies #[trigger] rest[g1][j1].1 != #[trigger] rest[g2][j2].1 by {
            assert(rest[g1] == s[g1 + 1] && rest[g2] == s[g2 + 1]);
            assert(s[g1 + 1][j1].1 != s[g2 + 1][j2].1);
        }
        lemma_flatten_boards(rest);
        let other = |x: (i32, i32)| forall|j: int| 0 <= j < f0.len() ==> #[trigger] f0[j].1 != x.1;
        assert forall|g: int, j: int| 0 <= g < rest.len() && 0 <= j < rest[g].len() implies other(#[trigger] rest[g][j]) by {
            assert(rest[g] == s[g + 1]);
            assert forall|jj: int| 0 <= jj < f0.len() implies #[trigger] f0[jj].1 != rest[g][j].1 by {
                assert(s[0][jj].1 != s[g + 1][j].1);
            }
        }
        lemma_flatten_all(rest, other);
        let rf = rest.flatten();
        let fl = s.flatten();
        assert(fl == f0 + rf);
        assert forall|a: int, b: int| #![trigger fl[a], fl[b]] 0 <= a < fl.len() && 0 <= b < fl.len() && a != b implies fl[a].1 != fl[b].1 by {
            let n0 = f0.len() as int;
            if a < n0 && b < n0 {
                assert(fl[a] == f0[a] && fl[b] == f0[b]);
                assert(f0[a].1 != f0[b].1);
            } else if a >= n0 && b >= n0 {
                assert(fl[a] == rf[a - n0] && fl[b] == rf[b - n0]);
                assert(rf[a - n0].1 != rf[b - n0].1);
            } else if a < n0 {
                assert(fl[a] == f0[a] && fl[b] == rf[b - n0]);
                assert(other(rf[b - n0]));
                assert(f0[a].1 != rf[b - n0].1);
            } else {
                assert(fl[b] == f0[b] && fl[a] == rf[a - n0]);
                assert(other(rf[a - n0]));
                assert(f0[b].1 != rf[a - n0].1);
            }
        }
    }
}

/// No two relevant pairs board the same connection, where no arrival or
/// departure is listed twice among the most relevant stations (and they can
/// be counted in a `usize`), each of them names a connection, and distinct
/// connections have distinct ids that fit in an `i32`.
pub proof fn lemma_relevant_pairs_board_once(
    connections: Seq<Connection>,
    stations: Seq<Station>,
    order: Seq<usize>,
    sel: Seq<usize>,
    pairs: Seq<(i32, i32)>,
)
    requires
        relevant_pairs(connections, stations, order, sel, pairs),
        ids_distinct_i32(connections),
        paired_entries(stations, order, sel).no_duplicates(),
        paired_entries(stations, order, sel).len() <= usize::MAX,
        forall|k: int|
            0 <= k < paired_entries(stations, order, sel).len() ==> #[trigger] paired_entries(stations, order, sel)[k].0
                < connections.len(),
    ensures
        boards_distinct(pairs),
{
    let n = if sel.len() < MAX_PAIRED_STATIONS { sel.len() as int } else { MAX_PAIRED_STATIONS as int };
    let es = selected_entries(stations, order, sel, n);
    let trips = es.map_values(trip_fn(connections));
    let ts = first_trips(trips);
    let groups = choose|groups: Seq<Seq<(usize, bool)>>|
        #![trigger groups.map_values(pairs_fn(connections))]
        groups.len() == ts.len() && (forall|g: int|
            #![trigger groups[g]]
            0 <= g < groups.len() ==> sorted_permutation(connections, es.filter(trip_is(connections, ts[g])), groups[g]))
            && pairs == groups.map_values(pairs_fn(connections)).flatten();
    let mp = groups.map_values(pairs_fn(connections));
    lemma_first_trips(trips);
    assert forall|g: int| 0 <= g < mp.len() implies boards_distinct(#[trigger] mp[g]) && boards_of_trip(connections, mp[g], ts[g]) by {
        let pred = trip_is(connections, ts[g]);
        let base = es.filter(pred);
        let gr = groups[g];
        assert(sorted_permutation(connections, base, gr));
        crate::wire::serde::lemma_filter_no_duplicates(es, pred);
        let r = choose|r: Seq<usize>| #[trigger] reorders(base, gr, r);
        let range = Seq::new(base.len(), |i: int| i as usize);
        es.lemma_filter_len(pred);
        assert(range.no_duplicates()) by {
            assert forall|a: int, b: int| 0 <= a < range.len() && 0 <= b < range.len() && a != b implies range[a] != range[b] by {
                assert(range[a] == a && range[b] == b);
            }
        }
        range.lemma_multiset_has_no_duplicates();
        r.lemma_multiset_has_no_duplicates_conv();
        assert(gr.no_duplicates()) by {
            assert forall|a: int, b: int| 0 <= a < gr.len() && 0 <= b < gr.len() && a != b implies gr[a] != gr[b] by {
                assert(gr[a] == base[r[a] as int] && gr[b] == base[r[b] as int]);
                assert(r[a] != r[b]);
            }
        }
        assert forall|j: int| 0 <= j < gr.len() implies #[trigger] gr[j].0 < connections.len()
            && connections[gr[j].0 as int].trip_id == ts[g] by {
            assert(gr[j] == base[r[j] as int]);
            assert(base.contains(gr[j]));
            assert(es.contains(gr[j]) && pred(gr[j]));
            let k = choose|k: int| 0 <= k < es.len() && es[k] == gr[j];
            assert(es[k].0 < connections.len());
        }
        assert(mp[g] == group_pairs(connections, gr));
        if gr.len() > 0 {
            let start: int = if !gr[0].1 { 1 } else { 0 };
            lemma_pairs_from_boards(connections, gr, start);
            assert(mp[g] == pairs_from(connections, gr, start));
            assert forall|q: int| #![trigger mp[g][q]] 0 <= q < mp[g].len() implies exists|p: int|
                #![trigger connections[p]]
                0 <= p < connections.len() && connections[p].trip_id == ts[g] && mp[g][q].1 == connections[p].id as i32 by {
                let j = choose|j: int| start <= j < gr.len() && #[trigger] pairs_from(connections, gr, start)[q].1 == connections[gr[j].0 as int].id as i32;
                let p = gr[j].0 as int;
                assert(connections[p].trip_id == ts[g]);
            }
        } else {
            assert(mp[g] =~= Seq::<(i32, i32)>::empty());
        }
    }
    assert forall|g1: int, g2: int, j1: int, j2: int|
        0 <= g1 < mp.len() && 0 <= g2 < mp.len() && g1 != g2 && 0 <= j1 < mp[g1].len() && 0 <= j2 < mp[g2].len()
            implies #[trigger] mp[g1][j1].1 != #[trigger] mp[g2][j2].1 by {
        assert(boards_of_trip(connections, mp[g1], ts[g1]));
        assert(boards_of_trip(connections, mp[g2], ts[g2]));
        let p1 = choose|p: int| #![trigger connections[p]] 0 <= p < connections.len() && connections[p].trip_id == ts[g1] && mp[g1][j1].1 == connections[p].id as i32;
        let p2 = choose|p: int| #![trigger connections[p]] 0 <= p < connections.len() && connections[p].trip_id == ts[g2] && mp[g2][j2].1 == connections[p].id as i32;
        assert(ts[g1] != ts[g2]);
        if mp[g1][j1].1 == mp[g2][j2].1 {
            assert(connections[p1].id <= i32::MAX && connections[p2].id <= i32::MAX);
            assert(connections[p1].id == connections[p2].id);
            assert(p1 == p2);
        }
    }
    lemma_flatten_boards(mp);
}

} // verus!
