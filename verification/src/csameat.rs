use vstd::prelude::*;

use rustc_hash::FxHashSet;

use crate::connection::Connection;
use crate::cut::{cut_clear, cut_insert};
use crate::sorting::sort_by_keys;
use crate::timetable::order_wf;

verus! {

broadcast use {vstd::seq_lib::group_to_multiset_ensures, vstd::multiset::group_multiset_axioms};

/// Sort key that puts later departures first, and among equal departures the
/// larger id first.
pub open spec fn latest_first_key(c: Connection) -> int {
    -(c.departure.projected_spec() * 0x1_0000_0000_0000_0000 + c.id)
}

/// Ordering by `latest_first_key` puts the later projected departure first,
/// and among equal projected departures the larger id.
pub proof fn lemma_latest_first_order(a: Connection, b: Connection)
    requires
        latest_first_key(a) <= latest_first_key(b),
    ensures
        a.departure.projected_spec() > b.departure.projected_spec() || (a.departure.projected_spec()
            == b.departure.projected_spec() && a.id >= b.id),
{
    let pa = a.departure.projected_spec();
    let pb = b.departure.projected_spec();
    if pa < pb {
        assert(pa * 0x1_0000_0000_0000_0000 + 0x1_0000_0000_0000_0000 <= pb * 0x1_0000_0000_0000_0000);
    }
}

/// Number of trip labels the scan needs: one more than the largest trip id
/// (each id taken as `usize`), computed over the first `k` connections.
pub open spec fn trip_count(cs: Seq<Connection>, k: int) -> usize
    decreases k,
{
    if k <= 0 {
        0
    } else {
        let prev = trip_count(cs, k - 1);
        let t = cs[k - 1].trip_id;
        if prev <= t as usize {
            (t + 1) as usize
        } else {
            prev
        }
    }
}

/// Preprocessing of the connection scan for the minimum expected arrival time:
/// the connections are sorted by descending projected departure (ties by
/// descending id), `order` maps each id to its new position, and the number of
/// trips is left as the single element `(number_of_trips, 0)` of `number_of_trips`.
pub fn preprocess(
    connections: &mut Vec<Connection>,
    order: &mut Vec<usize>,
    number_of_trips: &mut FxHashSet<(usize, usize)>,
)
    requires
        order_wf(old(connections)@, old(order)@),
        forall|p: int| 0 <= p < old(connections)@.len() ==> (#[trigger] old(connections)@[p]).departure.projection_fits()
            && old(connections)@[p].trip_id < i32::MAX,
    ensures
        order_wf(final(connections)@, final(order)@),
        forall|id: int|
            0 <= id < final(order)@.len() ==> final(connections)@[final(order)@[id] as int]
                == old(connections)@[old(order)@[id] as int],
        forall|i: int, j: int|
            0 <= i <= j < final(connections)@.len() ==> latest_first_key(final(connections)@[i])
                <= latest_first_key(final(connections)@[j]),
        forall|i: int, j: int|
            0 <= i <= j < final(connections)@.len() ==> final(connections)@[i].departure.projected_spec()
                > final(connections)@[j].departure.projected_spec() || (final(connections)@[i].departure.projected_spec()
                == final(connections)@[j].departure.projected_spec() && final(connections)@[i].id >= final(connections)@[j].id),
        final(number_of_trips)@ == Set::<(usize, usize)>::empty().insert(
            (trip_count(final(connections)@, final(connections)@.len() as int), 0usize),
        ),
{
    let n = connections.len();
    let mut keys: Vec<i128> = Vec::new();
    let mut idxs: Vec<usize> = Vec::new();
    let mut p: usize = 0;
    while p < n
        invariant
            n == connections.len(),
            p <= n,
            order_wf(connections@, order@),
            forall|q: int| 0 <= q < n ==> (#[trigger] connections@[q]).departure.projection_fits(),
            keys@.len() == p,
            idxs@.len() == p,
            forall|k: int| #![trigger idxs@[k]] 0 <= k < p ==> idxs@[k] == k && keys@[k] == latest_first_key(connections@[k]),
        decreases n - p,
    {
        assert(connections@[p as int].departure.projection_fits());
        let proj = connections[p].departure.projected() as i128;
        keys.push(-(proj * 0x1_0000_0000_0000_0000i128 + connections[p].id as i128));
        idxs.push(p);
        p = p + 1;
    }
    let ghost idxs_v = idxs@;
    assert forall|k: int| 0 <= k < n implies #[trigger] keys@[k] == latest_first_key(connections@[k]) && idxs_v[k] == k by {
        assert(idxs@[k] == k);
    }
    let perm = sort_by_keys(idxs, &keys);
    proof {
        assert(idxs_v.no_duplicates());
        idxs_v.lemma_multiset_has_no_duplicates();
        perm@.lemma_multiset_has_no_duplicates_conv();
    }
    let mut new_connections: Vec<Connection> = Vec::new();
    let mut k: usize = 0;
    while k < n
        invariant
            n == connections.len(),
            k <= n,
            perm@.len() == n,
            forall|j: int| #![trigger perm@[j]] 0 <= j < n ==> perm@[j] < n,
            new_connections@.len() == k,
            forall|j: int| #![trigger new_connections@[j]] 0 <= j < k ==> new_connections@[j] == connections@[perm@[j] as int],
        decreases n - k,
    {
        new_connections.push(connections[perm[k]].clone());
        k = k + 1;
    }
    let mut new_order: Vec<usize> = Vec::new();
    let mut id: usize = 0;
    while id < n
        invariant
            id <= n,
            new_order@.len() == id,
        decreases n - id,
    {
        new_order.push(0);
        id = id + 1;
    }
    let mut trips: usize = 0;
    let mut k: usize = 0;
    while k < n
        invariant
            n == connections.len(),
            k <= n,
            order_wf(connections@, order@),
            perm@.len() == n,
            perm@.no_duplicates(),
            forall|j: int| #![trigger perm@[j]] 0 <= j < n ==> perm@[j] < n,
            new_connections@.len() == n,
            forall|j: int| #![trigger new_connections@[j]] 0 <= j < n ==> new_connections@[j] == connections@[perm@[j] as int],
            forall|p: int| 0 <= p < n ==> (#[trigger] connections@[p]).trip_id < i32::MAX,
            new_order@.len() == n,
            forall|j: int| #![trigger new_connections@[j]] 0 <= j < k ==> new_order@[new_connections@[j].id as int] == j,
            trips == trip_count(new_connections@, k as int),
        decreases n - k,
    {
        let c = &new_connections[k];
        assert(connections@[perm@[k as int] as int].id < n);
        let ghost before = new_order@;
        new_order.set(c.id, k);
        assert forall|j: int| #![trigger new_connections@[j]] 0 <= j < k + 1 implies new_order@[new_connections@[j].id as int] == j by {
            if j < k {
                assert(perm@[j] != perm@[k as int]);
                assert(connections@[perm@[j] as int].id != connections@[perm@[k as int] as int].id);
            }
        }
        assert(connections@[perm@[k as int] as int].trip_id < i32::MAX);
        if trips <= c.trip_id as usize {
            trips = (c.trip_id + 1) as usize;
        }
        k = k + 1;
    }
    let ghost old_connections = connections@;
    let ghost old_order = order@;
    assert forall|id: int| 0 <= id < n implies #[trigger] new_order@[id] < n
        && new_connections@[new_order@[id] as int] == old_connections[old_order[id] as int] by {
        let x = old_order[id];
        assert(x < n);
        assert(idxs_v[x as int] == x);
        assert(idxs_v.to_multiset().count(x) > 0);
        assert(perm@.to_multiset().count(x) > 0);
        assert(perm@.contains(x));
        let j = choose|j: int| 0 <= j < n && perm@[j] == x;
        assert(new_connections@[j] == old_connections[x as int]);
        assert(old_connections[x as int].id == id);
    }
    assert forall|p: int| #![trigger new_connections@[p]] 0 <= p < n implies new_connections@[p].id < n
        && new_order@[new_connections@[p].id as int] == p by {
        assert(old_connections[perm@[p] as int].id < n);
    }
    assert forall|i: int, j: int| 0 <= i <= j < n implies latest_first_key(new_connections@[i])
        <= latest_first_key(new_connections@[j]) && (new_connections@[i].departure.projected_spec()
        > new_connections@[j].departure.projected_spec() || (new_connections@[i].departure.projected_spec()
        == new_connections@[j].departure.projected_spec() && new_connections@[i].id >= new_connections@[j].id)) by {
        assert(keys@[perm@[i] as int] <= keys@[perm@[j] as int]);
        assert(keys@[perm@[i] as int] == latest_first_key(old_connections[perm@[i] as int]));
        assert(keys@[perm@[j] as int] == latest_first_key(old_connections[perm@[j] as int]));
        lemma_latest_first_order(new_connections@[i], new_connections@[j]);
    }
    *connections = new_connections;
    *order = new_order;
    cut_clear(number_of_trips);
    cut_insert(number_of_trips, trips, 0);
}

} // verus!
