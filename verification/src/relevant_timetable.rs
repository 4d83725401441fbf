use vstd::prelude::*;

use std::collections::HashMap;

use crate::connection::{Connection, Station};
use crate::cut::cut_new;
use crate::gtfs::{departures_sorted_by_projection, sort_station_departures_asc, GtfsTimetable};
use crate::walking::{arrivals_extended, create_walking_connection, departures_extended, is_walking_connection};

verus! {

broadcast use {vstd::seq_lib::group_to_multiset_ensures, vstd::multiset::group_multiset_axioms};

/// `st` carries the descriptive data of source station `o` and has no footpaths.
pub open spec fn derived_station(stations: Seq<Station>, st: Station, o: usize) -> bool {
    &&& o < stations.len()
    &&& st.id == stations[o as int].id
    &&& st.name == stations[o as int].name
    &&& st.transfer_time == stations[o as int].transfer_time
    &&& st.parent_idx == stations[o as int].parent_idx
    &&& st.footpaths@.len() == 0
}

/// The stations of a derived timetable: station `k` carries the descriptive
/// data of source station `orig[k]`, has no footpaths, and no two stations
/// share an id.
pub open spec fn derived_stations(stations: Seq<Station>, new_stations: Seq<Station>, orig: Seq<usize>) -> bool {
    &&& new_stations.len() == orig.len()
    &&& forall|k: int| #![trigger new_stations[k]] 0 <= k < new_stations.len() ==> derived_station(stations, new_stations[k], orig[k])
    &&& forall|k1: int, k2: int|
        #![trigger new_stations[k1], new_stations[k2]]
        0 <= k1 < new_stations.len() && 0 <= k2 < new_stations.len() && k1 != k2
            ==> new_stations[k1].id@ != new_stations[k2].id@
}

/// Only the departure and arrival lists differ between `a` and `b`.
pub open spec fn same_station_data(a: Station, b: Station) -> bool {
    &&& a.id == b.id
    &&& a.name == b.name
    &&& a.transfer_time == b.transfer_time
    &&& a.parent_idx == b.parent_idx
    &&& a.footpaths == b.footpaths
}

/// The departure and arrival lists of the stations of `a` only grew in `b`.
pub open spec fn lists_grew(a: Seq<Station>, b: Seq<Station>) -> bool {
    &&& a.len() <= b.len()
    &&& forall|t: int|
        #![trigger b[t]]
        0 <= t < a.len() ==> b[t].departures@.len() >= a[t].departures@.len() && b[t].arrivals@.len() >= a[t].arrivals@.len()
}

/// Every station from position `n` on lists a departure or an arrival.
pub open spec fn used_from(sts: Seq<Station>, n: int) -> bool {
    forall|t: int| #![trigger sts[t]] n <= t < sts.len() ==> sts[t].departures@.len() > 0 || sts[t].arrivals@.len() > 0
}

/// Every connection runs between stations of `new_stations`, and each station
/// lists, in increasing order, exactly the ids of the connections that depart
/// from it and of those that arrive at it.
#[verifier::opaque]
pub open spec fn registered_all(new_stations: Seq<Station>, conns: Seq<Connection>) -> bool {
    &&& forall|p: int|
        #![trigger conns[p]]
        0 <= p < conns.len() ==> conns[p].from_idx < new_stations.len() && conns[p].to_idx < new_stations.len()
            && conns[p].id == p
    &&& forall|t: int|
        #![trigger new_stations[t]]
        0 <= t < new_stations.len() ==> {
            &&& departures_extended(Seq::empty(), new_stations[t].departures@, conns, 0, t)
            &&& arrivals_extended(Seq::empty(), new_stations[t].arrivals@, conns, 0, t)
        }
}

/// A station with no departures or arrivals can be added.
proof fn lemma_registered_all_new_station(new_stations: Seq<Station>, st: Station, conns: Seq<Connection>)
    requires
        registered_all(new_stations, conns),
        st.departures@.len() == 0,
        st.arrivals@.len() == 0,
    ensures
        registered_all(new_stations.push(st), conns),
{
    reveal(registered_all);
    let ns = new_stations.push(st);
    assert forall|t: int| #![trigger ns[t]] 0 <= t < ns.len() implies {
        &&& departures_extended(Seq::empty(), ns[t].departures@, conns, 0, t)
        &&& arrivals_extended(Seq::empty(), ns[t].arrivals@, conns, 0, t)
    } by {
        if t < new_stations.len() {
            assert(ns[t] == new_stations[t]);
        } else {
            assert(ns[t].departures@.subrange(0, 0) =~= Seq::<usize>::empty());
            assert(ns[t].arrivals@.subrange(0, 0) =~= Seq::<usize>::empty());
        }
    }
}

/// Registering one more connection `w`, whose id is its position, at its
/// departure and arrival stations keeps `registered_all`.
proof fn lemma_registered_all_push(before: Seq<Station>, after: Seq<Station>, cb: Seq<Connection>, w: Connection)
    requires
        registered_all(before, cb),
        cb.len() <= usize::MAX,
        w.id == cb.len(),
        w.from_idx < before.len(),
        w.to_idx < before.len(),
        after.len() == before.len(),
        forall|t: int|
            #![trigger after[t]]
            0 <= t < after.len() ==> {
                &&& after[t].departures@ == (if t == w.from_idx {
                    before[t].departures@.push(cb.len() as usize)
                } else {
                    before[t].departures@
                })
                &&& after[t].arrivals@ == (if t == w.to_idx {
                    before[t].arrivals@.push(cb.len() as usize)
                } else {
                    before[t].arrivals@
                })
            },
    ensures
        registered_all(after, cb.push(w)),
{
    reveal(registered_all);
    let ca = cb.push(w);
    let e = Seq::<usize>::empty();
    assert forall|t: int| #![trigger after[t]] 0 <= t < after.len() implies {
        &&& departures_extended(e, after[t].departures@, ca, 0, t)
        &&& arrivals_extended(e, after[t].arrivals@, ca, 0, t)
    } by {
        assert(before[t] == before[t]);
        let db = before[t].departures@;
        let da = after[t].departures@;
        let ab = before[t].arrivals@;
        let aa = after[t].arrivals@;
        assert(departures_extended(e, db, cb, 0, t));
        assert(arrivals_extended(e, ab, cb, 0, t));
        assert(da.subrange(0, 0) =~= e);
        assert(aa.subrange(0, 0) =~= e);
        assert forall|k: int|
            #![trigger ca[k]]
            0 <= k < ca.len() && ca[k].from_idx == t implies exists|m: int| 0 <= m < da.len() && da[m] == k by {
            if k < cb.len() {
                assert(ca[k] == cb[k]);
                let m = choose|m: int| 0 <= m < db.len() && db[m] == k;
                assert(da[m] == k);
            } else {
                assert(da[da.len() - 1] == k);
            }
        }
        assert forall|m: int| #![trigger da[m]] 0 <= m < da.len() implies 0 <= da[m] < ca.len() && ca[da[m] as int].from_idx == t by {
            if m < db.len() {
                assert(da[m] == db[m]);
                assert(ca[db[m] as int] == cb[db[m] as int]);
            }
        }
        assert forall|m1: int, m2: int| #![trigger da[m1], da[m2]] 0 <= m1 < m2 < da.len() implies da[m1] < da[m2] by {
            assert(da[m1] == db[m1]);
            if m2 < db.len() {
                assert(da[m2] == db[m2]);
            }
        }
        assert forall|k: int|
            #![trigger ca[k]]
            0 <= k < ca.len() && ca[k].to_idx == t implies exists|m: int| 0 <= m < aa.len() && aa[m] == k by {
            if k < cb.len() {
                assert(ca[k] == cb[k]);
                let m = choose|m: int| 0 <= m < ab.len() && ab[m] == k;
                assert(aa[m] == k);
            } else {
                assert(aa[aa.len() - 1] == k);
            }
        }
        assert forall|m: int| #![trigger aa[m]] 0 <= m < aa.len() implies 0 <= aa[m] < ca.len() && ca[aa[m] as int].to_idx == t by {
            if m < ab.len() {
                assert(aa[m] == ab[m]);
                assert(ca[ab[m] as int] == cb[ab[m] as int]);
            }
        }
        assert forall|m1: int, m2: int| #![trigger aa[m1], aa[m2]] 0 <= m1 < m2 < aa.len() implies aa[m1] < aa[m2] by {
            assert(aa[m1] == ab[m1]);
            if m2 < ab.len() {
                assert(aa[m2] == ab[m2]);
            }
        }
    }
    assert forall|p: int| #![trigger ca[p]] 0 <= p < ca.len() implies ca[p].from_idx < after.len() && ca[p].to_idx < after.len()
        && ca[p].id == p by {
        if p < cb.len() {
            assert(ca[p] == cb[p]);
        }
    }
}

/// The position in `new_stations` of the station with the id of source
/// station `orig_idx`, added (with the source station's descriptive data) if there
/// is none yet.
fn station_for(
    stations: &[Station],
    orig_idx: usize,
    new_stations: &mut Vec<Station>,
    new_orig: &mut Vec<usize>,
) -> (k: usize)
    requires
        orig_idx < stations@.len(),
        derived_stations(stations@, old(new_stations)@, old(new_orig)@),
    ensures
        derived_stations(stations@, final(new_stations)@, final(new_orig)@),
        k < final(new_stations)@.len(),
        final(new_stations)@[k as int].id@ == stations@[orig_idx as int].id@,
        (exists|j: int| 0 <= j < old(new_stations)@.len() && old(new_stations)@[j].id@ == stations@[orig_idx as int].id@) ==> {
            &&& final(new_stations)@ == old(new_stations)@
            &&& final(new_orig)@ == old(new_orig)@
        },
        !(exists|j: int| 0 <= j < old(new_stations)@.len() && old(new_stations)@[j].id@ == stations@[orig_idx as int].id@) ==> {
            &&& k == old(new_stations)@.len()
            &&& final(new_stations)@.len() == old(new_stations)@.len() + 1
            &&& final(new_stations)@.subrange(0, k as int) == old(new_stations)@
            &&& final(new_orig)@ == old(new_orig)@.push(orig_idx)
            &&& final(new_stations)@[k as int].departures@.len() == 0
            &&& final(new_stations)@[k as int].arrivals@.len() == 0
        },
{
    let mut j: usize = 0;
    while j < new_stations.len()
        invariant
            j <= new_stations@.len(),
            new_stations@ == old(new_stations)@,
            new_orig@ == old(new_orig)@,
            orig_idx < stations@.len(),
            derived_stations(stations@, new_stations@, new_orig@),
            forall|i: int| 0 <= i < j ==> #[trigger] new_stations@[i].id@ != stations@[orig_idx as int].id@,
        decreases new_stations@.len() - j,
    {
        if new_stations[j].id == stations[orig_idx].id {
            return j;
        }
        j = j + 1;
    }
    let st = stations[orig_idx].clone_metadata();
    let ghost before = new_stations@;
    let ghost before_orig = new_orig@;
    new_stations.push(st);
    new_orig.push(orig_idx);
    proof {
        assert(new_stations@.subrange(0, before.len() as int) =~= before);
        assert forall|k: int| #![trigger new_stations@[k]] 0 <= k < new_stations@.len() implies derived_station(stations@, new_stations@[k], new_orig@[k]) by {
            if k < before.len() {
                assert(new_stations@[k] == before[k]);
                assert(new_orig@[k] == before_orig[k]);
            }
        }
        assert(derived_stations(stations@, new_stations@, new_orig@));
        assert forall|k1: int, k2: int|
            #![trigger new_stations@[k1], new_stations@[k2]]
            0 <= k1 < new_stations@.len() && 0 <= k2 < new_stations@.len() && k1 != k2
                implies new_stations@[k1].id@ != new_stations@[k2].id@ by {
            if k1 < before.len() && k2 < before.len() {
                assert(new_stations@[k1] == before[k1]);
                assert(new_stations@[k2] == before[k2]);
            } else if k1 < before.len() {
                assert(new_stations@[k1] == before[k1]);
            } else {
                assert(new_stations@[k2] == before[k2]);
            }
        }
    }
    j
}

/// `m` is the connection with id `k` that joins the departure
/// `connections[order[pair.1]]` and the arrival `connections[order[pair.0]]`
/// of one trip, between the derived stations that carry the ids of their
/// stations.
pub open spec fn is_merged_pair(
    m: Connection,
    connections: Seq<Connection>,
    stations: Seq<Station>,
    order: Seq<usize>,
    pair: (i32, i32),
    orig: Seq<usize>,
    k: int,
) -> bool {
    let dep = connections[order[pair.1 as int] as int];
    let arr = connections[order[pair.0 as int] as int];
    &&& m.id == k
    &&& m.route_idx == arr.route_idx
    &&& m.product_type == arr.product_type
    &&& m.trip_id == arr.trip_id
    &&& m.departure == dep.departure
    &&& m.arrival == arr.arrival
    &&& m.message == dep.message
    &&& m.from_idx < orig.len()
    &&& stations[orig[m.from_idx as int] as int].id@ == stations[dep.from_idx as int].id@
    &&& m.to_idx < orig.len()
    &&& stations[orig[m.to_idx as int] as int].id@ == stations[arr.to_idx as int].id@
}

/// Each pair (alighting id, boarding id) names two ids of `order` that lead to
/// connections; the boarding one departs from a station and the alighting one
/// arrives at a station.
pub open spec fn pairs_valid(connections: Seq<Connection>, stations: Seq<Station>, order: Seq<usize>, pairs: Seq<(i32, i32)>) -> bool {
    forall|i: int|
        #![trigger pairs[i]]
        0 <= i < pairs.len() ==> {
            &&& 0 <= pairs[i].0 < order.len()
            &&& 0 <= pairs[i].1 < order.len()
            &&& order[pairs[i].0 as int] < connections.len()
            &&& order[pairs[i].1 as int] < connections.len()
            &&& connections[order[pairs[i].1 as int] as int].from_idx < stations.len()
            &&& connections[order[pairs[i].0 as int] as int].to_idx < stations.len()
        }
}

/// The times computed with for each pair fit in an `Mtime`: the boarding
/// connection's projected departure and the alighting connection's projected
/// arrival (the departures of the new timetable), and, where walks to relevant
/// stations are added, the alighting arrival plus any walking time.
pub open spec fn pair_times_fit(connections: Seq<Connection>, order: Seq<usize>, pairs: Seq<(i32, i32)>, walks: bool) -> bool {
    forall|i: int|
        #![trigger pairs[i]]
        0 <= i < pairs.len() ==> {
            let arr = connections[order[pairs[i].0 as int] as int].arrival;
            &&& connections[order[pairs[i].1 as int] as int].departure.projection_fits()
            &&& arr.projection_fits()
            &&& walks ==> arr.scheduled + 0xffff <= i32::MAX
        }
}

proof fn lemma_merged_pair_orig_grows(
    m: Connection,
    connections: Seq<Connection>,
    stations: Seq<Station>,
    order: Seq<usize>,
    pair: (i32, i32),
    orig: Seq<usize>,
    orig2: Seq<usize>,
    k: int,
)
    requires
        is_merged_pair(m, connections, stations, order, pair, orig, k),
        orig2.len() >= orig.len(),
        orig2.subrange(0, orig.len() as int) == orig,
    ensures
        is_merged_pair(m, connections, stations, order, pair, orig2, k),
{
    assert(orig2[m.from_idx as int] == orig2.subrange(0, orig.len() as int)[m.from_idx as int]);
    assert(orig2[m.to_idx as int] == orig2.subrange(0, orig.len() as int)[m.to_idx as int]);
}

/// The connections that join each pair, in the order of `pairs`, between
/// derived stations (added as needed); each is registered at its stations.
fn merge_pairs(
    connections: &[Connection],
    stations: &[Station],
    order: &[usize],
    pairs: &Vec<(i32, i32)>,
    new_stations: &mut Vec<Station>,
    new_orig: &mut Vec<usize>,
) -> (merged: Vec<Connection>)
    requires
        pairs_valid(connections@, stations@, order@, pairs@),
        derived_stations(stations@, old(new_stations)@, old(new_orig)@),
        registered_all(old(new_stations)@, Seq::empty()),
    ensures
        derived_stations(stations@, final(new_stations)@, final(new_orig)@),
        registered_all(final(new_stations)@, merged@),
        final(new_orig)@.len() >= old(new_orig)@.len(),
        final(new_orig)@.subrange(0, old(new_orig)@.len() as int) == old(new_orig)@,
        merged@.len() == pairs@.len(),
        forall|k: int|
            #![trigger merged@[k]]
            0 <= k < merged@.len() ==> is_merged_pair(merged@[k], connections@, stations@, order@, pairs@[k], final(new_orig)@, k),
        lists_grew(old(new_stations)@, final(new_stations)@),
        used_from(final(new_stations)@, old(new_stations)@.len() as int),
{
    let mut merged: Vec<Connection> = Vec::new();
    let mut i: usize = 0;
    proof {
        assert(merged@ =~= Seq::<Connection>::empty());
        assert(new_orig@.subrange(0, new_orig@.len() as int) =~= new_orig@);
    }
    while i < pairs.len()
        invariant
            i <= pairs@.len(),
            merged@.len() == i,
            pairs_valid(connections@, stations@, order@, pairs@),
            derived_stations(stations@, new_stations@, new_orig@),
            registered_all(new_stations@, merged@),
            new_orig@.len() >= old(new_orig)@.len(),
            new_orig@.subrange(0, old(new_orig)@.len() as int) == old(new_orig)@,
            forall|k: int|
                #![trigger merged@[k]]
                0 <= k < i ==> is_merged_pair(merged@[k], connections@, stations@, order@, pairs@[k], new_orig@, k),
            lists_grew(old(new_stations)@, new_stations@),
            used_from(new_stations@, old(new_stations)@.len() as int),
        decreases pairs@.len() - i,
    {
        let pair = pairs[i];
        assert(0 <= pairs@[i as int].0 < order@.len() && 0 <= pairs@[i as int].1 < order@.len());
        assert(connections@[order@[pair.1 as int] as int].from_idx < stations@.len());
        assert(connections@[order@[pair.0 as int] as int].to_idx < stations@.len());
        let dep_pos = order[pair.1 as usize];
        let arr_pos = order[pair.0 as usize];
        assert(dep_pos < connections@.len() && arr_pos < connections@.len());
        let departure = &connections[dep_pos];
        let arrival = &connections[arr_pos];
        let mut new = departure.merge_pair(arrival, merged.len());
        let ghost orig0 = new_orig@;
        let ghost st0 = new_stations@;
        let new_from_idx = station_for(stations, departure.from_idx, new_stations, new_orig);
        assert(new_stations@.len() == st0.len() || (new_stations@.len() == st0.len() + 1 && new_from_idx == st0.len()));
        proof {
            if orig0.len() == new_orig@.len() {
                assert(new_stations@ == st0);
            } else {
                lemma_registered_all_new_station(st0, new_stations@[new_stations@.len() - 1], merged@);
                assert(new_stations@ =~= st0.push(new_stations@[new_stations@.len() - 1]));
            }
        }
        let ghost orig1 = new_orig@;
        let ghost st1 = new_stations@;
        let new_to_idx = station_for(stations, arrival.to_idx, new_stations, new_orig);
        assert(new_stations@.len() == st1.len() || (new_stations@.len() == st1.len() + 1 && new_to_idx == st1.len()));
        proof {
            if orig1.len() == new_orig@.len() {
                assert(new_stations@ == st1);
            } else {
                lemma_registered_all_new_station(st1, new_stations@[new_stations@.len() - 1], merged@);
                assert(new_stations@ =~= st1.push(new_stations@[new_stations@.len() - 1]));
            }
            assert(new_orig@.subrange(0, orig1.len() as int) =~= orig1) by {
                if orig1.len() != new_orig@.len() {
                    assert(new_orig@ == orig1.push(arrival.to_idx));
                }
            }
        }
        let ghost st2 = new_stations@;
        new_stations[new_from_idx].departures.push(new.id);
        new_stations[new_to_idx].arrivals.push(new.id);
        new.from_idx = new_from_idx;
        new.to_idx = new_to_idx;
        proof {
            lemma_registered_all_push(st2, new_stations@, merged@, new);
            assert forall|t: int| #![trigger new_stations@[t]] 0 <= t < st0.len() implies new_stations@[t].departures@.len() >= st0[t].departures@.len()
                && new_stations@[t].arrivals@.len() >= st0[t].arrivals@.len() by {
                assert(st2[t] == st0[t]);
            }
            assert forall|t: int| #![trigger new_stations@[t]] 0 <= t < old(new_stations)@.len() implies new_stations@[t].departures@.len() >= old(new_stations)@[t].departures@.len()
                && new_stations@[t].arrivals@.len() >= old(new_stations)@[t].arrivals@.len() by {
                assert(st0[t].departures@.len() >= old(new_stations)@[t].departures@.len());
                assert(new_stations@[t].departures@.len() >= st0[t].departures@.len());
            }
            assert forall|t: int| #![trigger new_stations@[t]] old(new_stations)@.len() <= t < new_stations@.len()
                implies new_stations@[t].departures@.len() > 0 || new_stations@[t].arrivals@.len() > 0 by {
                if t < st0.len() {
                    assert(st0[t].departures@.len() > 0 || st0[t].arrivals@.len() > 0);
                    assert(new_stations@[t].departures@.len() >= st0[t].departures@.len());
                } else if t == new_from_idx {
                    assert(new_stations@[t].departures@ == st2[t].departures@.push(merged@.len() as usize));
                } else {
                    assert(t == new_to_idx);
                    assert(new_stations@[t].arrivals@ == st2[t].arrivals@.push(merged@.len() as usize));
                }
            }
            assert forall|k: int| #![trigger new_stations@[k]] 0 <= k < new_stations@.len()
                implies derived_station(stations@, new_stations@[k], new_orig@[k]) by {
                assert(same_station_data(new_stations@[k], st2[k]));
            }
            assert forall|k1: int, k2: int|
                #![trigger new_stations@[k1], new_stations@[k2]]
                0 <= k1 < new_stations@.len() && 0 <= k2 < new_stations@.len() && k1 != k2
                    implies new_stations@[k1].id@ != new_stations@[k2].id@ by {
                assert(new_stations@[k1].id == st2[k1].id);
                assert(new_stations@[k2].id == st2[k2].id);
            }
            assert(new_orig@.subrange(0, orig0.len() as int) =~= orig0) by {
                assert(new_orig@.subrange(0, orig1.len() as int) =~= orig1);
                if orig0.len() != orig1.len() {
                    assert(orig1 == orig0.push(departure.from_idx));
                }
            }
            assert(new_orig@.subrange(0, old(new_orig)@.len() as int) =~= old(new_orig)@) by {
                assert(orig0.subrange(0, old(new_orig)@.len() as int) =~= old(new_orig)@);
                assert(new_orig@.subrange(0, orig0.len() as int) =~= orig0);
            }
            assert forall|k: int|
                #![trigger merged@.push(new)[k]]
                0 <= k < i + 1 implies is_merged_pair(merged@.push(new)[k], connections@, stations@, order@, pairs@[k], new_orig@, k) by {
                if k < i {
                    assert(merged@.push(new)[k] == merged@[k]);
                    lemma_merged_pair_orig_grows(merged@[k], connections@, stations@, order@, pairs@[k], orig0, new_orig@, k);
                }
            }
        }
        merged.push(new);
        i = i + 1;
    }
    merged
}

/// `w` is a walking connection with id `k` that continues connection
/// `merged[p]` from its arrival station, whose source station is a stop with
/// another id than station `s`, taking the time that `walk_minutes` gave
/// from that source station to `s`.
pub open spec fn relevant_walk_source<F: Fn(usize, usize) -> Option<u16>>(
    walk_minutes: F,
    w: Connection,
    merged: Seq<Connection>,
    stations: Seq<Station>,
    orig: Seq<usize>,
    s: usize,
    p: int,
    k: int,
) -> bool {
    let c = merged[p];
    let walk = (w.arrival.scheduled - c.arrival.scheduled) as u16;
    &&& 0 <= p < merged.len()
    &&& c.to_idx < orig.len()
    &&& stations[orig[c.to_idx as int] as int].id@ != stations[s as int].id@
    &&& walk_minutes.ensures((orig[c.to_idx as int], s), Some(walk))
    &&& is_walking_connection(w, c, k, walk, w.to_idx as int)
}

/// `relevant_walk_source`, and the walk ends at the derived station of `s`.
pub open spec fn is_relevant_walk<F: Fn(usize, usize) -> Option<u16>>(
    walk_minutes: F,
    w: Connection,
    merged: Seq<Connection>,
    stations: Seq<Station>,
    orig: Seq<usize>,
    s: usize,
    p: int,
    k: int,
) -> bool {
    &&& relevant_walk_source(walk_minutes, w, merged, stations, orig, s, p, k)
    &&& w.to_idx < orig.len()
    &&& stations[orig[w.to_idx as int] as int].id@ == stations[s as int].id@
}

proof fn lemma_relevant_walk_orig_grows<F: Fn(usize, usize) -> Option<u16>>(
    walk_minutes: F,
    w: Connection,
    merged: Seq<Connection>,
    stations: Seq<Station>,
    orig: Seq<usize>,
    orig2: Seq<usize>,
    s: usize,
    p: int,
    k: int,
)
    requires
        is_relevant_walk(walk_minutes, w, merged, stations, orig, s, p, k),
        orig2.len() >= orig.len(),
        orig2.subrange(0, orig.len() as int) == orig,
    ensures
        is_relevant_walk(walk_minutes, w, merged, stations, orig2, s, p, k),
{
    assert(orig2[merged[p].to_idx as int] == orig2.subrange(0, orig.len() as int)[merged[p].to_idx as int]);
    assert(orig2[w.to_idx as int] == orig2.subrange(0, orig.len() as int)[w.to_idx as int]);
}

/// `w` is the walk with id `k` for the pair `sk` of a position in `relevant`
/// and a position in `merged`.
pub open spec fn walk_from_pair<F: Fn(usize, usize) -> Option<u16>>(
    walk_minutes: F,
    w: Connection,
    merged: Seq<Connection>,
    stations: Seq<Station>,
    orig: Seq<usize>,
    relevant: Seq<usize>,
    sk: (usize, usize),
    k: int,
) -> bool {
    &&& sk.0 < relevant.len()
    &&& is_relevant_walk(walk_minutes, w, merged, stations, orig, relevant[sk.0 as int], sk.1 as int, k)
}

/// The pair of position `i` in `relevant` and position `p` in `merged` got no
/// walk (no entry of `src` names it) only where the two stops share an id or
/// `walk_minutes` gave no walking time.
pub open spec fn walk_left_out<F: Fn(usize, usize) -> Option<u16>>(
    walk_minutes: F,
    merged: Seq<Connection>,
    stations: Seq<Station>,
    orig: Seq<usize>,
    relevant: Seq<usize>,
    src: Seq<(usize, usize)>,
    i: int,
    p: int,
) -> bool {
    stations[orig[merged[p].to_idx as int] as int].id@ != stations[relevant[i] as int].id@
        && !(exists|k: int| 0 <= k < src.len() && src[k].0 == i && src[k].1 == p)
        ==> walk_minutes.ensures((orig[merged[p].to_idx as int], relevant[i]), None)
}

/// `o` is the source station of the arrival station of `c`.
pub open spec fn orig_of_arrival(o: usize, c: Connection, orig: Seq<usize>) -> bool {
    c.to_idx < orig.len() && o == orig[c.to_idx as int]
}

/// For every relevant station in turn and every merged connection in turn,
/// a walking connection from the connection's arrival station to the derived
/// station of the relevant one (added as needed) where `walk_minutes` gives
/// a walking time and the two stops have different ids. `src[k]` is the pair
/// (position in `relevant`, position in `merged`) of the `k`-th walk.
fn walks_to_relevant<F>(
    stations: &[Station],
    relevant: &Vec<usize>,
    merged: &Vec<Connection>,
    new_stations: &mut Vec<Station>,
    new_orig: &mut Vec<usize>,
    walk_minutes: &F,
) -> (r: (Vec<Connection>, Vec<(usize, usize)>))
    where F: Fn(usize, usize) -> Option<u16>
    requires
        forall|a: usize, b: usize| walk_minutes.requires((a, b)),
        forall|i: int| #![trigger relevant@[i]] 0 <= i < relevant@.len() ==> relevant@[i] < stations@.len(),
        derived_stations(stations@, old(new_stations)@, old(new_orig)@),
        registered_all(old(new_stations)@, merged@),
        relevant@.len() > 0 ==> forall|p: int| #![trigger merged@[p]] 0 <= p < merged@.len() ==> merged@[p].arrival.scheduled + 0xffff <= i32::MAX,
        merged@.len() + relevant@.len() * merged@.len() <= usize::MAX,
    ensures
        ({
            let (w, src) = r;
            let np = merged@.len() as int;
            let orig = final(new_orig)@;
            &&& derived_stations(stations@, final(new_stations)@, orig)
            &&& orig.len() >= old(new_orig)@.len()
            &&& orig.subrange(0, old(new_orig)@.len() as int) == old(new_orig)@
            &&& registered_all(final(new_stations)@, merged@ + w@)
            &&& w@.len() == src@.len()
            &&& forall|k: int|
                #![trigger w@[k]]
                #![trigger src@[k]]
                0 <= k < w@.len() ==> walk_from_pair(*walk_minutes, w@[k], merged@, stations@, orig, relevant@, src@[k], np + k)
            &&& forall|k1: int, k2: int|
                #![trigger src@[k1], src@[k2]]
                0 <= k1 < k2 < w@.len() ==> src@[k1].0 < src@[k2].0 || (src@[k1].0 == src@[k2].0 && src@[k1].1 < src@[k2].1)
            &&& forall|i: int, p: int|
                0 <= i < relevant@.len() && 0 <= p < np ==> #[trigger] walk_left_out(*walk_minutes, merged@, stations@, orig, relevant@, src@, i, p)
        }),
        lists_grew(old(new_stations)@, final(new_stations)@),
        used_from(final(new_stations)@, old(new_stations)@.len() as int),
{
    let ghost orig0 = new_orig@;
    let np = merged.len();
    let nr = relevant.len();
    let mut from_orig: Vec<usize> = Vec::new();
    let mut q: usize = 0;
    while q < np
        invariant
            q <= np,
            np == merged@.len(),
            from_orig@.len() == q,
            new_orig@ == orig0,
            derived_stations(stations@, new_stations@, new_orig@),
            registered_all(new_stations@, merged@),
            forall|x: int| #![trigger from_orig@[x]] 0 <= x < q ==> orig_of_arrival(from_orig@[x], merged@[x], orig0),
            new_stations@ == old(new_stations)@,
        decreases np - q,
    {
        assert(merged@[q as int].to_idx < new_stations@.len()) by {
            reveal(registered_all);
        }
        from_orig.push(new_orig[merged[q].to_idx]);
        q = q + 1;
    }
    let mut walks: Vec<Connection> = Vec::new();
    let mut src: Vec<(usize, usize)> = Vec::new();
    proof {
        assert(merged@ + walks@ =~= merged@);
        assert(new_orig@.subrange(0, orig0.len() as int) =~= orig0);
    }
    let mut i: usize = 0;
    while i < nr
        invariant
            i <= nr,
            nr == relevant@.len(),
            np == merged@.len(),
            np + nr * np <= usize::MAX,
            forall|a: usize, b: usize| walk_minutes.requires((a, b)),
            forall|x: int| #![trigger relevant@[x]] 0 <= x < relevant@.len() ==> relevant@[x] < stations@.len(),
            nr > 0 ==> forall|p: int| #![trigger merged@[p]] 0 <= p < merged@.len() ==> merged@[p].arrival.scheduled + 0xffff <= i32::MAX,
            from_orig@.len() == np,
            forall|x: int| #![trigger from_orig@[x]] 0 <= x < np ==> orig_of_arrival(from_orig@[x], merged@[x], orig0),
            derived_stations(stations@, new_stations@, new_orig@),
            new_orig@.len() >= orig0.len(),
            new_orig@.subrange(0, orig0.len() as int) == orig0,
            registered_all(new_stations@, merged@ + walks@),
            lists_grew(old(new_stations)@, new_stations@),
            used_from(new_stations@, old(new_stations)@.len() as int),
            walks@.len() <= i * np,
            src@.len() == walks@.len(),
            forall|k: int|
                #![trigger walks@[k]]
                #![trigger src@[k]]
                0 <= k < walks@.len() ==> 0 <= src@[k].0 < i
                    && walk_from_pair(*walk_minutes, walks@[k], merged@, stations@, new_orig@, relevant@, src@[k], np + k),
            forall|k1: int, k2: int|
                #![trigger src@[k1], src@[k2]]
                0 <= k1 < k2 < walks@.len() ==> src@[k1].0 < src@[k2].0 || (src@[k1].0 == src@[k2].0 && src@[k1].1 < src@[k2].1),
            forall|ii: int, p: int|
                0 <= ii < i && 0 <= p < np
                    && stations@[orig0[merged@[p].to_idx as int] as int].id@ != stations@[relevant@[ii] as int].id@
                    && !(exists|k: int| 0 <= k < walks@.len() && src@[k].0 == ii && src@[k].1 == p)
                    ==> #[trigger] walk_minutes.ensures((orig0[merged@[p].to_idx as int], relevant@[ii]), None),
        decreases nr - i,
    {
        let s = relevant[i];
        let mut p: usize = 0;
        while p < np
            invariant
                i < nr,
                p <= np,
                s == relevant@[i as int],
                nr == relevant@.len(),
                np == merged@.len(),
                np + nr * np <= usize::MAX,
                forall|a: usize, b: usize| walk_minutes.requires((a, b)),
                forall|x: int| #![trigger relevant@[x]] 0 <= x < relevant@.len() ==> relevant@[x] < stations@.len(),
                forall|pp: int| #![trigger merged@[pp]] 0 <= pp < merged@.len() ==> merged@[pp].arrival.scheduled + 0xffff <= i32::MAX,
                from_orig@.len() == np,
                forall|x: int| #![trigger from_orig@[x]] 0 <= x < np ==> orig_of_arrival(from_orig@[x], merged@[x], orig0),
                derived_stations(stations@, new_stations@, new_orig@),
                new_orig@.len() >= orig0.len(),
                new_orig@.subrange(0, orig0.len() as int) == orig0,
                registered_all(new_stations@, merged@ + walks@),
                lists_grew(old(new_stations)@, new_stations@),
                used_from(new_stations@, old(new_stations)@.len() as int),
                walks@.len() <= i * np + p,
                src@.len() == walks@.len(),
                forall|k: int|
                    #![trigger walks@[k]]
                #![trigger src@[k]]
                    0 <= k < walks@.len() ==> 0 <= src@[k].0 && (src@[k].0 < i || (src@[k].0 == i && src@[k].1 < p))
                        && walk_from_pair(*walk_minutes, walks@[k], merged@, stations@, new_orig@, relevant@, src@[k], np + k),
                forall|k1: int, k2: int|
                    #![trigger src@[k1], src@[k2]]
                    0 <= k1 < k2 < walks@.len() ==> src@[k1].0 < src@[k2].0 || (src@[k1].0 == src@[k2].0 && src@[k1].1 < src@[k2].1),
                forall|ii: int, pp: int|
                    (0 <= ii < i || (ii == i && 0 <= pp < p)) && 0 <= pp < np
                        && stations@[orig0[merged@[pp].to_idx as int] as int].id@ != stations@[relevant@[ii] as int].id@
                        && !(exists|k: int| 0 <= k < walks@.len() && src@[k].0 == ii && src@[k].1 == pp)
                        ==> #[trigger] walk_minutes.ensures((orig0[merged@[pp].to_idx as int], relevant@[ii]), None),
            decreases np - p,
        {
            proof {
                assert((i + 1) * np <= nr * np) by (nonlinear_arith)
                    requires
                        i < nr,
                ;
                assert(i * np + np == (i + 1) * np) by (nonlinear_arith);
            }
            let c = &merged[p];
            let o = from_orig[p];
            assert(orig_of_arrival(from_orig@[p as int], merged@[p as int], orig0));
            assert(o == orig0[merged@[p as int].to_idx as int]);
            assert(o < stations@.len() && stations@[o as int].id == new_stations@[c.to_idx as int].id) by {
                assert(new_orig@[c.to_idx as int] == new_orig@.subrange(0, orig0.len() as int)[c.to_idx as int]);
                assert(derived_station(stations@, new_stations@[c.to_idx as int], new_orig@[c.to_idx as int]));
            }
            assert(s < stations@.len());
            if new_stations[c.to_idx].id == stations[s].id {
                p = p + 1;
                continue;
            }
            let ghost w_before = walks@;
            let ghost src_before = src@;
            let ghost orig_before = new_orig@;
            let ghost st_before = new_stations@;
            match walk_minutes(o, s) {
                Some(d) => {
                    let to_idx = station_for(stations, s, new_stations, new_orig);
                    assert(new_stations@.len() == st_before.len() || (new_stations@.len() == st_before.len() + 1 && to_idx == st_before.len()));
                    proof {
                        if orig_before.len() == new_orig@.len() {
                            assert(new_stations@ == st_before);
                        } else {
                            lemma_registered_all_new_station(st_before, new_stations@[new_stations@.len() - 1], merged@ + w_before);
                            assert(new_stations@ =~= st_before.push(new_stations@[new_stations@.len() - 1]));
                        }
                        assert(new_orig@.subrange(0, orig_before.len() as int) =~= orig_before) by {
                            if orig_before.len() != new_orig@.len() {
                                assert(new_orig@ == orig_before.push(s));
                            }
                        }
                        assert(new_orig@.subrange(0, orig0.len() as int) =~= orig0) by {
                            assert(orig_before.subrange(0, orig0.len() as int) =~= orig0);
                        }
                        assert(c.to_idx < new_stations@.len()) by {
                            reveal(registered_all);
                            assert((merged@ + w_before)[p as int] == merged@[p as int]);
                        }
                    }
                    assert(merged@[p as int].arrival.scheduled + 0xffff <= i32::MAX);
                    let id = np + walks.len();
                    let ghost st1 = new_stations@;
                    let w = create_walking_connection(c, id, new_stations, d, to_idx);
                    proof {
                        assert forall|t: int| #![trigger new_stations@[t]] 0 <= t < st_before.len() implies new_stations@[t].departures@.len() >= st_before[t].departures@.len()
                            && new_stations@[t].arrivals@.len() >= st_before[t].arrivals@.len() by {
                            assert(st1[t] == st_before[t]);
                        }
                        assert forall|t: int| #![trigger new_stations@[t]] 0 <= t < old(new_stations)@.len() implies new_stations@[t].departures@.len() >= old(new_stations)@[t].departures@.len()
                            && new_stations@[t].arrivals@.len() >= old(new_stations)@[t].arrivals@.len() by {
                            assert(st_before[t].departures@.len() >= old(new_stations)@[t].departures@.len());
                            assert(new_stations@[t].departures@.len() >= st_before[t].departures@.len());
                        }
                        assert forall|t: int| #![trigger new_stations@[t]] old(new_stations)@.len() <= t < new_stations@.len()
                            implies new_stations@[t].departures@.len() > 0 || new_stations@[t].arrivals@.len() > 0 by {
                            if t < st_before.len() {
                                assert(st_before[t].departures@.len() > 0 || st_before[t].arrivals@.len() > 0);
                                assert(new_stations@[t].departures@.len() >= st_before[t].departures@.len());
                            } else {
                                assert(t == to_idx);
                                assert(new_stations@[t].arrivals@ == st1[t].arrivals@.push(id));
                            }
                        }
                        assert((w.arrival.scheduled - c.arrival.scheduled) as u16 == d);
                        lemma_registered_all_push(st1, new_stations@, merged@ + w_before, w);
                        assert(merged@ + w_before.push(w) =~= (merged@ + w_before).push(w));
                        assert forall|k: int| #![trigger new_stations@[k]] 0 <= k < new_stations@.len()
                            implies derived_station(stations@, new_stations@[k], new_orig@[k]) by {
                            assert(same_station_data(new_stations@[k], st1[k]));
                        }
                        assert forall|k1: int, k2: int|
                            #![trigger new_stations@[k1], new_stations@[k2]]
                            0 <= k1 < new_stations@.len() && 0 <= k2 < new_stations@.len() && k1 != k2
                                implies new_stations@[k1].id@ != new_stations@[k2].id@ by {
                            assert(new_stations@[k1].id == st1[k1].id);
                            assert(new_stations@[k2].id == st1[k2].id);
                        }
                        assert(new_orig@[c.to_idx as int] == o) by {
                            assert(new_orig@[c.to_idx as int] == new_orig@.subrange(0, orig0.len() as int)[c.to_idx as int]);
                        }
                        assert(new_orig@[to_idx as int] < stations@.len());
                        assert(stations@[new_orig@[to_idx as int] as int].id@ == stations@[s as int].id@) by {
                            assert(derived_station(stations@, new_stations@[to_idx as int], new_orig@[to_idx as int]));
                        }
                    }
                    walks.push(w);
                    src.push((i, p));
                    proof {
                        assert forall|k: int|
                            #![trigger walks@[k]]
                #![trigger src@[k]]
                            0 <= k < walks@.len() implies 0 <= src@[k].0 && (src@[k].0 < i || (src@[k].0 == i && src@[k].1 < p + 1))
                                && walk_from_pair(*walk_minutes, walks@[k], merged@, stations@, new_orig@, relevant@, src@[k], np + k) by {
                            if k < w_before.len() {
                                assert(walks@[k] == w_before[k]);
                                assert(src@[k] == src_before[k]);
                                lemma_relevant_walk_orig_grows(*walk_minutes, w_before[k], merged@, stations@, orig_before, new_orig@,
                                    relevant@[src@[k].0 as int], src@[k].1 as int, np + k);
                            }
                        }
                        assert forall|k1: int, k2: int|
                            #![trigger src@[k1], src@[k2]]
                            0 <= k1 < k2 < walks@.len() implies src@[k1].0 < src@[k2].0 || (src@[k1].0 == src@[k2].0 && src@[k1].1 < src@[k2].1) by {
                            assert(walks@[k1] == w_before[k1]);
                            assert(src@[k1] == src_before[k1]);
                            if k2 < w_before.len() {
                                assert(walks@[k2] == w_before[k2]);
                                assert(src@[k2] == src_before[k2]);
                            }
                        }
                        assert forall|ii: int, pp: int|
                            (0 <= ii < i || (ii == i && 0 <= pp < p + 1)) && 0 <= pp < np
                                && stations@[orig0[merged@[pp].to_idx as int] as int].id@ != stations@[relevant@[ii] as int].id@
                                && !(exists|k: int| 0 <= k < walks@.len() && src@[k].0 == ii && src@[k].1 == pp)
                                implies #[trigger] walk_minutes.ensures((orig0[merged@[pp].to_idx as int], relevant@[ii]), None) by {
                            if ii == i && pp == p {
                                assert(src@[src@.len() - 1].0 == ii && src@[src@.len() - 1].1 == pp);
                            } else {
                                if exists|k: int| 0 <= k < w_before.len() && src_before[k].0 == ii && src_before[k].1 == pp {
                                    let k = choose|k: int| 0 <= k < w_before.len() && src_before[k].0 == ii && src_before[k].1 == pp;
                                    assert(src@[k] == src_before[k]);
                                }
                            }
                        }
                    }
                },
                None => {
                    proof {
                        assert forall|ii: int, pp: int|
                            (0 <= ii < i || (ii == i && 0 <= pp < p + 1)) && 0 <= pp < np
                                && stations@[orig0[merged@[pp].to_idx as int] as int].id@ != stations@[relevant@[ii] as int].id@
                                && !(exists|k: int| 0 <= k < walks@.len() && src@[k].0 == ii && src@[k].1 == pp)
                                implies #[trigger] walk_minutes.ensures((orig0[merged@[pp].to_idx as int], relevant@[ii]), None) by {
                        }
                    }
                },
            }
            p = p + 1;
        }
        assert(i * np + np == (i + 1) * np) by (nonlinear_arith);
        i = i + 1;
    }
    proof {
        let orig = new_orig@;
        assert forall|p: int| 0 <= p < np implies orig[merged@[p].to_idx as int] == orig0[merged@[p].to_idx as int] by {
            assert(orig_of_arrival(from_orig@[p], merged@[p], orig0));
            assert(orig[merged@[p].to_idx as int] == orig.subrange(0, orig0.len() as int)[merged@[p].to_idx as int]);
        }
        assert(orig.subrange(0, old(new_orig)@.len() as int) =~= old(new_orig)@);
        assert forall|ii: int, pp: int|
            0 <= ii < relevant@.len() && 0 <= pp < np
                implies #[trigger] walk_left_out(*walk_minutes, merged@, stations@, orig, relevant@, src@, ii, pp) by {
            assert(orig_of_arrival(from_orig@[pp], merged@[pp], orig0));
            assert(orig[merged@[pp].to_idx as int] == orig.subrange(0, orig0.len() as int)[merged@[pp].to_idx as int]);
        }
    }
    (walks, src)
}

/// Station `st`, at position `t` of a timetable with connections `conns`
/// (ids are positions), lists each connection departing from it once, ordered
/// by projected departure, and the ids of the connections arriving at it in
/// increasing order.
pub open spec fn lists_connections(st: Station, conns: Seq<Connection>, t: int) -> bool {
    let dep = st.departures@;
    &&& dep.no_duplicates()
    &&& forall|m: int| #![trigger dep[m]] 0 <= m < dep.len() ==> dep[m] < conns.len() && conns[dep[m] as int].from_idx == t
    &&& forall|k: int| #![trigger conns[k]] 0 <= k < conns.len() && conns[k].from_idx == t ==> dep.contains(k as usize)
    &&& forall|a: int, b: int|
        0 <= a <= b < dep.len() ==> conns[dep[a] as int].departure.projected_spec() <= conns[dep[b] as int].departure.projected_spec()
    &&& arrivals_extended(Seq::empty(), st.arrivals@, conns, 0, t)
}

/// The connections and stations of the timetable derived from `pairs` and
/// `relevant`: `orig` gives the source station of each derived station and `src`
/// the pair behind each walk. First come the joined pairs, in the order of
/// `pairs`, then the walks to the relevant stations (see `walks_to_relevant`).
pub open spec fn relevant_timetable_built<F: Fn(usize, usize) -> Option<u16>>(
    connections: Seq<Connection>,
    stations: Seq<Station>,
    order: Seq<usize>,
    pairs: Seq<(i32, i32)>,
    relevant: Seq<usize>,
    walk_minutes: F,
    new_stations: Seq<Station>,
    new_conns: Seq<Connection>,
    orig: Seq<usize>,
    src: Seq<(usize, usize)>,
) -> bool {
    let np = pairs.len() as int;
    let merged = new_conns.subrange(0, np);
    &&& derived_stations(stations, new_stations, orig)
    &&& new_conns.len() == np + src.len()
    &&& forall|k: int|
        #![trigger new_conns[k]]
        0 <= k < np ==> is_merged_pair(new_conns[k], connections, stations, order, pairs[k], orig, k)
    &&& forall|k: int|
        #![trigger src[k]]
        0 <= k < src.len() ==> walk_from_pair(walk_minutes, new_conns[np + k], merged, stations, orig, relevant, src[k], np + k)
    &&& forall|k1: int, k2: int|
        #![trigger src[k1], src[k2]]
        0 <= k1 < k2 < src.len() ==> src[k1].0 < src[k2].0 || (src[k1].0 == src[k2].0 && src[k1].1 < src[k2].1)
    &&& forall|i: int, p: int|
        0 <= i < relevant.len() && 0 <= p < np ==> #[trigger] walk_left_out(walk_minutes, merged, stations, orig, relevant, src, i, p)
}

/// From the boarding and alighting connections in `connection_pairs` (each
/// pair is (arrival id, departure id), ids mapped to positions by `order`),
/// a small timetable: one connection per pair, between stations that carry
/// the data of the source stations (one per id); then walking connections from the
/// arrival of each of them to each relevant station where `walk_minutes`
/// gives a walking time between the source stations; departures sorted by
/// projected departure. Returns the timetable and the positions of the
/// origin (the first station) and the destination (the first or the second)
/// in it; every other station of it is there for a connection that departs or
/// arrives there.
pub fn create_relevant_timetable_with_extended_walking<F>(
    connections: &[Connection],
    stations: &[Station],
    order: &[usize],
    connection_pairs: &Vec<(i32, i32)>,
    relevant_station_idxs: &Vec<usize>,
    origin_idx: usize,
    destination_idx: usize,
    walk_minutes: &F,
) -> (r: (GtfsTimetable, usize, usize))
    where F: Fn(usize, usize) -> Option<u16>
    requires
        forall|a: usize, b: usize| walk_minutes.requires((a, b)),
        origin_idx < stations@.len(),
        destination_idx < stations@.len(),
        pairs_valid(connections@, stations@, order@, connection_pairs@),
        forall|i: int| #![trigger relevant_station_idxs@[i]] 0 <= i < relevant_station_idxs@.len() ==> relevant_station_idxs@[i] < stations@.len(),
        pair_times_fit(connections@, order@, connection_pairs@, relevant_station_idxs@.len() > 0),
        connection_pairs@.len() + relevant_station_idxs@.len() * connection_pairs@.len() <= usize::MAX,
    ensures
        exists|orig: Seq<usize>, src: Seq<(usize, usize)>|
            relevant_timetable_built(connections@, stations@, order@, connection_pairs@, relevant_station_idxs@, *walk_minutes,
                r.0.stations@, r.0.connections@, orig, src),
        r.0.order@.len() == r.0.connections@.len(),
        forall|i: int| #![trigger r.0.order@[i]] 0 <= i < r.0.order@.len() ==> r.0.order@[i] == i,
        forall|t: int| #![trigger r.0.stations@[t]] 0 <= t < r.0.stations@.len() ==> lists_connections(r.0.stations@[t], r.0.connections@, t),
        r.0.cut@ == Set::<(usize, usize)>::empty(),
        r.0.transport_and_day_to_connection_id@ == Map::<(usize, u16), usize>::empty(),
        r.1 == 0,
        r.2 == 0 || r.2 == 1,
        r.1 < r.0.stations@.len(),
        r.0.stations@[r.1 as int].id@ == stations@[origin_idx as int].id@,
        r.2 < r.0.stations@.len(),
        r.0.stations@[r.2 as int].id@ == stations@[destination_idx as int].id@,
        forall|t: int|
            #![trigger r.0.stations@[t]]
            0 <= t < r.0.stations@.len() && t != r.1 && t != r.2 ==> r.0.stations@[t].departures@.len() > 0 || r.0.stations@[t].arrivals@.len() > 0,
{
    let mut new_stations: Vec<Station> = Vec::new();
    let mut new_orig: Vec<usize> = Vec::new();
    proof {
        reveal(registered_all);
    }
    let o = station_for(stations, origin_idx, &mut new_stations, &mut new_orig);
    proof {
        assert(new_stations@ =~= Seq::<Station>::empty().push(new_stations@[0]));
        lemma_registered_all_new_station(Seq::empty(), new_stations@[0], Seq::empty());
    }
    let ghost st0 = new_stations@;
    let ghost orig_a = new_orig@;
    let d = station_for(stations, destination_idx, &mut new_stations, &mut new_orig);
    proof {
        if st0.len() != new_stations@.len() {
            assert(new_stations@ =~= st0.push(new_stations@[1]));
            lemma_registered_all_new_station(st0, new_stations@[1], Seq::empty());
            assert(new_stations@[o as int] == st0[o as int]);
        }
    }
    let ghost orig_b = new_orig@;
    let ghost st_d = new_stations@;
    assert(o == 0 && (st_d.len() == 1 && d == 0 || st_d.len() == 2 && d == 1));
    let mut conns = merge_pairs(connections, stations, order, connection_pairs, &mut new_stations, &mut new_orig);
    let ghost st_m = new_stations@;
    let ghost orig_c = new_orig@;
    let ghost merged = conns@;
    proof {
        if relevant_station_idxs@.len() > 0 {
            assert forall|p: int| #![trigger conns@[p]] 0 <= p < conns@.len() implies conns@[p].arrival.scheduled + 0xffff <= i32::MAX by {
                assert(is_merged_pair(conns@[p], connections@, stations@, order@, connection_pairs@[p], new_orig@, p));
            }
        }
        assert(new_stations@[o as int].id == stations@[new_orig@[o as int] as int].id);
    }
    let (mut walks, src) = walks_to_relevant(stations, relevant_station_idxs, &conns, &mut new_stations, &mut new_orig, walk_minutes);
    let ghost w = walks@;
    conns.append(&mut walks);
    let n = conns.len();
    let mut new_order: Vec<usize> = Vec::new();
    let mut i: usize = 0;
    while i < n
        invariant
            i <= n,
            n == conns@.len(),
            new_order@.len() == i,
            forall|j: int| #![trigger new_order@[j]] 0 <= j < i ==> new_order@[j] == j,
        decreases n - i,
    {
        new_order.push(i);
        i = i + 1;
    }
    let ghost st_built = new_stations@;
    proof {
        assert(conns@ =~= merged + w);
        reveal(registered_all);
        assert forall|p: int| #![trigger conns@[p]] 0 <= p < conns@.len() implies conns@[p].departure.projection_fits() by {
            if p < merged.len() {
                assert(conns@[p] == merged[p]);
                assert(is_merged_pair(merged[p], connections@, stations@, order@, connection_pairs@[p], orig_c, p));
                let pair = connection_pairs@[p];
                assert(connections@[order@[pair.1 as int] as int].departure.projection_fits());
            } else {
                let k = p - merged.len();
                assert(conns@[p] == w[k]);
                assert(walk_from_pair(*walk_minutes, w[k], merged, stations@, new_orig@, relevant_station_idxs@, src@[k], merged.len() + k));
                let q = src@[k].1 as int;
                assert(is_merged_pair(merged[q], connections@, stations@, order@, connection_pairs@[q], orig_c, q));
                let pair = connection_pairs@[q];
                assert(connections@[order@[pair.0 as int] as int].arrival.projection_fits());
            }
        }
    }
    assert forall|t: int| #![trigger st_built[t]] st_d.len() <= t < st_built.len()
        implies st_built[t].departures@.len() > 0 || st_built[t].arrivals@.len() > 0 by {
        if t < st_m.len() {
            assert(st_m[t].departures@.len() > 0 || st_m[t].arrivals@.len() > 0);
            assert(st_built[t].departures@.len() >= st_m[t].departures@.len());
        }
    }
    sort_station_departures_asc(&mut new_stations, &conns, &new_order);
    proof {
        assert forall|t: int| #![trigger new_stations@[t]] 0 <= t < new_stations@.len() && t != o && t != d
            implies new_stations@[t].departures@.len() > 0 || new_stations@[t].arrivals@.len() > 0 by {
            assert(st_built[t].departures@.len() > 0 || st_built[t].arrivals@.len() > 0);
            assert(new_stations@[t].departures@.to_multiset() == st_built[t].departures@.to_multiset());
            assert(new_stations@[t].departures@.to_multiset().len() == new_stations@[t].departures@.len());
            assert(st_built[t].departures@.to_multiset().len() == st_built[t].departures@.len());
        }
        let cs = conns@;
        let np = merged.len() as int;
        assert(cs.subrange(0, np) =~= merged);
        assert forall|t: int| #![trigger new_stations@[t]] 0 <= t < new_stations@.len() implies lists_connections(new_stations@[t], cs, t) by {
            let dep = new_stations@[t].departures@;
            let dep0 = st_built[t].departures@;
            assert(departures_extended(Seq::empty(), dep0, cs, 0, t));
            assert(dep0.subrange(0, 0) =~= Seq::<usize>::empty());
            assert(dep0.no_duplicates()) by {
                assert forall|a: int, b: int| 0 <= a < dep0.len() && 0 <= b < dep0.len() && a != b implies dep0[a] != dep0[b] by {
                    if a < b {
                        assert(dep0[a] < dep0[b]);
                    } else {
                        assert(dep0[b] < dep0[a]);
                    }
                }
            }
            dep0.lemma_multiset_has_no_duplicates();
            dep.lemma_multiset_has_no_duplicates_conv();
            assert forall|m: int| #![trigger dep[m]] 0 <= m < dep.len() implies dep[m] < cs.len() && cs[dep[m] as int].from_idx == t by {
                assert(dep.to_multiset().count(dep[m]) > 0);
                assert(dep0.to_multiset().count(dep[m]) > 0);
                assert(dep0.contains(dep[m]));
                let m0 = choose|m0: int| 0 <= m0 < dep0.len() && dep0[m0] == dep[m];
            }
            assert forall|k: int| #![trigger cs[k]] 0 <= k < cs.len() && cs[k].from_idx == t implies dep.contains(k as usize) by {
                let m0 = choose|m0: int| 0 <= m0 < dep0.len() && dep0[m0] == k;
                assert(dep0.to_multiset().count(k as usize) > 0);
                assert(dep.to_multiset().count(k as usize) > 0);
            }
            assert forall|a: int, b: int| 0 <= a <= b < dep.len() implies cs[dep[a] as int].departure.projected_spec() <= cs[dep[b] as int].departure.projected_spec() by {
                assert(departures_sorted_by_projection(dep, cs, new_order@));
                assert(dep[a] < cs.len());
                assert(dep[b] < cs.len());
                assert(new_order@[dep[a] as int] == dep[a]);
                assert(new_order@[dep[b] as int] == dep[b]);
            }
            assert(new_stations@[t].arrivals == st_built[t].arrivals);
        }
        let orig = new_orig@;
        assert forall|k: int| #![trigger cs[k]] 0 <= k < np implies is_merged_pair(cs[k], connections@, stations@, order@, connection_pairs@[k], orig, k) by {
            assert(cs[k] == merged[k]);
            lemma_merged_pair_orig_grows(merged[k], connections@, stations@, order@, connection_pairs@[k], orig_c, orig, k);
        }
        assert forall|k: int| #![trigger src@[k]] 0 <= k < src@.len()
            implies walk_from_pair(*walk_minutes, cs[np + k], cs.subrange(0, np), stations@, orig, relevant_station_idxs@, src@[k], np + k) by {
            assert(cs[np + k] == w[k]);
        }
        assert(relevant_timetable_built(connections@, stations@, order@, connection_pairs@, relevant_station_idxs@, *walk_minutes,
            new_stations@, cs, orig, src@));
        assert(new_stations@[o as int].id == st_built[o as int].id);
        assert(new_stations@[d as int].id == st_built[d as int].id);
        assert(orig[o as int] == orig_c[o as int]) by {
            assert(orig_c[o as int] == orig_c.subrange(0, orig_b.len() as int)[o as int]);
            assert(orig[o as int] == orig.subrange(0, orig_c.len() as int)[o as int]);
        }
    }
    let ghost orig_final = new_orig@;
    let ghost src_final = src@;
    let tt = GtfsTimetable {
        stations: new_stations,
        connections: conns,
        cut: cut_new(),
        order: new_order,
        transport_and_day_to_connection_id: HashMap::new(),
    };
    let r = (tt, o, d);
    proof {
        assert(relevant_timetable_built(connections@, stations@, order@, connection_pairs@, relevant_station_idxs@, *walk_minutes,
            r.0.stations@, r.0.connections@, orig_final, src_final));
        assert(exists|orig: Seq<usize>, src: Seq<(usize, usize)>|
            relevant_timetable_built(connections@, stations@, order@, connection_pairs@, relevant_station_idxs@, *walk_minutes,
                r.0.stations@, r.0.connections@, orig, src));
    }
    r
}

} // verus!
