use vstd::prelude::*;

use crate::connection::{Connection, Footpath, Station, StopInfo};
use crate::gtfs::sort_departures_by_position;

verus! {

broadcast use {
    vstd::string::to_string_from_display_ensures_for_str,
    vstd::seq_lib::group_to_multiset_ensures,
    vstd::multiset::group_multiset_axioms,
};

pub const WALKING_MSG: &'static str = "walking";

pub const WALKING_PRODUCT_TYPE: i16 = 100;

pub const WALKING_INITIAL_BUFFER_MINUTES: i32 = 3;

/// A footpath duration capped by a walking time of at least one minute.
pub open spec fn capped_duration(walk: u16, duration: u16) -> u16 {
    let lower: u16 = if walk < 1 { 1 } else { walk };
    if lower < duration { lower } else { duration }
}

/// Capping never lengthens a footpath: the result is the smaller of the old
/// duration and the walking time taken as at least one minute.
pub proof fn lemma_capped_duration(walk: u16, duration: u16)
    ensures
        capped_duration(walk, duration) <= duration,
        capped_duration(walk, duration) <= (if walk < 1 { 1 } else { walk }),
        capped_duration(walk, duration) == duration || capped_duration(walk, duration) == (if walk < 1 { 1 } else { walk }),
{
}

/// `g` is footpath `f` of station `from` with its duration capped by a
/// walking time that `walk_minutes` gave for the two stations.
pub open spec fn footpath_shortened<F: Fn(usize, usize) -> u16>(walk_minutes: F, from: usize, f: Footpath, g: Footpath) -> bool {
    &&& g.target_location_idx == f.target_location_idx
    &&& exists|d: u16|
        #[trigger] walk_minutes.ensures((from, f.target_location_idx), d) && g.duration == capped_duration(d, f.duration)
}

/// Caps every footpath duration by the walking time that `walk_minutes`
/// gives for its two stations (at least one minute), and sets every transfer
/// time to one minute.
pub fn shorten_footpaths<F>(stations: &mut Vec<Station>, walk_minutes: &F) where F: Fn(usize, usize) -> u16
    requires
        forall|a: usize, b: usize| walk_minutes.requires((a, b)),
    ensures
        final(stations)@.len() == old(stations)@.len(),
        forall|i: int|
            #![trigger final(stations)@[i]]
            0 <= i < final(stations)@.len() ==> {
                &&& final(stations)@[i].transfer_time == 1
                &&& final(stations)@[i].footpaths@.len() == old(stations)@[i].footpaths@.len()
                &&& forall|j: int|
                    #![trigger final(stations)@[i].footpaths@[j]]
                    0 <= j < final(stations)@[i].footpaths@.len() ==> footpath_shortened(*walk_minutes, i as usize, old(stations)@[i].footpaths@[j], final(stations)@[i].footpaths@[j])
                &&& final(stations)@[i].id == old(stations)@[i].id
                &&& final(stations)@[i].name == old(stations)@[i].name
                &&& final(stations)@[i].arrivals == old(stations)@[i].arrivals
                &&& final(stations)@[i].departures == old(stations)@[i].departures
                &&& final(stations)@[i].parent_idx == old(stations)@[i].parent_idx
            },
        forall|i: int, j: int|
            #![trigger final(stations)@[i].footpaths@[j]]
            0 <= i < final(stations)@.len() && 0 <= j < final(stations)@[i].footpaths@.len() ==> {
                &&& final(stations)@[i].footpaths@[j].duration <= old(stations)@[i].footpaths@[j].duration
                &&& exists|w: u16|
                    #[trigger] walk_minutes.ensures((i as usize, old(stations)@[i].footpaths@[j].target_location_idx), w)
                        && final(stations)@[i].footpaths@[j].duration == (if (if w < 1 { 1 } else { w })
                        < old(stations)@[i].footpaths@[j].duration {
                        (if w < 1 { 1 } else { w })
                    } else {
                        old(stations)@[i].footpaths@[j].duration
                    })
            },
{
    let ghost old_stations = stations@;
    let mut i: usize = 0;
    while i < stations.len()
        invariant
            i <= stations@.len(),
            stations@.len() == old_stations.len(),
            forall|a: usize, b: usize| walk_minutes.requires((a, b)),
            forall|t: int| #![trigger stations@[t]] i <= t < stations@.len() ==> stations@[t] == old_stations[t],
            forall|t: int|
                #![trigger stations@[t]]
                0 <= t < i ==> {
                    &&& stations@[t].transfer_time == 1
                    &&& stations@[t].footpaths@.len() == old_stations[t].footpaths@.len()
                    &&& forall|j: int|
                        #![trigger stations@[t].footpaths@[j]]
                        0 <= j < stations@[t].footpaths@.len() ==> footpath_shortened(*walk_minutes, t as usize, old_stations[t].footpaths@[j], stations@[t].footpaths@[j])
                    &&& stations@[t].id == old_stations[t].id
                    &&& stations@[t].name == old_stations[t].name
                    &&& stations@[t].arrivals == old_stations[t].arrivals
                    &&& stations@[t].departures == old_stations[t].departures
                    &&& stations@[t].parent_idx == old_stations[t].parent_idx
                },
        decreases stations@.len() - i,
    {
        let mut fps = stations[i].footpaths.clone();
        let ghost old_fps = fps@;
        assert(old_fps == old_stations[i as int].footpaths@);
        let mut j: usize = 0;
        while j < fps.len()
            invariant
                j <= fps@.len(),
                fps@.len() == old_fps.len(),
                forall|a: usize, b: usize| walk_minutes.requires((a, b)),
                forall|k: int| #![trigger fps@[k]] j <= k < fps@.len() ==> fps@[k] == old_fps[k],
                forall|k: int|
                    #![trigger fps@[k]]
                    0 <= k < j ==> footpath_shortened(*walk_minutes, i, old_fps[k], fps@[k]),
            decreases fps@.len() - j,
        {
            let ghost before_fps = fps@;
            let f = fps[j];
            let dur = walk_minutes(i, f.target_location_idx);
            let lower = if dur < 1 { 1 } else { dur };
            let capped = if lower < f.duration { lower } else { f.duration };
            fps.set(j, Footpath { target_location_idx: f.target_location_idx, duration: capped });
            assert(walk_minutes.ensures((i, f.target_location_idx), dur) && fps@[j as int].duration == capped_duration(dur, f.duration));
            assert forall|k: int|
                #![trigger fps@[k]]
                0 <= k < j + 1 implies footpath_shortened(*walk_minutes, i, old_fps[k], fps@[k]) by {
                if k < j {
                    assert(fps@[k] == before_fps[k]);
                } else {
                    assert(old_fps[k] == f);
                    assert(walk_minutes.ensures((i, old_fps[k].target_location_idx), dur));
                }
            }
            j = j + 1;
        }
        let ghost new_fps = fps@;
        stations[i].footpaths = fps;
        stations[i].transfer_time = 1;
        assert(stations@[i as int].footpaths@ == new_fps);
        assert forall|k: int| #![trigger stations@[i as int].footpaths@[k]] 0 <= k < new_fps.len() implies footpath_shortened(*walk_minutes, (i as int) as usize, old_stations[i as int].footpaths@[k], stations@[i as int].footpaths@[k]) by {
            assert(new_fps[k] == stations@[i as int].footpaths@[k]);
        }
        i = i + 1;
    }
    proof {
        assert forall|i: int, j: int|
            #![trigger stations@[i].footpaths@[j]]
            0 <= i < stations@.len() && 0 <= j < stations@[i].footpaths@.len() implies {
                &&& stations@[i].footpaths@[j].duration <= old_stations[i].footpaths@[j].duration
                &&& exists|w: u16|
                    #[trigger] walk_minutes.ensures((i as usize, old_stations[i].footpaths@[j].target_location_idx), w)
                        && stations@[i].footpaths@[j].duration == (if (if w < 1 { 1 } else { w })
                        < old_stations[i].footpaths@[j].duration {
                        (if w < 1 { 1 } else { w })
                    } else {
                        old_stations[i].footpaths@[j].duration
                    })
            } by {
            let f = old_stations[i].footpaths@[j];
            let g = stations@[i].footpaths@[j];
            assert(footpath_shortened(*walk_minutes, i as usize, f, g));
            let d = choose|d: u16| #[trigger] walk_minutes.ensures((i as usize, f.target_location_idx), d) && g.duration == capped_duration(d, f.duration);
            lemma_capped_duration(d, f.duration);
        }
    }
}

/// The footpaths from station `i` to every other station that `walk_minutes`
/// puts within walking distance, in station order.
pub fn create_quadratic_footpaths<F>(stations: &mut Vec<Station>, walk_minutes: &F) where F: Fn(usize, usize) -> Option<u16>
    requires
        forall|a: usize, b: usize| walk_minutes.requires((a, b)),
    ensures
        final(stations)@.len() == old(stations)@.len(),
        forall|i: int|
            #![trigger final(stations)@[i]]
            0 <= i < final(stations)@.len() ==> {
                let old_fps = old(stations)@[i].footpaths@;
                let fps = final(stations)@[i].footpaths@;
                &&& final(stations)@[i].transfer_time == 1
                &&& fps.len() >= old_fps.len()
                &&& fps.subrange(0, old_fps.len() as int) == old_fps
                &&& forall|k: int|
                    #![trigger fps[k]]
                    old_fps.len() <= k < fps.len() ==> fps[k].target_location_idx < final(stations)@.len()
                        && fps[k].target_location_idx != i
                        && walk_minutes.ensures((i as usize, fps[k].target_location_idx), Some(fps[k].duration))
                &&& forall|k1: int, k2: int|
                    #![trigger fps[k1], fps[k2]]
                    old_fps.len() <= k1 < k2 < fps.len() ==> fps[k1].target_location_idx < fps[k2].target_location_idx
                &&& forall|j: usize|
                    j < final(stations)@.len() && j != i && !(exists|k: int| old_fps.len() <= k < fps.len() && fps[k].target_location_idx == j)
                        ==> #[trigger] walk_minutes.ensures((i as usize, j), None)
                &&& final(stations)@[i].id == old(stations)@[i].id
                &&& final(stations)@[i].name == old(stations)@[i].name
                &&& final(stations)@[i].arrivals == old(stations)@[i].arrivals
                &&& final(stations)@[i].departures == old(stations)@[i].departures
                &&& final(stations)@[i].parent_idx == old(stations)@[i].parent_idx
            },
{
    let ghost old_stations = stations@;
    let n = stations.len();
    let mut i: usize = 0;
    while i < n
        invariant
            n == stations@.len(),
            i <= n,
            stations@.len() == old_stations.len(),
            forall|a: usize, b: usize| walk_minutes.requires((a, b)),
            forall|t: int| #![trigger stations@[t]] i <= t < n ==> stations@[t] == old_stations[t],
            forall|t: int|
                #![trigger stations@[t]]
                0 <= t < i ==> {
                    let old_fps = old_stations[t].footpaths@;
                    let fps = stations@[t].footpaths@;
                    &&& stations@[t].transfer_time == 1
                    &&& fps.len() >= old_fps.len()
                    &&& fps.subrange(0, old_fps.len() as int) == old_fps
                    &&& forall|k: int|
                        #![trigger fps[k]]
                        old_fps.len() <= k < fps.len() ==> fps[k].target_location_idx < n
                            && fps[k].target_location_idx != t
                            && walk_minutes.ensures((t as usize, fps[k].target_location_idx), Some(fps[k].duration))
                    &&& forall|k1: int, k2: int|
                        #![trigger fps[k1], fps[k2]]
                        old_fps.len() <= k1 < k2 < fps.len() ==> fps[k1].target_location_idx < fps[k2].target_location_idx
                    &&& forall|j: usize|
                        j < n && j != t && !(exists|k: int| old_fps.len() <= k < fps.len() && fps[k].target_location_idx == j)
                            ==> #[trigger] walk_minutes.ensures((t as usize, j), None)
                    &&& stations@[t].id == old_stations[t].id
                    &&& stations@[t].name == old_stations[t].name
                    &&& stations@[t].arrivals == old_stations[t].arrivals
                    &&& stations@[t].departures == old_stations[t].departures
                    &&& stations@[t].parent_idx == old_stations[t].parent_idx
                },
        decreases n - i,
    {
        let mut fps = stations[i].footpaths.clone();
        let ghost old_fps = fps@;
        assert(old_fps == old_stations[i as int].footpaths@);
        let mut j: usize = 0;
        while j < n
            invariant
                j <= n,
                fps@.len() >= old_fps.len(),
                fps@.subrange(0, old_fps.len() as int) == old_fps,
                forall|a: usize, b: usize| walk_minutes.requires((a, b)),
                forall|k: int|
                    #![trigger fps@[k]]
                    old_fps.len() <= k < fps@.len() ==> fps@[k].target_location_idx < j
                        && fps@[k].target_location_idx != i
                        && walk_minutes.ensures((i, fps@[k].target_location_idx), Some(fps@[k].duration)),
                forall|k1: int, k2: int|
                    #![trigger fps@[k1], fps@[k2]]
                    old_fps.len() <= k1 < k2 < fps@.len() ==> fps@[k1].target_location_idx < fps@[k2].target_location_idx,
                forall|jj: usize|
                    jj < j && jj != i && !(exists|k: int| old_fps.len() <= k < fps@.len() && fps@[k].target_location_idx == jj)
                        ==> #[trigger] walk_minutes.ensures((i, jj), None),
            decreases n - j,
        {
            let ghost before_fps = fps@;
            let ghost before_len = fps@.len() as int;
            if i != j {
                let w = walk_minutes(i, j);
                match w {
                    Some(d) => {
                        let ghost before = fps@;
                        fps.push(Footpath { target_location_idx: j, duration: d });
                        assert(fps@.subrange(0, old_fps.len() as int) =~= before.subrange(0, old_fps.len() as int));
                        assert(fps@[fps@.len() - 1].target_location_idx == j);
                    },
                    None => {},
                }
            }
            assert forall|jj: usize|
                jj < j + 1 && jj != i && !(exists|k: int| old_fps.len() <= k < fps@.len() && fps@[k].target_location_idx == jj)
                    implies #[trigger] walk_minutes.ensures((i, jj), None) by {
                if jj < j {
                    assert(!(exists|k: int| old_fps.len() <= k < before_len && before_fps[k].target_location_idx == jj)) by {
                        if exists|k: int| old_fps.len() <= k < before_len && before_fps[k].target_location_idx == jj {
                            let k = choose|k: int| old_fps.len() <= k < before_len && before_fps[k].target_location_idx == jj;
                            assert(fps@[k] == before_fps[k]);
                        }
                    }
                }
            }
            j = j + 1;
        }
        stations[i].footpaths = fps;
        stations[i].transfer_time = 1;
        i = i + 1;
    }
}

/// Arrival time at the footpath target for the `j`-th departure there.
pub open spec fn initial_walk_arrival(conns: Seq<Connection>, stations: Seq<Station>, origin: int, i: int, j: int) -> int {
    let f = stations[origin].footpaths@[i];
    let cid = stations[f.target_location_idx as int].departures@[j];
    conns[cid as int].departure.projected_spec() - WALKING_INITIAL_BUFFER_MINUTES
}

/// Departure time at the origin for the `j`-th departure at the target of footpath `i`.
pub open spec fn initial_walk_departure(conns: Seq<Connection>, stations: Seq<Station>, origin: int, i: int, j: int) -> int {
    let f = stations[origin].footpaths@[i];
    initial_walk_arrival(conns, stations, origin, i, j) - (if f.duration < 1 { 1int } else { f.duration as int })
}

/// `c` is the walking connection with id `id` from `origin` along its `i`-th
/// footpath that reaches the target `WALKING_INITIAL_BUFFER_MINUTES` before
/// the `j`-th departure there.
pub open spec fn is_initial_walk(c: Connection, conns: Seq<Connection>, stations: Seq<Station>, origin: int, i: int, j: int, id: int) -> bool {
    let f = stations[origin].footpaths@[i];
    let cid = stations[f.target_location_idx as int].departures@[j];
    &&& c.id == id
    &&& c.route_idx == id
    &&& c.trip_id == cid as i32
    &&& c.product_type == WALKING_PRODUCT_TYPE
    &&& c.from_idx == origin
    &&& c.to_idx == f.target_location_idx
    &&& c.message@ == WALKING_MSG@
    &&& c.arrival.scheduled == initial_walk_arrival(conns, stations, origin, i, j)
    &&& c.arrival.delay is None
    &&& c.arrival.in_out_allowed
    &&& c.departure.scheduled == initial_walk_departure(conns, stations, origin, i, j)
    &&& c.departure.delay is None
    &&& !c.departure.in_out_allowed
}

/// `arr` is `old_arr` followed by the ids from `n0` on, in increasing order,
/// of exactly those connections of `conns` that arrive at station `s`.
pub open spec fn arrivals_extended(old_arr: Seq<usize>, arr: Seq<usize>, conns: Seq<Connection>, n0: int, s: int) -> bool {
    &&& arr.len() >= old_arr.len()
    &&& arr.subrange(0, old_arr.len() as int) == old_arr
    &&& forall|m: int|
        #![trigger arr[m]]
        old_arr.len() <= m < arr.len() ==> n0 <= arr[m] < conns.len() && conns[arr[m] as int].to_idx == s
    &&& forall|m1: int, m2: int|
        #![trigger arr[m1], arr[m2]]
        old_arr.len() <= m1 < m2 < arr.len() ==> arr[m1] < arr[m2]
    &&& forall|k: int|
        #![trigger conns[k]]
        n0 <= k < conns.len() && conns[k].to_idx == s ==> exists|m: int|
            old_arr.len() <= m < arr.len() && arr[m] == k
}

/// The `j`-th departure at the target of the `i`-th footpath of `origin` gets a
/// walking connection: both exist and the walk would not start before time zero.
pub open spec fn valid_initial_walk(conns: Seq<Connection>, stations: Seq<Station>, origin: int, i: int, j: int) -> bool {
    let fps = stations[origin].footpaths@;
    &&& 0 <= i < fps.len()
    &&& 0 <= j < stations[fps[i].target_location_idx as int].departures@.len()
    &&& initial_walk_departure(conns, stations, origin, i, j) >= 0
}

/// No footpath of `origin` that leads back to `origin` comes after a footpath
/// that gets a walking connection: its departures are read while the walks
/// already built are registered at `origin` but not yet stored.
pub open spec fn self_footpaths_unaffected(conns: Seq<Connection>, stations: Seq<Station>, origin: int) -> bool {
    forall|f: int, a: int, b: int|
        #![trigger stations[origin].footpaths@[f], valid_initial_walk(conns, stations, origin, a, b)]
        0 <= a < f < stations[origin].footpaths@.len() && stations[origin].footpaths@[f].target_location_idx == origin
            ==> !valid_initial_walk(conns, stations, origin, a, b)
}

/// Every walk from `origin` that the initial footpaths could build starts at a
/// time that fits in an `Mtime`.
pub open spec fn initial_walks_fit(conns: Seq<Connection>, stations: Seq<Station>, origin: int) -> bool {
    forall|i: int, j: int|
        #![trigger initial_walk_departure(conns, stations, origin, i, j)]
        0 <= i < stations[origin].footpaths@.len()
            && 0 <= j < stations[stations[origin].footpaths@[i].target_location_idx as int].departures@.len()
            ==> initial_walk_departure(conns, stations, origin, i, j) >= i32::MIN
}

/// Every walk that `walk_minutes` can give from a connection's arrival
/// station ends at a time that fits in an `Mtime`.
pub open spec fn walks_fit<F: Fn(usize, usize) -> Option<u16>>(walk_minutes: F, conns: Seq<Connection>) -> bool {
    forall|p: int, s: usize, w: u16|
        #![trigger walk_minutes.ensures((conns[p].to_idx, s), Some(w))]
        0 <= p < conns.len() && walk_minutes.ensures((conns[p].to_idx, s), Some(w)) ==> conns[p].arrival.scheduled + w <= i32::MAX
}

/// Number of departures at the targets of the first `k` footpaths of `origin`.
pub open spec fn footpath_departure_total(stations: Seq<Station>, origin: int, k: int) -> int
    decreases k,
{
    if k <= 0 {
        0
    } else {
        footpath_departure_total(stations, origin, k - 1)
            + stations[stations[origin].footpaths@[k - 1].target_location_idx as int].departures@.len()
    }
}

proof fn lemma_total_monotone(stations: Seq<Station>, origin: int, a: int, b: int)
    requires
        0 <= a <= b,
    ensures
        footpath_departure_total(stations, origin, a) <= footpath_departure_total(stations, origin, b),
    decreases b - a,
{
    if a < b {
        lemma_total_monotone(stations, origin, a, b - 1);
    }
}


/// Each station of `stations` is the one of `old_stations` with the walking
/// connections of `conns` from `n0` on registered: their ids appended to the
/// departures of `origin`, and each id added to the arrivals of its target.
#[verifier::opaque]
spec fn walks_registered(old_stations: Seq<Station>, stations: Seq<Station>, conns: Seq<Connection>, n0: int, origin: int) -> bool {
    &&& stations.len() == old_stations.len()
    &&& forall|t: int|
        #![trigger stations[t]]
        0 <= t < stations.len() ==> {
            &&& stations[t].departures@ == (if t == origin {
                old_stations[t].departures@ + Seq::new((conns.len() - n0) as nat, |x: int| (n0 + x) as usize)
            } else {
                old_stations[t].departures@
            })
            &&& arrivals_extended(old_stations[t].arrivals@, stations[t].arrivals@, conns, n0, t)
            &&& stations[t].footpaths == old_stations[t].footpaths
            &&& stations[t].id == old_stations[t].id
            &&& stations[t].name == old_stations[t].name
            &&& stations[t].transfer_time == old_stations[t].transfer_time
            &&& stations[t].parent_idx == old_stations[t].parent_idx
        }
}

/// The station bookkeeping after registering one more walking connection.
proof fn lemma_arrivals_push(
    old_connections: Seq<Connection>,
    w_before: Seq<Connection>,
    w: Connection,
    old_stations: Seq<Station>,
    st_before: Seq<Station>,
    st_after: Seq<Station>,
    n0: int,
    origin: int,
    target: int,
)
    requires
        n0 == old_connections.len(),
        0 <= origin < st_before.len(),
        0 <= target < st_before.len(),
        w.to_idx == target,
        st_before.len() == old_stations.len(),
        st_after.len() == st_before.len(),
        walks_registered(old_stations, st_before, old_connections + w_before, n0, origin),
        forall|t: int|
            #![trigger st_after[t]]
            0 <= t < st_after.len() ==> {
                &&& st_after[t].departures@ == (if t == origin {
                    st_before[t].departures@.push((n0 + w_before.len()) as usize)
                } else {
                    st_before[t].departures@
                })
                &&& st_after[t].arrivals@ == (if t == target {
                    st_before[t].arrivals@.push((n0 + w_before.len()) as usize)
                } else {
                    st_before[t].arrivals@
                })
                &&& st_after[t].footpaths == st_before[t].footpaths
                &&& st_after[t].id == st_before[t].id
                &&& st_after[t].name == st_before[t].name
                &&& st_after[t].transfer_time == st_before[t].transfer_time
                &&& st_after[t].parent_idx == st_before[t].parent_idx
            },
        n0 + w_before.len() <= usize::MAX,
    ensures
        walks_registered(old_stations, st_after, old_connections + w_before.push(w), n0, origin),
{
    reveal(walks_registered);
    let cb = old_connections + w_before;
    let ca = old_connections + w_before.push(w);
    let id = n0 + w_before.len();
    assert(ca =~= cb.push(w));
    assert(ca.len() - n0 == w_before.push(w).len());
    assert(cb.len() - n0 == w_before.len());
    assert forall|t: int|
        #![trigger st_after[t]]
        0 <= t < st_after.len() implies {
            &&& st_after[t].departures@ == (if t == origin {
                old_stations[t].departures@ + Seq::new(w_before.push(w).len(), |x: int| (n0 + x) as usize)
            } else {
                old_stations[t].departures@
            })
            &&& arrivals_extended(old_stations[t].arrivals@, st_after[t].arrivals@, ca, n0, t)
            &&& st_after[t].footpaths == old_stations[t].footpaths
            &&& st_after[t].id == old_stations[t].id
            &&& st_after[t].name == old_stations[t].name
            &&& st_after[t].transfer_time == old_stations[t].transfer_time
            &&& st_after[t].parent_idx == old_stations[t].parent_idx
        } by {
        let oa = old_stations[t].arrivals@;
        let ab = st_before[t].arrivals@;
        let aa = st_after[t].arrivals@;
        assert(arrivals_extended(oa, ab, cb, n0, t));
        if t == origin {
            assert(old_stations[t].departures@ + Seq::new(w_before.push(w).len(), |x: int| (n0 + x) as usize)
                =~= (old_stations[t].departures@ + Seq::new(w_before.len(), |x: int| (n0 + x) as usize)).push(id as usize));
        }
        if t == target {
            assert(aa.subrange(0, oa.len() as int) =~= ab.subrange(0, oa.len() as int));
            assert forall|k: int|
                #![trigger ca[k]]
                n0 <= k < ca.len() && ca[k].to_idx == t implies exists|m: int| oa.len() <= m < aa.len() && aa[m] == k by {
                if k < cb.len() {
                    assert(ca[k] == cb[k]);
                    let m = choose|m: int| oa.len() <= m < ab.len() && ab[m] == k;
                    assert(aa[m] == k);
                } else {
                    assert(aa[aa.len() - 1] == k);
                }
            }
            assert forall|m: int|
                #![trigger aa[m]]
                oa.len() <= m < aa.len() implies n0 <= aa[m] < ca.len() && ca[aa[m] as int].to_idx == t by {
                if m < ab.len() {
                    assert(aa[m] == ab[m]);
                    assert(ca[ab[m] as int] == cb[ab[m] as int]);
                }
            }
            assert forall|m1: int, m2: int|
                #![trigger aa[m1], aa[m2]]
                oa.len() <= m1 < m2 < aa.len() implies aa[m1] < aa[m2] by {
                assert(aa[m1] == ab[m1]);
                if m2 < ab.len() {
                    assert(aa[m2] == ab[m2]);
                }
            }
        } else {
            assert(aa == ab);
            assert forall|k: int|
                #![trigger ca[k]]
                n0 <= k < ca.len() && ca[k].to_idx == t implies exists|m: int| oa.len() <= m < aa.len() && aa[m] == k by {
                if k < cb.len() {
                    assert(ca[k] == cb[k]);
                }
            }
            assert forall|m: int|
                #![trigger aa[m]]
                oa.len() <= m < aa.len() implies n0 <= aa[m] < ca.len() && ca[aa[m] as int].to_idx == t by {
                assert(ca[aa[m] as int] == cb[aa[m] as int]);
            }
        }
    }
}

/// Builds the walking connections from `origin_idx` along its footpaths, with
/// ids following those of `connections`, and registers them at their stations.
fn build_initial_walks(origin_idx: usize, stations: &mut Vec<Station>, connections: &Vec<Connection>)
    -> (r: (Vec<Connection>, Ghost<Seq<(int, int)>>, Ghost<Map<(int, int), int>>))
    requires
        origin_idx < old(stations)@.len(),
        forall|f: int|
            #![trigger old(stations)@[origin_idx as int].footpaths@[f]]
            0 <= f < old(stations)@[origin_idx as int].footpaths@.len()
                ==> old(stations)@[origin_idx as int].footpaths@[f].target_location_idx < old(stations)@.len(),
        forall|s: int, k: int|
            #![trigger old(stations)@[s].departures@[k]]
            0 <= s < old(stations)@.len() && 0 <= k < old(stations)@[s].departures@.len()
                ==> old(stations)@[s].departures@[k] < connections@.len(),
        forall|p: int| #![trigger connections@[p]] 0 <= p < connections@.len() ==> connections@[p].departure.projection_fits(),
        initial_walks_fit(connections@, old(stations)@, origin_idx as int),
        self_footpaths_unaffected(connections@, old(stations)@, origin_idx as int),
        connections@.len() + footpath_departure_total(
            old(stations)@,
            origin_idx as int,
            old(stations)@[origin_idx as int].footpaths@.len() as int,
        ) <= usize::MAX,
    ensures
        ({
            let (w, cands, idx_of) = r;
            let n0 = connections@.len() as int;
            let origin = origin_idx as int;
            &&& n0 + w@.len() <= usize::MAX
            &&& cands@.len() == w@.len()
            &&& forall|k: int|
                #![trigger cands@[k]]
                0 <= k < cands@.len() ==> valid_initial_walk(connections@, old(stations)@, origin, cands@[k].0, cands@[k].1)
                    && is_initial_walk(w@[k], connections@, old(stations)@, origin, cands@[k].0, cands@[k].1, n0 + k)
            &&& forall|a: int, b: int|
                #[trigger] valid_initial_walk(connections@, old(stations)@, origin, a, b)
                    ==> idx_of@.contains_key((a, b)) && 0 <= idx_of@[(a, b)] < cands@.len() && cands@[idx_of@[(a, b)]] == (a, b)
            &&& walks_registered(old(stations)@, final(stations)@, connections@ + w@, n0, origin)
        }),
{
    let ghost old_stations = stations@;
    let ghost old_connections = connections@;
    let ghost origin = origin_idx as int;
    let ghost fps = old_stations[origin].footpaths@;
    let n0 = connections.len();
    let n_fps = stations[origin_idx].footpaths.len();
    let mut walking_connections: Vec<Connection> = Vec::new();
    let ghost mut cands: Seq<(int, int)> = Seq::empty();
    let ghost mut idx_of: Map<(int, int), int> = Map::empty();
    assert(walks_registered(old_stations, stations@, old_connections + walking_connections@, n0 as int, origin)) by {
        reveal(walks_registered);
        assert(old_connections + walking_connections@ =~= old_connections);
        assert forall|t: int| #![trigger stations@[t]] 0 <= t < stations@.len() implies {
            &&& stations@[t].departures@ == (if t == origin {
                old_stations[t].departures@ + Seq::new(0, |x: int| (n0 + x) as usize)
            } else {
                old_stations[t].departures@
            })
            &&& arrivals_extended(old_stations[t].arrivals@, stations@[t].arrivals@, old_connections, n0 as int, t)
        } by {
            assert(old_stations[t].departures@ + Seq::new(0, |x: int| (n0 + x) as usize) =~= old_stations[t].departures@);
            assert(stations@[t].arrivals@.subrange(0, old_stations[t].arrivals@.len() as int) =~= old_stations[t].arrivals@);
        }
    }
    let mut i: usize = 0;
    while i < n_fps
        invariant
            n0 == old_connections.len(),
            connections@ == old_connections,
            origin_idx < old_stations.len(),
            origin == origin_idx as int,
            fps == old_stations[origin].footpaths@,
            n_fps == fps.len(),
            i <= n_fps,
            forall|f: int| #![trigger fps[f]] 0 <= f < fps.len() ==> fps[f].target_location_idx < old_stations.len(),
            self_footpaths_unaffected(old_connections, old_stations, origin),
            forall|k: int| #![trigger cands[k]] 0 <= k < cands.len() ==> cands[k].0 < i,
            forall|t: int, k: int|
                #![trigger old_stations[t].departures@[k]]
                0 <= t < old_stations.len() && 0 <= k < old_stations[t].departures@.len()
                    ==> old_stations[t].departures@[k] < n0,
            forall|p: int| #![trigger old_connections[p]] 0 <= p < n0 ==> old_connections[p].departure.projection_fits(),
            initial_walks_fit(old_connections, old_stations, origin),
            n0 + footpath_departure_total(old_stations, origin, fps.len() as int) <= usize::MAX,
            walking_connections@.len() <= footpath_departure_total(old_stations, origin, i as int),
            cands.len() == walking_connections@.len(),
            forall|k: int|
                #![trigger cands[k]]
                0 <= k < cands.len() ==> valid_initial_walk(old_connections, old_stations, origin, cands[k].0, cands[k].1)
                    && is_initial_walk(walking_connections@[k], old_connections, old_stations, origin, cands[k].0, cands[k].1, n0 + k),
            forall|a: int, b: int|
                0 <= a < i && #[trigger] valid_initial_walk(old_connections, old_stations, origin, a, b)
                    ==> idx_of.contains_key((a, b)) && 0 <= idx_of[(a, b)] < cands.len() && cands[idx_of[(a, b)]] == (a, b),
            walks_registered(old_stations, stations@, old_connections + walking_connections@, n0 as int, origin),
        decreases n_fps - i,
    {
        assert(stations@.len() == old_stations.len() && stations@[origin].footpaths == old_stations[origin].footpaths) by {
            reveal(walks_registered);
        }
        let f = stations[origin_idx].footpaths[i];
        assert(f == fps[i as int]);
        let target_idx = f.target_location_idx;
        let duration = f.duration;
        assert(stations@[target_idx as int].departures@ == old_stations[target_idx as int].departures@) by {
            reveal(walks_registered);
            if target_idx == origin_idx && walking_connections@.len() > 0 {
                assert(cands[0].0 < i);
                assert(fps[i as int].target_location_idx == origin_idx);
                assert(valid_initial_walk(old_connections, old_stations, origin, cands[0].0, cands[0].1));
                assert(false);
            }
            if target_idx == origin_idx {
                assert(old_stations[target_idx as int].departures@ + Seq::new((walking_connections@.len()) as nat, |x: int| (n0 + x) as usize)
                    =~= old_stations[target_idx as int].departures@);
            }
        }
        let nd = stations[target_idx].departures.len();
        let mut j: usize = 0;
        while j < nd
            invariant
                n0 == old_connections.len(),
                connections@ == old_connections,
                origin_idx < old_stations.len(),
                origin == origin_idx as int,
                fps == old_stations[origin].footpaths@,
                n_fps == fps.len(),
                i < n_fps,
                f == fps[i as int],
                target_idx == f.target_location_idx,
                duration == f.duration,
                target_idx < old_stations.len(),
                forall|k: int| #![trigger cands[k]] 0 <= k < cands.len() ==> cands[k].0 <= i,
                nd == old_stations[target_idx as int].departures@.len(),
                j <= nd,
                forall|t: int, k: int|
                    #![trigger old_stations[t].departures@[k]]
                    0 <= t < old_stations.len() && 0 <= k < old_stations[t].departures@.len()
                        ==> old_stations[t].departures@[k] < n0,
                forall|p: int| #![trigger old_connections[p]] 0 <= p < n0 ==> old_connections[p].departure.projection_fits(),
                initial_walks_fit(old_connections, old_stations, origin),
                n0 + footpath_departure_total(old_stations, origin, fps.len() as int) <= usize::MAX,
                walking_connections@.len() <= footpath_departure_total(old_stations, origin, i as int) + j,
                cands.len() == walking_connections@.len(),
                forall|k: int|
                    #![trigger cands[k]]
                    0 <= k < cands.len() ==> valid_initial_walk(old_connections, old_stations, origin, cands[k].0, cands[k].1)
                        && is_initial_walk(walking_connections@[k], old_connections, old_stations, origin, cands[k].0, cands[k].1, n0 + k),
                forall|a: int, b: int|
                    (0 <= a < i || (a == i && b < j)) && #[trigger] valid_initial_walk(old_connections, old_stations, origin, a, b)
                        ==> idx_of.contains_key((a, b)) && 0 <= idx_of[(a, b)] < cands.len() && cands[idx_of[(a, b)]] == (a, b),
                walks_registered(old_stations, stations@, old_connections + walking_connections@, n0 as int, origin),
            decreases nd - j,
        {
            proof {
                lemma_total_monotone(old_stations, origin, i as int + 1, fps.len() as int);
                assert(footpath_departure_total(old_stations, origin, i as int + 1)
                    == footpath_departure_total(old_stations, origin, i as int) + nd);
            }
            let id = n0 + walking_connections.len();
            assert(stations@.len() == old_stations.len()
                && j < stations@[target_idx as int].departures@.len()
                && stations@[target_idx as int].departures@[j as int] == old_stations[target_idx as int].departures@[j as int]) by {
                reveal(walks_registered);
            }
            let cid = stations[target_idx].departures[j];
            assert(cid < n0);
            assert(old_connections[cid as int].departure.projection_fits());
            assert(initial_walk_departure(old_connections, old_stations, origin, i as int, j as int) >= i32::MIN);
            let c = &connections[cid];
            let arrival = StopInfo::new(c.departure.projected() - WALKING_INITIAL_BUFFER_MINUTES, None);
            let mut departure = arrival.clone();
            let walk: u16 = if duration < 1 { 1 } else { duration };
            departure.scheduled = departure.scheduled - walk as i32;
            assert(arrival.scheduled == initial_walk_arrival(old_connections, old_stations, origin, i as int, j as int));
            assert(departure.scheduled == initial_walk_departure(old_connections, old_stations, origin, i as int, j as int));
            if departure.projected() < 0 {
                assert(!valid_initial_walk(old_connections, old_stations, origin, i as int, j as int));
                j = j + 1;
                continue;
            }
            departure.in_out_allowed = false;
            let ghost st_before = stations@;
            let ghost w_before = walking_connections@;
            stations[origin_idx].departures.push(id);
            stations[target_idx].arrivals.push(id);
            let w = Connection {
                id,
                route_idx: id,
                trip_id: cid as i32,
                product_type: WALKING_PRODUCT_TYPE,
                from_idx: origin_idx,
                to_idx: target_idx,
                departure,
                arrival,
                message: WALKING_MSG.to_string(),
            };
            assert(is_initial_walk(w, old_connections, old_stations, origin, i as int, j as int, n0 + w_before.len()));
            walking_connections.push(w);
            proof {
                cands = cands.push((i as int, j as int));
                idx_of = idx_of.insert((i as int, j as int), (cands.len() - 1) as int);
                lemma_arrivals_push(old_connections, w_before, w, old_stations, st_before, stations@, n0 as int, origin, target_idx as int);
            }
            j = j + 1;
        }
        i = i + 1;
    }
    proof {
        lemma_total_monotone(old_stations, origin, i as int, fps.len() as int);
    }
    (walking_connections, Ghost(cands), Ghost(idx_of))
}

/// `c` is the walking connection with id `k` for some valid pair of a footpath
/// of `origin` and a departure at its target.
pub open spec fn is_some_initial_walk(c: Connection, old_conns: Seq<Connection>, old_stations: Seq<Station>, origin: int, k: int) -> bool {
    exists|i: int, j: int|
        valid_initial_walk(old_conns, old_stations, origin, i, j)
            && #[trigger] is_initial_walk(c, old_conns, old_stations, origin, i, j, k)
}

/// What `create_materialized_initial_footpaths` leaves behind: `conns` is
/// `old_conns` followed by exactly one walking connection (`is_initial_walk`)
/// per valid footpath and departure pair, each station keeps its data, the
/// origin's departures gain the new ids, each target's arrivals gain the ids
/// of the walks that reach it, and every station's departures are ordered by
/// projected departure.
pub open spec fn initial_walks_materialized(
    old_conns: Seq<Connection>,
    old_stations: Seq<Station>,
    conns: Seq<Connection>,
    stations: Seq<Station>,
    origin: int,
) -> bool {
    let n0 = old_conns.len() as int;
    &&& conns.len() >= n0
    &&& conns.subrange(0, n0) == old_conns
    &&& forall|k: int|
        #![trigger conns[k]]
        n0 <= k < conns.len() ==> is_some_initial_walk(conns[k], old_conns, old_stations, origin, k)
    &&& forall|i: int, j: int|
        #[trigger] valid_initial_walk(old_conns, old_stations, origin, i, j)
            ==> exists|k: int| n0 <= k < conns.len()
                && #[trigger] is_initial_walk(conns[k], old_conns, old_stations, origin, i, j, k)
    &&& stations.len() == old_stations.len()
    &&& forall|s: int|
        #![trigger stations[s]]
        0 <= s < stations.len() ==> {
            &&& stations[s].departures@.to_multiset() == (if s == origin {
                old_stations[s].departures@ + Seq::new((conns.len() - n0) as nat, |x: int| (n0 + x) as usize)
            } else {
                old_stations[s].departures@
            }).to_multiset()
            &&& forall|a: int, b: int|
                0 <= a <= b < stations[s].departures@.len()
                    ==> conns[stations[s].departures@[a] as int].departure.projected_spec()
                    <= conns[stations[s].departures@[b] as int].departure.projected_spec()
            &&& arrivals_extended(old_stations[s].arrivals@, stations[s].arrivals@, conns, n0, s)
            &&& stations[s].footpaths == old_stations[s].footpaths
            &&& stations[s].id == old_stations[s].id
            &&& stations[s].name == old_stations[s].name
            &&& stations[s].transfer_time == old_stations[s].transfer_time
            &&& stations[s].parent_idx == old_stations[s].parent_idx
        }
}

/// The walking connections have projected departures in range.
proof fn lemma_initial_walks_in_range(
    old_conns: Seq<Connection>,
    old_stations: Seq<Station>,
    w: Seq<Connection>,
    cands: Seq<(int, int)>,
    origin: int,
)
    requires
        0 <= origin < old_stations.len(),
        forall|f: int|
            #![trigger old_stations[origin].footpaths@[f]]
            0 <= f < old_stations[origin].footpaths@.len()
                ==> old_stations[origin].footpaths@[f].target_location_idx < old_stations.len(),
        forall|t: int, k: int|
            #![trigger old_stations[t].departures@[k]]
            0 <= t < old_stations.len() && 0 <= k < old_stations[t].departures@.len()
                ==> old_stations[t].departures@[k] < old_conns.len(),
        forall|p: int| #![trigger old_conns[p]] 0 <= p < old_conns.len() ==> old_conns[p].departure.projection_fits(),
        cands.len() == w.len(),
        forall|k: int|
            #![trigger cands[k]]
            0 <= k < cands.len() ==> valid_initial_walk(old_conns, old_stations, origin, cands[k].0, cands[k].1)
                && is_initial_walk(w[k], old_conns, old_stations, origin, cands[k].0, cands[k].1, old_conns.len() + k),
    ensures
        forall|q: int| #![trigger (old_conns + w)[q]] 0 <= q < (old_conns + w).len() ==> (old_conns + w)[q].departure.projection_fits(),
{
    let n0 = old_conns.len() as int;
    assert forall|q: int| #![trigger (old_conns + w)[q]] 0 <= q < (old_conns + w).len() implies (old_conns + w)[q].departure.projection_fits() by {
        if q >= n0 {
            let k = q - n0;
            assert(valid_initial_walk(old_conns, old_stations, origin, cands[k].0, cands[k].1));
            let f = old_stations[origin].footpaths@[cands[k].0];
            let cid = old_stations[f.target_location_idx as int].departures@[cands[k].1];
            assert(old_conns[cid as int].departure.projection_fits());
        }
    }
}

/// The result of building, appending and sorting is `initial_walks_materialized`.
proof fn lemma_initial_walks_done(
    old_conns: Seq<Connection>,
    old_stations: Seq<Station>,
    w: Seq<Connection>,
    cands: Seq<(int, int)>,
    idx_of: Map<(int, int), int>,
    st_built: Seq<Station>,
    stations: Seq<Station>,
    origin: int,
)
    requires
        cands.len() == w.len(),
        forall|k: int|
            #![trigger cands[k]]
            0 <= k < cands.len() ==> valid_initial_walk(old_conns, old_stations, origin, cands[k].0, cands[k].1)
                && is_initial_walk(w[k], old_conns, old_stations, origin, cands[k].0, cands[k].1, old_conns.len() + k),
        forall|a: int, b: int|
            #[trigger] valid_initial_walk(old_conns, old_stations, origin, a, b)
                ==> idx_of.contains_key((a, b)) && 0 <= idx_of[(a, b)] < cands.len() && cands[idx_of[(a, b)]] == (a, b),
        walks_registered(old_stations, st_built, old_conns + w, old_conns.len() as int, origin),
        stations.len() == st_built.len(),
        forall|s: int|
            #![trigger stations[s]]
            0 <= s < stations.len() ==> {
                &&& stations[s].departures@.to_multiset() == st_built[s].departures@.to_multiset()
                &&& forall|a: int, b: int|
                    0 <= a <= b < stations[s].departures@.len()
                        ==> (old_conns + w)[stations[s].departures@[a] as int].departure.projected_spec()
                        <= (old_conns + w)[stations[s].departures@[b] as int].departure.projected_spec()
                &&& stations[s].id == st_built[s].id
                &&& stations[s].name == st_built[s].name
                &&& stations[s].arrivals == st_built[s].arrivals
                &&& stations[s].transfer_time == st_built[s].transfer_time
                &&& stations[s].parent_idx == st_built[s].parent_idx
                &&& stations[s].footpaths == st_built[s].footpaths
            },
    ensures
        initial_walks_materialized(old_conns, old_stations, old_conns + w, stations, origin),
{
    reveal(walks_registered);
    let n0 = old_conns.len() as int;
    let conns = old_conns + w;
    assert(conns.subrange(0, n0) =~= old_conns);
    assert forall|k: int|
        #![trigger conns[k]]
        n0 <= k < conns.len() implies is_some_initial_walk(conns[k], old_conns, old_stations, origin, k) by {
        assert(conns[k] == w[k - n0]);
        assert(valid_initial_walk(old_conns, old_stations, origin, cands[k - n0].0, cands[k - n0].1));
        assert(is_initial_walk(conns[k], old_conns, old_stations, origin, cands[k - n0].0, cands[k - n0].1, k));
    }
    assert forall|a: int, b: int|
        #[trigger] valid_initial_walk(old_conns, old_stations, origin, a, b)
            implies exists|k: int| n0 <= k < conns.len()
                && #[trigger] is_initial_walk(conns[k], old_conns, old_stations, origin, a, b, k) by {
        let k = idx_of[(a, b)];
        assert(conns[n0 + k] == w[k]);
        assert(is_initial_walk(conns[n0 + k], old_conns, old_stations, origin, a, b, n0 + k));
    }
    assert forall|s: int|
        #![trigger stations[s]]
        0 <= s < stations.len() implies {
            &&& stations[s].departures@.to_multiset() == (if s == origin {
                old_stations[s].departures@ + Seq::new((conns.len() - n0) as nat, |x: int| (n0 + x) as usize)
            } else {
                old_stations[s].departures@
            }).to_multiset()
            &&& forall|a: int, b: int|
                0 <= a <= b < stations[s].departures@.len()
                    ==> conns[stations[s].departures@[a] as int].departure.projected_spec()
                    <= conns[stations[s].departures@[b] as int].departure.projected_spec()
            &&& arrivals_extended(old_stations[s].arrivals@, stations[s].arrivals@, conns, n0, s)
            &&& stations[s].footpaths == old_stations[s].footpaths
            &&& stations[s].id == old_stations[s].id
            &&& stations[s].name == old_stations[s].name
            &&& stations[s].transfer_time == old_stations[s].transfer_time
            &&& stations[s].parent_idx == old_stations[s].parent_idx
        } by {
        assert(st_built[s].arrivals == stations[s].arrivals);
        assert(st_built[s].departures@ == (if s == origin {
                old_stations[s].departures@ + Seq::new((conns.len() - n0) as nat, |x: int| (n0 + x) as usize)
            } else {
                old_stations[s].departures@
            }));
    }
    assert(stations.len() == old_stations.len());
}

/// Materialises walking from `origin` to each stop reachable by footpath: for
/// every departure at such a stop, a walking connection that arrives there
/// `WALKING_INITIAL_BUFFER_MINUTES` before the departure, unless it would have
/// to start before time zero. The new connections are appended (their ids
/// are their positions), registered at their stations, and every station's
/// departures are then sorted by projected departure.
pub fn create_materialized_initial_footpaths(origin_idx: usize, stations: &mut Vec<Station>, connections: &mut Vec<Connection>)
    requires
        origin_idx < old(stations)@.len(),
        forall|f: int|
            #![trigger old(stations)@[origin_idx as int].footpaths@[f]]
            0 <= f < old(stations)@[origin_idx as int].footpaths@.len()
                ==> old(stations)@[origin_idx as int].footpaths@[f].target_location_idx < old(stations)@.len(),
        forall|s: int, k: int|
            #![trigger old(stations)@[s].departures@[k]]
            0 <= s < old(stations)@.len() && 0 <= k < old(stations)@[s].departures@.len()
                ==> old(stations)@[s].departures@[k] < old(connections)@.len(),
        forall|p: int| #![trigger old(connections)@[p]] 0 <= p < old(connections)@.len() ==> old(connections)@[p].departure.projection_fits(),
        initial_walks_fit(old(connections)@, old(stations)@, origin_idx as int),
        self_footpaths_unaffected(old(connections)@, old(stations)@, origin_idx as int),
        old(connections)@.len() + footpath_departure_total(
            old(stations)@,
            origin_idx as int,
            old(stations)@[origin_idx as int].footpaths@.len() as int,
        ) <= usize::MAX,
    ensures
        initial_walks_materialized(old(connections)@, old(stations)@, final(connections)@, final(stations)@, origin_idx as int),
{
    let ghost old_stations = stations@;
    let ghost old_connections = connections@;
    let ghost origin = origin_idx as int;
    let (mut walking_connections, Ghost(cands), Ghost(idx_of)) = build_initial_walks(origin_idx, stations, connections);
    let ghost w_final = walking_connections@;
    let ghost st_built = stations@;
    connections.append(&mut walking_connections);
    proof {
        assert(connections@ =~= old_connections + w_final);
        lemma_initial_walks_in_range(old_connections, old_stations, w_final, cands, origin);
        assert forall|t: int, k: int|
            #![trigger st_built[t].departures@[k]]
            0 <= t < st_built.len() && 0 <= k < st_built[t].departures@.len() implies st_built[t].departures@[k] < connections@.len() by {
            reveal(walks_registered);
            if t == origin && k >= old_stations[t].departures@.len() {
            } else {
                assert(st_built[t].departures@[k] == old_stations[t].departures@[k]);
            }
        }
    }
    sort_departures_by_position(stations, connections);
    proof {
        lemma_initial_walks_done(old_connections, old_stations, w_final, cands, idx_of, st_built, stations@, origin);
    }
}

/// `dep` is `old_dep` followed by the ids from `n0` on, in increasing order,
/// of exactly those connections of `conns` that depart from station `s`.
pub open spec fn departures_extended(old_dep: Seq<usize>, dep: Seq<usize>, conns: Seq<Connection>, n0: int, s: int) -> bool {
    &&& dep.len() >= old_dep.len()
    &&& dep.subrange(0, old_dep.len() as int) == old_dep
    &&& forall|m: int|
        #![trigger dep[m]]
        old_dep.len() <= m < dep.len() ==> n0 <= dep[m] < conns.len() && conns[dep[m] as int].from_idx == s
    &&& forall|m1: int, m2: int|
        #![trigger dep[m1], dep[m2]]
        old_dep.len() <= m1 < m2 < dep.len() ==> dep[m1] < dep[m2]
    &&& forall|k: int|
        #![trigger conns[k]]
        n0 <= k < conns.len() && conns[k].from_idx == s ==> exists|m: int|
            old_dep.len() <= m < dep.len() && dep[m] == k
}

/// `w` is the walking connection with id `id` that continues `c` from its
/// arrival station to station `to_idx`, taking `walk` minutes.
pub open spec fn is_walking_connection(w: Connection, c: Connection, id: int, walk: u16, to_idx: int) -> bool {
    &&& w.id == id
    &&& w.route_idx == c.route_idx
    &&& w.trip_id == c.trip_id
    &&& w.product_type == c.product_type
    &&& w.from_idx == c.to_idx
    &&& w.to_idx == to_idx
    &&& w.departure == c.arrival
    &&& w.arrival == (StopInfo { scheduled: (c.arrival.scheduled + walk) as i32, ..c.arrival })
    &&& w.message@ == WALKING_MSG@
}

/// A walking connection with id `id` from the arrival station of `c` to
/// `to_idx`, leaving when `c` arrives and taking `walk` minutes; its id is
/// added to the departures of the one station and the arrivals of the other.
pub(crate) fn create_walking_connection(c: &Connection, id: usize, new_stations: &mut Vec<Station>, walk: u16, to_idx: usize) -> (w: Connection)
    requires
        c.to_idx < old(new_stations)@.len(),
        to_idx < old(new_stations)@.len(),
        c.arrival.scheduled + walk <= i32::MAX,
    ensures
        is_walking_connection(w, *c, id as int, walk, to_idx as int),
        final(new_stations)@.len() == old(new_stations)@.len(),
        forall|t: int|
            #![trigger final(new_stations)@[t]]
            0 <= t < final(new_stations)@.len() ==> {
                &&& final(new_stations)@[t].departures@ == (if t == c.to_idx {
                    old(new_stations)@[t].departures@.push(id)
                } else {
                    old(new_stations)@[t].departures@
                })
                &&& final(new_stations)@[t].arrivals@ == (if t == to_idx {
                    old(new_stations)@[t].arrivals@.push(id)
                } else {
                    old(new_stations)@[t].arrivals@
                })
                &&& final(new_stations)@[t].footpaths == old(new_stations)@[t].footpaths
                &&& final(new_stations)@[t].id == old(new_stations)@[t].id
                &&& final(new_stations)@[t].name == old(new_stations)@[t].name
                &&& final(new_stations)@[t].transfer_time == old(new_stations)@[t].transfer_time
                &&& final(new_stations)@[t].parent_idx == old(new_stations)@[t].parent_idx
            },
{
    let mut arrival = c.arrival.clone();
    arrival.scheduled = arrival.scheduled + walk as i32;
    new_stations[c.to_idx].departures.push(id);
    new_stations[to_idx].arrivals.push(id);
    Connection {
        id,
        route_idx: c.route_idx,
        trip_id: c.trip_id,
        product_type: c.product_type,
        from_idx: c.to_idx,
        to_idx,
        departure: c.arrival.clone(),
        arrival,
        message: WALKING_MSG.to_string(),
    }
}

/// Each station of `stations` is the one of `old_stations` with the
/// connections of `conns` from `n0` on registered at their departure and
/// arrival stations.
#[verifier::opaque]
pub open spec fn connections_registered(old_stations: Seq<Station>, stations: Seq<Station>, conns: Seq<Connection>, n0: int) -> bool {
    &&& stations.len() == old_stations.len()
    &&& forall|t: int|
        #![trigger stations[t]]
        0 <= t < stations.len() ==> {
            &&& departures_extended(old_stations[t].departures@, stations[t].departures@, conns, n0, t)
            &&& arrivals_extended(old_stations[t].arrivals@, stations[t].arrivals@, conns, n0, t)
            &&& stations[t].footpaths == old_stations[t].footpaths
            &&& stations[t].id == old_stations[t].id
            &&& stations[t].name == old_stations[t].name
            &&& stations[t].transfer_time == old_stations[t].transfer_time
            &&& stations[t].parent_idx == old_stations[t].parent_idx
        }
}

pub proof fn lemma_registered_start(stations: Seq<Station>, conns: Seq<Connection>)
    ensures
        connections_registered(stations, stations, conns, conns.len() as int),
{
    reveal(connections_registered);
    assert forall|t: int| #![trigger stations[t]] 0 <= t < stations.len() implies {
        &&& departures_extended(stations[t].departures@, stations[t].departures@, conns, conns.len() as int, t)
        &&& arrivals_extended(stations[t].arrivals@, stations[t].arrivals@, conns, conns.len() as int, t)
    } by {
        assert(stations[t].departures@.subrange(0, stations[t].departures@.len() as int) =~= stations[t].departures@);
        assert(stations[t].arrivals@.subrange(0, stations[t].arrivals@.len() as int) =~= stations[t].arrivals@);
    }
}

/// Registering one more connection `w` (id `cb.len()`) at its departure and
/// arrival stations keeps `connections_registered`.
pub proof fn lemma_registered_push(
    old_stations: Seq<Station>,
    st_before: Seq<Station>,
    st_after: Seq<Station>,
    cb: Seq<Connection>,
    w: Connection,
    n0: int,
)
    requires
        connections_registered(old_stations, st_before, cb, n0),
        0 <= n0 <= cb.len(),
        cb.len() <= usize::MAX,
        0 <= w.from_idx < st_before.len(),
        0 <= w.to_idx < st_before.len(),
        st_after.len() == st_before.len(),
        forall|t: int|
            #![trigger st_after[t]]
            0 <= t < st_after.len() ==> {
                &&& st_after[t].departures@ == (if t == w.from_idx {
                    st_before[t].departures@.push(cb.len() as usize)
                } else {
                    st_before[t].departures@
                })
                &&& st_after[t].arrivals@ == (if t == w.to_idx {
                    st_before[t].arrivals@.push(cb.len() as usize)
                } else {
                    st_before[t].arrivals@
                })
                &&& st_after[t].footpaths == st_before[t].footpaths
                &&& st_after[t].id == st_before[t].id
                &&& st_after[t].name == st_before[t].name
                &&& st_after[t].transfer_time == st_before[t].transfer_time
                &&& st_after[t].parent_idx == st_before[t].parent_idx
            },
    ensures
        connections_registered(old_stations, st_after, cb.push(w), n0),
{
    reveal(connections_registered);
    let ca = cb.push(w);
    let id = cb.len();
    assert forall|t: int|
        #![trigger st_after[t]]
        0 <= t < st_after.len() implies {
            &&& departures_extended(old_stations[t].departures@, st_after[t].departures@, ca, n0, t)
            &&& arrivals_extended(old_stations[t].arrivals@, st_after[t].arrivals@, ca, n0, t)
        } by {
        assert(st_before[t] == st_before[t]);
        let od = old_stations[t].departures@;
        let db = st_before[t].departures@;
        let da = st_after[t].departures@;
        let oa = old_stations[t].arrivals@;
        let ab = st_before[t].arrivals@;
        let aa = st_after[t].arrivals@;
        assert(departures_extended(od, db, cb, n0, t));
        assert(arrivals_extended(oa, ab, cb, n0, t));
        if t == w.from_idx {
            assert(da.subrange(0, od.len() as int) =~= db.subrange(0, od.len() as int));
            assert forall|k: int|
                #![trigger ca[k]]
                n0 <= k < ca.len() && ca[k].from_idx == t implies exists|m: int| od.len() <= m < da.len() && da[m] == k by {
                if k < cb.len() {
                    assert(ca[k] == cb[k]);
                    let m = choose|m: int| od.len() <= m < db.len() && db[m] == k;
                    assert(da[m] == k);
                } else {
                    assert(da[da.len() - 1] == k);
                }
            }
            assert forall|m: int|
                #![trigger da[m]]
                od.len() <= m < da.len() implies n0 <= da[m] < ca.len() && ca[da[m] as int].from_idx == t by {
                if m < db.len() {
                    assert(da[m] == db[m]);
                    assert(ca[db[m] as int] == cb[db[m] as int]);
                }
            }
            assert forall|m1: int, m2: int|
                #![trigger da[m1], da[m2]]
                od.len() <= m1 < m2 < da.len() implies da[m1] < da[m2] by {
                assert(da[m1] == db[m1]);
                if m2 < db.len() {
                    assert(da[m2] == db[m2]);
                }
            }
        } else {
            assert(da == db);
            assert forall|k: int|
                #![trigger ca[k]]
                n0 <= k < ca.len() && ca[k].from_idx == t implies exists|m: int| od.len() <= m < da.len() && da[m] == k by {
                if k < cb.len() {
                    assert(ca[k] == cb[k]);
                }
            }
            assert forall|m: int|
                #![trigger da[m]]
                od.len() <= m < da.len() implies n0 <= da[m] < ca.len() && ca[da[m] as int].from_idx == t by {
                assert(ca[da[m] as int] == cb[da[m] as int]);
            }
        }
        if t == w.to_idx {
            assert(aa.subrange(0, oa.len() as int) =~= ab.subrange(0, oa.len() as int));
            assert forall|k: int|
                #![trigger ca[k]]
                n0 <= k < ca.len() && ca[k].to_idx == t implies exists|m: int| oa.len() <= m < aa.len() && aa[m] == k by {
                if k < cb.len() {
                    assert(ca[k] == cb[k]);
                    let m = choose|m: int| oa.len() <= m < ab.len() && ab[m] == k;
                    assert(aa[m] == k);
                } else {
                    assert(aa[aa.len() - 1] == k);
                }
            }
            assert forall|m: int|
                #![trigger aa[m]]
                oa.len() <= m < aa.len() implies n0 <= aa[m] < ca.len() && ca[aa[m] as int].to_idx == t by {
                if m < ab.len() {
                    assert(aa[m] == ab[m]);
                    assert(ca[ab[m] as int] == cb[ab[m] as int]);
                }
            }
            assert forall|m1: int, m2: int|
                #![trigger aa[m1], aa[m2]]
                oa.len() <= m1 < m2 < aa.len() implies aa[m1] < aa[m2] by {
                assert(aa[m1] == ab[m1]);
                if m2 < ab.len() {
                    assert(aa[m2] == ab[m2]);
                }
            }
        } else {
            assert(aa == ab);
            assert forall|k: int|
                #![trigger ca[k]]
                n0 <= k < ca.len() && ca[k].to_idx == t implies exists|m: int| oa.len() <= m < aa.len() && aa[m] == k by {
                if k < cb.len() {
                    assert(ca[k] == cb[k]);
                }
            }
            assert forall|m: int|
                #![trigger aa[m]]
                oa.len() <= m < aa.len() implies n0 <= aa[m] < ca.len() && ca[aa[m] as int].to_idx == t by {
                assert(ca[aa[m] as int] == cb[aa[m] as int]);
            }
        }
    }
}

/// `w` is a walking connection with id `k` from the arrival station of the
/// `p`-th source connection to station `s`, a stop with another id, for
/// which `walk_minutes` gave the walking time.
pub open spec fn is_quadratic_walk<F: Fn(usize, usize) -> Option<u16>>(
    walk_minutes: F,
    w: Connection,
    old_conns: Seq<Connection>,
    stations: Seq<Station>,
    s: int,
    p: int,
    k: int,
) -> bool {
    let c = old_conns[p];
    let walk = (w.arrival.scheduled - c.arrival.scheduled) as u16;
    &&& 0 <= p < old_conns.len()
    &&& 0 <= s < stations.len()
    &&& stations[c.to_idx as int].id@ != stations[s].id@
    &&& walk_minutes.ensures((c.to_idx, s as usize), Some(walk))
    &&& is_walking_connection(w, c, k, walk, s)
}

/// `conns` is `old_conns` followed by walking connections, the `k`-th of which
/// continues source connection `src[k]` to its `to_idx`: the pairs (target
/// station, source) strictly increase, and a pair of stops with different
/// ids is left out only where `walk_minutes` gave no walking time.
pub open spec fn quadratic_walks<F: Fn(usize, usize) -> Option<u16>>(
    walk_minutes: F,
    old_conns: Seq<Connection>,
    stations: Seq<Station>,
    conns: Seq<Connection>,
    src: Seq<int>,
) -> bool {
    let n0 = old_conns.len() as int;
    &&& conns.len() == n0 + src.len()
    &&& conns.subrange(0, n0) == old_conns
    &&& forall|k: int|
        #![trigger src[k]]
        0 <= k < src.len() ==> is_quadratic_walk(walk_minutes, conns[n0 + k], old_conns, stations, conns[n0 + k].to_idx as int, src[k], n0 + k)
    &&& forall|k1: int, k2: int|
        #![trigger src[k1], src[k2]]
        0 <= k1 < k2 < src.len() ==> conns[n0 + k1].to_idx < conns[n0 + k2].to_idx
            || (conns[n0 + k1].to_idx == conns[n0 + k2].to_idx && src[k1] < src[k2])
    &&& forall|s: usize, p: int|
        s < stations.len() && 0 <= p < n0 && stations[old_conns[p].to_idx as int].id@ != stations[s as int].id@
            && !(exists|k: int| 0 <= k < src.len() && conns[n0 + k].to_idx == s && src[k] == p)
            ==> #[trigger] walk_minutes.ensures((old_conns[p].to_idx, s), None)
}

/// For every station and every connection arriving at another stop, a
/// walking connection from that arrival to the station where `walk_minutes`
/// gives a walking time; the new connections are appended, station-major, and
/// registered at their stations.
pub fn create_materialized_quadratic_footpaths<F>(stations: &mut Vec<Station>, connections: &mut Vec<Connection>, walk_minutes: &F)
    where F: Fn(usize, usize) -> Option<u16>
    requires
        forall|a: usize, b: usize| walk_minutes.requires((a, b)),
        forall|p: int|
            #![trigger old(connections)@[p]]
            0 <= p < old(connections)@.len() ==> old(connections)@[p].to_idx < old(stations)@.len(),
        walks_fit(*walk_minutes, old(connections)@),
        old(connections)@.len() + old(stations)@.len() * old(connections)@.len() <= usize::MAX,
    ensures
        exists|src: Seq<int>| quadratic_walks(*walk_minutes, old(connections)@, old(stations)@, final(connections)@, src),
        connections_registered(old(stations)@, final(stations)@, final(connections)@, old(connections)@.len() as int),
{
    let ghost old_stations = stations@;
    let ghost old_conns = connections@;
    let n0 = connections.len();
    let ns = stations.len();
    let mut walking: Vec<Connection> = Vec::new();
    let ghost mut src: Seq<int> = Seq::empty();
    proof {
        lemma_registered_start(old_stations, old_conns);
        assert(old_conns + walking@ =~= old_conns);
    }
    let mut s: usize = 0;
    while s < ns
        invariant
            n0 == old_conns.len(),
            ns == old_stations.len(),
            connections@ == old_conns,
            s <= ns,
            n0 + ns * n0 <= usize::MAX,
            forall|a: usize, b: usize| walk_minutes.requires((a, b)),
            forall|p: int|
                #![trigger old_conns[p]]
                0 <= p < n0 ==> old_conns[p].to_idx < ns,
            walks_fit(*walk_minutes, old_conns),
            walking@.len() <= s * n0,
            src.len() == walking@.len(),
            forall|k: int| #![trigger walking@[k]] 0 <= k < walking@.len() ==> walking@[k].to_idx < s,
            forall|k: int|
                #![trigger walking@[k]]
                0 <= k < src.len() ==> is_quadratic_walk(*walk_minutes, walking@[k], old_conns, old_stations, walking@[k].to_idx as int, src[k], n0 + k),
            forall|k1: int, k2: int|
                #![trigger walking@[k1], walking@[k2]]
                0 <= k1 < k2 < src.len() ==> walking@[k1].to_idx < walking@[k2].to_idx
                    || (walking@[k1].to_idx == walking@[k2].to_idx && src[k1] < src[k2]),
            forall|ss: usize, p: int|
                ss < s && 0 <= p < n0 && old_stations[old_conns[p].to_idx as int].id@ != old_stations[ss as int].id@
                    && !(exists|k: int| 0 <= k < src.len() && walking@[k].to_idx == ss && src[k] == p)
                    ==> #[trigger] walk_minutes.ensures((old_conns[p].to_idx, ss), None),
            connections_registered(old_stations, stations@, old_conns + walking@, n0 as int),
        decreases ns - s,
    {
        let mut p: usize = 0;
        while p < n0
            invariant
                n0 == old_conns.len(),
                ns == old_stations.len(),
                connections@ == old_conns,
                s < ns,
                p <= n0,
                n0 + ns * n0 <= usize::MAX,
                forall|a: usize, b: usize| walk_minutes.requires((a, b)),
                forall|q: int|
                    #![trigger old_conns[q]]
                    0 <= q < n0 ==> old_conns[q].to_idx < ns,
                walks_fit(*walk_minutes, old_conns),
                walking@.len() <= s * n0 + p,
                src.len() == walking@.len(),
                forall|k: int|
                    #![trigger walking@[k]]
                    0 <= k < src.len() ==> (walking@[k].to_idx < s || (walking@[k].to_idx == s && src[k] < p))
                        && is_quadratic_walk(*walk_minutes, walking@[k], old_conns, old_stations, walking@[k].to_idx as int, src[k], n0 + k),
                forall|k1: int, k2: int|
                    #![trigger walking@[k1], walking@[k2]]
                    0 <= k1 < k2 < src.len() ==> walking@[k1].to_idx < walking@[k2].to_idx
                        || (walking@[k1].to_idx == walking@[k2].to_idx && src[k1] < src[k2]),
                forall|ss: usize, q: int|
                    (ss < s || (ss == s && q < p)) && 0 <= q < n0
                        && old_stations[old_conns[q].to_idx as int].id@ != old_stations[ss as int].id@
                        && !(exists|k: int| 0 <= k < src.len() && walking@[k].to_idx == ss && src[k] == q)
                        ==> #[trigger] walk_minutes.ensures((old_conns[q].to_idx, ss), None),
                connections_registered(old_stations, stations@, old_conns + walking@, n0 as int),
            decreases n0 - p,
        {
            proof {
                assert((s + 1) * n0 <= ns * n0) by (nonlinear_arith)
                    requires
                        s < ns,
                ;
                assert(s * n0 + n0 == (s + 1) * n0) by (nonlinear_arith);
            }
            let ghost w_before = walking@;
            let ghost src_before = src;
            let ghost st_before = stations@;
            assert(old_conns[p as int].to_idx < ns);
            assert(stations@.len() == ns
                && stations@[old_conns[p as int].to_idx as int].id == old_stations[old_conns[p as int].to_idx as int].id
                && stations@[s as int].id == old_stations[s as int].id) by {
                reveal(connections_registered);
            }
            let c = &connections[p];
            if stations[c.to_idx].id == stations[s].id {
                p = p + 1;
                continue;
            }
            match walk_minutes(c.to_idx, s) {
                Some(d) => {
                    assert(old_conns[p as int].arrival.scheduled + d <= i32::MAX);
                    let id = n0 + walking.len();
                    let w = create_walking_connection(c, id, stations, d, s);
                    proof {
                        assert((w.arrival.scheduled - c.arrival.scheduled) as u16 == d);
                        lemma_registered_push(old_stations, st_before, stations@, old_conns + w_before, w, n0 as int);
                        assert(old_conns + w_before.push(w) =~= (old_conns + w_before).push(w));
                    }
                    walking.push(w);
                    proof {
                        src = src.push(p as int);
                        assert forall|ss: usize, q: int|
                            (ss < s || (ss == s && q < p + 1)) && 0 <= q < n0
                                && old_stations[old_conns[q].to_idx as int].id@ != old_stations[ss as int].id@
                                && !(exists|k: int| 0 <= k < src.len() && walking@[k].to_idx == ss && src[k] == q)
                                implies #[trigger] walk_minutes.ensures((old_conns[q].to_idx, ss), None) by {
                            if ss == s && q == p {
                                assert(walking@[src.len() - 1].to_idx == ss && src[src.len() - 1] == q);
                            } else {
                                if exists|k: int| 0 <= k < src_before.len() && w_before[k].to_idx == ss && src_before[k] == q {
                                    let k = choose|k: int| 0 <= k < src_before.len() && w_before[k].to_idx == ss && src_before[k] == q;
                                    assert(walking@[k] == w_before[k]);
                                    assert(src[k] == src_before[k]);
                                    assert(0 <= k < src.len() && walking@[k].to_idx == ss && src[k] == q);
                                }
                            }
                        }
                    }
                },
                None => {
                    proof {
                        assert forall|ss: usize, q: int|
                            (ss < s || (ss == s && q < p + 1)) && 0 <= q < n0
                                && old_stations[old_conns[q].to_idx as int].id@ != old_stations[ss as int].id@
                                && !(exists|k: int| 0 <= k < src.len() && walking@[k].to_idx == ss && src[k] == q)
                                implies #[trigger] walk_minutes.ensures((old_conns[q].to_idx, ss), None) by {
                        }
                    }
                },
            }
            p = p + 1;
        }
        assert(s * n0 + n0 == (s + 1) * n0) by (nonlinear_arith);
        s = s + 1;
    }
    let ghost w_final = walking@;
    connections.append(&mut walking);
    proof {
        assert(connections@ =~= old_conns + w_final);
        assert(connections@.subrange(0, n0 as int) =~= old_conns);
        assert forall|k: int| #![trigger walking@[k]] 0 <= k < src.len() implies connections@[n0 + k] == w_final[k] by {}
        assert(quadratic_walks(*walk_minutes, old_conns, old_stations, connections@, src));
    }
}

} // verus!
