use vstd::prelude::*;

use rustc_hash::FxHashSet;

use crate::connection::{Connection, Station, StopInfo};
use crate::cut::{cut_clear, cut_insert};
use crate::sorting::{sort_by_keys, sorted_by_keys};
use crate::timetable::{lemma_distinct_bounded, order_wf, timetable_wf};

verus! {

/// Verdict of the probabilistic check whether a transfer from the arrival of
/// one connection to the departure of another can be made.
#[derive(Clone, Copy, Debug, PartialEq, Eq)]
pub enum Reach {
    /// The transfer is possible with a relevant probability.
    Reachable,
    /// The transfer is too unlikely; the departure is skipped.
    Unreachable,
    /// The transfer is impossible and so are all earlier departures of the
    /// same stop; the rest of that stop's departures are skipped.
    UnreachableRest,
}

/// Scan position of one connection during the depth first search: which of its
/// reachable stops (the arrival stop, then its footpaths backwards) and which
/// departure of that stop comes next, and the finishing index once done.
#[derive(Clone, Copy, Debug)]
pub struct DfsConnectionLabel {
    footpath_i: usize,
    i: usize,
    order: usize,
}

/// Counters describing one preprocessing run.
#[derive(Debug)]
pub struct Instrumentation {
    found: usize,
    encounter_1: usize,
    unraveling_time: u128,
    before_prob_time: u128,
    unraveling_no: usize,
    cycle_sum_len: usize,
    cycle_max_len: usize,
    cycle_self_count: usize,
    encounter_2: usize,
    iterations: usize,
}

impl Instrumentation {
    /// No event has been counted yet.
    pub closed spec fn is_fresh(&self) -> bool {
        &&& self.found == 0
        &&& self.encounter_1 == 0
        &&& self.unraveling_time == 0
        &&& self.before_prob_time == 0
        &&& self.unraveling_no == 0
        &&& self.cycle_sum_len == 0
        &&& self.cycle_max_len == 0
        &&& self.cycle_self_count == 0
        &&& self.encounter_2 == 0
        &&& self.iterations == 0
    }

    /// Counters that have counted nothing yet.
    pub fn new() -> (r: Instrumentation)
        ensures
            r.is_fresh(),
    {
        Instrumentation {
            found: 0,
            encounter_1: 0,
            unraveling_time: 0,
            before_prob_time: 0,
            unraveling_no: 0,
            cycle_sum_len: 0,
            cycle_max_len: 0,
            cycle_self_count: 0,
            encounter_2: 0,
            iterations: 0,
        }
    }
}

/// The stop whose departures a connection scans at footpath position `fp`:
/// its arrival stop at `fp == footpaths.len()`, else the target of footpath `fp`.
pub open spec fn stop_of(c: Connection, stations: Seq<Station>, fp: int) -> int {
    let fps = stations[c.to_idx as int].footpaths@;
    if fp == fps.len() {
        c.to_idx as int
    } else {
        fps[fp].target_location_idx as int
    }
}

pub open spec fn deps_len(stations: Seq<Station>, s: int) -> int {
    stations[s].departures@.len() as int
}

/// Position of the `k`-th departure of stop `s`.
pub open spec fn dep_pos(stations: Seq<Station>, order: Seq<usize>, s: int, k: int) -> int {
    order[stations[s].departures@[k] as int] as int
}

spec fn label_ok(l: DfsConnectionLabel, c: Connection, stations: Seq<Station>) -> bool {
    &&& l.footpath_i <= stations[c.to_idx as int].footpaths@.len()
    &&& l.i <= deps_len(stations, stop_of(c, stations, l.footpath_i as int))
}

spec fn sum_i(s: Seq<DfsConnectionLabel>) -> int
    decreases s.len(),
{
    if s.len() == 0 {
        0
    } else {
        sum_i(s.drop_last()) + s.last().i
    }
}

spec fn sum_fp(s: Seq<DfsConnectionLabel>) -> int
    decreases s.len(),
{
    if s.len() == 0 {
        0
    } else {
        sum_fp(s.drop_last()) + s.last().footpath_i
    }
}

proof fn lemma_sums_update(s: Seq<DfsConnectionLabel>, k: int, v: DfsConnectionLabel)
    requires
        0 <= k < s.len(),
    ensures
        sum_i(s.update(k, v)) == sum_i(s) - s[k].i + v.i,
        sum_fp(s.update(k, v)) == sum_fp(s) - s[k].footpath_i + v.footpath_i,
        sum_i(s) >= 0,
        sum_fp(s) >= 0,
    decreases s.len(),
{
    let t = s.update(k, v);
    if k == s.len() - 1 {
        assert(t.drop_last() =~= s.drop_last());
        lemma_sums_nonneg(s.drop_last());
    } else {
        assert(t.drop_last() =~= s.drop_last().update(k, v));
        lemma_sums_update(s.drop_last(), k, v);
    }
}

proof fn lemma_sums_nonneg(s: Seq<DfsConnectionLabel>)
    ensures
        sum_i(s) >= 0,
        sum_fp(s) >= 0,
    decreases s.len(),
{
    if s.len() > 0 {
        lemma_sums_nonneg(s.drop_last());
    }
}

/// The state of the depth first search between two steps.
spec fn dfs_state_ok(
    conns: Seq<Connection>,
    stations: Seq<Station>,
    order: Seq<usize>,
    labels: Seq<DfsConnectionLabel>,
    visited: Seq<i16>,
    scu: Seq<usize>,
    stack: Seq<usize>,
    fin: Seq<usize>,
) -> bool {
    let n = conns.len() as int;
    &&& labels.len() == n
    &&& visited.len() == n
    &&& scu.len() == stations.len()
    &&& forall|x: int| #![trigger labels[x]] 0 <= x < n ==> label_ok(labels[x], conns[x], stations)
    &&& forall|x: int| #![trigger visited[x]] 0 <= x < n ==> 0 <= visited[x] <= 2
    &&& forall|s: int| #![trigger scu[s]] 0 <= s < stations.len() ==> scu[s] <= deps_len(stations, s)
    &&& forall|s: int, k: int|
        #![trigger scu[s], stations[s].departures@[k]]
        0 <= s < stations.len() && scu[s] <= k < deps_len(stations, s)
            ==> visited[dep_pos(stations, order, s, k)] == 2
    &&& stack.no_duplicates()
    &&& forall|k: int| #![trigger stack[k]] 0 <= k < stack.len() ==> stack[k] < n
    &&& forall|k: int|
        #![trigger stack[k]]
        0 <= k < stack.len() - 1 ==> visited[stack[k] as int] == 1 && labels[stack[k] as int].i
            < deps_len(
            stations,
            stop_of(conns[stack[k] as int], stations, labels[stack[k] as int].footpath_i as int),
        )
    &&& stack.len() > 0 ==> (visited[stack.last() as int] == 0 || visited[stack.last() as int] == 1)
    &&& forall|x: usize| #![trigger visited[x as int]] x < n && visited[x as int] == 1 ==> stack.contains(x)
    &&& fin.no_duplicates()
    &&& forall|k: int| #![trigger fin[k]] 0 <= k < fin.len() ==> fin[k] < n && labels[fin[k] as int].order == k
    &&& forall|x: usize| #![trigger visited[x as int]] x < n ==> (visited[x as int] == 2 <==> fin.contains(x))
}


/// Position of departure `k` of the stop that connection `x` scans at footpath
/// position `fp`.
pub open spec fn succ_of(conns: Seq<Connection>, stations: Seq<Station>, order: Seq<usize>, x: int, fp: int, k: int) -> int {
    dep_pos(stations, order, stop_of(conns[x], stations, fp), k)
}

/// `(fp, k)` names a departure that connection `x` can transfer to: departure
/// `k` of its arrival stop (`fp` the number of footpaths) or of the target of
/// footpath `fp`.
pub open spec fn in_region(conns: Seq<Connection>, stations: Seq<Station>, x: int, fp: int, k: int) -> bool {
    &&& 0 <= fp <= stations[conns[x].to_idx as int].footpaths@.len()
    &&& 0 <= k < deps_len(stations, stop_of(conns[x], stations, fp))
}

/// Transfer time allowed for a transfer from `c` at footpath position `fp`:
/// the arrival stop's own transfer time, or the footpath's duration.
pub open spec fn transfer_at(c: Connection, stations: Seq<Station>, fp: int) -> i32 {
    let st = stations[c.to_idx as int];
    if fp == st.footpaths@.len() {
        st.transfer_time as i32
    } else {
        st.footpaths@[fp].duration as i32
    }
}

/// Every departure's projected time fits in an `Mtime`.
pub open spec fn departures_fit(conns: Seq<Connection>) -> bool {
    forall|p: int| 0 <= p < conns.len() ==> #[trigger] conns[p].departure.projection_fits()
}

/// For every transfer from a connection to a departure it can reach, the
/// arrival's projected time and the slack between it and the departure's
/// projected time fit in an `Mtime`.
pub open spec fn transfers_fit(conns: Seq<Connection>, stations: Seq<Station>, order: Seq<usize>) -> bool {
    forall|x: int, fp: int, k: int|
        #![trigger succ_of(conns, stations, order, x, fp, k)]
        0 <= x < conns.len() && in_region(conns, stations, x, fp, k) ==> {
            &&& conns[x].arrival.projection_fits()
            &&& i32::MIN <= conns[succ_of(conns, stations, order, x, fp, k)].departure.projected_spec()
                - conns[x].arrival.projected_spec() <= i32::MAX
        }
}

/// `d` continues the trip of `c` at `c`'s arrival stop: no transfer is needed.
pub open spec fn continues_trip(c: Connection, d: Connection, stations: Seq<Station>, fp: int) -> bool {
    fp == stations[c.to_idx as int].footpaths@.len() && c.is_consecutive_spec(&d)
}

/// `reach` may answer `r` for the transfer from `c` to `d` with transfer time `tt`.
pub open spec fn reach_may<F: Fn(&StopInfo, i16, &StopInfo, i16, i32) -> Reach>(
    reach: &F,
    c: Connection,
    d: Connection,
    tt: i32,
    r: Reach,
) -> bool {
    call_ensures(reach, (&c.arrival, c.product_type, &d.departure, d.product_type, tt), r)
}

/// The transfer from connection `x` to its departure `(fp, k)` need not be
/// respected by the order: it was cut to break a cycle (`made` holds the cut
/// transfers as pairs of positions), `reach` may reject it, or `reach` may
/// reject a later departure of the same stop together with all earlier ones.
pub open spec fn transfer_exempt<F: Fn(&StopInfo, i16, &StopInfo, i16, i32) -> Reach>(
    conns: Seq<Connection>,
    stations: Seq<Station>,
    order: Seq<usize>,
    made: Set<(usize, usize)>,
    reach: &F,
    x: int,
    fp: int,
    k: int,
) -> bool {
    let c = conns[x];
    let s = stop_of(c, stations, fp);
    let d = dep_pos(stations, order, s, k);
    let tt = transfer_at(c, stations, fp);
    ||| made.contains((x as usize, d as usize))
    ||| (!continues_trip(c, conns[d], stations, fp) && exists|r: Reach|
        r != Reach::Reachable && #[trigger] reach_may(reach, c, conns[d], tt, r))
    ||| exists|k2: int|
        k < k2 < deps_len(stations, s) && #[trigger] reach_may(
            reach,
            c,
            conns[dep_pos(stations, order, s, k2)],
            tt,
            Reach::UnreachableRest,
        )
}

/// The transfer from `x` to its departure `(fp, k)` is respected: the departure
/// is finished, before `x` if `x` is finished; or the transfer is exempt.
spec fn edge_ok<F: Fn(&StopInfo, i16, &StopInfo, i16, i32) -> Reach>(
    conns: Seq<Connection>,
    stations: Seq<Station>,
    order: Seq<usize>,
    labels: Seq<DfsConnectionLabel>,
    visited: Seq<i16>,
    made: Set<(usize, usize)>,
    reach: &F,
    x: int,
    fp: int,
    k: int,
) -> bool {
    let d = succ_of(conns, stations, order, x, fp, k);
    ||| (visited[d] == 2 && (visited[x] == 2 ==> labels[d].order < labels[x].order))
    ||| transfer_exempt(conns, stations, order, made, reach, x, fp, k)
}

/// `(fp, k)` has been scanned by a connection whose scan position is `l`; the
/// departure at the scan position itself counts when `cur` holds.
spec fn handled(l: DfsConnectionLabel, fp: int, k: int, cur: bool) -> bool {
    fp > l.footpath_i || (fp == l.footpath_i && (k > l.i || (cur && k == l.i)))
}

/// Every departure scanned by connection `x` with scan position `l` is respected.
spec fn scan_ok<F: Fn(&StopInfo, i16, &StopInfo, i16, i32) -> Reach>(
    conns: Seq<Connection>,
    stations: Seq<Station>,
    order: Seq<usize>,
    labels: Seq<DfsConnectionLabel>,
    visited: Seq<i16>,
    made: Set<(usize, usize)>,
    reach: &F,
    x: int,
    l: DfsConnectionLabel,
    cur: bool,
) -> bool {
    forall|fp: int, k: int|
        #![trigger edge_ok(conns, stations, order, labels, visited, made, reach, x, fp, k)]
        in_region(conns, stations, x, fp, k) && handled(l, fp, k, cur)
            ==> edge_ok(conns, stations, order, labels, visited, made, reach, x, fp, k)
}

/// The connection at stack position `j` is at the departure that sits above
/// it, and the search followed that transfer.
spec fn chain_link<F: Fn(&StopInfo, i16, &StopInfo, i16, i32) -> Reach>(
    conns: Seq<Connection>,
    stations: Seq<Station>,
    order: Seq<usize>,
    labels: Seq<DfsConnectionLabel>,
    stack: Seq<usize>,
    reach: &F,
    j: int,
) -> bool {
    let x = stack[j] as int;
    &&& succ_of(conns, stations, order, x, labels[x].footpath_i as int, labels[x].i as int) == stack[j + 1] as int
    &&& followed_at(conns, stations, order, reach, x, labels[x].footpath_i as int, labels[x].i as int)
}

/// The search follows the transfer from `x` to its departure `(fp, k)`: the
/// departure continues `x`'s trip, or `reach` may accept the transfer.
pub open spec fn followed_at<F: Fn(&StopInfo, i16, &StopInfo, i16, i32) -> Reach>(
    conns: Seq<Connection>,
    stations: Seq<Station>,
    order: Seq<usize>,
    reach: &F,
    x: int,
    fp: int,
    k: int,
) -> bool {
    let d = succ_of(conns, stations, order, x, fp, k);
    continues_trip(conns[x], conns[d], stations, fp)
        || reach_may(reach, conns[x], conns[d], transfer_at(conns[x], stations, fp), Reach::Reachable)
}

/// Connection `y` can follow connection `x` by a transfer the search follows.
pub open spec fn followed<F: Fn(&StopInfo, i16, &StopInfo, i16, i32) -> Reach>(
    conns: Seq<Connection>,
    stations: Seq<Station>,
    order: Seq<usize>,
    reach: &F,
    x: int,
    y: int,
) -> bool {
    exists|fp: int, k: int|
        #![trigger succ_of(conns, stations, order, x, fp, k)]
        in_region(conns, stations, x, fp, k) && succ_of(conns, stations, order, x, fp, k) == y
            && followed_at(conns, stations, order, reach, x, fp, k)
}

/// `p` is a non-empty path of positions along followed transfers.
pub open spec fn is_path<F: Fn(&StopInfo, i16, &StopInfo, i16, i32) -> Reach>(
    conns: Seq<Connection>,
    stations: Seq<Station>,
    order: Seq<usize>,
    reach: &F,
    p: Seq<usize>,
) -> bool {
    &&& p.len() >= 1
    &&& forall|i: int| 0 <= i < p.len() - 1 ==> #[trigger] followed(conns, stations, order, reach, p[i] as int, p[i + 1] as int)
}

/// Predicted slack of the transfer from `x` to `y`: `y`'s projected departure
/// minus `x`'s projected arrival.
pub open spec fn slack(conns: Seq<Connection>, x: int, y: int) -> int {
    conns[y].departure.projected_spec() - conns[x].arrival.projected_spec()
}

/// Weight of the transfer from `x` to `y` when a cycle is broken: its slack.
/// A transfer that continues the trip has no weight, unless it is the one that
/// closed the cycle (`closing`), which then weighs 1.
pub open spec fn cycle_weight(conns: Seq<Connection>, x: int, y: int, closing: bool) -> Option<int> {
    if conns[x].is_consecutive_spec(&conns[y]) {
        if closing {
            Some(1)
        } else {
            None
        }
    } else {
        Some(slack(conns, x, y))
    }
}

/// A weight that is absent or at least `w`.
pub open spec fn at_least(o: Option<int>, w: int) -> bool {
    match o {
        Some(v) => v >= w,
        None => true,
    }
}

/// Weight of the transfer from `p[i]` to `p[i + 1]` on a cycle whose closing
/// transfer is the one at `z`.
pub open spec fn path_edge_weight(conns: Seq<Connection>, p: Seq<usize>, z: int, i: int) -> Option<int> {
    cycle_weight(conns, p[i] as int, p[i + 1] as int, i == z)
}

/// The transfer from `a` to `b` is a lightest one of the cycle it forms with
/// the path `p` from `b` back to `a`, where the transfer at `z` of `p` closed
/// the cycle (`z == p.len() - 1`: the transfer from `a` to `b` itself): it has
/// a weight, and no transfer of `p` weighs less.
pub open spec fn lightest_on_cycle(conns: Seq<Connection>, p: Seq<usize>, a: int, b: int, z: int) -> bool {
    let w = cycle_weight(conns, a, b, z == p.len() - 1);
    &&& 0 <= z < p.len()
    &&& w is Some
    &&& forall|i: int| #![trigger path_edge_weight(conns, p, z, i)]
        0 <= i < p.len() - 1 ==> at_least(path_edge_weight(conns, p, z, i), w->0)
}

/// The transfer from `a` to `b` closes a cycle and is where the cycle is
/// broken: the search follows it, `b` leads back to `a` along followed
/// transfers, and no transfer of that cycle has a smaller weight.
pub open spec fn closes_cycle<F: Fn(&StopInfo, i16, &StopInfo, i16, i32) -> Reach>(
    conns: Seq<Connection>,
    stations: Seq<Station>,
    order: Seq<usize>,
    reach: &F,
    a: int,
    b: int,
) -> bool {
    &&& followed(conns, stations, order, reach, a, b)
    &&& exists|p: Seq<usize>, z: int|
        #![trigger is_path(conns, stations, order, reach, p), lightest_on_cycle(conns, p, a, b, z)]
        is_path(conns, stations, order, reach, p) && p[0] == b && p.last() == a && lightest_on_cycle(conns, p, a, b, z)
}

/// Every cut transfer (a pair of positions) closes a cycle.
pub open spec fn cuts_close_cycles<F: Fn(&StopInfo, i16, &StopInfo, i16, i32) -> Reach>(
    conns: Seq<Connection>,
    stations: Seq<Station>,
    order: Seq<usize>,
    reach: &F,
    made: Set<(usize, usize)>,
) -> bool {
    forall|q: (usize, usize)| #[trigger] made.contains(q) ==> closes_cycle(conns, stations, order, reach, q.0 as int, q.1 as int)
}

/// The recorded cuts are the cut transfers, each recorded by its positions or
/// by the ids of its two connections.
pub open spec fn cuts_recorded(cut: Set<(usize, usize)>, made: Set<(usize, usize)>, conns: Seq<Connection>) -> bool {
    &&& forall|q: (usize, usize)|
        #[trigger] made.contains(q) ==> cut.contains(q) || cut.contains((conns[q.0 as int].id, conns[q.1 as int].id))
    &&& forall|q: (usize, usize)|
        #[trigger] cut.contains(q) ==> exists|p: (usize, usize)|
            #[trigger] made.contains(p) && (q == p || q == (conns[p.0 as int].id, conns[p.1 as int].id))
}

/// What the search has established about the order: every connection respects
/// the departures it has scanned (all of them once finished; for the stack
/// connections below the top, all but the one being explored above it).
spec fn topo_inv<F: Fn(&StopInfo, i16, &StopInfo, i16, i32) -> Reach>(
    conns: Seq<Connection>,
    stations: Seq<Station>,
    order: Seq<usize>,
    labels: Seq<DfsConnectionLabel>,
    visited: Seq<i16>,
    stack: Seq<usize>,
    made: Set<(usize, usize)>,
    reach: &F,
) -> bool {
    &&& forall|x: int, fp: int, k: int|
        #![trigger edge_ok(conns, stations, order, labels, visited, made, reach, x, fp, k)]
        0 <= x < conns.len() && in_region(conns, stations, x, fp, k) && (visited[x] == 2 || handled(
            labels[x],
            fp,
            k,
            visited[x] != 1 || (stack.len() > 0 && x == stack.last()),
        )) ==> edge_ok(conns, stations, order, labels, visited, made, reach, x, fp, k)
    &&& forall|j: int|
        #![trigger chain_link(conns, stations, order, labels, stack, reach, j)]
        0 <= j < stack.len() - 1 ==> chain_link(conns, stations, order, labels, stack, reach, j)
}

/// A larger set of cut transfers keeps every established fact.
proof fn lemma_topo_made_grows<F: Fn(&StopInfo, i16, &StopInfo, i16, i32) -> Reach>(
    conns: Seq<Connection>,
    stations: Seq<Station>,
    order: Seq<usize>,
    labels: Seq<DfsConnectionLabel>,
    visited: Seq<i16>,
    stack: Seq<usize>,
    made: Set<(usize, usize)>,
    made2: Set<(usize, usize)>,
    reach: &F,
    c: int,
    l: DfsConnectionLabel,
    cur: bool,
)
    requires
        topo_inv(conns, stations, order, labels, visited, stack, made, reach),
        scan_ok(conns, stations, order, labels, visited, made, reach, c, l, cur),
        forall|q: (usize, usize)| made.contains(q) ==> made2.contains(q),
    ensures
        topo_inv(conns, stations, order, labels, visited, stack, made2, reach),
        scan_ok(conns, stations, order, labels, visited, made2, reach, c, l, cur),
{
    assert forall|x: int, fp: int, k: int|
        #![trigger edge_ok(conns, stations, order, labels, visited, made2, reach, x, fp, k)]
        0 <= x < conns.len() && in_region(conns, stations, x, fp, k) && (visited[x] == 2 || handled(
            labels[x],
            fp,
            k,
            visited[x] != 1 || (stack.len() > 0 && x == stack.last()),
        )) implies edge_ok(conns, stations, order, labels, visited, made2, reach, x, fp, k) by {
        assert(edge_ok(conns, stations, order, labels, visited, made, reach, x, fp, k));
    }
    assert forall|j: int|
        #![trigger chain_link(conns, stations, order, labels, stack, reach, j)]
        0 <= j < stack.len() - 1 implies chain_link(conns, stations, order, labels, stack, reach, j) by {}
    assert forall|fp: int, k: int|
        #![trigger edge_ok(conns, stations, order, labels, visited, made2, reach, c, fp, k)]
        in_region(conns, stations, c, fp, k) && handled(l, fp, k, cur)
            implies edge_ok(conns, stations, order, labels, visited, made2, reach, c, fp, k) by {
        assert(edge_ok(conns, stations, order, labels, visited, made, reach, c, fp, k));
    }
}

/// Every departure a connection can transfer to lies within the timetable.
proof fn lemma_succ_in_range(conns: Seq<Connection>, stations: Seq<Station>, order: Seq<usize>, x: int, fp: int, k: int)
    requires
        timetable_wf(conns, stations, order),
        0 <= x < conns.len(),
        in_region(conns, stations, x, fp, k),
    ensures
        0 <= stop_of(conns[x], stations, fp) < stations.len(),
        0 <= succ_of(conns, stations, order, x, fp, k) < conns.len(),
{
    let c = conns[x];
    assert(c.to_idx < stations.len());
    if fp < stations[c.to_idx as int].footpaths@.len() {
        assert(stations[c.to_idx as int].footpaths@[fp].target_location_idx < stations.len());
    }
    let s = stop_of(c, stations, fp);
    assert(stations[s].departures@[k] < conns.len());
}

/// Scan facts carry over to a scan position that covers no more departures.
proof fn lemma_scan_shrink<F: Fn(&StopInfo, i16, &StopInfo, i16, i32) -> Reach>(
    conns: Seq<Connection>,
    stations: Seq<Station>,
    order: Seq<usize>,
    labels: Seq<DfsConnectionLabel>,
    visited: Seq<i16>,
    made: Set<(usize, usize)>,
    reach: &F,
    c: int,
    l: DfsConnectionLabel,
    cur: bool,
    l2: DfsConnectionLabel,
    cur2: bool,
)
    requires
        scan_ok(conns, stations, order, labels, visited, made, reach, c, l, cur),
        (l2.footpath_i > l.footpath_i) || (l2.footpath_i == l.footpath_i && (l2.i > l.i || (l2.i == l.i
            && (cur || !cur2)) || (l2.i + 1 == l.i && cur && !cur2))),
    ensures
        scan_ok(conns, stations, order, labels, visited, made, reach, c, l2, cur2),
{
    assert forall|fp: int, k: int|
        #![trigger edge_ok(conns, stations, order, labels, visited, made, reach, c, fp, k)]
        in_region(conns, stations, c, fp, k) && handled(l2, fp, k, cur2)
            implies edge_ok(conns, stations, order, labels, visited, made, reach, c, fp, k) by {
        assert(handled(l, fp, k, cur));
    }
}

/// The scan moves on to the next stop, whose first departures to scan (the
/// later ones, from `l2.i` on) are all finished.
proof fn lemma_scan_next<F: Fn(&StopInfo, i16, &StopInfo, i16, i32) -> Reach>(
    conns: Seq<Connection>,
    stations: Seq<Station>,
    order: Seq<usize>,
    labels: Seq<DfsConnectionLabel>,
    visited: Seq<i16>,
    made: Set<(usize, usize)>,
    reach: &F,
    c: int,
    l: DfsConnectionLabel,
    l2: DfsConnectionLabel,
)
    requires
        scan_ok(conns, stations, order, labels, visited, made, reach, c, l, true),
        visited[c] != 2,
        (l2.footpath_i == l.footpath_i && l2.i <= l.i) || (l2.footpath_i + 1 == l.footpath_i && l.i == 0),
        forall|k: int|
            #![trigger stations[stop_of(conns[c], stations, l2.footpath_i as int)].departures@[k]]
            l2.i <= k < deps_len(stations, stop_of(conns[c], stations, l2.footpath_i as int))
                ==> visited[succ_of(conns, stations, order, c, l2.footpath_i as int, k)] == 2,
    ensures
        scan_ok(conns, stations, order, labels, visited, made, reach, c, l2, true),
{
    assert forall|fp: int, k: int|
        #![trigger edge_ok(conns, stations, order, labels, visited, made, reach, c, fp, k)]
        in_region(conns, stations, c, fp, k) && handled(l2, fp, k, true)
            implies edge_ok(conns, stations, order, labels, visited, made, reach, c, fp, k) by {
        if fp == l2.footpath_i && (l2.footpath_i < l.footpath_i || k < l.i) {
            assert(stations[stop_of(conns[c], stations, l2.footpath_i as int)].departures@[k] == stations[stop_of(
                conns[c],
                stations,
                fp,
            )].departures@[k]);
        } else {
            assert(handled(l, fp, k, true));
        }
    }
}

/// The departure at the scan position is respected as well.
proof fn lemma_scan_add<F: Fn(&StopInfo, i16, &StopInfo, i16, i32) -> Reach>(
    conns: Seq<Connection>,
    stations: Seq<Station>,
    order: Seq<usize>,
    labels: Seq<DfsConnectionLabel>,
    visited: Seq<i16>,
    made: Set<(usize, usize)>,
    reach: &F,
    c: int,
    l: DfsConnectionLabel,
)
    requires
        scan_ok(conns, stations, order, labels, visited, made, reach, c, l, false),
        edge_ok(conns, stations, order, labels, visited, made, reach, c, l.footpath_i as int, l.i as int),
    ensures
        scan_ok(conns, stations, order, labels, visited, made, reach, c, l, true),
{
    assert forall|fp: int, k: int|
        #![trigger edge_ok(conns, stations, order, labels, visited, made, reach, c, fp, k)]
        in_region(conns, stations, c, fp, k) && handled(l, fp, k, true)
            implies edge_ok(conns, stations, order, labels, visited, made, reach, c, fp, k) by {
        if !(fp == l.footpath_i && k == l.i) {
            assert(handled(l, fp, k, false));
        }
    }
}

/// `reach` may reject the departure at the scan position together with all
/// earlier departures of its stop: the whole stop counts as scanned.
proof fn lemma_scan_rest<F: Fn(&StopInfo, i16, &StopInfo, i16, i32) -> Reach>(
    conns: Seq<Connection>,
    stations: Seq<Station>,
    order: Seq<usize>,
    labels: Seq<DfsConnectionLabel>,
    visited: Seq<i16>,
    made: Set<(usize, usize)>,
    reach: &F,
    c: int,
    l: DfsConnectionLabel,
)
    requires
        scan_ok(conns, stations, order, labels, visited, made, reach, c, l, false),
        in_region(conns, stations, c, l.footpath_i as int, l.i as int),
        ({
            let d = succ_of(conns, stations, order, c, l.footpath_i as int, l.i as int);
            &&& !continues_trip(conns[c], conns[d], stations, l.footpath_i as int)
            &&& reach_may(reach, conns[c], conns[d], transfer_at(conns[c], stations, l.footpath_i as int), Reach::UnreachableRest)
        }),
    ensures
        scan_ok(conns, stations, order, labels, visited, made, reach, c, DfsConnectionLabel { i: 0, ..l }, true),
{
    let l2 = DfsConnectionLabel { i: 0, ..l };
    assert forall|fp: int, k: int|
        #![trigger edge_ok(conns, stations, order, labels, visited, made, reach, c, fp, k)]
        in_region(conns, stations, c, fp, k) && handled(l2, fp, k, true)
            implies edge_ok(conns, stations, order, labels, visited, made, reach, c, fp, k) by {
        if fp == l.footpath_i && k < l.i {
            let s = stop_of(conns[c], stations, fp);
            assert(reach_may(
                reach,
                conns[c],
                conns[dep_pos(stations, order, s, l.i as int)],
                transfer_at(conns[c], stations, fp),
                Reach::UnreachableRest,
            ));
        } else if fp == l.footpath_i && k == l.i {
            let d = succ_of(conns, stations, order, c, fp, k);
            assert(reach_may(reach, conns[c], conns[d], transfer_at(conns[c], stations, fp), Reach::UnreachableRest));
        } else {
            assert(handled(l, fp, k, false));
        }
    }
}

/// Weight of the transfer from stack position `k` to `k + 1`, not closing a cycle.
spec fn stack_edge_weight(conns: Seq<Connection>, stack: Seq<usize>, k: int) -> Option<int> {
    cycle_weight(conns, stack[k] as int, stack[k + 1] as int, false)
}

/// Consecutive stack entries from `lo` up to `hi` form a path of followed transfers.
proof fn lemma_stack_path<F: Fn(&StopInfo, i16, &StopInfo, i16, i32) -> Reach>(
    conns: Seq<Connection>,
    stations: Seq<Station>,
    order: Seq<usize>,
    labels: Seq<DfsConnectionLabel>,
    visited: Seq<i16>,
    scu: Seq<usize>,
    stack: Seq<usize>,
    fin: Seq<usize>,
    made: Set<(usize, usize)>,
    reach: &F,
    lo: int,
    hi: int,
)
    requires
        dfs_state_ok(conns, stations, order, labels, visited, scu, stack, fin),
        topo_inv(conns, stations, order, labels, visited, stack, made, reach),
        0 <= lo < hi <= stack.len(),
    ensures
        is_path(conns, stations, order, reach, stack.subrange(lo, hi)),
{
    let p = stack.subrange(lo, hi);
    assert forall|i: int| 0 <= i < p.len() - 1 implies #[trigger] followed(conns, stations, order, reach, p[i] as int, p[i + 1] as int) by {
        let j = lo + i;
        assert(chain_link(conns, stations, order, labels, stack, reach, j));
        let x = stack[j] as int;
        assert(p[i] == stack[j] && p[i + 1] == stack[j + 1]);
        assert(label_ok(labels[x], conns[x], stations));
        assert(in_region(conns, stations, x, labels[x].footpath_i as int, labels[x].i as int));
    }
}

/// Two paths joined by a followed transfer form a path.
proof fn lemma_path_concat<F: Fn(&StopInfo, i16, &StopInfo, i16, i32) -> Reach>(
    conns: Seq<Connection>,
    stations: Seq<Station>,
    order: Seq<usize>,
    reach: &F,
    p1: Seq<usize>,
    p2: Seq<usize>,
)
    requires
        is_path(conns, stations, order, reach, p1),
        is_path(conns, stations, order, reach, p2),
        followed(conns, stations, order, reach, p1.last() as int, p2[0] as int),
    ensures
        is_path(conns, stations, order, reach, p1 + p2),
        (p1 + p2)[0] == p1[0],
        (p1 + p2).last() == p2.last(),
{
    let p = p1 + p2;
    assert forall|i: int| 0 <= i < p.len() - 1 implies #[trigger] followed(conns, stations, order, reach, p[i] as int, p[i + 1] as int) by {
        if i < p1.len() - 1 {
            assert(p[i] == p1[i] && p[i + 1] == p1[i + 1]);
            assert(followed(conns, stations, order, reach, p1[i] as int, p1[i + 1] as int));
        } else if i == p1.len() - 1 {
            assert(p[i] == p1.last() && p[i + 1] == p2[0]);
        } else {
            let i2 = i - p1.len();
            assert(p[i] == p2[i2] && p[i + 1] == p2[i2 + 1]);
            assert(followed(conns, stations, order, reach, p2[i2] as int, p2[i2 + 1] as int));
        }
    }
}

/// The top connection meets a departure on the stack: the transfer to it
/// closes the cycle through the stack above that departure.
proof fn lemma_top_cut_closes<F: Fn(&StopInfo, i16, &StopInfo, i16, i32) -> Reach>(
    conns: Seq<Connection>,
    stations: Seq<Station>,
    order: Seq<usize>,
    labels: Seq<DfsConnectionLabel>,
    visited: Seq<i16>,
    scu: Seq<usize>,
    stack: Seq<usize>,
    fin: Seq<usize>,
    made: Set<(usize, usize)>,
    reach: &F,
    lab: DfsConnectionLabel,
    j: int,
)
    requires
        dfs_state_ok(conns, stations, order, labels, visited, scu, stack, fin),
        topo_inv(conns, stations, order, labels, visited, stack, made, reach),
        stack.len() > 0,
        in_region(conns, stations, stack.last() as int, lab.footpath_i as int, lab.i as int),
        followed_at(conns, stations, order, reach, stack.last() as int, lab.footpath_i as int, lab.i as int),
        0 <= j < stack.len(),
        succ_of(conns, stations, order, stack.last() as int, lab.footpath_i as int, lab.i as int) == stack[j] as int,
        forall|k: int| #![trigger stack_edge_weight(conns, stack, k)]
            j <= k < stack.len() - 1 ==> at_least(
                stack_edge_weight(conns, stack, k),
                cycle_weight(conns, stack.last() as int, stack[j] as int, true)->0,
            ),
    ensures
        followed(conns, stations, order, reach, stack.last() as int, stack[j] as int),
        closes_cycle(conns, stations, order, reach, stack.last() as int, stack[j] as int),
{
    let c = stack.last() as int;
    assert(succ_of(conns, stations, order, c, lab.footpath_i as int, lab.i as int) == stack[j] as int);
    lemma_stack_path(conns, stations, order, labels, visited, scu, stack, fin, made, reach, j, stack.len() as int);
    let p = stack.subrange(j, stack.len() as int);
    let z = p.len() - 1;
    assert(p[0] == stack[j] && p.last() == stack[stack.len() - 1]);
    assert forall|i: int| #![trigger path_edge_weight(conns, p, z, i)]
        0 <= i < p.len() - 1 implies at_least(path_edge_weight(conns, p, z, i), cycle_weight(conns, c, stack[j] as int, true)->0) by {
        assert(p[i] == stack[j + i] && p[i + 1] == stack[j + i + 1]);
        assert(path_edge_weight(conns, p, z, i) == stack_edge_weight(conns, stack, j + i));
    }
    assert(lightest_on_cycle(conns, p, c, stack[j] as int, z));
    assert(is_path(conns, stations, order, reach, p) && p[0] == stack[j] && p.last() == c);
}

/// Cycle resolution cuts the transfer from stack position `m - 1` to `m`: it
/// closes the cycle that runs up the stack, back to the departure at `j` that
/// the top connection meets, and up to position `m - 1`.
proof fn lemma_unravel_cut_closes<F: Fn(&StopInfo, i16, &StopInfo, i16, i32) -> Reach>(
    conns: Seq<Connection>,
    stations: Seq<Station>,
    order: Seq<usize>,
    labels: Seq<DfsConnectionLabel>,
    visited: Seq<i16>,
    scu: Seq<usize>,
    stack: Seq<usize>,
    fin: Seq<usize>,
    made: Set<(usize, usize)>,
    reach: &F,
    lab: DfsConnectionLabel,
    j: int,
    m: int,
    w: int,
)
    requires
        dfs_state_ok(conns, stations, order, labels, visited, scu, stack, fin),
        topo_inv(conns, stations, order, labels, visited, stack, made, reach),
        in_region(conns, stations, stack.last() as int, lab.footpath_i as int, lab.i as int),
        followed_at(conns, stations, order, reach, stack.last() as int, lab.footpath_i as int, lab.i as int),
        0 <= j < m < stack.len(),
        succ_of(conns, stations, order, stack.last() as int, lab.footpath_i as int, lab.i as int) == stack[j] as int,
        forall|k: int| #![trigger stack_edge_weight(conns, stack, k)]
            j <= k < stack.len() - 1 ==> at_least(stack_edge_weight(conns, stack, k), w),
        stack_edge_weight(conns, stack, m - 1) == Some(w),
        cycle_weight(conns, stack.last() as int, stack[j] as int, true)->0 >= w,
    ensures
        closes_cycle(conns, stations, order, reach, stack[m - 1] as int, stack[m] as int),
{
    let c = stack.last() as int;
    assert(succ_of(conns, stations, order, c, lab.footpath_i as int, lab.i as int) == stack[j] as int);
    assert(followed(conns, stations, order, reach, c, stack[j] as int));
    assert(chain_link(conns, stations, order, labels, stack, reach, m - 1));
    let x = stack[m - 1] as int;
    assert(label_ok(labels[x], conns[x], stations));
    assert(in_region(conns, stations, x, labels[x].footpath_i as int, labels[x].i as int));
    assert(followed(conns, stations, order, reach, x, stack[m] as int));
    lemma_stack_path(conns, stations, order, labels, visited, scu, stack, fin, made, reach, m, stack.len() as int);
    lemma_stack_path(conns, stations, order, labels, visited, scu, stack, fin, made, reach, j, m);
    let p1 = stack.subrange(m, stack.len() as int);
    let p2 = stack.subrange(j, m);
    assert(p1.last() == stack.last() && p2[0] == stack[j]);
    lemma_path_concat(conns, stations, order, reach, p1, p2);
    let p = p1 + p2;
    let n = stack.len() as int;
    let z = n - m - 1;
    assert(p[0] == stack[m] && p.last() == stack[m - 1]);
    assert forall|i: int| #![trigger path_edge_weight(conns, p, z, i)]
        0 <= i < p.len() - 1 implies at_least(path_edge_weight(conns, p, z, i), w) by {
        if i < z {
            assert(p[i] == stack[m + i] && p[i + 1] == stack[m + i + 1]);
            assert(path_edge_weight(conns, p, z, i) == stack_edge_weight(conns, stack, m + i));
        } else if i == z {
            assert(p[i] == stack[n - 1] && p[i + 1] == stack[j]);
        } else {
            assert(p[i] == stack[j + i - (n - m)] && p[i + 1] == stack[j + i - (n - m) + 1]);
            assert(path_edge_weight(conns, p, z, i) == stack_edge_weight(conns, stack, j + i - (n - m)));
        }
    }
    assert(cycle_weight(conns, stack[m - 1] as int, stack[m] as int, z == p.len() - 1) == stack_edge_weight(conns, stack, m - 1));
    assert(lightest_on_cycle(conns, p, stack[m - 1] as int, stack[m] as int, z));
    assert(is_path(conns, stations, order, reach, p) && p[0] == stack[m] && p.last() == stack[m - 1]);
}

/// A stack that starts at an unvisited connection.
proof fn lemma_topo_start<F: Fn(&StopInfo, i16, &StopInfo, i16, i32) -> Reach>(
    conns: Seq<Connection>,
    stations: Seq<Station>,
    order: Seq<usize>,
    labels: Seq<DfsConnectionLabel>,
    visited: Seq<i16>,
    scu: Seq<usize>,
    fin: Seq<usize>,
    made: Set<(usize, usize)>,
    reach: &F,
    a: usize,
)
    requires
        dfs_state_ok(conns, stations, order, labels, visited, scu, Seq::empty(), fin),
        topo_inv(conns, stations, order, labels, visited, Seq::empty(), made, reach),
        a < conns.len(),
    ensures
        topo_inv(conns, stations, order, labels, visited, seq![a], made, reach),
{
    assert forall|x: int, fp: int, k: int|
        #![trigger edge_ok(conns, stations, order, labels, visited, made, reach, x, fp, k)]
        0 <= x < conns.len() && in_region(conns, stations, x, fp, k) && (visited[x] == 2 || handled(
            labels[x],
            fp,
            k,
            visited[x] != 1 || (seq![a].len() > 0 && x == seq![a].last()),
        )) implies edge_ok(conns, stations, order, labels, visited, made, reach, x, fp, k) by {
        let xu = x as usize;
        if visited[xu as int] == 1 {
            assert(Seq::<usize>::empty().contains(xu));
        }
    }
}

/// The top connection finishes after having scanned all its departures.
proof fn lemma_topo_finish<F: Fn(&StopInfo, i16, &StopInfo, i16, i32) -> Reach>(
    conns: Seq<Connection>,
    stations: Seq<Station>,
    order: Seq<usize>,
    labels: Seq<DfsConnectionLabel>,
    visited: Seq<i16>,
    scu: Seq<usize>,
    stack: Seq<usize>,
    fin: Seq<usize>,
    made: Set<(usize, usize)>,
    reach: &F,
    lab: DfsConnectionLabel,
)
    requires
        timetable_wf(conns, stations, order),
        dfs_state_ok(conns, stations, order, labels, visited, scu, stack, fin),
        topo_inv(conns, stations, order, labels, visited, stack, made, reach),
        stack.len() > 0,
        scan_ok(conns, stations, order, labels, visited, made, reach, stack.last() as int, lab, true),
        lab.i == 0,
        lab.footpath_i == 0,
        lab.order == fin.len(),
    ensures
        ({
            let c = stack.last() as int;
            topo_inv(
                conns,
                stations,
                order,
                labels.update(c, lab),
                visited.update(c, 2),
                stack.drop_last(),
                made,
                reach,
            )
        }),
{
    let c = stack.last() as int;
    let n = conns.len() as int;
    let l2 = labels.update(c, lab);
    let v2 = visited.update(c, 2);
    let st2 = stack.drop_last();
    assert(stack[stack.len() - 1] == c);
    assert(visited[c] != 2) by {
        if visited[c] == 2 {
            assert(fin.contains(c as usize));
        }
    }
    assert forall|x: int, fp: int, k: int|
        #![trigger edge_ok(conns, stations, order, l2, v2, made, reach, x, fp, k)]
        0 <= x < n && in_region(conns, stations, x, fp, k) && (v2[x] == 2 || handled(
            l2[x],
            fp,
            k,
            v2[x] != 1 || (st2.len() > 0 && x == st2.last()),
        )) implies edge_ok(conns, stations, order, l2, v2, made, reach, x, fp, k) by {
        lemma_succ_in_range(conns, stations, order, x, fp, k);
        let d = succ_of(conns, stations, order, x, fp, k);
        if x == c {
            assert(handled(lab, fp, k, true));
            assert(edge_ok(conns, stations, order, labels, visited, made, reach, c, fp, k));
            if visited[d] == 2 {
                assert(fin.contains(d as usize));
                let j = choose|j: int| 0 <= j < fin.len() && fin[j] == d as usize;
                assert(labels[fin[j] as int].order == j);
            }
        } else if visited[x] != 2 && !handled(labels[x], fp, k, visited[x] != 1) {
            assert(st2.len() > 0 && x == st2.last());
            let t = stack.len() - 2;
            assert(st2.last() == stack[t]);
            assert(chain_link(conns, stations, order, labels, stack, reach, t));
            assert(d == c);
        } else {
            assert(edge_ok(conns, stations, order, labels, visited, made, reach, x, fp, k));
        }
    }
    assert forall|j: int|
        #![trigger chain_link(conns, stations, order, l2, st2, reach, j)]
        0 <= j < st2.len() - 1 implies chain_link(conns, stations, order, l2, st2, reach, j) by {
        assert(chain_link(conns, stations, order, labels, stack, reach, j));
        assert(st2[j] == stack[j] && st2[j + 1] == stack[j + 1]);
        assert(stack[j] != stack[stack.len() - 1]);
    }
}

/// The top connection stays on top with a new scan position.
proof fn lemma_topo_stay<F: Fn(&StopInfo, i16, &StopInfo, i16, i32) -> Reach>(
    conns: Seq<Connection>,
    stations: Seq<Station>,
    order: Seq<usize>,
    labels: Seq<DfsConnectionLabel>,
    visited: Seq<i16>,
    scu: Seq<usize>,
    stack: Seq<usize>,
    fin: Seq<usize>,
    made: Set<(usize, usize)>,
    reach: &F,
    lab: DfsConnectionLabel,
)
    requires
        timetable_wf(conns, stations, order),
        dfs_state_ok(conns, stations, order, labels, visited, scu, stack, fin),
        topo_inv(conns, stations, order, labels, visited, stack, made, reach),
        stack.len() > 0,
        scan_ok(conns, stations, order, labels, visited, made, reach, stack.last() as int, lab, true),
    ensures
        ({
            let c = stack.last() as int;
            topo_inv(conns, stations, order, labels.update(c, lab), visited.update(c, 1), stack, made, reach)
        }),
{
    let c = stack.last() as int;
    let n = conns.len() as int;
    let l2 = labels.update(c, lab);
    let v2 = visited.update(c, 1);
    assert(stack[stack.len() - 1] == c);
    assert(visited[c] != 2) by {
        if visited[c] == 2 {
            assert(fin.contains(c as usize));
        }
    }
    assert forall|x: int, fp: int, k: int|
        #![trigger edge_ok(conns, stations, order, l2, v2, made, reach, x, fp, k)]
        0 <= x < n && in_region(conns, stations, x, fp, k) && (v2[x] == 2 || handled(
            l2[x],
            fp,
            k,
            v2[x] != 1 || (stack.len() > 0 && x == stack.last()),
        )) implies edge_ok(conns, stations, order, l2, v2, made, reach, x, fp, k) by {
        lemma_succ_in_range(conns, stations, order, x, fp, k);
        if x == c {
            assert(edge_ok(conns, stations, order, labels, visited, made, reach, c, fp, k));
        } else {
            assert(edge_ok(conns, stations, order, labels, visited, made, reach, x, fp, k));
        }
    }
    assert forall|j: int|
        #![trigger chain_link(conns, stations, order, l2, stack, reach, j)]
        0 <= j < stack.len() - 1 implies chain_link(conns, stations, order, l2, stack, reach, j) by {
        assert(chain_link(conns, stations, order, labels, stack, reach, j));
        assert(stack[j] != stack[stack.len() - 1]);
    }
}

/// The top connection descends to an unvisited departure.
proof fn lemma_topo_push<F: Fn(&StopInfo, i16, &StopInfo, i16, i32) -> Reach>(
    conns: Seq<Connection>,
    stations: Seq<Station>,
    order: Seq<usize>,
    labels: Seq<DfsConnectionLabel>,
    visited: Seq<i16>,
    scu: Seq<usize>,
    stack: Seq<usize>,
    fin: Seq<usize>,
    made: Set<(usize, usize)>,
    reach: &F,
    lab: DfsConnectionLabel,
    d: usize,
)
    requires
        timetable_wf(conns, stations, order),
        dfs_state_ok(conns, stations, order, labels, visited, scu, stack, fin),
        topo_inv(conns, stations, order, labels, visited, stack, made, reach),
        stack.len() > 0,
        scan_ok(conns, stations, order, labels, visited, made, reach, stack.last() as int, lab, false),
        succ_of(conns, stations, order, stack.last() as int, lab.footpath_i as int, lab.i as int) == d,
        followed_at(conns, stations, order, reach, stack.last() as int, lab.footpath_i as int, lab.i as int),
        d < conns.len(),
        visited.update(stack.last() as int, 1)[d as int] == 0,
    ensures
        ({
            let c = stack.last() as int;
            topo_inv(conns, stations, order, labels.update(c, lab), visited.update(c, 1), stack.push(d), made, reach)
        }),
{
    let c = stack.last() as int;
    let n = conns.len() as int;
    let l2 = labels.update(c, lab);
    let v2 = visited.update(c, 1);
    let st2 = stack.push(d);
    assert(stack[stack.len() - 1] == c);
    assert(visited[c] != 2) by {
        if visited[c] == 2 {
            assert(fin.contains(c as usize));
        }
    }
    assert(d as int != c);
    assert forall|x: int, fp: int, k: int|
        #![trigger edge_ok(conns, stations, order, l2, v2, made, reach, x, fp, k)]
        0 <= x < n && in_region(conns, stations, x, fp, k) && (v2[x] == 2 || handled(
            l2[x],
            fp,
            k,
            v2[x] != 1 || (st2.len() > 0 && x == st2.last()),
        )) implies edge_ok(conns, stations, order, l2, v2, made, reach, x, fp, k) by {
        lemma_succ_in_range(conns, stations, order, x, fp, k);
        if x == c {
            assert(edge_ok(conns, stations, order, labels, visited, made, reach, c, fp, k));
        } else {
            assert(edge_ok(conns, stations, order, labels, visited, made, reach, x, fp, k));
        }
    }
    assert forall|j: int|
        #![trigger chain_link(conns, stations, order, l2, st2, reach, j)]
        0 <= j < st2.len() - 1 implies chain_link(conns, stations, order, l2, st2, reach, j) by {
        if j < stack.len() - 1 {
            assert(chain_link(conns, stations, order, labels, stack, reach, j));
            assert(stack[j] != stack[stack.len() - 1]);
        } else {
            assert(st2[j] == c && st2[j + 1] == d);
        }
    }
}

/// Cycle resolution keeps what was established: the dropped connections keep
/// the departures they scanned before the one they were exploring, and the
/// connection left on top now faces a cut transfer.
proof fn lemma_topo_unravel<F: Fn(&StopInfo, i16, &StopInfo, i16, i32) -> Reach>(
    conns: Seq<Connection>,
    stations: Seq<Station>,
    order: Seq<usize>,
    labels: Seq<DfsConnectionLabel>,
    visited: Seq<i16>,
    scu: Seq<usize>,
    stack: Seq<usize>,
    fin: Seq<usize>,
    made: Set<(usize, usize)>,
    reach: &F,
    lab: DfsConnectionLabel,
    m: int,
    labels3: Seq<DfsConnectionLabel>,
    visited3: Seq<i16>,
)
    requires
        timetable_wf(conns, stations, order),
        dfs_state_ok(conns, stations, order, labels, visited, scu, stack, fin),
        topo_inv(conns, stations, order, labels, visited, stack, made, reach),
        scan_ok(conns, stations, order, labels, visited, made, reach, stack.last() as int, lab, false),
        1 <= m < stack.len(),
        made.contains((stack[m - 1], stack[m])),
        forall|k: int|
            #![trigger stack[k]]
            m <= k < stack.len() ==> labels.update(stack.last() as int, lab)[stack[k] as int].i < deps_len(
                stations,
                stop_of(
                    conns[stack[k] as int],
                    stations,
                    labels.update(stack.last() as int, lab)[stack[k] as int].footpath_i as int,
                ),
            ),
        labels3.len() == conns.len(),
        visited3.len() == conns.len(),
        forall|k: int|
            #![trigger stack[k]]
            m <= k < stack.len() ==> labels3[stack[k] as int] == (DfsConnectionLabel {
                i: (labels.update(stack.last() as int, lab)[stack[k] as int].i + 1) as usize,
                ..labels.update(stack.last() as int, lab)[stack[k] as int]
            }) && visited3[stack[k] as int] == 0,
        forall|x: usize|
            x < conns.len() && !(#[trigger] stack.subrange(m, stack.len() as int).contains(x))
                ==> labels3[x as int] == labels.update(stack.last() as int, lab)[x as int]
                && visited3[x as int] == visited.update(stack.last() as int, 1)[x as int],
    ensures
        topo_inv(conns, stations, order, labels3, visited3, stack.subrange(0, m), made, reach),
{
    let c = stack.last() as int;
    let n = conns.len() as int;
    let popped = stack.subrange(m, stack.len() as int);
    let st3 = stack.subrange(0, m);
    assert(stack[stack.len() - 1] == c);
    assert forall|x: usize| x < n && #[trigger] popped.contains(x) implies visited[x as int] != 2 && visited3[x as int] == 0 by {
        let j = choose|j: int| 0 <= j < popped.len() && popped[j] == x;
        assert(stack[m + j] == x);
        assert(stack.contains(x));
        if visited[x as int] == 2 {
            assert(fin.contains(x));
            if m + j < stack.len() - 1 {
                assert(visited[stack[m + j] as int] == 1);
            }
        }
    }
    assert forall|x: int, fp: int, k: int|
        #![trigger edge_ok(conns, stations, order, labels3, visited3, made, reach, x, fp, k)]
        0 <= x < n && in_region(conns, stations, x, fp, k) && (visited3[x] == 2 || handled(
            labels3[x],
            fp,
            k,
            visited3[x] != 1 || (st3.len() > 0 && x == st3.last()),
        )) implies edge_ok(conns, stations, order, labels3, visited3, made, reach, x, fp, k) by {
        lemma_succ_in_range(conns, stations, order, x, fp, k);
        let d = succ_of(conns, stations, order, x, fp, k);
        let xu = x as usize;
        assert(edge_ok(conns, stations, order, labels, visited, made, reach, x, fp, k)
            || (st3.len() > 0 && x == st3.last() && visited[x] == 1 && fp == labels[x].footpath_i && k == labels[x].i)) by {
            if popped.contains(xu) {
                let j = choose|j: int| 0 <= j < popped.len() && popped[j] == xu;
                assert(stack[m + j] == xu);
                let lw = labels.update(c, lab);
                vstd::std_specs::vec::axiom_spec_len(
                    &stations[stop_of(conns[x], stations, lw[x].footpath_i as int)].departures,
                );
                assert(labels3[x].i == lw[x].i + 1);
                assert(labels3[x].footpath_i == lw[x].footpath_i);
                if m + j == stack.len() - 1 {
                    assert(x == c);
                    assert(handled(lab, fp, k, false));
                } else {
                    assert(visited[x] == 1);
                    assert(x != c);
                    assert(handled(labels[x], fp, k, false));
                }
            } else {
                assert(x != c) by {
                    assert(popped[popped.len() - 1] == c as usize);
                }
            }
        }
        if !edge_ok(conns, stations, order, labels, visited, made, reach, x, fp, k) {
            assert(st3.last() == stack[m - 1]);
            assert(chain_link(conns, stations, order, labels, stack, reach, m - 1));
            assert(d == stack[m] as int);
            assert(made.contains((x as usize, d as usize)));
        } else if visited[d] == 2 {
            let du = d as usize;
            assert(!popped.contains(du));
            assert(d != c) by {
                assert(popped[popped.len() - 1] == c as usize);
            }
            assert(visited3[du as int] == 2);
            assert(labels3[du as int] == labels[d]);
            if visited3[x] == 2 {
                assert(!popped.contains(xu));
                assert(visited3[xu as int] == visited.update(c, 1)[x]);
                assert(x != c);
                assert(visited[x] == 2);
                assert(labels3[xu as int] == labels[x]);
            }
        }
    }
    assert forall|j: int|
        #![trigger chain_link(conns, stations, order, labels3, st3, reach, j)]
        0 <= j < st3.len() - 1 implies chain_link(conns, stations, order, labels3, st3, reach, j) by {
        assert(chain_link(conns, stations, order, labels, stack, reach, j));
        assert(st3[j] == stack[j] && st3[j + 1] == stack[j + 1]);
        assert(!popped.contains(stack[j])) by {
            if popped.contains(stack[j]) {
                let i = choose|i: int| 0 <= i < popped.len() && popped[i] == stack[j];
                assert(stack[m + i] == stack[j]);
            }
        }
        assert(stack[j] != stack[stack.len() - 1]);
    }
}

/// Setting the completed-up-to index of a stop to zero is sound once every
/// departure of the stop is finished.
proof fn lemma_stop_completed(
    conns: Seq<Connection>,
    stations: Seq<Station>,
    order: Seq<usize>,
    labels: Seq<DfsConnectionLabel>,
    visited: Seq<i16>,
    scu: Seq<usize>,
    stack: Seq<usize>,
    fin: Seq<usize>,
    stop: int,
)
    requires
        dfs_state_ok(conns, stations, order, labels, visited, scu, stack, fin),
        0 <= stop < stations.len(),
        forall|k: int|
            #![trigger stations[stop].departures@[k]]
            0 <= k < deps_len(stations, stop) ==> visited[dep_pos(stations, order, stop, k)] == 2,
    ensures
        dfs_state_ok(conns, stations, order, labels, visited, scu.update(stop, 0usize), stack, fin),
{
    let scu2 = scu.update(stop, 0usize);
    assert forall|s: int, k: int|
        #![trigger scu2[s], stations[s].departures@[k]]
        0 <= s < stations.len() && scu2[s] <= k < deps_len(stations, s)
            implies visited[dep_pos(stations, order, s, k)] == 2 by {
        if s != stop {
            assert(scu[s] == scu2[s]);
        }
    }
}

/// The top connection has scanned all its stops: it gets the next finishing
/// index and leaves the stack.
proof fn lemma_finish(
    conns: Seq<Connection>,
    stations: Seq<Station>,
    order: Seq<usize>,
    labels: Seq<DfsConnectionLabel>,
    visited: Seq<i16>,
    scu: Seq<usize>,
    stack: Seq<usize>,
    fin: Seq<usize>,
    lab: DfsConnectionLabel,
)
    requires
        timetable_wf(conns, stations, order),
        dfs_state_ok(conns, stations, order, labels, visited, scu, stack, fin),
        stack.len() > 0,
        label_ok(lab, conns[stack.last() as int], stations),
        lab.order == fin.len(),
    ensures
        ({
            let c = stack.last();
            dfs_state_ok(
                conns,
                stations,
                order,
                labels.update(c as int, lab),
                visited.update(c as int, 2),
                scu,
                stack.drop_last(),
                fin.push(c),
            )
        }),
{
    let c = stack.last();
    let n = conns.len() as int;
    let labels2 = labels.update(c as int, lab);
    let visited2 = visited.update(c as int, 2);
    let stack2 = stack.drop_last();
    let fin2 = fin.push(c);
    assert(stack[stack.len() - 1] == c);
    assert(c < n);
    assert(visited[c as int] != 2);
    assert(!fin.contains(c));
    assert forall|k: int| #![trigger stack2[k]] 0 <= k < stack2.len() implies stack2[k] != c by {
        assert(stack[k] == stack2[k]);
    }
    assert forall|k: int|
        #![trigger fin2[k]]
        0 <= k < fin2.len() implies fin2[k] < n && labels2[fin2[k] as int].order == k by {
        if k < fin.len() {
            assert(fin2[k] == fin[k]);
            assert(fin[k] != c);
        }
    }
    assert forall|x: usize| #![trigger visited2[x as int]] x < n implies (visited2[x as int] == 2 <==> fin2.contains(x)) by {
        if x != c {
            assert(visited[x as int] == 2 <==> fin.contains(x));
            if fin2.contains(x) {
                let j = choose|j: int| 0 <= j < fin2.len() && fin2[j] == x;
                assert(j < fin.len());
                assert(fin[j] == x);
            }
            if fin.contains(x) {
                let j = choose|j: int| 0 <= j < fin.len() && fin[j] == x;
                assert(fin2[j] == x);
            }
        } else {
            assert(fin2[fin.len() as int] == c);
        }
    }
    assert forall|x: usize| #![trigger visited2[x as int]] x < n && visited2[x as int] == 1 implies stack2.contains(x) by {
        assert(x != c);
        assert(stack.contains(x));
        let j = choose|j: int| 0 <= j < stack.len() && stack[j] == x;
        assert(j != stack.len() - 1);
        assert(stack2[j] == x);
    }
    assert forall|k: int|
        #![trigger stack2[k]]
        0 <= k < stack2.len() - 1 implies visited2[stack2[k] as int] == 1 && labels2[stack2[k] as int].i
            < deps_len(stations, stop_of(conns[stack2[k] as int], stations, labels2[stack2[k] as int].footpath_i as int)) by {
        assert(stack2[k] == stack[k]);
    }
    if stack2.len() > 0 {
        assert(stack2.last() == stack[stack.len() - 2]);
    }
    assert forall|s: int, k: int|
        #![trigger scu[s], stations[s].departures@[k]]
        0 <= s < stations.len() && scu[s] <= k < deps_len(stations, s)
            implies visited2[dep_pos(stations, order, s, k)] == 2 by {
        assert(visited[dep_pos(stations, order, s, k)] == 2);
        assert(stations[s].departures@[k] < n);
        assert(dep_pos(stations, order, s, k) < n);
    }
    assert forall|x: int| #![trigger labels2[x]] 0 <= x < n implies label_ok(labels2[x], conns[x], stations) by {
        if x != c {
            assert(labels2[x] == labels[x]);
        }
    }
}


/// The top connection stays on the stack with an advanced scan position.
proof fn lemma_stay(
    conns: Seq<Connection>,
    stations: Seq<Station>,
    order: Seq<usize>,
    labels: Seq<DfsConnectionLabel>,
    visited: Seq<i16>,
    scu: Seq<usize>,
    stack: Seq<usize>,
    fin: Seq<usize>,
    lab: DfsConnectionLabel,
)
    requires
        timetable_wf(conns, stations, order),
        dfs_state_ok(conns, stations, order, labels, visited, scu, stack, fin),
        stack.len() > 0,
        label_ok(lab, conns[stack.last() as int], stations),
        lab.order == labels[stack.last() as int].order,
    ensures
        ({
            let c = stack.last();
            dfs_state_ok(
                conns,
                stations,
                order,
                labels.update(c as int, lab),
                visited.update(c as int, 1),
                scu,
                stack,
                fin,
            )
        }),
{
    let c = stack.last();
    let n = conns.len() as int;
    let labels2 = labels.update(c as int, lab);
    let visited2 = visited.update(c as int, 1);
    assert(stack[stack.len() - 1] == c);
    assert(c < n);
    assert(visited[c as int] != 2);
    assert(!fin.contains(c));
    assert forall|k: int|
        #![trigger fin[k]]
        0 <= k < fin.len() implies fin[k] < n && labels2[fin[k] as int].order == k by {
        assert(fin[k] != c);
    }
    assert forall|x: usize| #![trigger visited2[x as int]] x < n implies (visited2[x as int] == 2 <==> fin.contains(x)) by {
        if x != c {
            assert(visited[x as int] == 2 <==> fin.contains(x));
        }
    }
    assert forall|x: usize| #![trigger visited2[x as int]] x < n && visited2[x as int] == 1 implies stack.contains(x) by {
        if x == c {
            assert(stack[stack.len() - 1] == x);
        } else {
            assert(visited[x as int] == 1);
        }
    }
    assert forall|k: int|
        #![trigger stack[k]]
        0 <= k < stack.len() - 1 implies visited2[stack[k] as int] == 1 && labels2[stack[k] as int].i
            < deps_len(stations, stop_of(conns[stack[k] as int], stations, labels2[stack[k] as int].footpath_i as int)) by {
        assert(stack[k] != c);
    }
    assert forall|s: int, k: int|
        #![trigger scu[s], stations[s].departures@[k]]
        0 <= s < stations.len() && scu[s] <= k < deps_len(stations, s)
            implies visited2[dep_pos(stations, order, s, k)] == 2 by {
        assert(visited[dep_pos(stations, order, s, k)] == 2);
        assert(stations[s].departures@[k] < n);
        assert(dep_pos(stations, order, s, k) < n);
    }
    assert forall|x: int| #![trigger labels2[x]] 0 <= x < n implies label_ok(labels2[x], conns[x], stations) by {
        if x != c {
            assert(labels2[x] == labels[x]);
        }
    }
    assert forall|x: int| #![trigger visited2[x]] 0 <= x < n implies 0 <= visited2[x] <= 2 by {
        if x != c {
            assert(visited2[x] == visited[x]);
        }
    }
}

/// The top connection descends to a departure that was not visited yet.
proof fn lemma_push(
    conns: Seq<Connection>,
    stations: Seq<Station>,
    order: Seq<usize>,
    labels: Seq<DfsConnectionLabel>,
    visited: Seq<i16>,
    scu: Seq<usize>,
    stack: Seq<usize>,
    fin: Seq<usize>,
    d: usize,
)
    requires
        timetable_wf(conns, stations, order),
        dfs_state_ok(conns, stations, order, labels, visited, scu, stack, fin),
        stack.len() > 0,
        visited[stack.last() as int] == 1,
        labels[stack.last() as int].i < deps_len(
            stations,
            stop_of(conns[stack.last() as int], stations, labels[stack.last() as int].footpath_i as int),
        ),
        d < conns.len(),
        visited[d as int] == 0,
    ensures
        dfs_state_ok(conns, stations, order, labels, visited, scu, stack.push(d), fin),
{
    let n = conns.len() as int;
    let stack2 = stack.push(d);
    assert(!stack.contains(d)) by {
        if stack.contains(d) {
            let j = choose|j: int| 0 <= j < stack.len() && stack[j] == d;
            if j < stack.len() - 1 {
                assert(visited[stack[j] as int] == 1);
            } else {
                assert(stack[j] == stack.last());
            }
        }
    }
    assert forall|k: int|
        #![trigger stack2[k]]
        0 <= k < stack2.len() - 1 implies visited[stack2[k] as int] == 1 && labels[stack2[k] as int].i
            < deps_len(stations, stop_of(conns[stack2[k] as int], stations, labels[stack2[k] as int].footpath_i as int)) by {
        assert(stack2[k] == stack[k]);
        if k == stack.len() - 1 {
            assert(stack[k] == stack.last());
        }
    }
    assert forall|x: usize| #![trigger visited[x as int]] x < n && visited[x as int] == 1 implies stack2.contains(x) by {
        assert(stack.contains(x));
        let j = choose|j: int| 0 <= j < stack.len() && stack[j] == x;
        assert(stack2[j] == x);
    }
    assert forall|k: int| #![trigger stack2[k]] 0 <= k < stack2.len() implies stack2[k] < n by {
        if k < stack.len() {
            assert(stack2[k] == stack[k]);
        }
    }
    assert(stack2.last() == d);
}


/// Cycle resolution: the stack above position `m` is dropped; those
/// connections become unvisited and will re-examine the departure they were at.
proof fn lemma_unravel(
    conns: Seq<Connection>,
    stations: Seq<Station>,
    order: Seq<usize>,
    lw: Seq<DfsConnectionLabel>,
    vw: Seq<i16>,
    scu: Seq<usize>,
    stack: Seq<usize>,
    fin: Seq<usize>,
    m: int,
    labels3: Seq<DfsConnectionLabel>,
    visited3: Seq<i16>,
)
    requires
        timetable_wf(conns, stations, order),
        dfs_state_ok(conns, stations, order, lw, vw, scu, stack, fin),
        conns.len() <= usize::MAX,
        1 <= m < stack.len(),
        vw[stack.last() as int] == 1,
        labels3.len() == conns.len(),
        visited3.len() == conns.len(),
        forall|k: int|
            #![trigger stack[k]]
            m <= k < stack.len() ==> lw[stack[k] as int].i < deps_len(
                stations,
                stop_of(conns[stack[k] as int], stations, lw[stack[k] as int].footpath_i as int),
            ),
        forall|k: int|
            #![trigger stack[k]]
            m <= k < stack.len() ==> labels3[stack[k] as int] == (DfsConnectionLabel {
                i: (lw[stack[k] as int].i + 1) as usize,
                ..lw[stack[k] as int]
            }) && visited3[stack[k] as int] == 0,
        forall|x: usize|
            x < conns.len() && !(#[trigger] stack.subrange(m, stack.len() as int).contains(x))
                ==> labels3[x as int] == lw[x as int] && visited3[x as int] == vw[x as int],
    ensures
        dfs_state_ok(conns, stations, order, labels3, visited3, scu, stack.subrange(0, m), fin),
        forall|x: int| 0 <= x < conns.len() && vw[x] == 2 ==> visited3[x] == 2,
{
    let n = conns.len() as int;
    let popped = stack.subrange(m, stack.len() as int);
    let stack3 = stack.subrange(0, m);
    assert forall|x: usize| x < n && #[trigger] popped.contains(x) implies vw[x as int] == 1 && visited3[x as int] == 0 by {
        let j = choose|j: int| 0 <= j < popped.len() && popped[j] == x;
        assert(stack[m + j] == x);
        if m + j < stack.len() - 1 {
            assert(vw[stack[m + j] as int] == 1);
        }
    }
    assert forall|x: usize| x < n && vw[x as int] == 2 implies labels3[x as int] == lw[x as int] && visited3[x as int] == 2 by {
        if popped.contains(x) {
            assert(vw[x as int] == 1);
        }
    }
    assert forall|x: int| 0 <= x < n && vw[x] == 2 implies visited3[x] == 2 by {
        assert(vw[(x as usize) as int] == 2);
    }
    assert forall|k: int|
        #![trigger fin[k]]
        0 <= k < fin.len() implies fin[k] < n && labels3[fin[k] as int].order == k by {
        assert(vw[fin[k] as int] == 2);
    }
    assert forall|x: usize| #![trigger visited3[x as int]] x < n implies (visited3[x as int] == 2 <==> fin.contains(x)) by {
        if popped.contains(x) {
            assert(vw[x as int] == 1);
            assert(!fin.contains(x));
        } else {
            assert(visited3[x as int] == vw[x as int]);
        }
    }
    assert forall|x: usize| #![trigger visited3[x as int]] x < n && visited3[x as int] == 1 implies stack3.contains(x) by {
        if popped.contains(x) {
        } else {
            assert(vw[x as int] == 1);
            assert(stack.contains(x));
            let j = choose|j: int| 0 <= j < stack.len() && stack[j] == x;
            if j >= m {
                assert(popped[j - m] == x);
            }
            assert(stack3[j] == x);
        }
    }
    assert forall|k: int| 0 <= k < m implies !popped.contains(#[trigger] stack[k]) by {
        if popped.contains(stack[k]) {
            let j = choose|j: int| 0 <= j < popped.len() && popped[j] == stack[k];
            assert(stack[m + j] == stack[k]);
        }
    }
    assert forall|k: int|
        #![trigger stack3[k]]
        0 <= k < stack3.len() - 1 implies visited3[stack3[k] as int] == 1 && labels3[stack3[k] as int].i
            < deps_len(stations, stop_of(conns[stack3[k] as int], stations, labels3[stack3[k] as int].footpath_i as int)) by {
        assert(stack3[k] == stack[k]);
        assert(!popped.contains(stack[k]));
    }
    assert(stack3.last() == stack[m - 1]);
    assert(!popped.contains(stack[m - 1]));
    assert(vw[stack[m - 1] as int] == 1);
    assert forall|s: int, k: int|
        #![trigger scu[s], stations[s].departures@[k]]
        0 <= s < stations.len() && scu[s] <= k < deps_len(stations, s)
            implies visited3[dep_pos(stations, order, s, k)] == 2 by {
        assert(vw[dep_pos(stations, order, s, k)] == 2);
        assert(stations[s].departures@[k] < n);
        let x = dep_pos(stations, order, s, k) as usize;
        assert(vw[x as int] == 2);
    }
    assert forall|x: int| #![trigger labels3[x]] 0 <= x < n implies label_ok(labels3[x], conns[x], stations) by {
        let xu = x as usize;
        if popped.contains(xu) {
            let j = choose|j: int| 0 <= j < popped.len() && popped[j] == xu;
            assert(stack[m + j] == xu);
        } else {
            assert(labels3[xu as int] == lw[xu as int]);
        }
    }
    assert forall|x: int| #![trigger visited3[x]] 0 <= x < n implies 0 <= visited3[x] <= 2 by {
        let xu = x as usize;
        if popped.contains(xu) {
        } else {
            assert(visited3[xu as int] == vw[xu as int]);
        }
    }
    assert forall|k: int| #![trigger stack3[k]] 0 <= k < stack3.len() implies stack3[k] < n by {
        assert(stack3[k] == stack[k]);
    }
}

/// Recording one more cut transfer, by positions or by ids, keeps the record
/// of cuts exact.
proof fn lemma_cut_recorded_insert(
    cut: Set<(usize, usize)>,
    cut2: Set<(usize, usize)>,
    made: Set<(usize, usize)>,
    made2: Set<(usize, usize)>,
    conns: Seq<Connection>,
    record_cuts: bool,
    x: usize,
    y: usize,
    u: usize,
    v: usize,
)
    requires
        made2 == made.insert((x, y)),
        (u, v) == (x, y) || (u, v) == (conns[x as int].id, conns[y as int].id),
        record_cuts ==> cut2 == cut.insert((u, v)),
        !record_cuts ==> cut2 == cut,
        record_cuts ==> cuts_recorded(cut, made, conns),
    ensures
        record_cuts ==> cuts_recorded(cut2, made2, conns),
{
    if record_cuts {
        assert forall|q: (usize, usize)| #[trigger] made2.contains(q)
            implies cut2.contains(q) || cut2.contains((conns[q.0 as int].id, conns[q.1 as int].id)) by {
            if q != (x, y) {
                assert(made.contains(q));
            }
        }
        assert forall|q: (usize, usize)| #[trigger] cut2.contains(q)
            implies exists|p: (usize, usize)| #[trigger] made2.contains(p) && (q == p || q == (conns[p.0 as int].id, conns[p.1 as int].id)) by {
            if q == (u, v) {
                assert(made2.contains((x, y)));
            } else {
                assert(cut.contains(q));
                let p = choose|p: (usize, usize)| #[trigger] made.contains(p) && (q == p || q == (conns[p.0 as int].id, conns[p.1 as int].id));
                assert(made2.contains(p));
            }
        }
    }
}

/// Adding a transfer that closes a cycle keeps every cut transfer closing one.
proof fn lemma_cut_closes_insert<F: Fn(&StopInfo, i16, &StopInfo, i16, i32) -> Reach>(
    conns: Seq<Connection>,
    stations: Seq<Station>,
    order: Seq<usize>,
    reach: &F,
    made: Set<(usize, usize)>,
    x: usize,
    y: usize,
)
    requires
        cuts_close_cycles(conns, stations, order, reach, made),
        closes_cycle(conns, stations, order, reach, x as int, y as int),
    ensures
        cuts_close_cycles(conns, stations, order, reach, made.insert((x, y))),
{
    assert forall|q: (usize, usize)| #[trigger] made.insert((x, y)).contains(q)
        implies closes_cycle(conns, stations, order, reach, q.0 as int, q.1 as int) by {
        if q != (x, y) {
            assert(made.contains(q));
        }
    }
}

enum Outcome {
    Exhausted,
    Push(usize),
    Unravel(usize),
}


/// Depth first search from `anchor_idx` over the connections that can follow
/// each other, finishing each connection after all its successors. Cycles are
/// broken at the transfer with the smallest predicted slack (projected times;
/// the transfer that closed the cycle weighs 1 when it continues the trip, and
/// other such transfers are never broken); the broken transfer is recorded in
/// `cut` when `record_cuts` holds.
fn dfs<F>(
    connections: &Vec<Connection>,
    stations: &[Station],
    order: &Vec<usize>,
    cut: &mut FxHashSet<(usize, usize)>,
    record_cuts: bool,
    reach: &F,
    anchor_idx: usize,
    topo_idx: &mut usize,
    labels: &mut Vec<DfsConnectionLabel>,
    visited: &mut Vec<i16>,
    stops_completed_up: &mut Vec<usize>,
    instr: &mut Instrumentation,
    Ghost(fin): Ghost<Seq<usize>>,
    Ghost(made_in): Ghost<Set<(usize, usize)>>,
) -> (out: (Ghost<Seq<usize>>, Ghost<Set<(usize, usize)>>)) where F: Fn(&StopInfo, i16, &StopInfo, i16, i32) -> Reach
    requires
        timetable_wf(connections@, stations@, order@),
        forall|a: &StopInfo, b: i16, c: &StopInfo, d: i16, e: i32| reach.requires((a, b, c, d, e)),
        anchor_idx < connections.len(),
        old(visited)@[anchor_idx as int] == 0,
        dfs_state_ok(
            connections@,
            stations@,
            order@,
            old(labels)@,
            old(visited)@,
            old(stops_completed_up)@,
            Seq::empty(),
            fin,
        ),
        *old(topo_idx) == fin.len(),
        forall|a: usize, b: usize| old(cut)@.contains((a, b)) ==> a < connections.len() && b < connections.len(),
        topo_inv(connections@, stations@, order@, old(labels)@, old(visited)@, Seq::empty(), made_in, reach),
        cuts_close_cycles(connections@, stations@, order@, reach, made_in),
        record_cuts ==> cuts_recorded(old(cut)@, made_in, connections@),
        departures_fit(connections@),
        transfers_fit(connections@, stations@, order@),
    ensures
        forall|a: usize, b: usize| final(cut)@.contains((a, b)) ==> a < connections.len() && b < connections.len(),
        topo_inv(connections@, stations@, order@, final(labels)@, final(visited)@, Seq::empty(), out.1@, reach),
        cuts_close_cycles(connections@, stations@, order@, reach, out.1@),
        forall|q: (usize, usize)| made_in.contains(q) ==> out.1@.contains(q),
        record_cuts ==> cuts_recorded(final(cut)@, out.1@, connections@),
        fin.len() <= out.0@.len(),
        out.0@.subrange(0, fin.len() as int) == fin,
        !record_cuts ==> final(cut)@ == old(cut)@,
        dfs_state_ok(
            connections@,
            stations@,
            order@,
            final(labels)@,
            final(visited)@,
            final(stops_completed_up)@,
            Seq::empty(),
            out.0@,
        ),
        *final(topo_idx) == out.0@.len(),
        final(visited)@[anchor_idx as int] == 2,
        forall|x: int| 0 <= x < connections.len() && old(visited)@[x] == 2 ==> final(visited)@[x] == 2,
{
    let ghost fin0 = fin;
    let ghost mut fin = fin;
    let ghost mut made = made_in;
    let n = connections.len();
    let mut stack: Vec<usize> = Vec::new();
    stack.push(anchor_idx);
    proof {
        assert(stack@ =~= seq![anchor_idx]);
        lemma_topo_start(connections@, stations@, order@, labels@, visited@, stops_completed_up@, fin, made, reach, anchor_idx);
        assert(fin.subrange(0, fin0.len() as int) =~= fin0);
    }
    while stack.len() > 0
        invariant
            n == connections.len(),
            timetable_wf(connections@, stations@, order@),
            forall|a: &StopInfo, b: i16, c: &StopInfo, d: i16, e: i32| reach.requires((a, b, c, d, e)),
            anchor_idx < n,
            dfs_state_ok(connections@, stations@, order@, labels@, visited@, stops_completed_up@, stack@, fin),
            *topo_idx == fin.len(),
            stack.len() > 0 ==> stack[0] == anchor_idx,
            stack.len() == 0 ==> visited@[anchor_idx as int] == 2,
            forall|x: int| 0 <= x < n && old(visited)@[x] == 2 ==> visited@[x] == 2,
            forall|a: usize, b: usize| cut@.contains((a, b)) ==> a < n && b < n,
            topo_inv(connections@, stations@, order@, labels@, visited@, stack@, made, reach),
            fin0.len() <= fin.len(),
            fin.subrange(0, fin0.len() as int) == fin0,
            !record_cuts ==> cut@ == old(cut)@,
            departures_fit(connections@),
            transfers_fit(connections@, stations@, order@),
            cuts_close_cycles(connections@, stations@, order@, reach, made),
            forall|q: (usize, usize)| made_in.contains(q) ==> made.contains(q),
            record_cuts ==> cuts_recorded(cut@, made, connections@),
        decreases n - *topo_idx, sum_fp(labels@), sum_i(labels@) + stack.len(), n - stack.len(),
    {
        proof {
            lemma_distinct_bounded(stack@, n as nat);
            lemma_distinct_bounded(fin, n as nat);
            lemma_sums_nonneg(labels@);
        }
        let ghost labels0 = labels@;
        let ghost stack0 = stack@;
        let ghost topo0 = *topo_idx as int;
        let ghost visited0 = visited@;
        instr.iterations = instr.iterations.wrapping_add(1);
        let c_idx = stack[stack.len() - 1];
        assert(stack@[stack.len() - 1] < n);
        let c = &connections[c_idx];
        assert(connections@[c_idx as int].to_idx < stations@.len());
        let mut lab = labels[c_idx];
        let footpaths = &stations[c.to_idx].footpaths;
        assert(label_ok(labels@[c_idx as int], connections@[c_idx as int], stations@));
        assert(lab.footpath_i < footpaths.len() ==> stations@[c.to_idx as int].footpaths@[lab.footpath_i as int].target_location_idx < stations@.len());
        let mut stop_idx = if lab.footpath_i == footpaths.len() {
            c.to_idx
        } else {
            footpaths[lab.footpath_i].target_location_idx
        };
        let mut streak = false;
        if lab.i >= stops_completed_up[stop_idx] {
            lab.i = stops_completed_up[stop_idx];
            streak = true;
        }
        proof {
            assert(visited0[c_idx as int] != 2);
            assert(stack0[stack0.len() - 1] == c_idx);
            let l0 = labels0[c_idx as int];
            assert forall|fp: int, k: int|
                #![trigger edge_ok(connections@, stations@, order@, labels0, visited0, made, reach, c_idx as int, fp, k)]
                in_region(connections@, stations@, c_idx as int, fp, k) && handled(l0, fp, k, true)
                    implies edge_ok(connections@, stations@, order@, labels0, visited0, made, reach, c_idx as int, fp, k) by {}
            if streak {
                assert forall|k: int|
                    #![trigger stations@[stop_of(connections@[c_idx as int], stations@, lab.footpath_i as int)].departures@[k]]
                    lab.i <= k < deps_len(stations@, stop_of(connections@[c_idx as int], stations@, lab.footpath_i as int))
                        implies visited0[succ_of(connections@, stations@, order@, c_idx as int, lab.footpath_i as int, k)] == 2 by {
                    assert(stations@[stop_idx as int].departures@[k] == stations@[stop_idx as int].departures@[k]);
                }
                lemma_scan_next(connections@, stations@, order@, labels0, visited0, made, reach, c_idx as int, l0, lab);
            } else {
                assert(lab == l0);
            }
        }
        visited.set(c_idx, 1);
        let mut found = false;
        let ghost mut progress = false;
        proof {
            lemma_sums_update(labels0, c_idx as int, lab);
        }
        let outcome;
        loop
            invariant_except_break
                n == connections.len(),
                timetable_wf(connections@, stations@, order@),
                forall|a: &StopInfo, b: i16, c: &StopInfo, d: i16, e: i32| reach.requires((a, b, c, d, e)),
                stack@ == stack0,
                labels@ == labels0,
                stack0.len() > 0,
                c_idx < n,
                stop_idx < stations@.len(),
                labels0.len() == n,
                c_idx == stack0.last(),
                c == connections@[c_idx as int],
                footpaths == stations@[c.to_idx as int].footpaths,
                visited@ == visited0.update(c_idx as int, 1),
                dfs_state_ok(connections@, stations@, order@, labels0, visited0, stops_completed_up@, stack0, fin),
                label_ok(lab, *c, stations@),
                lab.order == labels0[c_idx as int].order,
                stop_idx == stop_of(*c, stations@, lab.footpath_i as int),
                streak ==> forall|k: int|
                    #![trigger stations@[stop_idx as int].departures@[k]]
                    lab.i <= k < deps_len(stations@, stop_idx as int)
                        ==> visited0[dep_pos(stations@, order@, stop_idx as int, k)] == 2,
                sum_fp(labels0.update(c_idx as int, lab)) < sum_fp(labels0)
                    || (sum_fp(labels0.update(c_idx as int, lab)) == sum_fp(labels0)
                        && sum_i(labels0.update(c_idx as int, lab)) <= sum_i(labels0)),
                progress ==> (sum_fp(labels0.update(c_idx as int, lab)) < sum_fp(labels0)
                    || sum_i(labels0.update(c_idx as int, lab)) < sum_i(labels0)),
                found ==> progress,
                forall|a: usize, b: usize| cut@.contains((a, b)) ==> a < n && b < n,
                visited0[c_idx as int] != 2,
                topo_inv(connections@, stations@, order@, labels0, visited0, stack0, made, reach),
                scan_ok(connections@, stations@, order@, labels0, visited0, made, reach, c_idx as int, lab, true),
                !record_cuts ==> cut@ == old(cut)@,
                departures_fit(connections@),
                transfers_fit(connections@, stations@, order@),
                cuts_close_cycles(connections@, stations@, order@, reach, made),
                forall|q: (usize, usize)| made_in.contains(q) ==> made.contains(q),
                record_cuts ==> cuts_recorded(cut@, made, connections@),
            ensures
                cuts_close_cycles(connections@, stations@, order@, reach, made),
                forall|q: (usize, usize)| made_in.contains(q) ==> made.contains(q),
                record_cuts ==> cuts_recorded(cut@, made, connections@),
                forall|a: usize, b: usize| cut@.contains((a, b)) ==> a < n && b < n,
                topo_inv(connections@, stations@, order@, labels0, visited0, stack0, made, reach),
                !record_cuts ==> cut@ == old(cut)@,
                stack@ == stack0,
                labels@ == labels0,
                visited@ == visited0.update(c_idx as int, 1),
                dfs_state_ok(connections@, stations@, order@, labels0, visited0, stops_completed_up@, stack0, fin),
                label_ok(lab, *c, stations@),
                lab.order == labels0[c_idx as int].order,
                stop_idx == stop_of(*c, stations@, lab.footpath_i as int),
                streak ==> forall|k: int|
                    #![trigger stations@[stop_idx as int].departures@[k]]
                    lab.i <= k < deps_len(stations@, stop_idx as int)
                        ==> visited0[dep_pos(stations@, order@, stop_idx as int, k)] == 2,
                sum_fp(labels0.update(c_idx as int, lab)) < sum_fp(labels0)
                    || (sum_fp(labels0.update(c_idx as int, lab)) == sum_fp(labels0)
                        && sum_i(labels0.update(c_idx as int, lab)) <= sum_i(labels0)),
                progress ==> (sum_fp(labels0.update(c_idx as int, lab)) < sum_fp(labels0)
                    || sum_i(labels0.update(c_idx as int, lab)) < sum_i(labels0)),
                found ==> progress,
                match outcome {
                    Outcome::Exhausted => lab.i == 0 && lab.footpath_i == 0
                        && scan_ok(connections@, stations@, order@, labels0, visited0, made, reach, c_idx as int, lab, true),
                    Outcome::Push(d) => progress && d < n && visited@[d as int] == 0
                        && lab.i < deps_len(stations@, stop_idx as int)
                        && scan_ok(connections@, stations@, order@, labels0, visited0, made, reach, c_idx as int, lab, false)
                        && succ_of(connections@, stations@, order@, c_idx as int, lab.footpath_i as int, lab.i as int) == d
                        && followed_at(connections@, stations@, order@, reach, c_idx as int, lab.footpath_i as int, lab.i as int),
                    Outcome::Unravel(m) => progress && 1 <= m < stack0.len()
                        && lab.i < deps_len(stations@, stop_idx as int)
                        && scan_ok(connections@, stations@, order@, labels0, visited0, made, reach, c_idx as int, lab, false)
                        && made.contains((stack0[m - 1], stack0[m as int])),
                },
            decreases lab.footpath_i, lab.i,
        {
            let ghost lab_before = lab;
            if lab.i > 0 {
                lab.i = lab.i - 1;
                proof {
                    progress = true;
                    lemma_scan_shrink(connections@, stations@, order@, labels0, visited0, made, reach, c_idx as int, lab_before, true, lab, false);
                }
            } else if lab.footpath_i > 0 {
                if streak {
                    stops_completed_up.set(stop_idx, 0);
                    streak = false;
                }
                lab.footpath_i = lab.footpath_i - 1;
                proof { progress = true; }
                assert(stations@[c.to_idx as int].footpaths@[lab.footpath_i as int].target_location_idx < stations@.len());
                stop_idx = footpaths[lab.footpath_i].target_location_idx;
                lab.i = stations[stop_idx].departures.len();
                if lab.i >= stops_completed_up[stop_idx] {
                    lab.i = stops_completed_up[stop_idx];
                    streak = true;
                }
                proof {
                    lemma_sums_update(labels0, c_idx as int, lab_before);
                    lemma_sums_update(labels0, c_idx as int, lab);
                    if streak {
                        assert forall|k: int|
                            #![trigger stations@[stop_of(connections@[c_idx as int], stations@, lab.footpath_i as int)].departures@[k]]
                            lab.i <= k < deps_len(stations@, stop_of(connections@[c_idx as int], stations@, lab.footpath_i as int))
                                implies visited0[succ_of(connections@, stations@, order@, c_idx as int, lab.footpath_i as int, k)] == 2 by {
                            assert(stations@[stop_idx as int].departures@[k] == stations@[stop_idx as int].departures@[k]);
                        }
                    }
                    lemma_scan_next(connections@, stations@, order@, labels0, visited0, made, reach, c_idx as int, lab_before, lab);
                }
                if lab.i == 0 {
                    streak = false;
                    continue;
                }
                let ghost lab_mid = lab;
                lab.i = lab.i - 1;
                proof {
                    lemma_scan_shrink(connections@, stations@, order@, labels0, visited0, made, reach, c_idx as int, lab_mid, true, lab, false);
                }
            } else {
                outcome = Outcome::Exhausted;
                break;
            }
            proof {
                lemma_sums_update(labels0, c_idx as int, lab_before);
                lemma_sums_update(labels0, c_idx as int, lab);
            }
            assert(stations@[stop_idx as int].departures@[lab.i as int] < n);
            let dep_idx = order[stations[stop_idx].departures[lab.i]];
            assert(dep_idx == succ_of(connections@, stations@, order@, c_idx as int, lab.footpath_i as int, lab.i as int));
            assert(in_region(connections@, stations@, c_idx as int, lab.footpath_i as int, lab.i as int));
            assert(connections@[dep_idx as int].departure.projection_fits());
            assert(connections@[c_idx as int].arrival.projection_fits());
            let dep_visited = visited[dep_idx];
            if dep_visited == 2 {
                instr.encounter_2 = instr.encounter_2.wrapping_add(1);
                proof {
                    assert(visited0[dep_idx as int] == 2);
                    assert(edge_ok(connections@, stations@, order@, labels0, visited0, made, reach, c_idx as int, lab.footpath_i as int, lab.i as int));
                    lemma_scan_add(connections@, stations@, order@, labels0, visited0, made, reach, c_idx as int, lab);
                }
            } else {
                if streak {
                    stops_completed_up.set(stop_idx, lab.i + 1);
                    streak = false;
                }
                found = true;
                instr.found = instr.found.wrapping_add(1);
                let dep = &connections[dep_idx];
                let main_stop = lab.footpath_i == footpaths.len();
                let is_continuing = if main_stop {
                    c.is_consecutive(dep)
                } else {
                    false
                };
                if !is_continuing {
                    let transfer_time: i32 = if main_stop {
                        stations[stop_idx].transfer_time as i32
                    } else {
                        footpaths[lab.footpath_i].duration as i32
                    };
                    assert(transfer_time == transfer_at(*c, stations@, lab.footpath_i as int));
                    assert(!continues_trip(*c, *dep, stations@, lab.footpath_i as int));
                    let verdict = reach(&c.arrival, c.product_type, &dep.departure, dep.product_type, transfer_time);
                    assert(reach_may(reach, *c, *dep, transfer_time, verdict));
                    match verdict {
                        Reach::Reachable => {},
                        Reach::Unreachable => {
                            proof {
                                assert(edge_ok(connections@, stations@, order@, labels0, visited0, made, reach, c_idx as int, lab.footpath_i as int, lab.i as int));
                                lemma_scan_add(connections@, stations@, order@, labels0, visited0, made, reach, c_idx as int, lab);
                            }
                            continue;
                        },
                        Reach::UnreachableRest => {
                            proof {
                                lemma_scan_rest(connections@, stations@, order@, labels0, visited0, made, reach, c_idx as int, lab);
                            }
                            lab.i = 0;
                            proof {
                                lemma_sums_update(labels0, c_idx as int, lab);
                            }
                            continue;
                        },
                    }
                }
                assert(followed_at(connections@, stations@, order@, reach, c_idx as int, lab.footpath_i as int, lab.i as int));
                if dep_visited == 1 {
                    instr.encounter_1 = instr.encounter_1.wrapping_add(1);
                    let mut min_transfer: i32 = if c.is_consecutive(dep) {
                        1
                    } else {
                        dep.departure.projected() - c.arrival.projected()
                    };
                    let ghost w_close = cycle_weight(connections@, c_idx as int, dep_idx as int, true)->0;
                    assert(min_transfer == w_close);
                    let mut min_i = stack.len();
                    let mut i = stack.len();
                    assert(stack@.subrange(0, i as int) =~= stack@);
                    assert forall|j: int|
                        #![trigger chain_link(connections@, stations@, order@, labels0, stack0, reach, j)]
                        0 <= j < stack0.len() - 1 implies chain_link(connections@, stations@, order@, labels0, stack0, reach, j)
                            && in_region(connections@, stations@, stack0[j] as int, labels0[stack0[j] as int].footpath_i as int, labels0[stack0[j] as int].i as int) by {
                        assert(stack0[j] < n);
                        assert(label_ok(labels0[stack0[j] as int], connections@[stack0[j] as int], stations@));
                    }
                    while stack[i - 1] != dep_idx
                        invariant
                            n == connections.len(),
                            timetable_wf(connections@, stations@, order@),
                            departures_fit(connections@),
                            transfers_fit(connections@, stations@, order@),
                            forall|j: int|
                                #![trigger chain_link(connections@, stations@, order@, labels0, stack0, reach, j)]
                                0 <= j < stack0.len() - 1 ==> chain_link(connections@, stations@, order@, labels0, stack0, reach, j)
                                    && in_region(connections@, stations@, stack0[j] as int, labels0[stack0[j] as int].footpath_i as int, labels0[stack0[j] as int].i as int),
                            stack@ == stack0,
                            forall|k: int| #![trigger stack0[k]] 0 <= k < stack0.len() ==> stack0[k] < n,
                            1 <= i <= stack.len(),
                            stack@.subrange(0, i as int).contains(dep_idx),
                            i <= min_i <= stack.len(),
                            min_i < stack.len() ==> 1 <= min_i,
                            min_i == stack.len() ==> min_transfer == w_close,
                            min_i < stack.len() ==> stack_edge_weight(connections@, stack0, min_i - 1) == Some(min_transfer as int),
                            w_close >= min_transfer,
                            forall|k: int| #![trigger stack_edge_weight(connections@, stack0, k)]
                                i - 1 <= k < stack0.len() - 1 ==> at_least(stack_edge_weight(connections@, stack0, k), min_transfer as int),
                        decreases i,
                    {
                        let ghost i_before = i;
                        let ghost min_before = min_transfer;
                        assert(stack@.subrange(0, i as int - 1) =~= stack@.subrange(0, i as int).drop_last());
                        i = i - 1;
                        let a = &connections[stack[i - 1]];
                        let b = &connections[stack[i]];
                        assert(chain_link(connections@, stations@, order@, labels0, stack0, reach, i - 1));
                        assert(connections@[stack0[i as int] as int].departure.projection_fits());
                        if a.is_consecutive(b) {
                            assert(stack_edge_weight(connections@, stack0, i - 1) is None);
                            continue;
                        }
                        let t = b.departure.projected() - a.arrival.projected();
                        assert(stack_edge_weight(connections@, stack0, i - 1) == Some(t as int));
                        if t < min_transfer {
                            min_transfer = t;
                            min_i = i;
                        }
                        assert forall|k: int| #![trigger stack_edge_weight(connections@, stack0, k)]
                            i - 1 <= k < stack0.len() - 1 implies at_least(stack_edge_weight(connections@, stack0, k), min_transfer as int) by {
                            if k >= i_before - 1 {
                                assert(at_least(stack_edge_weight(connections@, stack0, k), min_before as int));
                            }
                        }
                    }
                    let seg = stack.len() - i;
                    instr.cycle_sum_len = instr.cycle_sum_len.wrapping_add(seg);
                    if seg > instr.cycle_max_len {
                        instr.cycle_max_len = seg;
                    }
                    if min_i == stack.len() {
                        let ghost made_before = made;
                        let ghost cut_before = cut@;
                        proof {
                            lemma_top_cut_closes(connections@, stations@, order@, labels0, visited0, stops_completed_up@, stack0, fin, made, reach, lab, i - 1);
                            made = made.insert((c_idx, dep_idx));
                            lemma_topo_made_grows(connections@, stations@, order@, labels0, visited0, stack0, made_before, made, reach, c_idx as int, lab, false);
                        }
                        if record_cuts {
                            assert(connections@[c_idx as int].id < n && connections@[dep_idx as int].id < n);
                            cut_insert(cut, c.id, dep.id);
                        }
                        proof {
                            lemma_cut_recorded_insert(cut_before, cut@, made_before, made, connections@, record_cuts, c_idx, dep_idx, c.id, dep.id);
                            lemma_cut_closes_insert(connections@, stations@, order@, reach, made_before, c_idx, dep_idx);
                        }
                        proof {
                            assert(edge_ok(connections@, stations@, order@, labels0, visited0, made, reach, c_idx as int, lab.footpath_i as int, lab.i as int));
                            lemma_scan_add(connections@, stations@, order@, labels0, visited0, made, reach, c_idx as int, lab);
                        }
                        if c.id == dep.id {
                            instr.cycle_self_count = instr.cycle_self_count.wrapping_add(1);
                        }
                        continue;
                    }
                    let ghost made_before = made;
                    let ghost cut_before = cut@;
                    let ghost a = stack0[min_i - 1];
                    let ghost b = stack0[min_i as int];
                    proof {
                        lemma_unravel_cut_closes(connections@, stations@, order@, labels0, visited0, stops_completed_up@, stack0, fin, made, reach, lab, i - 1, min_i as int, min_transfer as int);
                        made = made.insert((a, b));
                        lemma_topo_made_grows(connections@, stations@, order@, labels0, visited0, stack0, made_before, made, reach, c_idx as int, lab, false);
                    }
                    if record_cuts {
                        assert(stack0[min_i - 1] < n && stack0[min_i as int] < n);
                        cut_insert(cut, stack[min_i - 1], stack[min_i]);
                    }
                    proof {
                        lemma_cut_recorded_insert(cut_before, cut@, made_before, made, connections@, record_cuts, a, b, a, b);
                        lemma_cut_closes_insert(connections@, stations@, order@, reach, made_before, a, b);
                    }
                    instr.unraveling_no = instr.unraveling_no.wrapping_add(stack.len() - min_i);
                    outcome = Outcome::Unravel(min_i);
                    break;
                }
                outcome = Outcome::Push(dep_idx);
                break;
            }
        }
        match outcome {
            Outcome::Exhausted => {
                if found {
                    proof {
                        lemma_stay(connections@, stations@, order@, labels0, visited0, stops_completed_up@, stack0, fin, lab);
                        lemma_sums_update(labels0, c_idx as int, lab);
                        lemma_topo_stay(connections@, stations@, order@, labels0, visited0, stops_completed_up@, stack0, fin, made, reach, lab);
                    }
                    labels.set(c_idx, lab);
                    assert(visited@ =~= visited0.update(c_idx as int, 1));
                    assert(labels@ =~= labels0.update(c_idx as int, lab));
                    assert(sum_fp(labels@) < sum_fp(labels0) || (sum_fp(labels@) == sum_fp(labels0) && sum_i(labels@) < sum_i(labels0)));
                } else {
                    let ghost lab_scan = lab;
                    lab.order = *topo_idx;
                    if streak {
                        proof {
                            lemma_stop_completed(connections@, stations@, order@, labels0, visited0, stops_completed_up@, stack0, fin, stop_idx as int);
                        }
                        stops_completed_up.set(stop_idx, 0);
                    }
                    proof {
                        lemma_scan_shrink(connections@, stations@, order@, labels0, visited0, made, reach, c_idx as int, lab_scan, true, lab, true);
                        lemma_topo_finish(connections@, stations@, order@, labels0, visited0, stops_completed_up@, stack0, fin, made, reach, lab);
                        lemma_finish(connections@, stations@, order@, labels0, visited0, stops_completed_up@, stack0, fin, lab);
                        assert(!fin.contains(c_idx));
                        assert(fin.push(c_idx).no_duplicates());
                        lemma_distinct_bounded(fin.push(c_idx), n as nat);
                    }
                    labels.set(c_idx, lab);
                    *topo_idx = *topo_idx + 1;
                    visited.set(c_idx, 2);
                    stack.pop();
                    proof {
                        fin = fin.push(c_idx);
                        assert(fin.subrange(0, fin0.len() as int) =~= fin.drop_last().subrange(0, fin0.len() as int));
                    }
                    assert(visited@ =~= visited0.update(c_idx as int, 2));
                    assert(labels@ =~= labels0.update(c_idx as int, lab));
                    assert(stack@ =~= stack0.drop_last());
                }
            },
            Outcome::Push(d) => {
                proof {
                    lemma_stay(connections@, stations@, order@, labels0, visited0, stops_completed_up@, stack0, fin, lab);
                    lemma_push(
                        connections@,
                        stations@,
                        order@,
                        labels0.update(c_idx as int, lab),
                        visited0.update(c_idx as int, 1),
                        stops_completed_up@,
                        stack0,
                        fin,
                        d,
                    );
                    lemma_sums_update(labels0, c_idx as int, lab);
                    lemma_topo_push(connections@, stations@, order@, labels0, visited0, stops_completed_up@, stack0, fin, made, reach, lab, d);
                }
                labels.set(c_idx, lab);
                stack.push(d);
                assert(visited@ =~= visited0.update(c_idx as int, 1));
                assert(labels@ =~= labels0.update(c_idx as int, lab));
                assert(stack@ =~= stack0.push(d));
                assert(sum_fp(labels@) < sum_fp(labels0) || (sum_fp(labels@) == sum_fp(labels0) && sum_i(labels@) + stack.len() <= sum_i(labels0) + stack0.len()));
                proof {
                    lemma_distinct_bounded(stack@, n as nat);
                }
            },
            Outcome::Unravel(m) => {
                proof {
                    lemma_stay(connections@, stations@, order@, labels0, visited0, stops_completed_up@, stack0, fin, lab);
                }
                labels.set(c_idx, lab);
                let ghost lw = labels@;
                let ghost vw = visited@;
                proof {
                    lemma_sums_update(labels0, c_idx as int, lab);
                }
                while stack.len() > m
                    invariant
                        n == connections.len(),
                        1 <= m <= stack.len() <= stack0.len(),
                        stack@ == stack0.subrange(0, stack.len() as int),
                        stack0.no_duplicates(),
                        forall|k: int| #![trigger stack0[k]] 0 <= k < stack0.len() ==> stack0[k] < n,
                        lw.len() == n,
                        vw.len() == n,
                        labels@.len() == n,
                        visited@.len() == n,
                        forall|k: int|
                            #![trigger stack0[k]]
                            m <= k < stack0.len() ==> lw[stack0[k] as int].i < deps_len(
                                stations@,
                                stop_of(connections@[stack0[k] as int], stations@, lw[stack0[k] as int].footpath_i as int),
                            ),
                        forall|k: int|
                            #![trigger stack0[k]]
                            stack.len() <= k < stack0.len() ==> labels@[stack0[k] as int] == (DfsConnectionLabel {
                                i: (lw[stack0[k] as int].i + 1) as usize,
                                ..lw[stack0[k] as int]
                            }) && visited@[stack0[k] as int] == 0,
                        forall|x: usize|
                            x < n && !(#[trigger] stack0.subrange(stack.len() as int, stack0.len() as int).contains(x))
                                ==> labels@[x as int] == lw[x as int] && visited@[x as int] == vw[x as int],
                        sum_i(labels@) == sum_i(lw) + (stack0.len() - stack.len()),
                        sum_fp(labels@) == sum_fp(lw),
                    decreases stack.len(),
                {
                    let idx = stack[stack.len() - 1];
                    let ghost before = labels@;
                    let ghost vbefore = visited@;
                    let ghost len_before = stack.len();
                    stack.pop();
                    let ghost popped_before = stack0.subrange(stack.len() as int + 1, stack0.len() as int);
                    let ghost popped_after = stack0.subrange(stack.len() as int, stack0.len() as int);
                    assert(popped_after =~= popped_before.insert(0, idx));
                    assert(!popped_before.contains(idx)) by {
                        if popped_before.contains(idx) {
                            let j = choose|j: int| 0 <= j < popped_before.len() && popped_before[j] == idx;
                            assert(stack0[stack.len() as int + 1 + j] == stack0[stack.len() as int]);
                        }
                    }
                    assert(popped_before == stack0.subrange(len_before as int, stack0.len() as int));
                    assert(!stack0.subrange(len_before as int, stack0.len() as int).contains(idx));
                    assert(labels@[idx as int] == lw[idx as int]);
                    assert(lw[idx as int].i < deps_len(stations@, stop_of(connections@[idx as int], stations@, lw[idx as int].footpath_i as int)));
                    proof {
                        vstd::std_specs::vec::axiom_spec_len(
                            &stations@[stop_of(connections@[idx as int], stations@, lw[idx as int].footpath_i as int)].departures,
                        );
                    }
                    assert(popped_after[0] == idx);
                    assert forall|j: int| 0 <= j < popped_before.len() implies popped_after.contains(#[trigger] popped_before[j]) by {
                        assert(popped_after[j + 1] == popped_before[j]);
                    }
                    let mut l = labels[idx];
                    l.i = l.i + 1;
                    proof {
                        lemma_sums_update(before, idx as int, l);
                    }
                    labels.set(idx, l);
                    visited.set(idx, 0);
                    assert forall|x: usize|
                        x < n && !(#[trigger] popped_after.contains(x))
                            implies labels@[x as int] == lw[x as int] && visited@[x as int] == vw[x as int] by {
                        assert(x != idx);
                        assert(!popped_before.contains(x));
                        assert(popped_before == stack0.subrange(len_before as int, stack0.len() as int));
                        assert(!stack0.subrange(len_before as int, stack0.len() as int).contains(x));
                        assert(before[x as int] == lw[x as int]);
                        assert(vbefore[x as int] == vw[x as int]);
                    }
                    assert forall|k: int|
                        #![trigger stack0[k]]
                        stack.len() <= k < stack0.len() implies labels@[stack0[k] as int] == (DfsConnectionLabel {
                            i: (lw[stack0[k] as int].i + 1) as usize,
                            ..lw[stack0[k] as int]
                        }) && visited@[stack0[k] as int] == 0 by {
                        if k > stack.len() {
                            assert(stack0[k] != idx);
                        }
                    }
                }
                proof {
                    assert forall|k: int|
                        #![trigger stack0[k]]
                        m <= k < stack0.len() implies lw[stack0[k] as int].i < deps_len(
                            stations@,
                            stop_of(connections@[stack0[k] as int], stations@, lw[stack0[k] as int].footpath_i as int),
                        ) by {}
                    lemma_unravel(connections@, stations@, order@, lw, vw, stops_completed_up@, stack0, fin, m as int, labels@, visited@);
                    assert(lw == labels0.update(c_idx as int, lab));
                    assert(vw == visited0.update(c_idx as int, 1));
                    assert(stack0.last() == c_idx);
                    lemma_topo_unravel(connections@, stations@, order@, labels0, visited0, stops_completed_up@, stack0, fin, made, reach, lab, m as int, labels@, visited@);
                    assert(stack@ =~= stack0.subrange(0, m as int));
                    assert(sum_fp(labels@) < sum_fp(labels0) || (sum_fp(labels@) == sum_fp(labels0) && sum_i(labels@) + stack.len() < sum_i(labels0) + stack0.len()));
                }
            },
        }
        proof {
            lemma_sums_nonneg(labels@);
            lemma_distinct_bounded(stack@, n as nat);
            lemma_distinct_bounded(fin, n as nat);
        }
        assert(n - *topo_idx < n - topo0 || (n - *topo_idx == n - topo0 && (sum_fp(labels@) < sum_fp(labels0)
            || (sum_fp(labels@) == sum_fp(labels0) && (sum_i(labels@) + stack.len() < sum_i(labels0) + stack0.len()
            || (sum_i(labels@) + stack.len() == sum_i(labels0) + stack0.len() && n - stack.len() < n - stack0.len()))))));
    }
    (Ghost(fin), Ghost(made))
}

/// Topological preprocessing of the connection graph: a depth first search
/// from every connection (earliest departure first) gives each connection a
/// finishing index; the connections are then stored in finishing order and
/// `order` is updated to map each connection id to its new position.
/// A connection that can follow another one is placed before it. There is a
/// set of cut transfers (pairs of old positions), each of which closes a cycle
/// of transfers that the search follows and is a lightest transfer of that
/// cycle by predicted slack (`closes_cycle`), such that every transfer from a
/// connection to a departure of its arrival stop or of one of its footpath
/// targets ends up in that order unless it is exempt (`transfer_exempt`): it is
/// one of the cut transfers, or `reach` may reject it, or may reject a later
/// departure of the same stop together with all earlier ones. When
/// `record_cuts` holds, `cut` records exactly the cut transfers (each by its
/// positions or by its connections' ids); otherwise `cut` ends up empty.
pub fn preprocess<F>(
    connections: &mut Vec<Connection>,
    stations: &[Station],
    cut: &mut FxHashSet<(usize, usize)>,
    order: &mut Vec<usize>,
    record_cuts: bool,
    reach: &F,
    instr: &mut Instrumentation,
) where F: Fn(&StopInfo, i16, &StopInfo, i16, i32) -> Reach
    requires
        timetable_wf(old(connections)@, stations@, old(order)@),
        departures_fit(old(connections)@),
        transfers_fit(old(connections)@, stations@, old(order)@),
        forall|a: &StopInfo, b: i16, c: &StopInfo, d: i16, e: i32| reach.requires((a, b, c, d, e)),
    ensures
        timetable_wf(final(connections)@, stations@, final(order)@),
        final(connections)@.len() == old(connections)@.len(),
        forall|id: int|
            0 <= id < final(order)@.len() ==> final(connections)@[final(order)@[id] as int]
                == old(connections)@[old(order)@[id] as int],
        forall|a: usize, b: usize|
            final(cut)@.contains((a, b)) ==> a < old(connections)@.len() && b < old(connections)@.len(),
        !record_cuts ==> final(cut)@ == Set::<(usize, usize)>::empty(),
        exists|made: Set<(usize, usize)>|
            #[trigger] cuts_close_cycles(old(connections)@, stations@, old(order)@, reach, made)
                && (record_cuts ==> cuts_recorded(final(cut)@, made, old(connections)@))
                && forall|x: int, fp: int, k: int|
                    0 <= x < old(connections)@.len() && in_region(old(connections)@, stations@, x, fp, k)
                        && !transfer_exempt(old(connections)@, stations@, old(order)@, made, reach, x, fp, k)
                        ==> #[trigger] final(order)@[old(connections)@[succ_of(old(connections)@, stations@, old(order)@, x, fp, k)].id as int]
                        < final(order)@[old(connections)@[x].id as int],
{
    cut_clear(cut);
    let n = connections.len();
    let mut keys: Vec<i128> = Vec::new();
    let mut idxs: Vec<usize> = Vec::new();
    let mut p: usize = 0;
    while p < n
        invariant
            n == connections.len(),
            p <= n,
            timetable_wf(connections@, stations@, order@),
            departures_fit(connections@),
            keys@.len() == p,
            idxs@.len() == p,
            forall|k: int| 0 <= k < p ==> idxs@[k] == k,
        decreases n - p,
    {
        assert(connections@[p as int].departure.projection_fits());
        keys.push(connections[p].departure.projected() as i128);
        idxs.push(p);
        p = p + 1;
    }
    let ghost idxs_v = idxs@;
    let conn_idxs = sort_by_keys(idxs, &keys);
    let mut labels: Vec<DfsConnectionLabel> = Vec::new();
    let mut visited: Vec<i16> = Vec::new();
    let mut p: usize = 0;
    while p < n
        invariant
            n == connections.len(),
            p <= n,
            timetable_wf(connections@, stations@, order@),
            labels@.len() == p,
            visited@.len() == p,
            forall|x: int| #![trigger labels@[x]] 0 <= x < p ==> label_ok(labels@[x], connections@[x], stations@),
            forall|x: int|
                #![trigger labels@[x]]
                0 <= x < p ==> labels@[x].footpath_i == stations@[connections@[x].to_idx as int].footpaths@.len()
                    && labels@[x].i == deps_len(stations@, connections@[x].to_idx as int),
            forall|x: int| #![trigger visited@[x]] 0 <= x < p ==> visited@[x] == 0,
        decreases n - p,
    {
        let c = &connections[p];
        assert(connections@[p as int].to_idx < stations@.len());
        labels.push(
            DfsConnectionLabel {
                footpath_i: stations[c.to_idx].footpaths.len(),
                i: stations[c.to_idx].departures.len(),
                order: 0,
            },
        );
        visited.push(0);
        p = p + 1;
    }
    let mut stops_completed_up: Vec<usize> = Vec::new();
    let mut s: usize = 0;
    while s < stations.len()
        invariant
            s <= stations@.len(),
            stops_completed_up@.len() == s,
            forall|t: int| #![trigger stops_completed_up@[t]] 0 <= t < s ==> stops_completed_up@[t] == deps_len(stations@, t),
        decreases stations@.len() - s,
    {
        stops_completed_up.push(stations[s].departures.len());
        s = s + 1;
    }
    let mut topo_idx: usize = 0;
    let ghost mut fin: Seq<usize> = Seq::empty();
    let ghost mut made: Set<(usize, usize)> = Set::empty();
    assert(dfs_state_ok(connections@, stations@, order@, labels@, visited@, stops_completed_up@, Seq::empty(), fin));
    assert forall|x: int, fp: int, k: int|
        #![trigger edge_ok(connections@, stations@, order@, labels@, visited@, made, reach, x, fp, k)]
        0 <= x < n && in_region(connections@, stations@, x, fp, k) && (visited@[x] == 2 || handled(
            labels@[x],
            fp,
            k,
            visited@[x] != 1 || (Seq::<usize>::empty().len() > 0 && x == Seq::<usize>::empty().last()),
        )) implies edge_ok(connections@, stations@, order@, labels@, visited@, made, reach, x, fp, k) by {
        assert(label_ok(labels@[x], connections@[x], stations@));
    }
    assert(topo_inv(connections@, stations@, order@, labels@, visited@, Seq::empty(), made, reach));
    assert(cuts_close_cycles(connections@, stations@, order@, reach, made));
    assert(cuts_recorded(cut@, made, connections@));
    let mut k: usize = 0;
    while k < n
        invariant
            n == connections.len(),
            k <= n,
            conn_idxs@.len() == n,
            forall|j: int| #![trigger conn_idxs@[j]] 0 <= j < n ==> conn_idxs@[j] < n,
            timetable_wf(connections@, stations@, order@),
            forall|a: &StopInfo, b: i16, c: &StopInfo, d: i16, e: i32| reach.requires((a, b, c, d, e)),
            dfs_state_ok(connections@, stations@, order@, labels@, visited@, stops_completed_up@, Seq::empty(), fin),
            topo_idx == fin.len(),
            forall|j: int| #![trigger conn_idxs@[j]] 0 <= j < k ==> visited@[conn_idxs@[j] as int] == 2,
            forall|a: usize, b: usize| cut@.contains((a, b)) ==> a < n && b < n,
            topo_inv(connections@, stations@, order@, labels@, visited@, Seq::empty(), made, reach),
            !record_cuts ==> cut@ == Set::<(usize, usize)>::empty(),
            cuts_close_cycles(connections@, stations@, order@, reach, made),
            record_cuts ==> cuts_recorded(cut@, made, connections@),
            departures_fit(connections@),
            transfers_fit(connections@, stations@, order@),
        decreases n - k,
    {
        let idx = conn_idxs[k];
        if visited[idx] != 2 {
            let g = dfs(
                connections,
                stations,
                order,
                cut,
                record_cuts,
                reach,
                idx,
                &mut topo_idx,
                &mut labels,
                &mut visited,
                &mut stops_completed_up,
                instr,
                Ghost(fin),
                Ghost(made),
            );
            proof {
                fin = g.0@;
                made = g.1@;
            }
        }
        k = k + 1;
    }
    // every connection is finished
    assert forall|x: usize| x < n implies #[trigger] fin.contains(x) by {
        assert(idxs_v[x as int] == x);
        assert(idxs_v.contains(x));
        idxs_v.to_multiset_ensures();
        conn_idxs@.to_multiset_ensures();
        assert(idxs_v.to_multiset().count(x) > 0);
        assert(conn_idxs@.to_multiset().count(x) > 0);
        assert(conn_idxs@.contains(x));
        let j = choose|j: int| 0 <= j < conn_idxs@.len() && conn_idxs@[j] == x;
        assert(visited@[conn_idxs@[j] as int] == 2);
    }
    proof {
        lemma_distinct_bounded(fin, n as nat);
        // each connection's finishing index is below fin.len(), and they are distinct
        let ords = Seq::new(n as nat, |x: int| labels@[x].order);
        assert forall|x: int| 0 <= x < n implies #[trigger] ords[x] < fin.len() && fin[ords[x] as int] == x by {
            assert(fin.contains(x as usize));
            let j = choose|j: int| 0 <= j < fin.len() && fin[j] == x as usize;
            assert(labels@[fin[j] as int].order == j);
        }
        assert forall|a: int, b: int| 0 <= a < ords.len() && 0 <= b < ords.len() && a != b implies ords[a] != ords[b] by {
            assert(fin[ords[a] as int] == a);
            assert(fin[ords[b] as int] == b);
        }
        lemma_distinct_bounded(ords, fin.len());
    }
    assert(fin.len() == n);
    assert forall|x: int| #![trigger labels@[x]] 0 <= x < n implies labels@[x].order < n && fin[labels@[x].order as int] == x by {
        let ords = Seq::new(n as nat, |x: int| labels@[x].order);
        assert(ords[x] == labels@[x].order);
    }
    // position of each finishing index
    let mut pos: Vec<usize> = Vec::new();
    let mut p: usize = 0;
    while p < n
        invariant
            p <= n,
            pos@.len() == p,
            forall|j: int| #![trigger pos@[j]] 0 <= j < p ==> pos@[j] == 0,
        decreases n - p,
    {
        pos.push(0);
        p = p + 1;
    }
    let mut p: usize = 0;
    while p < n
        invariant
            n == connections.len(),
            p <= n,
            pos@.len() == n,
            labels@.len() == n,
            fin.len() == n,
            forall|x: int| #![trigger labels@[x]] 0 <= x < n ==> labels@[x].order < n && fin[labels@[x].order as int] == x,
            forall|j: int| #![trigger fin[j]] 0 <= j < n ==> labels@[fin[j] as int].order == j && fin[j] < n,
            forall|x: int| #![trigger labels@[x]] 0 <= x < p ==> pos@[labels@[x].order as int] == x,
        decreases n - p,
    {
        let ghost before = pos@;
        pos.set(labels[p].order, p);
        assert forall|x: int| #![trigger labels@[x]] 0 <= x < p + 1 implies pos@[labels@[x].order as int] == x by {
            if x < p {
                assert(labels@[x].order != labels@[p as int].order);
            }
        }
        p = p + 1;
    }
    let mut new_connections: Vec<Connection> = Vec::new();
    let mut k: usize = 0;
    while k < n
        invariant
            n == connections.len(),
            k <= n,
            pos@.len() == n,
            fin.len() == n,
            forall|j: int| #![trigger fin[j]] 0 <= j < n ==> labels@[fin[j] as int].order == j && fin[j] < n,
            forall|x: int| #![trigger labels@[x]] 0 <= x < n ==> pos@[labels@[x].order as int] == x,
            new_connections@.len() == k,
            forall|j: int| #![trigger new_connections@[j]] 0 <= j < k ==> new_connections@[j] == connections@[fin[j] as int],
        decreases n - k,
    {
        assert(pos@[labels@[fin[k as int] as int].order as int] == fin[k as int]);
        let c = connections[pos[k]].clone();
        new_connections.push(c);
        k = k + 1;
    }
    let mut new_order: Vec<usize> = Vec::new();
    let mut id: usize = 0;
    while id < n
        invariant
            n == connections.len(),
            id <= n,
            order@.len() == n,
            labels@.len() == n,
            timetable_wf(connections@, stations@, order@),
            forall|x: int| #![trigger labels@[x]] 0 <= x < n ==> labels@[x].order < n && fin[labels@[x].order as int] == x,
            new_order@.len() == id,
            forall|j: int| #![trigger new_order@[j]] 0 <= j < id ==> new_order@[j] == labels@[order@[j] as int].order,
        decreases n - id,
    {
        assert(order@[id as int] < n);
        new_order.push(labels[order[id]].order);
        id = id + 1;
    }
    let ghost old_connections = connections@;
    let ghost old_order = order@;
    assert forall|x: int, fp: int, k: int|
        0 <= x < n && in_region(old_connections, stations@, x, fp, k)
            && !transfer_exempt(old_connections, stations@, old_order, made, reach, x, fp, k)
            implies #[trigger] new_order@[old_connections[succ_of(old_connections, stations@, old_order, x, fp, k)].id as int]
            < new_order@[old_connections[x].id as int] by {
        lemma_succ_in_range(old_connections, stations@, old_order, x, fp, k);
        let d = succ_of(old_connections, stations@, old_order, x, fp, k);
        assert(fin.contains(x as usize));
        assert(visited@[(x as usize) as int] == 2);
        assert(edge_ok(connections@, stations@, order@, labels@, visited@, made, reach, x, fp, k));
        assert(old_connections[x].id < n && old_order[old_connections[x].id as int] == x);
        assert(old_connections[d].id < n && old_order[old_connections[d].id as int] == d);
        assert(new_order@[old_connections[d].id as int] == labels@[d].order);
        assert(new_order@[old_connections[x].id as int] == labels@[x].order);
    }
    assert(cuts_close_cycles(old_connections, stations@, old_order, reach, made)
        && (record_cuts ==> cuts_recorded(cut@, made, old_connections)));
    assert forall|id: int| 0 <= id < n implies #[trigger] new_connections@[new_order@[id] as int] == old_connections[old_order[id] as int] by {
        assert(old_order[id] < n);
        let x = old_order[id] as int;
        assert(labels@[x].order < n && fin[labels@[x].order as int] == x);
    }
    assert forall|p: int| #![trigger new_connections@[p]] 0 <= p < n implies new_connections@[p].id < n
        && new_order@[new_connections@[p].id as int] == p by {
        let x = fin[p] as int;
        assert(old_connections[x].id < n);
        assert(old_order[old_connections[x].id as int] == x);
        assert(labels@[fin[p] as int].order == p);
    }
    assert forall|p: int| #![trigger new_connections@[p]] 0 <= p < n implies new_connections@[p].from_idx < stations@.len()
        && new_connections@[p].to_idx < stations@.len() by {
        let x = fin[p] as int;
        assert(old_connections[x] == new_connections@[p]);
    }
    assert forall|id: int| #![trigger new_order@[id]] 0 <= id < n implies new_order@[id] < n && new_connections@[new_order@[id] as int].id == id by {
        assert(new_connections@[new_order@[id] as int] == old_connections[old_order[id] as int]);
    }
    *connections = new_connections;
    *order = new_order;
}

/// Makes `order` the identity on `0..connection_count` if it is still empty;
/// otherwise leaves it as it is.
pub fn init_order(order: &mut Vec<usize>, connection_count: usize)
    ensures
        old(order)@.len() == 0 ==> final(order)@ == Seq::new(connection_count as nat, |i: int| i as usize),
        old(order)@.len() != 0 ==> final(order)@ == old(order)@,
{
    if order.len() == 0 {
        let mut i: usize = 0;
        while i < connection_count
            invariant
                i <= connection_count,
                order@ == Seq::new(i as nat, |j: int| j as usize),
            decreases connection_count - i,
        {
            order.push(i);
            i = i + 1;
        }
    }
}

/// Applies a realtime update to the connection with the given id.
pub fn update(
    connections: &mut Vec<Connection>,
    order: &Vec<usize>,
    connection_id: usize,
    is_departure: bool,
    location_idx: Option<usize>,
    in_out_allowed: Option<bool>,
    delay: Option<i16>,
)
    requires
        connection_id < order@.len(),
        order@[connection_id as int] < old(connections)@.len(),
    ensures
        final(connections)@ == old(connections)@.update(
            order@[connection_id as int] as int,
            old(connections)@[order@[connection_id as int] as int].updated(is_departure, location_idx, in_out_allowed, delay),
        ),
{
    let p = order[connection_id];
    connections[p].update(is_departure, location_idx, in_out_allowed, delay);
}

/// A realtime update keeps every connection's id and position, so `order`
/// still maps each id to the position of its connection; when the new
/// location, if any, is a station of the timetable, the whole timetable stays
/// consistent. Together with `preprocess`, which keeps a consistent timetable
/// consistent, any sequence of updates and preprocessing keeps the map exact.
pub proof fn lemma_update_keeps_timetable(
    connections: Seq<Connection>,
    stations: Seq<Station>,
    order: Seq<usize>,
    connection_id: usize,
    is_departure: bool,
    location_idx: Option<usize>,
    in_out_allowed: Option<bool>,
    delay: Option<i16>,
)
    requires
        order_wf(connections, order),
        connection_id < order.len(),
    ensures
        ({
            let p = order[connection_id as int] as int;
            let updated = connections.update(p, connections[p].updated(is_departure, location_idx, in_out_allowed, delay));
            &&& order_wf(updated, order)
            &&& (timetable_wf(connections, stations, order) && (location_idx is Some ==> location_idx->0 < stations.len()))
                ==> timetable_wf(updated, stations, order)
        }),
{
    let p = order[connection_id as int] as int;
    let updated = connections.update(p, connections[p].updated(is_departure, location_idx, in_out_allowed, delay));
    assert forall|q: int| #![trigger updated[q]] 0 <= q < updated.len() implies updated[q].id == connections[q].id by {}
    assert forall|q: int| #![trigger updated[q]] 0 <= q < updated.len()
        implies updated[q].id < order.len() && order[updated[q].id as int] == q by {
        assert(connections[q].id < order.len());
    }
    assert forall|id: int| #![trigger order[id]] 0 <= id < order.len()
        implies order[id] < updated.len() && updated[order[id] as int].id == id by {
        assert(connections[order[id] as int].id == id);
    }
    if timetable_wf(connections, stations, order) && (location_idx is Some ==> location_idx->0 < stations.len()) {
        assert forall|q: int| #![trigger updated[q]] 0 <= q < updated.len()
            implies updated[q].from_idx < stations.len() && updated[q].to_idx < stations.len() by {
            assert(connections[q].from_idx < stations.len());
        }
    }
}

} // verus!
