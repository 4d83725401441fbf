use vstd::prelude::*;

use std::collections::HashMap;
use std::ops::Range;

use crate::connection::StopInfo;
use crate::types::Mtime;

verus! {

broadcast use vstd::std_specs::hash::group_hash_axioms;

/// Identifies a delay distribution: the product type, the bucket of the
/// prior delay, the bucket of the time to live and the kind of stop.
#[derive(PartialEq, Eq, PartialOrd, Ord, Hash, Clone, Copy, Debug)]
pub struct DelayKey {
    pub product_type: i16,
    pub prior_delay: (i16, i16),
    pub prior_ttl: (i16, i16),
    pub is_departure: bool,
}

/// Identifies a transfer: both product types, the delay buckets, the time
/// to live bucket and the scheduled slack in minutes.
#[derive(PartialEq, Eq, PartialOrd, Ord, Hash, Clone, Copy, Debug)]
pub struct ReachabilityKey {
    pub from_product_type: i16,
    pub to_product_type: i16,
    pub from_prior_delay: (i16, i16),
    pub to_prior_delay: (i16, i16),
    pub prior_ttl: (i16, i16),
    pub diff: i16,
}

/// The buckets into which prior delays and times to live (minutes until the
/// stop) fall: each value maps to the range of the distribution that covers it.
pub struct Buckets {
    pub delay_buckets: HashMap<i16, (i16, i16)>,
    pub ttl_buckets: HashMap<i16, (i16, i16)>,
}

/// `m` after mapping every value of `start..end` to `(start, end)`.
pub open spec fn with_range(m: Map<i16, (i16, i16)>, start: i16, end: i16) -> Map<i16, (i16, i16)> {
    m.union_prefer_right(Map::new(|i: i16| start <= i < end, |i: i16| (start, end)))
}

/// The bucket that `m` holds for `v`, or `(0, 0)`.
pub open spec fn bucket_of(m: Map<i16, (i16, i16)>, v: i16) -> (i16, i16) {
    if m.contains_key(v) {
        m[v]
    } else {
        (0, 0)
    }
}

/// The bucket of a prior delay: none for a stop without realtime data.
pub open spec fn delay_bucket_spec(m: Map<i16, (i16, i16)>, delay: Option<i16>) -> (i16, i16) {
    match delay {
        Some(d) => bucket_of(m, d),
        None => (0, 0),
    }
}

/// The bucket of a time to live: beyond six hours and more than a quarter of
/// an hour in the past every value has a bucket of its own.
pub open spec fn ttl_bucket_spec(m: Map<i16, (i16, i16)>, ttl: i32) -> (i16, i16) {
    if ttl > 360 {
        (360, 361)
    } else if ttl < -15 {
        (-15i16, -15i16)
    } else {
        bucket_of(m, ttl as i16)
    }
}

/// After the range `start..end` has been registered, every value in it falls
/// into that range's bucket.
pub proof fn lemma_registered_range_bucket(m: Map<i16, (i16, i16)>, start: i16, end: i16, v: i16)
    requires
        start <= v < end,
    ensures
        bucket_of(with_range(m, start, end), v) == (start, end),
        delay_bucket_spec(with_range(m, start, end), Some(v)) == (start, end),
{
}

/// A stop without realtime data never takes the bucket of a registered delay
/// range: its bucket is `(0, 0)` whatever ranges are registered. A stop with
/// a delay takes the bucket registered for that delay, or `(0, 0)`.
pub proof fn lemma_delay_bucket_lookup(m: Map<i16, (i16, i16)>, delay: Option<i16>)
    ensures
        delay is None ==> delay_bucket_spec(m, delay) == (0i16, 0i16),
        delay matches Some(d) ==> (m.contains_key(d) ==> delay_bucket_spec(m, delay) == m[d]),
        delay matches Some(d) ==> (!m.contains_key(d) ==> delay_bucket_spec(m, delay) == (0i16, 0i16)),
{
}

/// A time to live beyond six hours falls into `(360, 361)`, one more than a
/// quarter of an hour in the past into `(-15, -15)`, and any other into the
/// bucket registered for it, or `(0, 0)`.
pub proof fn lemma_ttl_bucket_lookup(m: Map<i16, (i16, i16)>, ttl: i32)
    ensures
        ttl > 360 ==> ttl_bucket_spec(m, ttl) == (360i16, 361i16),
        ttl < -15 ==> ttl_bucket_spec(m, ttl) == (-15i16, -15i16),
        -15 <= ttl <= 360 && m.contains_key(ttl as i16) ==> ttl_bucket_spec(m, ttl) == m[ttl as i16],
        -15 <= ttl <= 360 && !m.contains_key(ttl as i16) ==> ttl_bucket_spec(m, ttl) == (0i16, 0i16),
{
}

/// Registering a range leaves the buckets of values outside it unchanged.
pub proof fn lemma_other_buckets_kept(m: Map<i16, (i16, i16)>, start: i16, end: i16, v: i16)
    requires
        !(start <= v < end),
    ensures
        bucket_of(with_range(m, start, end), v) == bucket_of(m, v),
{
}

impl Buckets {
    pub fn new() -> (b: Buckets)
        ensures
            b.delay_buckets@ == Map::<i16, (i16, i16)>::empty(),
            b.ttl_buckets@ == Map::<i16, (i16, i16)>::empty(),
    {
        Buckets { delay_buckets: HashMap::new(), ttl_buckets: HashMap::new() }
    }

    /// Registers the ranges of a distribution: every prior delay in
    /// `prior_delay` and every time to live in `prior_ttl` now falls into it.
    pub fn insert_ranges(&mut self, prior_delay: Range<i16>, prior_ttl: Range<i16>)
        ensures
            final(self).delay_buckets@ == with_range(old(self).delay_buckets@, prior_delay.start, prior_delay.end),
            final(self).ttl_buckets@ == with_range(old(self).ttl_buckets@, prior_ttl.start, prior_ttl.end),
    {
        let delay_tuple = (prior_delay.start, prior_delay.end);
        let ttl_tuple = (prior_ttl.start, prior_ttl.end);
        let ghost d0 = self.delay_buckets@;
        let mut i: i16 = prior_delay.start;
        while i < prior_delay.end
            invariant
                i >= prior_delay.start,
                i <= prior_delay.end || i == prior_delay.start,
                self.ttl_buckets@ == old(self).ttl_buckets@,
                delay_tuple == (prior_delay.start, prior_delay.end),
                self.delay_buckets@ == d0.union_prefer_right(
                    Map::new(|x: i16| prior_delay.start <= x < i, |x: i16| (prior_delay.start, prior_delay.end)),
                ),
            decreases prior_delay.end - i,
        {
            let ghost prev = self.delay_buckets@;
            self.delay_buckets.insert(i, delay_tuple);
            proof {
                assert(self.delay_buckets@ == prev.insert(i, delay_tuple));
                assert(self.delay_buckets@ =~= d0.union_prefer_right(
                    Map::new(|x: i16| prior_delay.start <= x < i + 1, |x: i16| (prior_delay.start, prior_delay.end)),
                ));
            }
            i = i + 1;
        }
        proof {
            assert(Map::new(|x: i16| prior_delay.start <= x < i, |x: i16| (prior_delay.start, prior_delay.end))
                =~= Map::new(|x: i16| prior_delay.start <= x < prior_delay.end, |x: i16| (prior_delay.start, prior_delay.end)));
            assert(self.delay_buckets@ =~= with_range(d0, prior_delay.start, prior_delay.end));
        }
        let ghost t0 = self.ttl_buckets@;
        let mut i: i16 = prior_ttl.start;
        while i < prior_ttl.end
            invariant
                i >= prior_ttl.start,
                ttl_tuple == (prior_ttl.start, prior_ttl.end),
                i <= prior_ttl.end || i == prior_ttl.start,
                self.delay_buckets@ == with_range(d0, prior_delay.start, prior_delay.end),
                self.ttl_buckets@ == t0.union_prefer_right(
                    Map::new(|x: i16| prior_ttl.start <= x < i, |x: i16| (prior_ttl.start, prior_ttl.end)),
                ),
            decreases prior_ttl.end - i,
        {
            let ghost prev = self.ttl_buckets@;
            self.ttl_buckets.insert(i, ttl_tuple);
            proof {
                assert(self.ttl_buckets@ == prev.insert(i, ttl_tuple));
                assert(self.ttl_buckets@ =~= t0.union_prefer_right(
                    Map::new(|x: i16| prior_ttl.start <= x < i + 1, |x: i16| (prior_ttl.start, prior_ttl.end)),
                ));
            }
            i = i + 1;
        }
        proof {
            assert(Map::new(|x: i16| prior_ttl.start <= x < i, |x: i16| (prior_ttl.start, prior_ttl.end))
                =~= Map::new(|x: i16| prior_ttl.start <= x < prior_ttl.end, |x: i16| (prior_ttl.start, prior_ttl.end)));
            assert(self.ttl_buckets@ =~= with_range(t0, prior_ttl.start, prior_ttl.end));
        }
    }

    pub fn delay_bucket(&self, delay: Option<i16>) -> (b: (i16, i16))
        ensures
            b == delay_bucket_spec(self.delay_buckets@, delay),
            delay is None ==> b == (0i16, 0i16),
            delay matches Some(d) ==> (self.delay_buckets@.contains_key(d) ==> b == self.delay_buckets@[d]),
            delay matches Some(d) ==> (!self.delay_buckets@.contains_key(d) ==> b == (0i16, 0i16)),
    {
        match delay {
            Some(d) => match self.delay_buckets.get(&d) {
                Some(b) => *b,
                None => (0, 0),
            },
            None => (0, 0),
        }
    }

    pub fn ttl_bucket(&self, ttl: i32) -> (b: (i16, i16))
        ensures
            b == ttl_bucket_spec(self.ttl_buckets@, ttl),
            ttl > 360 ==> b == (360i16, 361i16),
            ttl < -15 ==> b == (-15i16, -15i16),
            -15 <= ttl <= 360 && self.ttl_buckets@.contains_key(ttl as i16) ==> b == self.ttl_buckets@[ttl as i16],
            -15 <= ttl <= 360 && !self.ttl_buckets@.contains_key(ttl as i16) ==> b == (0i16, 0i16),
    {
        if ttl > 360 {
            return (360, 361);
        } else if ttl < -15 {
            return (-15, -15);
        }
        match self.ttl_buckets.get(&(ttl as i16)) {
            Some(b) => *b,
            None => (0, 0),
        }
    }

    /// The key of the delay distribution for `stop_info` at time `now`.
    pub fn delay_key(&self, stop_info: &StopInfo, is_departure: bool, product_type: i16, now: Mtime) -> (k: DelayKey)
        requires
            stop_info.projection_fits(),
            i32::MIN <= stop_info.projected_spec() - now <= i32::MAX,
        ensures
            k.product_type == product_type,
            k.prior_delay == delay_bucket_spec(self.delay_buckets@, stop_info.delay),
            stop_info.delay is None ==> k.prior_delay == (0i16, 0i16),
            k.prior_ttl == ttl_bucket_spec(self.ttl_buckets@, (stop_info.projected_spec() - now) as i32),
            k.is_departure == is_departure,
    {
        DelayKey {
            product_type,
            prior_delay: self.delay_bucket(stop_info.delay),
            prior_ttl: self.ttl_bucket(stop_info.projected() - now),
            is_departure,
        }
    }

    /// The key of the transfer from `arrival` to `departure` at time `now`.
    /// Both delay buckets are those of the arrival's delay, and the slack
    /// is kept in an `i16`, truncated.
    pub fn reachability_key(
        &self,
        arrival: &StopInfo,
        arrival_product_type: i16,
        departure: &StopInfo,
        departure_product_type: i16,
        now: Mtime,
    ) -> (k: ReachabilityKey)
        requires
            arrival.projection_fits(),
            departure.projection_fits(),
            i32::MIN <= arrival.projected_spec() - now <= i32::MAX,
            i32::MIN <= departure.projected_spec() - arrival.projected_spec() <= i32::MAX,
        ensures
            k.from_product_type == arrival_product_type,
            k.to_product_type == departure_product_type,
            k.from_prior_delay == delay_bucket_spec(self.delay_buckets@, arrival.delay),
            k.to_prior_delay == delay_bucket_spec(self.delay_buckets@, arrival.delay),
            arrival.delay is None ==> k.from_prior_delay == (0i16, 0i16) && k.to_prior_delay == (0i16, 0i16),
            k.prior_ttl == ttl_bucket_spec(self.ttl_buckets@, (arrival.projected_spec() - now) as i32),
            k.diff == (departure.projected_spec() - arrival.projected_spec()) as i16,
    {
        ReachabilityKey {
            from_product_type: arrival_product_type,
            to_product_type: departure_product_type,
            from_prior_delay: self.delay_bucket(arrival.delay),
            to_prior_delay: self.delay_bucket(arrival.delay),
            prior_ttl: self.ttl_bucket(arrival.projected() - now),
            diff: (departure.projected() - arrival.projected()) as i16,
        }
    }
}

} // verus!
