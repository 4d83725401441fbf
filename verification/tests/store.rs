use stost::connection::StopInfo;
use stost::distribution_store::Buckets;

#[test]
fn inserted_ranges_are_found() {
    let mut b = Buckets::new();
    b.insert_ranges(5..10, 30..45);
    assert_eq!(b.delay_bucket(Some(7)), (5, 10));
    assert_eq!(b.delay_bucket(Some(10)), (0, 0));
    assert_eq!(b.delay_bucket(None), (0, 0));
    assert_eq!(b.ttl_bucket(41), (30, 45));
    assert_eq!(b.ttl_bucket(29), (0, 0));
}

#[test]
fn ttl_outside_the_window() {
    let b = Buckets::new();
    assert_eq!(b.ttl_bucket(361), (360, 361));
    assert_eq!(b.ttl_bucket(-16), (-15, -15));
    assert_eq!(b.ttl_bucket(360), (0, 0));
}

#[test]
fn delay_key_from_stop() {
    let mut b = Buckets::new();
    b.insert_ranges(5..10, 30..45);
    let s = StopInfo::new(50, Some(7));
    let k = b.delay_key(&s, true, 1, 15);
    assert_eq!(k.product_type, 1);
    assert_eq!(k.prior_delay, (5, 10));
    assert_eq!(k.prior_ttl, (30, 45));
    assert!(k.is_departure);
}

#[test]
fn reachability_key_uses_arrival_delay_twice() {
    let mut b = Buckets::new();
    b.insert_ranges(5..10, 30..45);
    let arr = StopInfo::new(50, Some(7));
    let dep = StopInfo::new(60, None);
    let k = b.reachability_key(&arr, 1, &dep, 2, 20);
    assert_eq!(k.from_prior_delay, (5, 10));
    assert_eq!(k.to_prior_delay, (5, 10));
    assert_eq!(k.prior_ttl, (30, 45));
    assert_eq!(k.diff, 3);
}

#[test]
fn insert() {
    let mut b = Buckets::new();
    b.insert_ranges(30..45, 10..15);
    assert_eq!(b.delay_bucket(Some(33)), (30, 45));
    assert_eq!(b.ttl_bucket(10), (10, 15));
    assert_eq!(b.ttl_bucket(15), (0, 0));
    let k = b.delay_key(&StopInfo::new(100, Some(33)), true, 5, 121);
    assert_eq!(k.product_type, 5);
    assert_eq!(k.prior_delay, (30, 45));
    assert_eq!(k.prior_ttl, (10, 15));
    assert!(k.is_departure);
}
