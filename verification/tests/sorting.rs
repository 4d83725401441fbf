use stost::sorting::sort_by_keys;

#[test]
fn sort_by_keys_orders_positions_by_their_keys() {
    let keys: Vec<i128> = vec![30, -5, 30, 10];
    let r = sort_by_keys(vec![0, 1, 2, 3], &keys);
    assert_eq!(r.len(), 4);
    assert_eq!(r[0], 1);
    assert_eq!(r[1], 3);
    // the two equal keys come last, in either order
    let mut tail = vec![r[2], r[3]];
    tail.sort();
    assert_eq!(tail, vec![0, 2]);
}

#[test]
fn sort_by_keys_keeps_repeated_positions() {
    let keys: Vec<i128> = vec![2, 1];
    assert_eq!(sort_by_keys(vec![0, 1, 0], &keys), vec![1, 0, 0]);
    assert!(sort_by_keys(vec![], &keys).is_empty());
}
