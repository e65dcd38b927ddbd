use algo::heaps::MedianMaintainer;

#[test]
fn test_median_maintainer() {
    let mut mm = MedianMaintainer::new();

    let medians = vec![7, 2, 4, 4, 4, 3, 4];
    for (i, val) in vec![7, 2, 4, 7, 1, 3, 9].into_iter().enumerate() {
        mm.push(val);
        assert_eq!(mm.peek_median().unwrap_or(&0),
                   &medians[i],
                   "medians verification");
    }
}

#[test]
fn median_of_nothing_and_extremes() {
    let mut mm = MedianMaintainer::new();
    assert_eq!(mm.peek_median(), None);
    mm.push(i64::MAX);
    mm.push(i64::MIN);
    assert_eq!(mm.peek_median(), Some(&i64::MIN));
    mm.push(0);
    assert_eq!(mm.peek_median(), Some(&0));
    mm.push(5);
    mm.push(5);
    assert_eq!(mm.peek_median(), Some(&5));
}

use algo::heaps::ReverseOrder;

#[test]
fn test_reverse_order() {
    assert!(ReverseOrder::new(1) == ReverseOrder::new(1));
    assert!(ReverseOrder::new(1) >= ReverseOrder::new(2));
}

#[test]
fn reverse_order_values() {
    let r = ReverseOrder::new(-4);
    assert_eq!(*r.as_ref(), -4);
    assert_eq!(r.unwrap(), -4);
    assert!(ReverseOrder::new(3) < ReverseOrder::new(2));
    assert!(!(ReverseOrder::new(2) < ReverseOrder::new(2)));
}
