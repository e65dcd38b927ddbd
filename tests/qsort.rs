use algo::qsort::{inplace_partition, median_of_three, quick_sort};

#[test]
fn test_inplace_partion() {
    let mut v = vec![3, 8, 2, 5, 1, 4, 7, 6];
    inplace_partition(&mut v[..]);
    assert_eq!(&v, &[1, 2, 3, 5, 8, 4, 7, 6]);
}

#[test]
fn test_quick_sort() {
    let mut v = vec![3, 8, 2, 5, 1, 4, 7, 6];
    let cmp_cnt = quick_sort(&mut v[..]);
    assert_eq!(&v, &[1, 2, 3, 4, 5, 6, 7, 8]);
    assert_eq!(cmp_cnt, 13);
}

#[test]
fn test_mid_of_three() {
    assert_eq!(median_of_three(&[8, 2, 4, 5, 7, 1]), 2);
    assert_eq!(median_of_three(&[1, 3, 8]), 1);
}

#[test]
fn quick_sort_edges() {
    let mut e: Vec<i32> = vec![];
    assert_eq!(quick_sort(&mut e[..]), 0);
    let mut one = vec![5];
    assert_eq!(quick_sort(&mut one[..]), 0);
    let mut v = vec![i32::MAX, i32::MIN, 0, i32::MIN, 7];
    quick_sort(&mut v[..]);
    assert_eq!(v, vec![i32::MIN, i32::MIN, 0, 7, i32::MAX]);
    assert_eq!(median_of_three(&[i32::MIN, 0, i32::MAX]), 1);
}
