use algo::inversions::merge_sort_and_count_inversions;

#[test]
fn test_num_of_inversions() {
    assert_eq!(merge_sort_and_count_inversions(&mut [1, 3, 5, 2, 4, 6]), 3);
    assert_eq!(merge_sort_and_count_inversions(&mut [1, 5, 3, 2, 4]), 4);
    assert_eq!(merge_sort_and_count_inversions(&mut [5, 4, 3, 2, 1]), 10);
    assert_eq!(merge_sort_and_count_inversions(&mut [1, 6, 3, 2, 4, 5]), 5);
}

#[test]
fn inversions_sort_in_place() {
    let mut v = vec![3usize, 3, 1, 0, 2, 3];
    assert_eq!(merge_sort_and_count_inversions(&mut v[..]), 7);
    assert_eq!(v, vec![0, 1, 2, 3, 3, 3]);
    let mut e: Vec<usize> = vec![];
    assert_eq!(merge_sort_and_count_inversions(&mut e[..]), 0);
    let mut one = vec![7usize];
    assert_eq!(merge_sort_and_count_inversions(&mut one[..]), 0);
}
