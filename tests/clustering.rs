use algo::union_find::UnionFind;

#[test]
fn test_uf() {
    let mut uf = UnionFind::new(10);
    uf.union(4, 3);
    uf.union(3, 8);
    uf.union(6, 5);
    uf.union(9, 4);
    uf.union(2, 1);
    uf.union(5, 0);
    uf.union(7, 2);
    uf.union(6, 1);
    assert!(uf.count() == 2);
}

#[test]
fn union_find_parts() {
    let mut uf = UnionFind::new(6);
    assert_eq!(uf.count(), 6);
    assert!(!uf.connected(0, 1));
    uf.union(0, 1);
    uf.union(1, 0);
    assert_eq!(uf.count(), 5);
    uf.union(2, 3);
    uf.union(3, 1);
    assert_eq!(uf.count(), 3);
    assert!(uf.connected(0, 2));
    assert_eq!(uf.find(0), uf.find(3));
    assert!(!uf.connected(4, 5));
    assert_ne!(uf.find(4), uf.find(0));
}

use algo::union_find::{hamming_distance, QuickUnionPathCompressionUF};

#[test]
fn quick_union_parts() {
    let mut uf = QuickUnionPathCompressionUF::new(10);
    uf.union(4, 3);
    uf.union(3, 8);
    uf.union(6, 5);
    uf.union(9, 4);
    uf.union(2, 1);
    uf.union(5, 0);
    uf.union(7, 2);
    uf.union(6, 1);
    uf.union(1, 0);
    assert_eq!(uf.count(), 2);
    assert!(uf.connected(8, 9));
    assert!(uf.connected(0, 7));
    assert!(!uf.connected(0, 9));
    assert_eq!(uf.find(3), uf.find(9));
}

#[test]
fn hamming_distances() {
    assert_eq!(hamming_distance(0, 0), 0);
    assert_eq!(hamming_distance(0b1011, 0b0001), 2);
    assert_eq!(hamming_distance(u32::MAX, 0), 32);
    assert_eq!(hamming_distance(0x8000_0000, 1), 2);
}
