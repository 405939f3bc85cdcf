use competitive::binary_search::binary_search;
use competitive::bits::{power_bitset, SmallBitSet};
use competitive::slice::partial_sum::PartialSum;
use competitive::union_find::UnionFind;

#[test]
fn binary_search_test() {
    let v = [1, 2, 3, 4, 5];
    assert_eq!(3, binary_search(v.len() as _, -1, |i| v[i as usize] > 3));
    assert_eq!(5, binary_search(v.len() as _, -1, |i| v[i as usize] > 100));
    assert_eq!(0, binary_search(v.len() as _, -1, |i| v[i as usize] > 0));
}

#[test]
fn union_find_test() {
    let mut uf = UnionFind::new(5);
    uf.union(0, 1);
    uf.union(2, 3);
    uf.union(0, 4);

    assert_eq!(uf.find(0), uf.find(1));
    assert_eq!(uf.find(2), uf.find(3));
    assert_eq!(uf.find(0), uf.find(4));
    assert_eq!(uf.find(1), uf.find(4));
    assert_ne!(uf.find(0), uf.find(2));
    assert_ne!(uf.find(3), uf.find(4));
}

#[test]
fn test_partial_sum() {
    let n = 10;
    let v: Vec<i64> = (0..n).collect();
    let psum = PartialSum::new(&v);

    for i in 0..=n as usize {
        for j in i..=n as usize {
            assert_eq!(v[i..j].iter().sum::<i64>(), psum.sum(i, j));
        }
    }
}

#[test]
fn bitset_ops() {
    let mut s = SmallBitSet::new();
    assert_eq!(s.count(), 0);
    s.set(3, true);
    s.set(5, true);
    assert_eq!(s.count(), 2);
    s.set(3, false);
    assert_eq!(s.count(), 1);
    assert_eq!(SmallBitSet::singleton(7).0, 128);
    let all = power_bitset(3);
    assert_eq!(all.len(), 8);
    for (i, b) in all.iter().enumerate() {
        assert_eq!(b.0 as usize, i);
    }
}
