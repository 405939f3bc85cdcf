use competitive::monoid::{mconcat, Max, Min, Monoid, Product, Sum};
use competitive::segment_tree::SegmentTree;

#[test]
fn segment_tree_test() {
    {
        let st = SegmentTree::<Sum>::new(5);
        for i in 0..5 {
            assert_eq!(st.get(i).0, 0);
        }
        assert_eq!(st.query(0..5).0, 0);
    }

    {
        let st = SegmentTree::<Sum>::from_slice(&[Sum(1), Sum(2), Sum(3), Sum(4), Sum(5)]);
        assert_eq!(st.query(0..5).0, 15);
        assert_eq!(st.query(0..2).0, 3);
        assert_eq!(st.query(2..4).0, 7);
        assert_eq!(st.query(4..5).0, 5);
    }

    let mut st = SegmentTree::<Sum>::new(5);
    st.set(2, Sum(1));
    assert_eq!(st.query(0..5).0, 1);
    assert_eq!(st.query(0..2).0, 0);
    assert_eq!(st.query(3..5).0, 0);
    assert_eq!(st.query(2..3).0, 1);
    assert_eq!(st.query(2..2).0, 0);
    st.mappend(2, Sum(2));
    assert_eq!(st.query(0..5).0, 3);
    assert_eq!(st.query(0..2).0, 0);
    assert_eq!(st.query(3..5).0, 0);
    assert_eq!(st.query(2..3).0, 3);
    assert_eq!(st.query(2..2).0, 0);
    st.set(0, Sum(1));
    st.set(1, Sum(2));
    st.set(3, Sum(4));
    st.set(4, Sum(5));
    assert_eq!(st.query(0..5).0, 15);
    assert_eq!(st.query(0..2).0, 3);
    assert_eq!(st.query(3..5).0, 9);
    assert_eq!(st.query(2..3).0, 3);
    assert_eq!(st.query(2..2).0, 0);
    assert_eq!(st.query_inclusive(2, 2).0, 3);
    assert_eq!(st.query_full().0, 15);
    assert_eq!(st.query_from(1).0, 14);
    assert_eq!(st.query_to(3).0, 6);
    assert_eq!(st.query_inclusive(0, 3).0, 10);
}

#[test]
fn segment_tree_build_matches_fold() {
    // Aggregating the whole tree equals an independent linear fold.
    for n in 0..40usize {
        let v: Vec<Sum> = (0..n).map(|i| Sum((i * i % 17) as i64 - 5)).collect();
        let st = SegmentTree::<Sum>::from_slice(&v);
        assert_eq!(st.len(), n);
        let folded = mconcat(&v);
        assert_eq!(st.query(0..n).0, folded.0);
    }
}

#[test]
fn segment_tree_all_ranges() {
    // Every subrange of a fixed sequence agrees with a linear fold.
    let v: Vec<Sum> = vec![Sum(1), Sum(2), Sum(3), Sum(4), Sum(5)];
    let st = SegmentTree::<Sum>::from_slice(&v);
    for l in 0..=5usize {
        for r in l..=5usize {
            let brute: i64 = v[l..r].iter().map(|s| s.0).sum();
            assert_eq!(st.query(l..r).0, brute);
        }
    }
    assert_eq!(st.query(1..4).0, 9);
    assert_eq!(st.query(0..5).0, 15);
    assert_eq!(st.query(2..2).0, 0);
}

#[test]
fn segment_tree_point_update_consistency() {
    // After set(i, x), get(i) == x and every range query reflects it.
    let base: Vec<Min> = vec![Min(7), Min(3), Min(9), Min(1), Min(4), Min(6)];
    for i in 0..base.len() {
        let mut st = SegmentTree::<Min>::from_slice(&base);
        let mut model: Vec<Min> = base.clone();
        st.set(i, Min(-2));
        model[i] = Min(-2);
        assert_eq!(st.get(i).0, -2);
        for l in 0..=model.len() {
            for r in l..=model.len() {
                let brute = model[l..r].iter().fold(Min::mempty(), |a, b| Min::mappend(&a, b));
                assert_eq!(st.query(l..r).0, brute.0);
            }
        }
    }
}

#[test]
fn segment_tree_empty_tree() {
    // A zero-length tree accepts only the empty query and yields the
    // identity.
    let st = SegmentTree::<Product>::new(0);
    assert_eq!(st.len(), 0);
    assert_eq!(st.query(0..0).0, 1);
    let st2 = SegmentTree::<Max>::new(0);
    assert_eq!(st2.query(0..0).0, i64::MIN);
}
