use competitive::range::RangeExt;

#[test]
fn range_test() {
    assert_eq!((0..10).intersection(5..15), Some(5..10));
    assert_eq!((0..10).intersection(15..25), None);

    assert_eq!((0..10).union(5..15), Some(0..15));
    assert_eq!((0..10).union(15..25), None);

    assert_eq!((0..10).difference(15..25), vec![0..10]);
    assert_eq!((0..10).difference(10..25), vec![0..10]);
    assert_eq!((0..10).difference(5..25), vec![0..5]);
    assert_eq!((0..10).difference(0..25), vec![]);
    assert_eq!((0..10).difference(0..10), vec![]);
    assert_eq!((0..10).difference(0..5), vec![5..10]);
    assert_eq!((0..10).difference(2..5), vec![0..2, 5..10]);
    assert_eq!((5..10).difference(0..7), vec![7..10]);
    assert_eq!((5..10).difference(0..15), vec![]);
}

#[test]
fn range_basic_predicates() {
    assert!((3..3).empty());
    assert!((5..3).empty());
    assert!(!(3..4).empty());
    assert!((0..10).contains_range(2..5));
    assert!(!(0..10).contains_range(2..15));
}
