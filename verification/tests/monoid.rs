use competitive::bits::SmallBitSet;
use competitive::monoid::{mconcat, Max, Min, Monoid, Product, Sum};

#[test]
fn monoid_laws_concrete() {
    // The identity and associativity laws, checked on concrete values for
    // each provided instance.
    let xs: [i64; 5] = [-3, 0, 7, 123456789, -987654321];
    for &a in xs.iter() {
        assert_eq!(Sum::mappend(&Sum(a), &Sum::mempty()).0, a);
        assert_eq!(Sum::mappend(&Sum::mempty(), &Sum(a)).0, a);
        assert_eq!(Product::mappend(&Product(a), &Product::mempty()).0, a);
        assert_eq!(Product::mappend(&Product::mempty(), &Product(a)).0, a);
        assert_eq!(Max::mappend(&Max(a), &Max::mempty()).0, a);
        assert_eq!(Max::mappend(&Max::mempty(), &Max(a)).0, a);
        assert_eq!(Min::mappend(&Min(a), &Min::mempty()).0, a);
        assert_eq!(Min::mappend(&Min::mempty(), &Min(a)).0, a);
        for &b in xs.iter() {
            for &c in xs.iter() {
                let l = Sum::mappend(&Sum::mappend(&Sum(a), &Sum(b)), &Sum(c));
                let r = Sum::mappend(&Sum(a), &Sum::mappend(&Sum(b), &Sum(c)));
                assert_eq!(l.0, r.0);
                let l = Product::mappend(&Product::mappend(&Product(a), &Product(b)), &Product(c));
                let r = Product::mappend(&Product(a), &Product::mappend(&Product(b), &Product(c)));
                assert_eq!(l.0, r.0);
                let l = Max::mappend(&Max::mappend(&Max(a), &Max(b)), &Max(c));
                let r = Max::mappend(&Max(a), &Max::mappend(&Max(b), &Max(c)));
                assert_eq!(l.0, r.0);
                let l = Min::mappend(&Min::mappend(&Min(a), &Min(b)), &Min(c));
                let r = Min::mappend(&Min(a), &Min::mappend(&Min(b), &Min(c)));
                assert_eq!(l.0, r.0);
            }
        }
    }
    let bs: [u32; 4] = [0, 0b1010, 0xffff_ffff, 0b100];
    for &a in bs.iter() {
        let s = SmallBitSet(a);
        assert_eq!(SmallBitSet::mappend(&s, &SmallBitSet::mempty()).0, a);
        assert_eq!(SmallBitSet::mappend(&SmallBitSet::mempty(), &s).0, a);
        for &b in bs.iter() {
            for &c in bs.iter() {
                let l = SmallBitSet::mappend(
                    &SmallBitSet::mappend(&SmallBitSet(a), &SmallBitSet(b)),
                    &SmallBitSet(c),
                );
                let r = SmallBitSet::mappend(
                    &SmallBitSet(a),
                    &SmallBitSet::mappend(&SmallBitSet(b), &SmallBitSet(c)),
                );
                assert_eq!(l.0, r.0);
            }
        }
    }
}

#[test]
fn mconcat_edges() {
    // The fold of an empty slice is the identity; a singleton folds to
    // itself.
    let empty: [Sum; 0] = [];
    assert_eq!(mconcat(&empty).0, 0);
    assert_eq!(mconcat(&[Sum(42)]).0, 42);
    assert_eq!(mconcat(&[Sum(1), Sum(2), Sum(3)]).0, 6);
    assert_eq!(mconcat(&[Product(2), Product(3), Product(4)]).0, 24);
    assert_eq!(mconcat(&[Max(3), Max(-1), Max(7)]).0, 7);
    assert_eq!(mconcat(&[Min(3), Min(-1), Min(7)]).0, -1);
}
