//! Monoids: types with an associative combine operation and an identity
//! element.  Any implementation can be stored in the segment tree.

use vstd::prelude::*;

verus! {

/// A monoid: an identity element together with an associative binary
/// operation.  Implementations must prove the three monoid laws:
/// * `op(id(), x) == x`
/// * `op(x, id()) == x`
/// * `op(op(x, y), z) == op(x, op(y, z))`
pub trait Monoid: Sized + Copy {
    /// The identity element, as a mathematical value.
    spec fn id() -> Self;

    /// The combine operation, as a mathematical function.
    spec fn op(l: Self, r: Self) -> Self;

    /// Law: the identity is neutral on the left.
    proof fn lemma_id_left(x: Self)
        ensures
            Self::op(Self::id(), x) == x,
    ;

    /// Law: the identity is neutral on the right.
    proof fn lemma_id_right(x: Self)
        ensures
            Self::op(x, Self::id()) == x,
    ;

    /// Law: the combine operation is associative.
    proof fn lemma_assoc(x: Self, y: Self, z: Self)
        ensures
            Self::op(Self::op(x, y), z) == Self::op(x, Self::op(y, z)),
    ;

    /// Identity of `mappend`.
    fn mempty() -> (r: Self)
        ensures
            r == Self::id(),
    ;

    /// An associative operation.
    fn mappend(l: &Self, r: &Self) -> (t: Self)
        ensures
            t == Self::op(*l, *r),
    ;

}

/// Fold a slice using the monoid, left to right, starting from the identity.
pub fn mconcat<T: Monoid>(xs: &[T]) -> (r: T)
    ensures
        r == mconcat_spec(xs@),
{
    let mut ret = T::mempty();
    let mut i: usize = 0;
    while i < xs.len()
        invariant
            i <= xs@.len(),
            ret == mconcat_spec(xs@.take(i as int)),
        decreases xs@.len() - i,
    {
        proof {
            lemma_mconcat_take_step(xs@, i as int);
        }
        ret = T::mappend(&ret, &xs[i]);
        i = i + 1;
    }
    proof {
        assert(xs@.take(xs@.len() as int) =~= xs@);
    }
    ret
}

/// The fold of a sequence under its monoid, combining left to right from the
/// identity: the mathematical meaning of `mconcat` and of range queries.
pub open spec fn mconcat_spec<T: Monoid>(s: Seq<T>) -> T
    decreases s.len(),
{
    if s.len() == 0 {
        T::id()
    } else {
        T::op(mconcat_spec(s.drop_last()), s.last())
    }
}

/// Folding one more element on the right combines it on the right.
pub proof fn lemma_mconcat_take_step<T: Monoid>(s: Seq<T>, i: int)
    requires
        0 <= i < s.len(),
    ensures
        mconcat_spec(s.take(i + 1)) == T::op(mconcat_spec(s.take(i)), s[i]),
{
    assert(s.take(i + 1).drop_last() =~= s.take(i));
    assert(s.take(i + 1).last() == s[i]);
}

/// The fold of a concatenation is the combination of the folds.
pub proof fn lemma_mconcat_concat<T: Monoid>(a: Seq<T>, b: Seq<T>)
    ensures
        mconcat_spec(a + b) == T::op(mconcat_spec(a), mconcat_spec(b)),
    decreases b.len(),
{
    if b.len() == 0 {
        assert(a + b =~= a);
        T::lemma_id_right(mconcat_spec(a));
    } else {
        lemma_mconcat_concat(a, b.drop_last());
        assert((a + b).drop_last() =~= a + b.drop_last());
        assert((a + b).last() == b.last());
        T::lemma_assoc(mconcat_spec(a), mconcat_spec(b.drop_last()), b.last());
    }
}

/// The wrap-around sum of two machine integers: the combine operation of
/// `Sum`.
pub open spec fn wrap_add(l: i64, r: i64) -> i64 {
    vstd::wrapping::i64_specs::wrapping_add(l, r)
}

/// The wrap-around product of two machine integers: the combine operation of
/// `Product`.
pub open spec fn wrap_mul(l: i64, r: i64) -> i64 {
    vstd::wrapping::i64_specs::wrapping_mul(l, r)
}

/// Sum under addition; the identity is 0.  Addition wraps around on
/// overflow, which keeps the operation total and associative.
#[derive(Clone, Copy, Debug, PartialEq, Eq, Structural)]
pub struct Sum(pub i64);

impl Monoid for Sum {
    open spec fn id() -> Self {
        Sum(0)
    }

    open spec fn op(l: Self, r: Self) -> Self {
        Sum(wrap_add(l.0, r.0))
    }

    proof fn lemma_id_left(x: Self) {
    }

    proof fn lemma_id_right(x: Self) {
    }

    proof fn lemma_assoc(x: Self, y: Self, z: Self) {
        lemma_wrap_add_assoc(x.0, y.0, z.0);
    }

    fn mempty() -> (r: Self)
    {
        Sum(0)
    }

    fn mappend(l: &Self, r: &Self) -> (t: Self)
    {
        Sum(l.0.wrapping_add(r.0))
    }
}

/// Product under multiplication; the identity is 1.  Multiplication wraps
/// around on overflow, which keeps the operation total and associative.
#[derive(Clone, Copy, Debug, PartialEq, Eq, Structural)]
pub struct Product(pub i64);

impl Monoid for Product {
    open spec fn id() -> Self {
        Product(1)
    }

    open spec fn op(l: Self, r: Self) -> Self {
        Product(wrap_mul(l.0, r.0))
    }

    proof fn lemma_id_left(x: Self) {
        lemma_wrap_mul_one(x.0);
    }

    proof fn lemma_id_right(x: Self) {
        lemma_wrap_mul_one(x.0);
    }

    proof fn lemma_assoc(x: Self, y: Self, z: Self) {
        lemma_wrap_mul_assoc(x.0, y.0, z.0);
    }

    fn mempty() -> (r: Self)
    {
        Product(1)
    }

    fn mappend(l: &Self, r: &Self) -> (t: Self)
    {
        Product(l.0.wrapping_mul(r.0))
    }
}

/// Maximum; the identity is the least machine integer.
#[derive(Clone, Copy, Debug, PartialEq, Eq, Structural)]
pub struct Max(pub i64);

impl Monoid for Max {
    open spec fn id() -> Self {
        Max(i64::MIN)
    }

    open spec fn op(l: Self, r: Self) -> Self {
        if l.0 >= r.0 {
            l
        } else {
            r
        }
    }

    proof fn lemma_id_left(x: Self) {
    }

    proof fn lemma_id_right(x: Self) {
    }

    proof fn lemma_assoc(x: Self, y: Self, z: Self) {
    }

    fn mempty() -> (r: Self)
    {
        Max(i64::MIN)
    }

    fn mappend(l: &Self, r: &Self) -> (t: Self)
    {
        if l.0 >= r.0 {
            *l
        } else {
            *r
        }
    }
}

/// Minimum; the identity is the greatest machine integer.
#[derive(Clone, Copy, Debug, PartialEq, Eq, Structural)]
pub struct Min(pub i64);

impl Monoid for Min {
    open spec fn id() -> Self {
        Min(i64::MAX)
    }

    open spec fn op(l: Self, r: Self) -> Self {
        if l.0 <= r.0 {
            l
        } else {
            r
        }
    }

    proof fn lemma_id_left(x: Self) {
    }

    proof fn lemma_id_right(x: Self) {
    }

    proof fn lemma_assoc(x: Self, y: Self, z: Self) {
    }

    fn mempty() -> (r: Self)
    {
        Min(i64::MAX)
    }

    fn mappend(l: &Self, r: &Self) -> (t: Self)
    {
        if l.0 <= r.0 {
            *l
        } else {
            *r
        }
    }
}

/// Wrap-around addition is associative.
proof fn lemma_wrap_add_assoc(a: i64, b: i64, c: i64)
    ensures
        wrap_add(wrap_add(a, b), c) == wrap_add(a, wrap_add(b, c)),
{
}

/// Multiplying by one wraps to the value itself.
proof fn lemma_wrap_mul_one(a: i64)
    ensures
        wrap_mul(a, 1) == a,
        wrap_mul(1, a) == a,
{
    assert(a * 1 == a) by (nonlinear_arith);
    assert(1 * a == a) by (nonlinear_arith);
    lemma_signed_crop_id(a);
}

/// `signed_crop` leaves a value that already fits unchanged.
proof fn lemma_signed_crop_id(a: i64)
    ensures
        vstd::wrapping::i64_specs::signed_crop(a as int) == a,
{
    let r: int = 0x1_0000_0000_0000_0000;
    if a >= 0 {
        assert(a as int % r == a as int);
    } else {
        assert(a as int % r == a as int + r);
    }
}

/// Wrap-around multiplication is associative: both groupings are congruent
/// to the full product modulo 2^64 and lie in the machine range.
proof fn lemma_wrap_mul_assoc(a: i64, b: i64, c: i64)
    ensures
        wrap_mul(wrap_mul(a, b), c) == wrap_mul(a, wrap_mul(b, c)),
{
    let r: int = 0x1_0000_0000_0000_0000;
    let ab = vstd::wrapping::i64_specs::signed_crop(a * b);
    let bc = vstd::wrapping::i64_specs::signed_crop(b * c);
    lemma_signed_crop_congruent(a * b);
    lemma_signed_crop_congruent(b * c);
    assert((ab * c) % r == ((a * b) * c) % r) by {
        vstd::arithmetic::div_mod::lemma_mul_mod_noop_general(ab as int, c as int, r);
        vstd::arithmetic::div_mod::lemma_mul_mod_noop_general(a * b, c as int, r);
    }
    assert((a * bc) % r == (a * (b * c)) % r) by {
        vstd::arithmetic::div_mod::lemma_mul_mod_noop_general(a as int, bc as int, r);
        vstd::arithmetic::div_mod::lemma_mul_mod_noop_general(a as int, b * c, r);
    }
    assert((a * b) * c == a * (b * c)) by (nonlinear_arith);
    lemma_signed_crop_congruent(ab * c);
    lemma_signed_crop_congruent(a * bc);
}

/// `signed_crop` preserves the residue modulo 2^64.
proof fn lemma_signed_crop_congruent(x: int)
    ensures
        vstd::wrapping::i64_specs::signed_crop(x) as int % 0x1_0000_0000_0000_0000
            == x % 0x1_0000_0000_0000_0000,
        vstd::wrapping::i64_specs::signed_crop(x) == vstd::wrapping::i64_specs::signed_crop(
            x % 0x1_0000_0000_0000_0000,
        ),
{
    let r: int = 0x1_0000_0000_0000_0000;
    let m = x % r;
    vstd::arithmetic::div_mod::lemma_mod_bound(x, r);
    vstd::arithmetic::div_mod::lemma_mod_twice(x, r);
    let cropped = vstd::wrapping::i64_specs::signed_crop(x);
    if m > i64::MAX {
        assert(cropped == (m - r) as i64);
        assert((m - r) % r == m % r) by {
            vstd::arithmetic::div_mod::lemma_mod_sub_multiples_vanish(m, r);
        }
    } else {
        assert(cropped == m as i64);
    }
}

} // verus!
