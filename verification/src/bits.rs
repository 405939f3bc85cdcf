//! Small bit sets backed by a single machine word, with union as their
//! monoid operation, and enumeration of all subsets of `{0, .., n-1}`.

use crate::monoid::Monoid;
use vstd::prelude::*;

verus! {

/// The number of set bits among the low `n` bits of a word.
pub open spec fn ones_below(x: u32, n: nat) -> int
    decreases n,
{
    if n == 0 {
        0
    } else {
        ones_below(x, (n - 1) as nat) + (if (x >> ((n - 1) as u32)) & 1 == 1 {
            1int
        } else {
            0int
        })
    }
}

/// A set of up to 32 small integers, stored one per bit.
#[derive(Clone, Copy, Debug, PartialEq, Eq, Structural)]
pub struct SmallBitSet(pub u32);

impl SmallBitSet {
    /// Whether `i` belongs to the set.
    pub open spec fn has(self, i: int) -> bool {
        (self.0 >> (i as u32)) & 1 == 1
    }

    /// The empty set.
    pub fn new() -> (r: Self)
        ensures
            r.0 == 0u32,
            forall|i: int| 0 <= i < 32 ==> !r.has(i),
    {
        proof {
            assert(forall|i: u32| i < 32 ==> (0u32 >> i) & 1 == 0) by (bit_vector);
        }
        SmallBitSet(0)
    }

    /// The set containing exactly `i`.
    pub fn singleton(i: usize) -> (r: Self)
        requires
            i < 32,
        ensures
            r.0 == 1u32 << (i as u32),
            r.has(i as int),
            forall|j: int| 0 <= j < 32 && j != i ==> !r.has(j),
    {
        proof {
            let iu = i as u32;
            assert(forall|j: u32|
                j < 32 && iu < 32 ==> ((1u32 << iu) >> j) & 1 == (if j == iu {
                    1u32
                } else {
                    0u32
                })) by (bit_vector);
        }
        SmallBitSet(1u32 << (i as u32))
    }

    /// O(1) words.  The number of elements.
    pub fn count(&self) -> (r: usize)
        ensures
            r == ones_below(self.0, 32),
    {
        let x = self.0;
        let mut acc: usize = 0;
        let mut i: u32 = 0;
        while i < 32
            invariant
                i <= 32,
                acc == ones_below(x, i as nat),
                acc <= i,
            decreases 32 - i,
        {
            if (x >> i) & 1 == 1 {
                acc = acc + 1;
            }
            i = i + 1;
        }
        acc
    }

    /// Add `i` to the set, or remove it, leaving every other element
    /// alone.
    pub fn set(&mut self, i: usize, value: bool)
        requires
            i < 32,
        ensures
            final(self).has(i as int) == value,
            forall|j: int| 0 <= j < 32 && j != i ==> final(self).has(j) == old(self).has(j),
    {
        let b: u32 = if value {
            1
        } else {
            0
        };
        let ghost x0 = self.0;
        self.0 = self.0 & !(1u32 << (i as u32)) | (b << (i as u32));
        proof {
            let y = self.0;
            let iu = i as u32;
            assert((y >> iu) & 1 == b) by (bit_vector)
                requires
                    y == x0 & !(1u32 << iu) | (b << iu),
                    iu < 32,
                    b <= 1,
            ;
            assert(forall|j: u32| j < 32 && j != iu ==> (y >> j) & 1 == (x0 >> j) & 1)
                by (bit_vector)
                requires
                    y == x0 & !(1u32 << iu) | (b << iu),
                    iu < 32,
                    b <= 1,
            ;
            assert forall|j: int| 0 <= j < 32 && j != i implies self.has(j) == old(self).has(
                j,
            ) by {
                assert((y >> (j as u32)) & 1 == (x0 >> (j as u32)) & 1);
            }
        }
    }
}

impl Monoid for SmallBitSet {
    open spec fn id() -> Self {
        SmallBitSet(0)
    }

    open spec fn op(l: Self, r: Self) -> Self {
        SmallBitSet(l.0 | r.0)
    }

    proof fn lemma_id_left(x: Self) {
        assert(forall|a: u32| 0u32 | a == a) by (bit_vector);
    }

    proof fn lemma_id_right(x: Self) {
        assert(forall|a: u32| a | 0u32 == a) by (bit_vector);
    }

    proof fn lemma_assoc(x: Self, y: Self, z: Self) {
        assert(forall|a: u32, b: u32, c: u32| (a | b) | c == a | (b | c)) by (bit_vector);
    }

    fn mempty() -> (r: Self)
    {
        SmallBitSet(0)
    }

    fn mappend(l: &Self, r: &Self) -> (t: Self)
    {
        SmallBitSet(l.0 | r.0)
    }
}

/// O(2^n).  Every subset of `{0, .., n-1}`, as bit sets counting upward
/// from the empty set.
pub fn power_bitset(n: usize) -> (r: Vec<SmallBitSet>)
    requires
        n <= 31,
    ensures
        r@.len() == 1u32 << (n as u32),
        forall|t: int| 0 <= t < r@.len() ==> #[trigger] r@[t].0 == t,
{
    proof {
        assert(1u32 << (n as u32) <= 0x8000_0000u32) by (bit_vector)
            requires
                n <= 31,
        ;
    }
    let total: u32 = 1u32 << (n as u32);
    let mut r: Vec<SmallBitSet> = Vec::new();
    let mut cur: u32 = 0;
    while cur < total
        invariant
            cur <= total,
            r@.len() == cur,
            forall|t: int| 0 <= t < r@.len() ==> #[trigger] r@[t].0 == t,
        decreases total - cur,
    {
        r.push(SmallBitSet(cur));
        cur = cur + 1;
    }
    r
}

} // verus!
