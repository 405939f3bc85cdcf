//! Machine integers extended with positive and negative infinity, as used
//! for distances and sentinels: totally ordered, with saturating-style
//! arithmetic whose undefined combinations (such as `Inf + NegInf`) are
//! ruled out by precondition.

use vstd::prelude::*;

verus! {

/// An `i64` extended with `-oo` and `+oo`.  The derived ordering places
/// `NegInf` below every finite value and `Inf` above.
#[derive(PartialEq, Eq, PartialOrd, Ord, Clone, Copy, Debug)]
pub enum MaybeInf {
    NegInf,
    NonInf(i64),
    Inf,
}

use MaybeInf::{Inf, NegInf, NonInf};

impl MaybeInf {
    /// The finite value; infinite values are rejected.
    pub fn unwrap(self) -> (r: i64)
        requires
            self is NonInf,
        ensures
            r == self->0,
    {
        match self {
            NonInf(a) => a,
            _ => {
                proof {
                    assert(false);
                }
                0
            },
        }
    }

    /// The finite value, or `default` for either infinity.
    pub fn unwrap_or(self, default: i64) -> (r: i64)
        ensures
            self matches NonInf(a) ==> r == a,
            !(self is NonInf) ==> r == default,
    {
        match self {
            NonInf(a) => a,
            _ => default,
        }
    }

    /// The finite value as an option.
    pub fn option(self) -> (r: Option<i64>)
        ensures
            self matches NonInf(a) ==> r == Some(a),
            !(self is NonInf) ==> r is None,
    {
        match self {
            NonInf(a) => Some(a),
            _ => None,
        }
    }

    /// Addition; an infinity absorbs finite values, and adding opposite
    /// infinities is ruled out.
    pub fn add(self, rhs: MaybeInf) -> (r: MaybeInf)
        requires
            !(self is NegInf && rhs is Inf),
            !(self is Inf && rhs is NegInf),
            self matches NonInf(a) && rhs matches NonInf(b) ==> i64::MIN <= a + b <= i64::MAX,
        ensures
            self is NegInf ==> r is NegInf,
            rhs is NegInf ==> r is NegInf,
            self is Inf ==> r is Inf,
            rhs is Inf ==> r is Inf,
            self matches NonInf(a) && rhs matches NonInf(b) ==> r == NonInf((a + b) as i64),
    {
        match (self, rhs) {
            (NegInf, _) => NegInf,
            (_, NegInf) => NegInf,
            (Inf, _) => Inf,
            (_, Inf) => Inf,
            (NonInf(a), NonInf(b)) => NonInf(a + b),
        }
    }

    /// Addition of a finite value.
    pub fn add_num(self, rhs: i64) -> (r: MaybeInf)
        requires
            self matches NonInf(a) ==> i64::MIN <= a + rhs <= i64::MAX,
        ensures
            self is NegInf ==> r is NegInf,
            self is Inf ==> r is Inf,
            self matches NonInf(a) ==> r == NonInf((a + rhs) as i64),
    {
        match self {
            NegInf => NegInf,
            NonInf(a) => NonInf(a + rhs),
            Inf => Inf,
        }
    }

    /// Subtraction; subtracting an infinity from itself is ruled out.
    pub fn sub(self, rhs: MaybeInf) -> (r: MaybeInf)
        requires
            !(self is NegInf && rhs is NegInf),
            !(self is Inf && rhs is Inf),
            self matches NonInf(a) && rhs matches NonInf(b) ==> i64::MIN <= a - b <= i64::MAX,
        ensures
            self is NegInf ==> r is NegInf,
            rhs is Inf ==> r is NegInf,
            self is Inf ==> r is Inf,
            rhs is NegInf ==> r is Inf,
            self matches NonInf(a) && rhs matches NonInf(b) ==> r == NonInf((a - b) as i64),
    {
        match (self, rhs) {
            (NegInf, _) => NegInf,
            (_, Inf) => NegInf,
            (Inf, _) => Inf,
            (_, NegInf) => Inf,
            (NonInf(a), NonInf(b)) => NonInf(a - b),
        }
    }

    /// Subtraction of a finite value.
    pub fn sub_num(self, rhs: i64) -> (r: MaybeInf)
        requires
            self matches NonInf(a) ==> i64::MIN <= a - rhs <= i64::MAX,
        ensures
            self is NegInf ==> r is NegInf,
            self is Inf ==> r is Inf,
            self matches NonInf(a) ==> r == NonInf((a - rhs) as i64),
    {
        match self {
            NegInf => NegInf,
            NonInf(a) => NonInf(a - rhs),
            Inf => Inf,
        }
    }

    /// Negation, exchanging the two infinities.
    pub fn neg(self) -> (r: MaybeInf)
        requires
            self matches NonInf(a) ==> a > i64::MIN,
        ensures
            self is NegInf ==> r is Inf,
            self is Inf ==> r is NegInf,
            self matches NonInf(a) ==> r == NonInf((-a) as i64),
    {
        match self {
            NegInf => Inf,
            NonInf(a) => NonInf(-a),
            Inf => NegInf,
        }
    }

    /// Multiplication with the sign convention of the extended reals;
    /// multiplying an infinity by zero is ruled out.
    pub fn mul(self, rhs: MaybeInf) -> (r: MaybeInf)
        requires
            self matches NonInf(a) ==> (!(rhs is NonInf) ==> a != 0),
            rhs matches NonInf(b) ==> (!(self is NonInf) ==> b != 0),
            self matches NonInf(a) && rhs matches NonInf(b) ==> i64::MIN <= a * b <= i64::MAX,
        ensures
            self is NegInf && rhs is NegInf ==> r is Inf,
            self is NegInf && rhs is Inf ==> r is NegInf,
            self is Inf && rhs is NegInf ==> r is NegInf,
            self is Inf && rhs is Inf ==> r is Inf,
            rhs matches NonInf(b) ==> (self is NegInf ==> r == (if b > 0 {
                NegInf
            } else {
                Inf
            })),
            rhs matches NonInf(b) ==> (self is Inf ==> r == (if b > 0 {
                Inf
            } else {
                NegInf
            })),
            self matches NonInf(a) ==> (rhs is NegInf ==> r == (if a > 0 {
                NegInf
            } else {
                Inf
            })),
            self matches NonInf(a) ==> (rhs is Inf ==> r == (if a > 0 {
                Inf
            } else {
                NegInf
            })),
            self matches NonInf(a) && rhs matches NonInf(b) ==> r == NonInf((a * b) as i64),
    {
        match (self, rhs) {
            (NegInf, NegInf) => Inf,
            (NegInf, Inf) => NegInf,
            (Inf, NegInf) => NegInf,
            (Inf, Inf) => Inf,
            (NegInf, NonInf(b)) => if b > 0 {
                NegInf
            } else {
                Inf
            },
            (Inf, NonInf(b)) => if b > 0 {
                Inf
            } else {
                NegInf
            },
            (NonInf(a), NegInf) => if a > 0 {
                NegInf
            } else {
                Inf
            },
            (NonInf(a), Inf) => if a > 0 {
                Inf
            } else {
                NegInf
            },
            (NonInf(a), NonInf(b)) => NonInf(a * b),
        }
    }

    /// Multiplication by a finite value, mapping over the finite case; an
    /// infinity keeps its sign, so `rhs` must be positive for the result
    /// to follow the usual sign convention.
    pub fn mul_num(self, rhs: i64) -> (r: MaybeInf)
        requires
            self matches NonInf(a) ==> i64::MIN <= a * rhs <= i64::MAX,
        ensures
            self is NegInf ==> r is NegInf,
            self is Inf ==> r is Inf,
            self matches NonInf(a) ==> r == NonInf((a * rhs) as i64),
    {
        match self {
            NegInf => NegInf,
            NonInf(a) => NonInf(a * rhs),
            Inf => Inf,
        }
    }
}

} // verus!
