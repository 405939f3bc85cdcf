//! The finite field of prime order `P`, with the modulus as a compile-time
//! constant: canonical residues in `[0, P)` under modular addition,
//! subtraction, multiplication, exponentiation and inversion.

use vstd::arithmetic::div_mod::{
    lemma_fundamental_div_mod_converse_mod, lemma_mul_mod_noop_general,
};
use vstd::arithmetic::power::{lemma_pow0, lemma_pow1, lemma_pow_adds, lemma_pow_mod_noop, pow};
use vstd::calc;
use vstd::prelude::*;

verus! {

/// An element of the field of order `P`: a residue in `[0, P)`.
///
/// `P` must be a prime number for `recip` and `div` to invert; the other
/// operations only need `P >= 1`.  The modulus must fit in an `i64` so that
/// construction from signed values is defined.
#[derive(Clone, Copy, Debug, Default, PartialEq, Eq)]
pub struct GF<const P: u64>(pub u64);

impl<const P: u64> GF<P> {
    /// The moduli this field accepts: nonzero, and small enough that signed
    /// inputs reduce without overflow.
    pub open spec fn modulus_ok() -> bool {
        1 <= P <= i64::MAX
    }

    /// A canonical residue.
    pub open spec fn wf(self) -> bool {
        self.0 < P
    }

    /// Reduce any signed integer into the canonical range `[0, P)` with
    /// floored (Euclidean) modulo, so negative inputs wrap correctly.
    pub fn new(v: i64) -> (r: Self)
        requires
            Self::modulus_ok(),
        ensures
            r.wf(),
            r.0 == (v as int) % (P as int),
    {
        let p = P as i64;
        let m = v.checked_rem_euclid(p).unwrap();
        GF(m as u64)
    }

    /// The canonical residue as an unsigned machine integer.
    pub fn as_u64(&self) -> (r: u64)
        ensures
            r == self.0,
    {
        self.0
    }

    /// Modular addition.
    pub fn add(self, rhs: Self) -> (r: Self)
        requires
            Self::modulus_ok(),
            self.wf(),
            rhs.wf(),
        ensures
            r.wf(),
            r.0 == (self.0 + rhs.0) % (P as int),
    {
        let s = self.0 + rhs.0;
        let r = if s >= P {
            s - P
        } else {
            s
        };
        proof {
            lemma_fundamental_div_mod_converse_mod(
                self.0 + rhs.0,
                P as int,
                if s >= P {
                    1int
                } else {
                    0int
                },
                r as int,
            );
        }
        GF(r)
    }

    /// Modular subtraction.
    pub fn sub(self, rhs: Self) -> (r: Self)
        requires
            Self::modulus_ok(),
            self.wf(),
            rhs.wf(),
        ensures
            r.wf(),
            r.0 == (self.0 - rhs.0) % (P as int),
    {
        let s = self.0 + P - rhs.0;
        let r = if s >= P {
            s - P
        } else {
            s
        };
        proof {
            lemma_fundamental_div_mod_converse_mod(
                self.0 - rhs.0,
                P as int,
                if s >= P {
                    0int
                } else {
                    -1int
                },
                r as int,
            );
        }
        GF(r)
    }

    /// Modular multiplication, through a double-width intermediate so that
    /// any modulus the field accepts is safe.
    pub fn mul(self, rhs: Self) -> (r: Self)
        requires
            Self::modulus_ok(),
            self.wf(),
            rhs.wf(),
        ensures
            r.wf(),
            r.0 == (self.0 * rhs.0) % (P as int),
    {
        proof {
            assert(self.0 as int * rhs.0 as int <= u64::MAX as int * u64::MAX as int)
                by (nonlinear_arith)
                requires
                    self.0 <= u64::MAX,
                    rhs.0 <= u64::MAX,
            ;
        }
        let prod = (self.0 as u128) * (rhs.0 as u128);
        let r = (prod % (P as u128)) as u64;
        GF(r)
    }

    /// Additive inverse: `0 - self`.
    pub fn neg(self) -> (r: Self)
        requires
            Self::modulus_ok(),
            self.wf(),
        ensures
            r.wf(),
            r.0 == (0 - self.0) % (P as int),
    {
        GF(0).sub(self)
    }

    /// O(log exp).  Modular exponentiation by repeated squaring.
    pub fn pow(self, exp: u64) -> (r: Self)
        requires
            Self::modulus_ok(),
            self.wf(),
        ensures
            r.wf(),
            r.0 == pow(self.0 as int, exp as nat) % (P as int),
    {
        let mut k = self;
        let mut e = exp;
        let mut ret = GF(1 % P);
        proof {
            lemma_pow1(self.0 as int);
            lemma_pow0(self.0 as int);
            lemma_mul_mod_noop_general(1, pow(self.0 as int, exp as nat), P as int);
        }
        while e > 0
            invariant
                Self::modulus_ok(),
                ret.wf(),
                k.wf(),
                (ret.0 * pow(k.0 as int, e as nat)) % (P as int) == pow(self.0 as int, exp as nat)
                    % (P as int),
            decreases e,
        {
            let ghost pre_ret = ret.0 as int;
            let ghost pre_k = k.0 as int;
            let ghost pre_e = e as nat;
            if e % 2 == 1 {
                ret = ret.mul(k);
            }
            e = e / 2;
            k = k.mul(k);
            proof {
                lemma_square_step(pre_ret, pre_k, pre_e, P as int, ret.0 as int, k.0 as int);
            }
        }
        proof {
            lemma_pow0(k.0 as int);
            vstd::arithmetic::div_mod::lemma_small_mod(ret.0 as nat, P as nat);
        }
        ret
    }

    /// Modular inverse by Fermat's little theorem: `self.pow(P - 2)`.
    ///
    /// The result is the multiplicative inverse only when `P` is prime and
    /// `self` is nonzero; neither is checked, and inverting zero silently
    /// yields zero.
    pub fn recip(self) -> (r: Self)
        requires
            Self::modulus_ok(),
            P >= 2,
            self.wf(),
        ensures
            r.wf(),
            r.0 == pow(self.0 as int, (P - 2) as nat) % (P as int),
    {
        self.pow(P - 2)
    }

    /// Modular division: multiplication by the inverse of `rhs`.
    pub fn div(self, rhs: Self) -> (r: Self)
        requires
            Self::modulus_ok(),
            P >= 2,
            self.wf(),
            rhs.wf(),
        ensures
            r.wf(),
            r.0 == (self.0 * (pow(rhs.0 as int, (P - 2) as nat) % (P as int))) % (P as int),
    {
        self.mul(rhs.recip())
    }
}

/// One step of exponentiation by squaring preserves the loop's running
/// product: `ret * k^e` keeps its residue when `e` is halved, `k` is
/// squared, and an odd bit is multiplied into `ret`.
pub proof fn lemma_square_step(ret: int, k: int, e: nat, p: int, ret2: int, k2: int)
    requires
        p >= 1,
        e >= 1,
        0 <= ret < p,
        0 <= k < p,
        ret2 == if e % 2 == 1 {
            (ret * k) % p
        } else {
            ret
        },
        k2 == (k * k) % p,
    ensures
        (ret2 * pow(k2, (e / 2) as nat)) % p == (ret * pow(k, e)) % p,
{
    let h = (e / 2) as nat;
    // k^e == k^(e % 2) * (k*k)^h
    assert(pow(k * k, h) == pow(k, 2 * h)) by {
        lemma_pow_square(k, h);
    }
    lemma_pow_mod_noop(k * k, h, p);
    // pow(k2, h) % p == pow(k*k, h) % p
    assert(pow(k2, h) % p == pow(k, 2 * h) % p) by {
        lemma_pow_mod_noop(k * k, h, p);
    }
    if e % 2 == 1 {
        assert(e == 2 * h + 1);
        lemma_pow_adds(k, 1, 2 * h);
        lemma_pow1(k);
        // pow(k, e) == k * pow(k, 2h)
        assert(pow(k, e) == k * pow(k, 2 * h));
        calc! {
            (==)
            (ret2 * pow(k2, h)) % p; {
                lemma_mul_mod_noop_general(ret2, pow(k2, h), p);
            }
            ((ret2 % p) * (pow(k2, h) % p)) % p; {
                assert(ret2 % p == ret2) by {
                    vstd::arithmetic::div_mod::lemma_mod_twice(ret * k, p);
                }
            }
            (ret2 * (pow(k, 2 * h) % p)) % p; {
                lemma_mul_mod_noop_general(ret * k, pow(k, 2 * h), p);
                lemma_mul_mod_noop_general(ret2, pow(k, 2 * h), p);
            }
            ((ret * k) * pow(k, 2 * h)) % p; {
                assert((ret * k) * pow(k, 2 * h) == ret * (k * pow(k, 2 * h)))
                    by (nonlinear_arith);
            }
            (ret * (k * pow(k, 2 * h))) % p; {}
            (ret * pow(k, e)) % p;
        }
    } else {
        assert(e == 2 * h);
        calc! {
            (==)
            (ret2 * pow(k2, h)) % p; {
                lemma_mul_mod_noop_general(ret2, pow(k2, h), p);
                lemma_mul_mod_noop_general(ret2, pow(k, 2 * h), p);
            }
            (ret * pow(k, 2 * h)) % p; {}
            (ret * pow(k, e)) % p;
        }
    }
}

/// `(k * k)^h == k^(2h)`.
proof fn lemma_pow_square(k: int, h: nat)
    ensures
        pow(k * k, h) == pow(k, 2 * h),
    decreases h,
{
    if h == 0 {
        lemma_pow0(k * k);
        lemma_pow0(k);
    } else {
        lemma_pow_square(k, (h - 1) as nat);
        lemma_pow_adds(k, 2, 2 * (h - 1) as nat);
        lemma_pow_adds(k, 1, 1);
        lemma_pow1(k);
        assert(pow(k * k, h) == (k * k) * pow(k * k, (h - 1) as nat)) by {
            vstd::arithmetic::power::lemma_pow_adds(k * k, 1, (h - 1) as nat);
            lemma_pow1(k * k);
        }
    }
}

} // verus!
