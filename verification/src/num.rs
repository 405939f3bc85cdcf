//! Numeric utilities: a modular-arithmetic type with a fixed runtime
//! modulus, Gaussian integers, and greatest common divisor / least common
//! multiple.

use vstd::arithmetic::div_mod::{
    lemma_fundamental_div_mod_converse_mod, lemma_mod_twice, lemma_mul_mod_noop_general,
    lemma_small_mod,
};
use vstd::arithmetic::power::{lemma_pow0, pow};
use vstd::prelude::*;

verus! {

/// The modulus shared by every `GF` value: a prime, so that every nonzero
/// residue has a multiplicative inverse.
pub const M: i64 = 1_000_000_007;

/// An element of the field of integers modulo [`M`], kept as a canonical
/// residue in `[0, M)`.
///
/// This is the fixed-modulus companion of [`crate::gf::GF`], for the common
/// case where the modulus is known and never varies.
#[derive(Debug, Clone, Copy, Default, PartialOrd, Ord, PartialEq, Eq)]
pub struct GF(i64);

impl GF {
    /// A canonical residue.
    pub closed spec fn wf(self) -> bool {
        0 <= self.0 < M
    }

    /// The residue this element stands for.
    pub closed spec fn val(self) -> int {
        self.0 as int
    }

    /// Reduce any signed integer into `[0, M)` with floored (Euclidean)
    /// modulo, so negative inputs wrap correctly.
    pub fn new(v: i64) -> (r: GF)
        ensures
            r.wf(),
            r.val() == (v as int) % (M as int),
    {
        let m = v.checked_rem_euclid(M).unwrap();
        GF(m)
    }

    /// The canonical residue as a machine integer.
    pub fn as_i64(&self) -> (r: i64)
        ensures
            r == self.val(),
    {
        self.0
    }

    /// Modular addition.
    pub fn add(self, rhs: GF) -> (r: GF)
        requires
            self.wf(),
            rhs.wf(),
        ensures
            r.wf(),
            r.val() == (self.val() + rhs.val()) % (M as int),
    {
        let s = self.0 + rhs.0;
        let t = if s >= M {
            s - M
        } else {
            s
        };
        proof {
            lemma_fundamental_div_mod_converse_mod(
                self.0 + rhs.0,
                M as int,
                if s >= M {
                    1int
                } else {
                    0int
                },
                t as int,
            );
        }
        GF(t)
    }

    /// Modular subtraction.
    pub fn sub(self, rhs: GF) -> (r: GF)
        requires
            self.wf(),
            rhs.wf(),
        ensures
            r.wf(),
            r.val() == (self.val() - rhs.val()) % (M as int),
    {
        let s = self.0 - rhs.0 + M;
        let t = if s >= M {
            s - M
        } else {
            s
        };
        proof {
            lemma_fundamental_div_mod_converse_mod(
                self.0 - rhs.0,
                M as int,
                if s >= M {
                    0int
                } else {
                    -1int
                },
                t as int,
            );
        }
        GF(t)
    }

    /// Modular multiplication; the product of two canonical residues fits
    /// in a machine integer because `M` squared does.
    pub fn mul(self, rhs: GF) -> (r: GF)
        requires
            self.wf(),
            rhs.wf(),
        ensures
            r.wf(),
            r.val() == (self.val() * rhs.val()) % (M as int),
    {
        proof {
            assert(self.0 * rhs.0 < M as int * M as int) by (nonlinear_arith)
                requires
                    0 <= self.0 < M,
                    0 <= rhs.0 < M,
            ;
            assert(self.0 * rhs.0 >= 0) by (nonlinear_arith)
                requires
                    self.0 >= 0,
                    rhs.0 >= 0,
            ;
        }
        let p = ((self.0 as u64) * (rhs.0 as u64)) % (M as u64);
        GF(p as i64)
    }

    /// Additive inverse: `0 - self`.
    pub fn neg(self) -> (r: GF)
        requires
            self.wf(),
        ensures
            r.wf(),
            r.val() == (0 - self.val()) % (M as int),
    {
        GF(0).sub(self)
    }

    /// O(log exp).  Modular exponentiation by repeated squaring.
    pub fn pow(self, exp: u64) -> (r: GF)
        requires
            self.wf(),
        ensures
            r.wf(),
            r.val() == pow(self.val(), exp as nat) % (M as int),
    {
        let mut k = self;
        let mut e = exp;
        let mut ret = GF(1);
        proof {
            lemma_mul_mod_noop_general(1, pow(self.val(), exp as nat), M as int);
        }
        while e > 0
            invariant
                ret.wf(),
                k.wf(),
                (ret.val() * pow(k.val(), e as nat)) % (M as int) == pow(self.val(), exp as nat)
                    % (M as int),
            decreases e,
        {
            let ghost pre_ret = ret.val();
            let ghost pre_k = k.val();
            let ghost pre_e = e as nat;
            if e % 2 == 1 {
                ret = ret.mul(k);
            }
            e = e / 2;
            k = k.mul(k);
            proof {
                crate::gf::lemma_square_step(pre_ret, pre_k, pre_e, M as int, ret.val(), k.val());
            }
        }
        proof {
            lemma_pow0(k.val());
            lemma_small_mod(ret.val() as nat, M as nat);
        }
        ret
    }

    /// Modular inverse by Fermat's little theorem: `self.pow(M - 2)`.
    ///
    /// The result is the multiplicative inverse only for nonzero elements;
    /// this is not checked, and inverting zero silently yields zero.
    pub fn recip(self) -> (r: GF)
        requires
            self.wf(),
        ensures
            r.wf(),
            r.val() == pow(self.val(), (M - 2) as nat) % (M as int),
    {
        self.pow((M - 2) as u64)
    }

    /// Modular division: multiplication by the inverse of `rhs`.
    pub fn div(self, rhs: GF) -> (r: GF)
        requires
            self.wf(),
            rhs.wf(),
        ensures
            r.wf(),
            r.val() == (self.val() * (pow(rhs.val(), (M - 2) as nat) % (M as int))) % (M as int),
    {
        self.mul(rhs.recip())
    }
}

/// A Gaussian integer: a complex number with machine-integer parts.
#[derive(PartialEq, Eq, Copy, Clone, Hash, Debug, Default, Structural)]
pub struct Complex {
    /// Real portion of the complex number.
    pub re: i64,
    /// Imaginary portion of the complex number.
    pub im: i64,
}

/// Truncating (round toward zero) division, as Rust's `/` computes it on
/// signed machine integers.
pub open spec fn div_trunc(x: int, d: int) -> int {
    if x == 0 {
        0
    } else if x > 0 && d > 0 {
        x / d
    } else if x < 0 && d < 0 {
        (x * -1) / (d * -1)
    } else if x < 0 {
        ((x * -1) / d) * -1
    } else {
        (x / (d * -1)) * -1
    }
}

impl Complex {
    /// Create a new complex number.
    pub fn new(re: i64, im: i64) -> (r: Complex)
        ensures
            r.re == re,
            r.im == im,
    {
        Complex { re, im }
    }

    /// The imaginary unit.
    pub fn i() -> (r: Complex)
        ensures
            r.re == 0,
            r.im == 1,
    {
        Complex { re: 0, im: 1 }
    }

    /// The squared norm `re^2 + im^2`.
    pub fn norm_sqr(&self) -> (r: i64)
        requires
            self.re * self.re + self.im * self.im <= i64::MAX,
        ensures
            r == self.re * self.re + self.im * self.im,
            r >= 0,
    {
        proof {
            assert(self.re * self.re >= 0 && self.im * self.im >= 0) by (nonlinear_arith);
        }
        self.re * self.re + self.im * self.im
    }

    /// The complex conjugate `re - i*im`.
    pub fn conj(&self) -> (r: Complex)
        requires
            self.im > i64::MIN,
        ensures
            r.re == self.re,
            r.im == -self.im,
    {
        Complex { re: self.re, im: -self.im }
    }

    /// `1/self`, in truncating integer division: exact only when the norm
    /// divides both parts.
    pub fn inv(&self) -> (r: Complex)
        requires
            self.re * self.re + self.im * self.im <= i64::MAX,
            self.re != 0 || self.im != 0,
            self.im > i64::MIN,
        ensures
            r.re == div_trunc(self.re as int, self.re * self.re + self.im * self.im),
            r.im == div_trunc(-self.im as int, self.re * self.re + self.im * self.im),
    {
        let n = self.norm_sqr();
        proof {
            assert(n != 0) by (nonlinear_arith)
                requires
                    n == self.re * self.re + self.im * self.im,
                    self.re != 0 || self.im != 0,
            ;
        }
        let re = self.re.checked_div(n).unwrap();
        let im = (-self.im).checked_div(n).unwrap();
        Complex { re, im }
    }
}

/// The greatest common divisor by Euclid's recursion on nonnegative
/// integers; `gcd_spec(a, 0) == a`.
pub open spec fn gcd_spec(a: int, b: int) -> int
    decreases b,
    when b >= 0
{
    if b <= 0 {
        a
    } else {
        gcd_spec(b, a % b)
    }
}

/// Greatest common divisor of two nonnegative integers.
pub fn gcd(a: i64, b: i64) -> (r: i64)
    requires
        a >= 0,
        b >= 0,
    ensures
        r == gcd_spec(a as int, b as int),
    decreases b,
{
    if b == 0 {
        a
    } else {
        let m = ((a as u64) % (b as u64)) as i64;
        gcd(b, m)
    }
}

/// Least common multiple: `a / gcd(a, b) * b`.
pub fn lcm(a: i64, b: i64) -> (r: i64)
    requires
        a >= 0,
        b >= 0,
        a > 0 || b > 0,
        a * b <= i64::MAX,
    ensures
        r == (a as int) / gcd_spec(a as int, b as int) * b,
{
    let g = gcd(a, b);
    proof {
        lemma_gcd_pos(a as int, b as int);
        assert((a as int) / (g as int) <= a) by (nonlinear_arith)
            requires
                g >= 1,
                a >= 0,
        ;
        assert((a as int) / (g as int) * b <= a * b) by (nonlinear_arith)
            requires
                0 <= (a as int) / (g as int) <= a,
                b >= 0,
        ;
        assert((a as int) / (g as int) >= 0) by (nonlinear_arith)
            requires
                g >= 1,
                a >= 0,
        ;
        assert(a * b >= 0) by (nonlinear_arith)
            requires
                a >= 0,
                b >= 0,
        ;
    }
    let q = ((a as u64) / (g as u64)) as i64;
    q * b
}

/// The gcd of two nonnegative integers, not both zero, is positive.
proof fn lemma_gcd_pos(a: int, b: int)
    requires
        a >= 0,
        b >= 0,
        a > 0 || b > 0,
    ensures
        gcd_spec(a, b) >= 1,
    decreases b,
{
    if b == 0 {
    } else {
        vstd::arithmetic::div_mod::lemma_mod_bound(a, b);
        lemma_gcd_pos(b, a % b);
    }
}

} // verus!
