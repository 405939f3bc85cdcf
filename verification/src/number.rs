//! Combinatorial counting: factorials, binomial and multiset
//! coefficients, factorial tables over the modular field, and modular
//! exponentiation.

use crate::gf::GF;
use vstd::arithmetic::div_mod::{lemma_mul_mod_noop_general, lemma_small_mod};
use vstd::arithmetic::power::{lemma_pow0, lemma_pow1, lemma_pow_adds, pow};
use vstd::prelude::*;

verus! {

/// The factorial.
pub open spec fn fact_spec(n: nat) -> nat
    decreases n,
{
    if n == 0 {
        1
    } else {
        n * fact_spec((n - 1) as nat)
    }
}

/// The binomial coefficient, by Pascal's recurrence.
pub open spec fn binom(n: nat, k: nat) -> nat
    decreases n,
{
    if k == 0 {
        1
    } else if k > n {
        0
    } else {
        binom((n - 1) as nat, (k - 1) as nat) + binom((n - 1) as nat, k)
    }
}

/// Choosing everything leaves one way.
proof fn lemma_binom_all(n: nat)
    ensures
        binom(n, n) == 1,
    decreases n,
{
    if n > 0 {
        lemma_binom_all((n - 1) as nat);
        assert(binom(n, n) == binom((n - 1) as nat, (n - 1) as nat) + binom((n - 1) as nat, n));
        assert(binom((n - 1) as nat, n) == 0);
    }
}

/// Choosing one from `n` leaves `n` ways.
proof fn lemma_binom_one(n: nat)
    requires
        n >= 1,
    ensures
        binom(n, 1) == n,
    decreases n,
{
    if n > 1 {
        lemma_binom_one((n - 1) as nat);
        assert(binom(n, 1) == binom((n - 1) as nat, 0) + binom((n - 1) as nat, 1));
    } else {
        assert(binom(1, 1) == binom(0, 0) + binom(0, 1));
    }
}

/// A row of Pascal's triangle is bounded by the corresponding power of
/// two.
proof fn lemma_binom_le_pow2(n: nat, k: nat)
    ensures
        binom(n, k) <= pow(2, n),
    decreases n,
{
    vstd::arithmetic::power::lemma_pow_positive(2, n);
    if k == 0 {
        lemma_pow_exceeds_zero(n);
    } else if k > n {
    } else {
        lemma_binom_le_pow2((n - 1) as nat, (k - 1) as nat);
        lemma_binom_le_pow2((n - 1) as nat, k);
        assert(pow(2, n) == 2 * pow(2, (n - 1) as nat)) by {
            lemma_pow_adds(2, 1, (n - 1) as nat);
            lemma_pow1(2);
        }
    }
}

/// Powers of two are at least one.
proof fn lemma_pow_exceeds_zero(n: nat)
    ensures
        pow(2, n) >= 1,
{
    vstd::arithmetic::power::lemma_pow_positive(2, n);
}

/// The absorption identity: `k * C(m, k) == m * C(m - 1, k - 1)`.
proof fn lemma_binom_absorb(m: nat, k: nat)
    requires
        1 <= k <= m,
    ensures
        k * binom(m, k) == m * binom((m - 1) as nat, (k - 1) as nat),
    decreases m,
{
    let m1 = (m - 1) as nat;
    if k == m {
        lemma_binom_all(m);
        lemma_binom_all(m1);
        assert(binom(m, m) == binom(m1, (m - 1) as nat) + binom(m1, m));
    } else if k == 1 {
        lemma_binom_one(m);
        lemma_binom_one(m1);
        assert(binom(m, 1) == binom(m1, 0) + binom(m1, 1));
    } else {
        // 2 <= k < m
        let k1 = (k - 1) as nat;
        lemma_binom_absorb(m1, k);
        lemma_binom_absorb(m1, k1);
        let m2 = (m1 - 1) as nat;
        let k2 = (k1 - 1) as nat;
        assert(binom(m, k) == binom(m1, k1) + binom(m1, k));
        assert(binom(m1, k1) == binom(m2, k2) + binom(m2, k1));
        assert(k * binom(m, k) == m * binom(m1, k1)) by (nonlinear_arith)
            requires
                binom(m, k) == binom(m1, k1) + binom(m1, k),
                binom(m1, k1) == binom(m2, k2) + binom(m2, k1),
                k * binom(m1, k) == m1 * binom(m2, k1),
                k1 * binom(m1, k1) == m1 * binom(m2, k2),
                k == k1 + 1,
                m == m1 + 1,
        ;
    }
}

/// O(n).  The factorial; the bound keeps the product inside a machine
/// word.
pub fn fact(n: u64) -> (r: u64)
    requires
        n <= 20,
    ensures
        r == fact_spec(n as nat),
{
    proof {
        lemma_fact_20();
    }
    let mut r: u64 = 1;
    let mut i: u64 = 1;
    while i <= n
        invariant
            1 <= i <= n + 1,
            n <= 20,
            r == fact_spec((i - 1) as nat),
            fact_spec(n as nat) <= u64::MAX,
            forall|a: nat, b: nat| a <= b ==> #[trigger] fact_spec(a) <= #[trigger] fact_spec(b),
        decreases n + 1 - i,
    {
        proof {
            assert(fact_spec(i as nat) == i * fact_spec((i - 1) as nat));
            assert(fact_spec(i as nat) <= fact_spec(n as nat));
            assert(r * i == fact_spec(i as nat)) by (nonlinear_arith)
                requires
                    r == fact_spec((i - 1) as nat),
                    fact_spec(i as nat) == i * fact_spec((i - 1) as nat),
            ;
        }
        r = r * i;
        i = i + 1;
    }
    r
}

/// Factorials up to 20 fit in a machine word, and the factorial is
/// monotone.
proof fn lemma_fact_20()
    ensures
        fact_spec(20) <= u64::MAX,
        forall|a: nat, b: nat| a <= b ==> #[trigger] fact_spec(a) <= #[trigger] fact_spec(b),
{
    assert(fact_spec(20) == 2432902008176640000) by {
        reveal_with_fuel(fact_spec, 21);
    }
    assert forall|a: nat, b: nat| a <= b implies #[trigger] fact_spec(a) <= #[trigger] fact_spec(
        b,
    ) by {
        lemma_fact_mono(a, b);
    }
}

/// The factorial is monotone.
proof fn lemma_fact_mono(a: nat, b: nat)
    requires
        a <= b,
    ensures
        fact_spec(a) <= fact_spec(b),
    decreases b,
{
    lemma_fact_pos(a);
    if a < b {
        lemma_fact_mono(a, (b - 1) as nat);
        assert(fact_spec(b) == b * fact_spec((b - 1) as nat));
        assert(b * fact_spec((b - 1) as nat) >= fact_spec((b - 1) as nat)) by (nonlinear_arith)
            requires
                b >= 1,
                fact_spec((b - 1) as nat) >= 0,
        ;
    }
}

/// The factorial is positive.
proof fn lemma_fact_pos(a: nat)
    ensures
        fact_spec(a) >= 1,
    decreases a,
{
    if a > 0 {
        lemma_fact_pos((a - 1) as nat);
        assert(a * fact_spec((a - 1) as nat) >= 1) by (nonlinear_arith)
            requires
                a >= 1,
                fact_spec((a - 1) as nat) >= 1,
        ;
    }
}

/// O(k).  The number of `k`-element subsets of an `n`-element set, by the
/// multiplicative rule; every intermediate value is again a binomial
/// coefficient, so the divisions are exact.
pub fn comb(n: u64, k: u64) -> (r: u64)
    requires
        k <= n <= 57,
    ensures
        r == binom(n as nat, k as nat),
{
    let mut r: u64 = 1;
    let mut i: u64 = 0;
    proof {
        vstd::arithmetic::power2::lemma2_to64_rest();
        vstd::arithmetic::power2::lemma_pow2(57);
        assert(pow(2, 57) == 0x200_0000_0000_0000);
    }
    while i < k
        invariant
            i <= k <= n <= 57,
            r == binom((n - k + i) as nat, i as nat),
            pow(2, 57) == 0x200_0000_0000_0000,
        decreases k - i,
    {
        let m = n - k + i + 1;
        proof {
            lemma_binom_absorb(m as nat, (i + 1) as nat);
            lemma_binom_le_pow2((m - 1) as nat, i as nat);
            lemma_binom_le_pow2(m as nat, (i + 1) as nat);
            assert(pow(2, (m - 1) as nat) <= pow(2, 57)) by {
                vstd::arithmetic::power::lemma_pow_increases(2, (m - 1) as nat, 57);
            }
            assert(pow(2, m as nat) <= pow(2, 57)) by {
                vstd::arithmetic::power::lemma_pow_increases(2, m as nat, 57);
            }
            assert(r * m <= 0x200_0000_0000_0000 * 57) by (nonlinear_arith)
                requires
                    r <= 0x200_0000_0000_0000,
                    m <= 57,
                    r >= 0,
                    m >= 1,
            ;
        }
        let t = r * m;
        proof {
            // t == C(m-1, i) * m == C(m, i+1) * (i+1), so the division is
            // exact and lands on the next coefficient.
            assert(t == binom(m as nat, (i + 1) as nat) * (i + 1)) by (nonlinear_arith)
                requires
                    t == binom((m - 1) as nat, i as nat) * m,
                    (i + 1) * binom(m as nat, (i + 1) as nat) == m * binom(
                        (m - 1) as nat,
                        i as nat,
                    ),
            ;
            assert((t as int) / (i as int + 1) == binom(m as nat, (i + 1) as nat))
                by (nonlinear_arith)
                requires
                    t == binom(m as nat, (i + 1) as nat) * (i + 1),
                    i + 1 >= 1,
            ;
        }
        r = t / (i + 1);
        i = i + 1;
    }
    r
}

/// O(k).  The number of `k`-element multisets over an `n`-element set:
/// `C(n + k - 1, k)`.
pub fn multicomb(n: u64, k: u64) -> (r: u64)
    requires
        n + k >= 1,
        n + k - 1 <= 57,
    ensures
        r == binom((n + k - 1) as nat, k as nat),
{
    if k > n + k - 1 {
        proof {
            assert(n == 0);
            assert(binom((k - 1) as nat, k as nat) == 0);
        }
        return 0;
    }
    comb(n + k - 1, k)
}

/// The running product of the factorial reduced into the field of order
/// `p`.
pub open spec fn fact_mod(n: nat, p: int) -> int
    decreases n,
{
    if n == 0 {
        1int % p
    } else {
        (fact_mod((n - 1) as nat, p) * n) % p
    }
}

/// O(n).  A table of factorials in the modular field: entry `i` holds
/// `i! mod P`.
pub fn gen_fact_table<const P: u64>(n: usize) -> (r: Vec<GF<P>>)
    requires
        GF::<P>::modulus_ok(),
        n <= 0x7fff_ffff_ffff_ffff,
    ensures
        r@.len() == n,
        forall|i: int| 0 <= i < n ==> (#[trigger] r@[i]).0 == fact_mod(i as nat, P as int),
    {
    let mut r: Vec<GF<P>> = Vec::new();
    let mut cur: GF<P> = GF(1 % P);
    proof {
        vstd::arithmetic::div_mod::lemma_mod_bound(1, P as int);
    }
    while r.len() < n
        invariant
            GF::<P>::modulus_ok(),
            n <= 0x7fff_ffff_ffff_ffff,
            r@.len() <= n,
            cur.wf(),
            cur.0 == fact_mod(r@.len() as nat, P as int),
            forall|i: int| 0 <= i < r@.len() ==> (#[trigger] r@[i]).0 == fact_mod(i as nat, P as int),
        decreases n - r@.len(),
    {
        r.push(cur);
        let i = r.len();
        let next = cur.mul(GF::new(i as i64));
        proof {
            lemma_mul_mod_noop_general(cur.0 as int, i as int, P as int);
            lemma_small_mod(cur.0 as nat, P as nat);
        }
        cur = next;
    }
    r
}

/// O(n).  The binomial coefficient in the modular field, computed from
/// factorials as `n! / (k! (n-k)!)`; zero when `k` exceeds `n`.
pub fn comb_memo<const P: u64>(n: usize, k: usize) -> (r: GF<P>)
    requires
        GF::<P>::modulus_ok(),
        P >= 2,
        n < usize::MAX,
        n < 0x7fff_ffff_ffff_ffff,
    ensures
        n < k ==> r.0 == 0,
        k <= n ==> r.0 == (fact_mod(n as nat, P as int) * (pow(
            (fact_mod(k as nat, P as int) * fact_mod((n - k) as nat, P as int)) % (P as int),
            (P - 2) as nat,
        ) % (P as int))) % (P as int),
{
    if n < k {
        return GF(0);
    }
    let table = gen_fact_table::<P>(n + 1);
    let fn_ = table[n];
    let fk = table[k];
    let fnk = table[n - k];
    fn_.div(fk.mul(fnk))
}

/// O(n).  The multiset coefficient in the modular field:
/// `C(n + k - 1, k) mod P`.
pub fn multicomb_memo<const P: u64>(n: usize, k: usize) -> (r: GF<P>)
    requires
        GF::<P>::modulus_ok(),
        P >= 2,
        n + k >= 1,
        n + k < usize::MAX,
        n + k - 1 < 0x7fff_ffff_ffff_ffff,
    ensures
        n + k - 1 < k ==> r.0 == 0,
        k <= n + k - 1 ==> r.0 == (fact_mod((n + k - 1) as nat, P as int) * (pow(
            (fact_mod(k as nat, P as int) * fact_mod((n - 1) as nat, P as int)) % (P as int),
            (P - 2) as nat,
        ) % (P as int))) % (P as int),
{
    let r = comb_memo::<P>(n + k - 1, k);
    proof {
        if k <= n + k - 1 {
            assert((n + k - 1) - k == n - 1);
        }
    }
    r
}

/// O(log b).  Modular exponentiation: `a^b mod m`.
pub fn pow_mod(a: u64, b: u64, m: u64) -> (r: u64)
    requires
        m >= 1,
    ensures
        r == pow(a as int, b as nat) % (m as int),
    decreases b,
{
    if b == 0 {
        proof {
            lemma_pow0(a as int);
        }
        1 % m
    } else {
        let t = pow_mod(a, b / 2, m);
        let ghost h = (b / 2) as nat;
        proof {
            assert((t as int) * (t as int) <= u64::MAX as int * u64::MAX as int)
                by (nonlinear_arith)
                requires
                    t <= u64::MAX,
            ;
        }
        let t2 = (((t as u128) * (t as u128)) % (m as u128)) as u64;
        proof {
            assert(pow(a as int, 2 * h) == pow(a as int, h) * pow(a as int, h)) by {
                lemma_pow_adds(a as int, h, h);
            }
            lemma_mul_mod_noop_general(pow(a as int, h), pow(a as int, h), m as int);
            assert(t2 == pow(a as int, 2 * h) % (m as int));
        }
        if b % 2 == 0 {
            proof {
                assert(b == 2 * h);
            }
            t2
        } else {
            proof {
                assert((t2 as int) * (a as int) <= u64::MAX as int * u64::MAX as int)
                    by (nonlinear_arith)
                    requires
                        t2 <= u64::MAX,
                        a <= u64::MAX,
                ;
            }
            let r = (((t2 as u128) * (a as u128)) % (m as u128)) as u64;
            proof {
                assert(b == 2 * h + 1);
                assert(pow(a as int, b as nat) == pow(a as int, 2 * h) * (a as int)) by {
                    lemma_pow_adds(a as int, 2 * h, 1);
                    lemma_pow1(a as int);
                }
                lemma_mul_mod_noop_general(pow(a as int, 2 * h), a as int, m as int);
            }
            r
        }
    }
}

} // verus!
