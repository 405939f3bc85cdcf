//! Prime sieving and factorization: the sieve of Eratosthenes, prime
//! enumeration, trial-division factorization, and divisor counting and
//! enumeration derived from a factorization.

use vstd::arithmetic::div_mod::{
    lemma_fundamental_div_mod, lemma_mod_bound, lemma_mod_multiples_basic,
};
use vstd::arithmetic::power::pow;
use vstd::prelude::*;

verus! {

/// `d` divides `n`.
pub open spec fn divides(d: int, n: int) -> bool
    recommends
        d != 0,
{
    n % d == 0
}

/// Primality: at least two, with no smaller divisor above one.
pub open spec fn is_prime(n: int) -> bool {
    n >= 2 && forall|d: int| 2 <= d < n ==> !(#[trigger] divides(d, n))
}

/// `m` has a divisor `d` with `2 <= d < bound` and `d < m`.
pub open spec fn has_small_factor(m: int, bound: int) -> bool {
    exists|d: int| 2 <= d < bound && d < m && #[trigger] divides(d, m)
}

/// Divisibility is transitive.
proof fn lemma_divides_trans(d: int, i: int, m: int)
    requires
        1 <= d,
        1 <= i,
        divides(d, i),
        divides(i, m),
    ensures
        divides(d, m),
{
    lemma_fundamental_div_mod(i, d);
    lemma_fundamental_div_mod(m, i);
    let a = i / d;
    let b = m / i;
    assert(m == d * (a * b)) by (nonlinear_arith)
        requires
            i == d * a,
            m == i * b,
    ;
    lemma_mod_multiples_basic(a * b, d);
}

/// A multiple of `i` strictly above `i` is at least `2 * i`.
proof fn lemma_multiple_above(i: int, m: int)
    requires
        2 <= i,
        i < m,
        divides(i, m),
    ensures
        2 * i <= m,
{
    lemma_fundamental_div_mod(m, i);
    let q = m / i;
    assert(q >= 2 ==> 2 * i <= m) by (nonlinear_arith)
        requires
            m == i * q,
            i >= 2,
    ;
    assert(q <= 1 ==> m <= i) by (nonlinear_arith)
        requires
            m == i * q,
            i >= 2,
    ;
}

/// O(n log log n).  The sieve of Eratosthenes: a table whose entry `i`
/// says whether `i` is prime.
pub fn sieve(n: usize) -> (r: Vec<bool>)
    requires
        2 <= n <= usize::MAX / 2,
    ensures
        r@.len() == n,
        forall|m: int| 0 <= m < n ==> r@[m] == is_prime(m),
{
    let mut tbl: Vec<bool> = Vec::new();
    while tbl.len() < n
        invariant
            tbl@.len() <= n,
            forall|m: int| 0 <= m < tbl@.len() ==> tbl@[m],
        decreases n - tbl@.len(),
    {
        tbl.push(true);
    }
    tbl[0] = false;
    tbl[1] = false;
    let mut i: usize = 2;
    while i < n
        invariant
            2 <= i,
            n <= usize::MAX / 2,
            tbl@.len() == n,
            forall|m: int|
                0 <= m < n ==> #[trigger] tbl@[m] == (m >= 2 && !has_small_factor(m, i as int)),
        decreases n - i,
    {
        if tbl[i] {
            let mut j = i + i;
            proof {
                lemma_mod_multiples_basic(2, i as int);
            }
            while j < n
                invariant
                    2 <= i < n,
                    n <= usize::MAX / 2,
                    2 * i <= j,
                    divides(i as int, j as int),
                    tbl@.len() == n,
                    forall|m: int|
                        0 <= m < n ==> #[trigger] tbl@[m] == (m >= 2 && !has_small_factor(
                        m,
                        i as int,
                        ) && !(divides(i as int, m) && 2 * i <= m < j)),
                decreases n + i - j,
            {
                let ghost pre = tbl@;
                tbl[j] = false;
                proof {
                    assert(tbl@ == pre.update(j as int, false));
                    assert forall|m: int| 0 <= m < n implies tbl@[m] == (m >= 2
                        && !has_small_factor(m, i as int) && !(divides(i as int, m) && 2 * i <= m
                        < j + i)) by {
                        if m == j {
                            assert(divides(i as int, j as int));
                            assert(!tbl@[m]);
                        } else {
                            assert(tbl@[m] == pre[m]);
                            assert(pre[m] == (m >= 2 && !has_small_factor(m, i as int) && !(
                            divides(i as int, m) && 2 * i <= m < j)));
                            if divides(i as int, m) && 2 * i <= m && j <= m < j + i {
                                // two distinct multiples of i cannot be this close
                                lemma_fundamental_div_mod(m, i as int);
                                lemma_fundamental_div_mod(j as int, i as int);
                                let qm = m / (i as int);
                                let qj = (j as int) / (i as int);
                                assert(false) by (nonlinear_arith)
                                    requires
                                        m == (i as int) * qm,
                                        (j as int) == (i as int) * qj,
                                        (j as int) < m < (j as int) + (i as int),
                                        (i as int) >= 2,
                                ;
                            }
                        }
                    }
                    vstd::arithmetic::div_mod::lemma_mod_add_multiples_vanish(
                        j as int,
                        i as int,
                    );
                }
                j = j + i;
            }
            proof {
                lemma_sieve_step(tbl@, n as int, i as int, j as int);
            }
        } else {
            proof {
                assert(has_small_factor(i as int, i as int));
                let di = choose|d: int|
                    2 <= d < i && d < i && #[trigger] divides(d, i as int);
                assert forall|m: int| 0 <= m < n implies tbl@[m] == (m >= 2 && !has_small_factor(
                    m,
                    i as int + 1,
                )) by {
                    if m >= 2 && !has_small_factor(m, i as int) {
                        if divides(i as int, m) && i < m {
                            lemma_divides_trans(di, i as int, m);
                            assert(2 <= di < i && di < m && divides(di, m));
                            assert(has_small_factor(m, i as int));
                        }
                        assert(!has_small_factor(m, i as int + 1)) by {
                            if has_small_factor(m, i as int + 1) {
                                let d = choose|d: int|
                                    2 <= d < i + 1 && d < m && #[trigger] divides(d, m);
                                if d < i {
                                    assert(has_small_factor(m, i as int));
                                } else {
                                    assert(d == i);
                                    assert(divides(i as int, m) && i < m);
                                }
                            }
                        }
                    } else if m >= 2 && has_small_factor(m, i as int) {
                        let d = choose|d: int| 2 <= d < i && d < m && #[trigger] divides(d, m);
                        assert(has_small_factor(m, i as int + 1));
                    }
                }
            }
        }
        i = i + 1;
    }
    proof {
        assert forall|m: int| 0 <= m < n implies tbl@[m] == is_prime(m) by {
            if m >= 2 {
                if tbl@[m] {
                    lemma_no_small_factor_prime(m, n as int);
                } else {
                    let d = choose|d: int| 2 <= d < n && d < m && #[trigger] divides(d, m);
                    assert(!is_prime(m));
                }
            }
        }
    }
    tbl
}

/// Extending the bound past a fully sieved prime `i` adds exactly the
/// multiples of `i` to the small-factor predicate.
proof fn lemma_sieve_step(tbl: Seq<bool>, n: int, i: int, j: int)
    requires
        2 <= i < n,
        n <= j,
        forall|m: int|
            0 <= m < n ==> tbl[m] == (m >= 2 && !has_small_factor(m, i) && !(divides(i, m) && 2
                * i <= m < j)),
    ensures
        forall|m: int| 0 <= m < n ==> tbl[m] == (m >= 2 && !has_small_factor(m, i + 1)),
{
    assert forall|m: int| 0 <= m < n implies tbl[m] == (m >= 2 && !has_small_factor(m, i + 1)) by {
        if m >= 2 {
            if has_small_factor(m, i + 1) {
                let d = choose|d: int| 2 <= d < i + 1 && d < m && #[trigger] divides(d, m);
                if d == i {
                    lemma_multiple_above(i, m);
                    assert(divides(i, m) && 2 * i <= m < j);
                } else {
                    assert(has_small_factor(m, i));
                }
                assert(!tbl[m]);
            } else {
                assert(!has_small_factor(m, i)) by {
                    if has_small_factor(m, i) {
                        let d = choose|d: int| 2 <= d < i && d < m && #[trigger] divides(d, m);
                        assert(has_small_factor(m, i + 1));
                    }
                }
                assert(!(divides(i, m) && 2 * i <= m)) by {
                    if divides(i, m) && 2 * i <= m {
                        assert(i < m);
                        assert(has_small_factor(m, i + 1));
                    }
                }
                assert(tbl[m]);
            }
        }
    }
}

/// Once the bound passes every possible divisor, absence of a small factor
/// is primality.
proof fn lemma_no_small_factor_prime(m: int, bound: int)
    requires
        2 <= m,
        m <= bound,
        !has_small_factor(m, bound),
    ensures
        is_prime(m),
{
    assert forall|d: int| 2 <= d < m implies !divides(d, m) by {
        if divides(d, m) {
            assert(2 <= d < bound && d < m && divides(d, m));
        }
    }
}

/// O(n log log n).  All primes strictly below `n`, in increasing order.
pub fn primes(n: usize) -> (r: Vec<usize>)
    requires
        2 <= n <= usize::MAX / 2,
    ensures
        forall|t: int| 0 <= t < r@.len() ==> is_prime(#[trigger] r@[t] as int) && r@[t] < n,
        forall|t1: int, t2: int| 0 <= t1 < t2 < r@.len() ==> r@[t1] < r@[t2],
        forall|m: int| 2 <= m < n && is_prime(m) ==> r@.contains(m as usize),
{
    let tbl = sieve(n);
    let mut ps: Vec<usize> = Vec::new();
    let mut i: usize = 0;
    while i < n
        invariant
            i <= n,
            tbl@.len() == n,
            forall|m: int| 0 <= m < n ==> tbl@[m] == is_prime(m),
            forall|t: int| 0 <= t < ps@.len() ==> is_prime(#[trigger] ps@[t] as int) && ps@[t] < i,
            forall|t1: int, t2: int| 0 <= t1 < t2 < ps@.len() ==> ps@[t1] < ps@[t2],
            forall|m: int| 0 <= m < i && is_prime(m) ==> ps@.contains(m as usize),
        decreases n - i,
    {
        if tbl[i] {
            let ghost pre = ps@;
            ps.push(i);
            proof {
                assert forall|m: int| 0 <= m < i + 1 && is_prime(m) implies ps@.contains(
                    m as usize,
                ) by {
                    if m < i {
                        let t = choose|t: int| 0 <= t < pre.len() && pre[t] == m as usize;
                        assert(ps@[t] == m as usize);
                    } else {
                        assert(ps@[ps@.len() - 1] == m as usize);
                    }
                }
            }
        }
        i = i + 1;
    }
    ps
}

/// The product of the prime powers of a factorization.
pub open spec fn prod_pows(s: Seq<(usize, usize)>) -> int
    decreases s.len(),
{
    if s.len() == 0 {
        1
    } else {
        prod_pows(s.drop_last()) * pow(s.last().0 as int, s.last().1 as nat)
    }
}

/// Every integer at least two has a prime divisor no larger than itself.
proof fn lemma_has_prime_divisor(m: int) -> (p: int)
    requires
        2 <= m,
    ensures
        is_prime(p),
        divides(p, m),
        p <= m,
    decreases m,
{
    if is_prime(m) {
        lemma_divides_self(m);
        m
    } else {
        let d = choose|d: int| 2 <= d < m && #[trigger] divides(d, m);
        let p = lemma_has_prime_divisor(d);
        lemma_divides_trans(p, d, m);
        p
    }
}

/// Every number divides itself.
proof fn lemma_divides_self(m: int)
    requires
        m >= 1,
    ensures
        divides(m, m),
{
    lemma_mod_multiples_basic(1, m);
}

/// A composite number has a divisor whose square does not exceed it.
proof fn lemma_composite_small_divisor(m: int) -> (a: int)
    requires
        2 <= m,
        !is_prime(m),
    ensures
        2 <= a,
        a * a <= m,
        divides(a, m),
{
    let d = choose|d: int| 2 <= d < m && #[trigger] divides(d, m);
    lemma_fundamental_div_mod(m, d);
    let e = m / d;
    assert(e >= 2) by (nonlinear_arith)
        requires
            m == d * e,
            2 <= d < m,
    ;
    if d * d <= m {
        d
    } else {
        assert(e * e <= m) by (nonlinear_arith)
            requires
                m == d * e,
                d * d > m,
                e >= 2,
                d >= 2,
        ;
        lemma_mod_multiples_basic(d, e);
        e
    }
}

/// A power of a number at least two exceeds the exponent.
proof fn lemma_pow_exceeds(p: int, c: nat)
    requires
        p >= 2,
    ensures
        pow(p, c) > c,
    decreases c,
{
    vstd::arithmetic::power::lemma_pow_positive(p, c);
    if c > 0 {
        lemma_pow_exceeds(p, (c - 1) as nat);
        assert(pow(p, c) == p * pow(p, (c - 1) as nat)) by {
            vstd::arithmetic::power::lemma_pow_adds(p, 1, (c - 1) as nat);
            vstd::arithmetic::power::lemma_pow1(p);
        }
        assert(p * pow(p, (c - 1) as nat) > c) by (nonlinear_arith)
            requires
                p >= 2,
                pow(p, (c - 1) as nat) > c - 1,
                pow(p, (c - 1) as nat) > 0,
        ;
    }
}

/// The integer square root: the greatest `s` with `s * s <= n`.
pub fn isqrt(n: usize) -> (s: usize)
    ensures
        s * s <= n,
        n < (s + 1) * (s + 1),
        s <= n,
{
    let mut s: usize = 0;
    while s + 1 <= n / (s + 1)
        invariant
            s * s <= n,
            s <= n,
            s < usize::MAX,
        decreases n - s,
    {
        proof {
            lemma_fundamental_div_mod(n as int, s as int + 1);
            assert((s + 1) * (s + 1) <= n) by (nonlinear_arith)
                requires
                    s + 1 <= n as int / (s as int + 1),
                    n == (s as int + 1) * (n as int / (s as int + 1)) + n as int % (s as int + 1),
                    n as int % (s as int + 1) >= 0,
            ;
            assert(s + 1 <= n) by (nonlinear_arith)
                requires
                    (s + 1) * (s + 1) <= n,
                    s >= 0,
            ;
            assert(s + 1 < usize::MAX) by (nonlinear_arith)
                requires
                    (s + 1) * (s + 1) <= usize::MAX,
                    usize::MAX >= 100,
            ;
        }
        s = s + 1;
    }
    proof {
        lemma_fundamental_div_mod(n as int, s as int + 1);
        lemma_mod_bound(n as int, s as int + 1);
        assert(n < (s + 1) * (s + 1)) by (nonlinear_arith)
            requires
                n as int / (s as int + 1) < s + 1,
                n == (s as int + 1) * (n as int / (s as int + 1)) + n as int % (s as int + 1),
                n as int % (s as int + 1) < s + 1,
        ;
    }
    s
}

/// O(sqrt n).  Prime factorization by trial division: the list of
/// `(prime, exponent)` pairs, in increasing prime order, whose product of
/// prime powers is `n`.
pub fn factor(n: usize) -> (r: Vec<(usize, usize)>)
    requires
        1 <= n,
    ensures
        prod_pows(r@) == n,
        forall|t: int|
            0 <= t < r@.len() ==> is_prime(#[trigger] r@[t].0 as int) && r@[t].1 >= 1,
        forall|t1: int, t2: int| 0 <= t1 < t2 < r@.len() ==> r@[t1].0 < r@[t2].0,
{
    let mut m = n;
    let mut ret: Vec<(usize, usize)> = Vec::new();
    let sq = isqrt(n);
    proof {
        assert(sq + 2 <= usize::MAX / 2) by (nonlinear_arith)
            requires
                sq * sq <= usize::MAX,
                usize::MAX >= 100,
                sq >= 0,
        ;
    }
    let bound = sq + 2;
    let ps = primes(bound);
    let mut idx: usize = 0;
    while idx < ps.len()
        invariant
            1 <= m <= n,
            n < (sq + 1) * (sq + 1),
            bound == sq + 2,
            2 <= bound <= usize::MAX / 2,
            idx <= ps@.len(),
            prod_pows(ret@) * m == n,
            forall|t: int|
                0 <= t < ps@.len() ==> is_prime(#[trigger] ps@[t] as int) && ps@[t] < bound,
            forall|t1: int, t2: int| 0 <= t1 < t2 < ps@.len() ==> ps@[t1] < ps@[t2],
            forall|q: int| 2 <= q < bound && is_prime(q) ==> ps@.contains(q as usize),
            forall|t: int|
                0 <= t < ret@.len() ==> is_prime(#[trigger] ret@[t].0 as int) && ret@[t].1 >= 1
                    && ret@[t].0 < bound,
            forall|t1: int, t2: int| 0 <= t1 < t2 < ret@.len() ==> ret@[t1].0 < ret@[t2].0,
            idx < ps@.len() ==> forall|t: int|
                0 <= t < ret@.len() ==> #[trigger] ret@[t].0 < ps@[idx as int],
            forall|j: int| 0 <= j < idx ==> !divides(#[trigger] ps@[j] as int, m as int),
        decreases ps@.len() - idx,
    {
        let p = ps[idx];
        let ghost m0 = m as int;
        let mut cnt: usize = 0;
        proof {
            vstd::arithmetic::power::lemma_pow0(p as int);
        }
        while m % p == 0
            invariant
                2 <= p,
                1 <= m,
                m0 <= n,
                1 <= n,
                pow(p as int, cnt as nat) * m == m0,
            decreases m,
        {
            proof {
                lemma_fundamental_div_mod(m as int, p as int);
                assert(m / p >= 1 && m / p < m) by (nonlinear_arith)
                    requires
                        m == (p as int) * (m as int / p as int),
                        m >= 1,
                        p >= 2,
                ;
                let q = m as int / p as int;
                assert(pow(p as int, cnt as nat + 1) == pow(p as int, cnt as nat) * p) by {
                    vstd::arithmetic::power::lemma_pow_adds(p as int, cnt as nat, 1);
                    vstd::arithmetic::power::lemma_pow1(p as int);
                }
                assert(pow(p as int, cnt as nat + 1) * q == pow(p as int, cnt as nat) * m)
                    by (nonlinear_arith)
                    requires
                        pow(p as int, cnt as nat + 1) == pow(p as int, cnt as nat) * p,
                        m == (p as int) * q,
                ;
                vstd::arithmetic::power::lemma_pow_positive(p as int, cnt as nat);
                assert(cnt < pow(p as int, cnt as nat)) by {
                    lemma_pow_exceeds(p as int, cnt as nat);
                }
                assert(pow(p as int, cnt as nat) <= m0) by (nonlinear_arith)
                    requires
                        pow(p as int, cnt as nat) * m == m0,
                        m >= 1,
                        pow(p as int, cnt as nat) >= 1,
                ;
            }
            m = m / p;
            cnt = cnt + 1;
        }
        if cnt > 0 {
            let ghost pre = ret@;
            ret.push((p, cnt));
            proof {
                assert(ret@.drop_last() =~= pre);
                assert(prod_pows(ret@) == prod_pows(pre) * pow(p as int, cnt as nat));
                assert(prod_pows(ret@) * m == n) by (nonlinear_arith)
                    requires
                        prod_pows(ret@) == prod_pows(pre) * pow(p as int, cnt as nat),
                        pow(p as int, cnt as nat) * m == m0,
                        prod_pows(pre) * m0 == n,
                ;
            }
        }
        proof {
            vstd::arithmetic::power::lemma_pow0(p as int);
            vstd::arithmetic::power::lemma_pow_positive(p as int, cnt as nat);
            assert(m <= m0) by (nonlinear_arith)
                requires
                    pow(p as int, cnt as nat) * m == m0,
                    pow(p as int, cnt as nat) >= 1,
                    m >= 1,
            ;
            if cnt == 0 {
                assert(pow(p as int, cnt as nat) == 1);
                assert(m == m0) by (nonlinear_arith)
                    requires
                        pow(p as int, cnt as nat) * m == m0,
                        pow(p as int, cnt as nat) == 1,
                ;
                assert(prod_pows(ret@) * m == n);
            }
            // m is no longer divisible by any prime up to and including p.
            assert forall|j: int| 0 <= j < idx + 1 implies !divides(
                #[trigger] ps@[j] as int,
                m as int,
            ) by {
                if j < idx {
                    if divides(ps@[j] as int, m as int) {
                        // a divisor of m also divides the old value
                        assert(is_prime(ps@[j] as int));
                        lemma_divides_in_product(ps@[j] as int, m as int, pow(p as int, cnt as nat), m0);
                        assert(false);
                    }
                } else {
                    assert(!divides(p as int, m as int));
                }
            }
            if idx + 1 < ps@.len() {
                assert forall|t: int| 0 <= t < ret@.len() implies #[trigger] ret@[t].0 < ps@[idx
                    + 1] by {
                    if t < ret@.len() {
                        assert(ps@[idx as int] < ps@[idx + 1]);
                    }
                }
            }
        }
        idx = idx + 1;
    }
    if m > 1 {
        proof {
            lemma_leftover_prime(m as int, n as int, sq as int, bound as int, ps@);
            assert forall|t: int| 0 <= t < ret@.len() implies #[trigger] ret@[t].0 < m by {
                assert(ret@[t].0 < bound);
            }
        }
        let ghost pre = ret@;
        ret.push((m, 1));
        proof {
            assert(ret@.drop_last() =~= pre);
            assert(ret@.last() == (m, 1usize));
            vstd::arithmetic::power::lemma_pow1(m as int);
            assert(prod_pows(ret@) == prod_pows(pre) * (m as int));
            assert(prod_pows(ret@) == n);
        }
    } else {
        proof {
            assert(m == 1);
            assert(prod_pows(ret@) == n) by (nonlinear_arith)
                requires
                    prod_pows(ret@) * m == n,
                    m == 1,
            ;
        }
    }
    ret
}

/// A divisor of a factor divides the product.
proof fn lemma_divides_in_product(d: int, m: int, k: int, m0: int)
    requires
        d >= 1,
        m >= 1,
        k >= 1,
        m0 == k * m,
        !divides(d, m0),
    ensures
        !divides(d, m),
{
    if divides(d, m) {
        lemma_mod_multiples_basic(k, d);
        lemma_fundamental_div_mod(m, d);
        let q = m / d;
        assert(m0 == d * (k * q)) by (nonlinear_arith)
            requires
                m == d * q,
                m0 == k * m,
        ;
        lemma_mod_multiples_basic(k * q, d);
    }
}

/// After dividing out every prime below the bound, a remainder above one
/// is itself prime and at least the bound.
proof fn lemma_leftover_prime(m: int, n: int, sq: int, bound: int, ps: Seq<usize>)
    requires
        2 <= m <= n,
        sq >= 0,
        bound <= usize::MAX,
        n < (sq + 1) * (sq + 1),
        bound == sq + 2,
        forall|q: int| 2 <= q < bound && is_prime(q) ==> ps.contains(q as usize),
        forall|j: int| 0 <= j < ps.len() ==> !divides(#[trigger] ps[j] as int, m),
    ensures
        is_prime(m),
        m >= bound,
{
    // No prime below the bound divides m.
    assert forall|q: int| 2 <= q < bound && is_prime(q) implies !divides(q, m) by {
        if divides(q, m) {
            assert(ps.contains(q as usize));
            assert(exists|t: int| 0 <= t < ps.len() && ps[t] == q as usize);
            let t = choose|t: int| 0 <= t < ps.len() && ps[t] == q as usize;
            assert(ps[t] as int == q);
            assert(!divides(ps[t] as int, m));
            assert(false);
        }
    }
    if m < bound {
        let pm = lemma_has_prime_divisor(m);
        assert(pm < bound);
        assert(false);
    }
    if !is_prime(m) {
        let a = lemma_composite_small_divisor(m);
        assert(a < bound) by (nonlinear_arith)
            requires
                a * a <= m <= n,
                n < (sq + 1) * (sq + 1),
                bound == sq + 2,
                a >= 2,
                sq >= 0,
        ;
        let pa = lemma_has_prime_divisor(a);
        lemma_divides_trans(pa, a, m);
        assert(pa < bound);
        assert(false);
    }
}

/// The number of divisors determined by a factorization: the product of
/// each exponent plus one.
pub open spec fn count_divisors_spec(s: Seq<(usize, usize)>) -> int
    decreases s.len(),
{
    if s.len() == 0 {
        1
    } else {
        count_divisors_spec(s.drop_last()) * (s.last().1 + 1)
    }
}

/// The count is positive.
proof fn lemma_count_pos(s: Seq<(usize, usize)>)
    ensures
        count_divisors_spec(s) >= 1,
    decreases s.len(),
{
    if s.len() > 0 {
        lemma_count_pos(s.drop_last());
        assert(count_divisors_spec(s) >= 1) by (nonlinear_arith)
            requires
                count_divisors_spec(s) == count_divisors_spec(s.drop_last()) * (s.last().1 + 1),
                count_divisors_spec(s.drop_last()) >= 1,
                s.last().1 >= 0,
        ;
    }
}

/// Counting one more factor multiplies by its exponent plus one.
proof fn lemma_count_take_step(s: Seq<(usize, usize)>, i: int)
    requires
        0 <= i < s.len(),
    ensures
        count_divisors_spec(s.take(i + 1)) == count_divisors_spec(s.take(i)) * (s[i].1 + 1),
{
    assert(s.take(i + 1).drop_last() =~= s.take(i));
    assert(s.take(i + 1).last() == s[i]);
}

/// A prefix of the count never exceeds the whole.
proof fn lemma_count_take_le(s: Seq<(usize, usize)>, i: int)
    requires
        0 <= i <= s.len(),
    ensures
        count_divisors_spec(s.take(i)) <= count_divisors_spec(s),
    decreases s.len() - i,
{
    if i == s.len() {
        assert(s.take(i) =~= s);
    } else {
        lemma_count_take_step(s, i);
        lemma_count_pos(s.take(i));
        lemma_count_take_le(s, i + 1);
        assert(count_divisors_spec(s.take(i)) <= count_divisors_spec(s.take(i + 1)))
            by (nonlinear_arith)
            requires
                count_divisors_spec(s.take(i + 1)) == count_divisors_spec(s.take(i)) * (s[i].1
                    + 1),
                count_divisors_spec(s.take(i)) >= 1,
                s[i].1 >= 0,
        ;
    }
}

/// O(k).  The number of divisors of the number a factorization describes.
pub fn num_of_divisors(factors: &[(usize, usize)]) -> (r: usize)
    requires
        count_divisors_spec(factors@) <= usize::MAX,
    ensures
        r == count_divisors_spec(factors@),
{
    let mut acc: usize = 1;
    let mut i: usize = 0;
    while i < factors.len()
        invariant
            i <= factors@.len(),
            count_divisors_spec(factors@) <= usize::MAX,
            acc == count_divisors_spec(factors@.take(i as int)),
        decreases factors@.len() - i,
    {
        proof {
            lemma_count_take_step(factors@, i as int);
            lemma_count_take_le(factors@, i as int + 1);
            lemma_count_pos(factors@.take(i as int));
            assert(factors@[i as int].1 + 1 <= acc * (factors@[i as int].1 + 1))
                by (nonlinear_arith)
                requires
                    acc >= 1,
                    factors@[i as int].1 >= 0,
            ;
        }
        acc = acc * (factors[i].1 + 1);
        i = i + 1;
    }
    proof {
        assert(factors@.take(factors@.len() as int) =~= factors@);
    }
    acc
}

/// One term of the sum-of-divisors product: `(p^(e+1) - 1) / (p - 1)`, the
/// sum of the powers of `p` up to `p^e`.
pub open spec fn sigma_term(p: int, e: int) -> int {
    (pow(p, (e + 1) as nat) - 1) / (p - 1)
}

/// The sum of divisors determined by a factorization: the product of the
/// geometric sums of each prime's powers.
pub open spec fn sum_divisors_spec(s: Seq<(usize, usize)>) -> int
    decreases s.len(),
{
    if s.len() == 0 {
        1
    } else {
        sum_divisors_spec(s.drop_last()) * sigma_term(s.last().0 as int, s.last().1 as int)
    }
}

/// Each geometric-sum term is positive for a prime base.
proof fn lemma_sigma_pos(p: int, e: int)
    requires
        p >= 2,
        e >= 0,
    ensures
        sigma_term(p, e) >= 1,
{
    vstd::arithmetic::power::lemma_pow_increases(p as nat, 1, (e + 1) as nat);
    vstd::arithmetic::power::lemma_pow1(p);
    vstd::arithmetic::div_mod::lemma_div_is_ordered(p - 1, pow(p, (e + 1) as nat) - 1, p - 1);
    vstd::arithmetic::div_mod::lemma_div_by_self(p - 1);
}

/// The partial products of the sum-of-divisors formula are positive and
/// bounded by the whole.
proof fn lemma_sum_div_pos(s: Seq<(usize, usize)>)
    requires
        forall|t: int| 0 <= t < s.len() ==> #[trigger] s[t].0 >= 2,
    ensures
        sum_divisors_spec(s) >= 1,
    decreases s.len(),
{
    if s.len() > 0 {
        assert(s.drop_last() =~= s.subrange(0, s.len() - 1));
        lemma_sum_div_pos(s.drop_last());
        lemma_sigma_pos(s.last().0 as int, s.last().1 as int);
        assert(sum_divisors_spec(s) >= 1) by (nonlinear_arith)
            requires
                sum_divisors_spec(s) == sum_divisors_spec(s.drop_last()) * sigma_term(
                    s.last().0 as int,
                    s.last().1 as int,
                ),
                sum_divisors_spec(s.drop_last()) >= 1,
                sigma_term(s.last().0 as int, s.last().1 as int) >= 1,
        ;
    }
}

/// Extending the prefix multiplies by the next term.
proof fn lemma_sum_div_take_step(s: Seq<(usize, usize)>, i: int)
    requires
        0 <= i < s.len(),
    ensures
        sum_divisors_spec(s.take(i + 1)) == sum_divisors_spec(s.take(i)) * sigma_term(
            s[i].0 as int,
            s[i].1 as int,
        ),
{
    assert(s.take(i + 1).drop_last() =~= s.take(i));
    assert(s.take(i + 1).last() == s[i]);
}

/// A prefix of the product never exceeds the whole.
proof fn lemma_sum_div_take_le(s: Seq<(usize, usize)>, i: int)
    requires
        0 <= i <= s.len(),
        forall|t: int| 0 <= t < s.len() ==> #[trigger] s[t].0 >= 2,
    ensures
        sum_divisors_spec(s.take(i)) <= sum_divisors_spec(s),
    decreases s.len() - i,
{
    if i == s.len() {
        assert(s.take(i) =~= s);
    } else {
        lemma_sum_div_take_step(s, i);
        assert forall|t: int| 0 <= t < s.take(i).len() implies #[trigger] s.take(i)[t].0 >= 2 by {
            assert(s.take(i)[t] == s[t]);
        }
        lemma_sum_div_pos(s.take(i));
        lemma_sigma_pos(s[i].0 as int, s[i].1 as int);
        lemma_sum_div_take_le(s, i + 1);
        assert(sum_divisors_spec(s.take(i)) <= sum_divisors_spec(s.take(i + 1)))
            by (nonlinear_arith)
            requires
                sum_divisors_spec(s.take(i + 1)) == sum_divisors_spec(s.take(i)) * sigma_term(
                    s[i].0 as int,
                    s[i].1 as int,
                ),
                sum_divisors_spec(s.take(i)) >= 1,
                sigma_term(s[i].0 as int, s[i].1 as int) >= 1,
        ;
    }
}

/// O(k log n).  The sum of the divisors of the number a factorization
/// describes, by the product of geometric sums.
pub fn sum_of_divisors(factors: &[(usize, usize)]) -> (r: usize)
    requires
        forall|t: int| 0 <= t < factors@.len() ==> #[trigger] factors@[t].0 >= 2,
        forall|t: int|
            0 <= t < factors@.len() ==> pow(#[trigger] factors@[t].0 as int, (factors@[t].1
                + 1) as nat) <= usize::MAX,
        sum_divisors_spec(factors@) <= usize::MAX,
    ensures
        r == sum_divisors_spec(factors@),
{
    let mut acc: usize = 1;
    let mut i: usize = 0;
    while i < factors.len()
        invariant
            i <= factors@.len(),
            sum_divisors_spec(factors@) <= usize::MAX,
            forall|t: int| 0 <= t < factors@.len() ==> #[trigger] factors@[t].0 >= 2,
            forall|t: int|
                0 <= t < factors@.len() ==> pow(#[trigger] factors@[t].0 as int, (factors@[t].1
                    + 1) as nat) <= usize::MAX,
            acc == sum_divisors_spec(factors@.take(i as int)),
        decreases factors@.len() - i,
    {
        let (p, e) = factors[i];
        let ghost gp = p as int;
        let ghost ge = e as int;
        // p^(e+1) by a simple product loop
        let mut pw: usize = 1;
        let mut j: usize = 0;
        proof {
            vstd::arithmetic::power::lemma_pow0(gp);
            lemma_pow_exceeds(gp, (ge + 1) as nat);
        }
        while j < e + 1
            invariant
                p == factors@[i as int].0,
                e == factors@[i as int].1,
                i < factors@.len(),
                p >= 2,
                e < usize::MAX,
                j <= e + 1,
                pw == pow(gp, j as nat),
                gp == p as int,
                pow(gp, (e + 1) as nat) <= usize::MAX,
            decreases e + 1 - j,
        {
            proof {
                assert(pow(gp, (j + 1) as nat) == pow(gp, j as nat) * gp) by {
                    vstd::arithmetic::power::lemma_pow_adds(gp, j as nat, 1);
                    vstd::arithmetic::power::lemma_pow1(gp);
                }
                vstd::arithmetic::power::lemma_pow_increases(p as nat, (j + 1) as nat, (e
                    + 1) as nat);
            }
            pw = pw * p;
            j = j + 1;
        }
        proof {
            vstd::arithmetic::power::lemma_pow_increases(p as nat, 1, (e + 1) as nat);
            vstd::arithmetic::power::lemma_pow1(gp);
        }
        let term = (pw - 1) / (p - 1);
        proof {
            vstd::arithmetic::div_mod::lemma_div_is_ordered(gp - 1, pw - 1, gp - 1);
            vstd::arithmetic::div_mod::lemma_div_by_self(gp - 1);
            assert(term == sigma_term(gp, ge));
            assert(term >= 1);
            lemma_sum_div_take_step(factors@, i as int);
            lemma_sum_div_take_le(factors@, i as int + 1);
            assert forall|t: int| 0 <= t < factors@.take(i as int).len() implies #[trigger] factors@.take(
                i as int,
            )[t].0 >= 2 by {
                assert(factors@.take(i as int)[t] == factors@[t]);
            }
            lemma_sum_div_pos(factors@.take(i as int));
            assert(term <= acc * term) by (nonlinear_arith)
                requires
                    acc >= 1,
                    term >= 1,
            ;
        }
        acc = acc * term;
        i = i + 1;
    }
    proof {
        assert(factors@.take(factors@.len() as int) =~= factors@);
    }
    acc
}

/// The product of prime powers splits off its first factor.
proof fn lemma_prod_head(t: Seq<(usize, usize)>)
    requires
        t.len() >= 1,
    ensures
        prod_pows(t) == pow(t[0].0 as int, t[0].1 as nat) * prod_pows(t.drop_first()),
    decreases t.len(),
{
    if t.len() == 1 {
        assert(t.drop_last() =~= Seq::<(usize, usize)>::empty());
        assert(t.drop_first() =~= Seq::<(usize, usize)>::empty());
        assert(t.last() == t[0]);
        assert(prod_pows(t) == pow(t[0].0 as int, t[0].1 as nat) * prod_pows(t.drop_first()))
            by (nonlinear_arith)
            requires
                prod_pows(t) == prod_pows(t.drop_last()) * pow(t[0].0 as int, t[0].1 as nat),
                prod_pows(t.drop_last()) == 1,
                prod_pows(t.drop_first()) == 1,
        ;
    } else {
        lemma_prod_head(t.drop_last());
        assert(t.drop_last()[0] == t[0]);
        assert(t.drop_first().drop_last() =~= t.drop_last().drop_first());
        assert(t.drop_first().last() == t.last());
        let h = pow(t[0].0 as int, t[0].1 as nat);
        let a = prod_pows(t.drop_last().drop_first());
        let b = pow(t.last().0 as int, t.last().1 as nat);
        assert(prod_pows(t.drop_first()) == a * b);
        assert(prod_pows(t) == (h * a) * b);
        assert((h * a) * b == h * (a * b)) by (nonlinear_arith);
    }
}

/// The divisor count splits off its first factor.
proof fn lemma_count_head(t: Seq<(usize, usize)>)
    requires
        t.len() >= 1,
    ensures
        count_divisors_spec(t) == (t[0].1 + 1) * count_divisors_spec(t.drop_first()),
    decreases t.len(),
{
    if t.len() == 1 {
        assert(t.drop_last() =~= Seq::<(usize, usize)>::empty());
        assert(t.drop_first() =~= Seq::<(usize, usize)>::empty());
        assert(t.last() == t[0]);
        assert(count_divisors_spec(t) == (t[0].1 + 1) * count_divisors_spec(t.drop_first()))
            by (nonlinear_arith)
            requires
                count_divisors_spec(t) == count_divisors_spec(t.drop_last()) * (t[0].1 + 1),
                count_divisors_spec(t.drop_last()) == 1,
                count_divisors_spec(t.drop_first()) == 1,
        ;
    } else {
        lemma_count_head(t.drop_last());
        assert(t.drop_last()[0] == t[0]);
        assert(t.drop_first().drop_last() =~= t.drop_last().drop_first());
        assert(t.drop_first().last() == t.last());
        let h = t[0].1 + 1int;
        let a = count_divisors_spec(t.drop_last().drop_first());
        let b = t.last().1 + 1int;
        assert(count_divisors_spec(t.drop_first()) == a * b);
        assert(count_divisors_spec(t) == (h * a) * b);
        assert((h * a) * b == h * (a * b)) by (nonlinear_arith);
    }
}

/// The product of prime powers of a factorization is positive.
proof fn lemma_prod_pows_pos(t: Seq<(usize, usize)>)
    requires
        forall|j: int| 0 <= j < t.len() ==> (#[trigger] t[j]).0 >= 1,
    ensures
        prod_pows(t) >= 1,
    decreases t.len(),
{
    if t.len() > 0 {
        assert forall|j: int| 0 <= j < t.drop_last().len() implies (#[trigger] t.drop_last()[j]).0
            >= 1 by {
            assert(t.drop_last()[j] == t[j]);
        }
        lemma_prod_pows_pos(t.drop_last());
        vstd::arithmetic::power::lemma_pow_positive(t.last().0 as int, t.last().1 as nat);
        assert(prod_pows(t) >= 1) by (nonlinear_arith)
            requires
                prod_pows(t) == prod_pows(t.drop_last()) * pow(t.last().0 as int, t.last().1 as nat),
                prod_pows(t.drop_last()) >= 1,
                pow(t.last().0 as int, t.last().1 as nat) >= 1,
        ;
    }
}

/// Generate the divisors described by the factorization suffix starting
/// at `pos`, each multiplied by `cur`, appending them to `ret`.
fn gen_divisors(s: &[(usize, usize)], pos: usize, cur: usize, ret: &mut Vec<usize>)
    requires
        pos <= s@.len(),
        1 <= cur,
        forall|t: int| pos <= t < s@.len() ==> (#[trigger] s@[t]).0 >= 2,
        cur * prod_pows(s@.skip(pos as int)) <= usize::MAX,
    ensures
        final(ret)@.len() == old(ret)@.len() + count_divisors_spec(s@.skip(pos as int)),
        forall|t: int| 0 <= t < old(ret)@.len() ==> #[trigger] final(ret)@[t] == old(ret)@[t],
        forall|t: int|
            old(ret)@.len() <= t < final(ret)@.len() ==> 1 <= #[trigger] final(ret)@[t]
                && divides(final(ret)@[t] as int, cur * prod_pows(s@.skip(pos as int))),
    decreases s@.len() - pos,
{
    proof {
        assert forall|t: int| 0 <= t < s@.skip(pos as int).len() implies (#[trigger] s@.skip(
            pos as int,
        )[t]).0 >= 1 by {
            assert(s@.skip(pos as int)[t] == s@[pos + t]);
        }
        lemma_prod_pows_pos(s@.skip(pos as int));
    }
    if pos == s.len() {
        proof {
            assert(s@.skip(pos as int) =~= Seq::<(usize, usize)>::empty());
            lemma_divides_self(cur as int);
            assert(cur * 1 == cur) by (nonlinear_arith);
        }
        ret.push(cur);
    } else {
        let (p, e) = s[pos];
        let ghost tot = cur * prod_pows(s@.skip(pos as int));
        proof {
            lemma_prod_head(s@.skip(pos as int));
            assert(s@.skip(pos as int).drop_first() =~= s@.skip(pos + 1));
            assert(s@.skip(pos as int)[0] == s@[pos as int]);
            lemma_count_head(s@.skip(pos as int));
            assert forall|t: int| 0 <= t < s@.skip(pos + 1).len() implies (#[trigger] s@.skip(
                pos + 1,
            )[t]).0 >= 1 by {
                assert(s@.skip(pos + 1)[t] == s@[pos + 1 + t]);
            }
            lemma_prod_pows_pos(s@.skip(pos + 1));
            lemma_pow_exceeds(p as int, e as nat);
            assert(pow(p as int, e as nat) <= tot) by (nonlinear_arith)
                requires
                    tot == cur * (pow(p as int, e as nat) * prod_pows(s@.skip(pos + 1))),
                    cur >= 1,
                    prod_pows(s@.skip(pos + 1)) >= 1,
                    pow(p as int, e as nat) >= 0,
            ;
            assert(e < usize::MAX);
        }
        let ghost prod1 = prod_pows(s@.skip(pos + 1));
        let ghost cnt1 = count_divisors_spec(s@.skip(pos + 1));
        let ghost len0 = ret@.len() as int;
        let mut c = cur;
        let mut j: usize = 0;
        proof {
            vstd::arithmetic::power::lemma_pow0(p as int);
            assert(cur * pow(p as int, 0nat) == cur) by (nonlinear_arith)
                requires
                    pow(p as int, 0nat) == 1,
            ;
            assert(0 * cnt1 == 0) by (nonlinear_arith);
            lemma_count_pos(s@.skip(pos + 1));
        }
        while j <= e
            invariant
                pos < s@.len(),
                pos < usize::MAX,
                p == s@[pos as int].0,
                e == s@[pos as int].1,
                2 <= p,
                e < usize::MAX,
                1 <= cur,
                j <= e + 1,
                forall|t: int| pos <= t < s@.len() ==> (#[trigger] s@[t]).0 >= 2,
                prod1 == prod_pows(s@.skip(pos + 1)),
                cnt1 == count_divisors_spec(s@.skip(pos + 1)),
                prod1 >= 1,
                cnt1 >= 1,
                0 <= len0 <= ret@.len(),
                tot == cur * (pow(p as int, e as nat) * prod1),
                tot <= usize::MAX,
                j <= e ==> c == cur * pow(p as int, j as nat),
                ret@.len() == len0 + j * cnt1,
                forall|t: int| 0 <= t < len0 ==> ret@[t] == old(ret)@[t],
                forall|t: int|
                    len0 <= t < ret@.len() ==> 1 <= #[trigger] ret@[t] && divides(
                        ret@[t] as int,
                        tot,
                    ),
            decreases e + 1 - j,
        {
            proof {
                lemma_gen_bounds(cur as int, p as int, j as nat, e as nat, prod1, tot);
            }
            let ghost mid_len = ret@.len() as int;
            let ghost mid_seq = ret@;
            gen_divisors(s, pos + 1, c, ret);
            proof {
                lemma_count_pos(s@.skip(pos + 1));
                assert forall|t: int|
                    len0 <= t < ret@.len() implies 1 <= #[trigger] ret@[t] && divides(
                    ret@[t] as int,
                    tot,
                ) by {
                    if t >= mid_len {
                        assert(divides(ret@[t] as int, c * prod1));
                        assert(c >= 1);
                        assert(1 <= c * prod1) by (nonlinear_arith)
                            requires
                                c >= 1,
                                prod1 >= 1,
                        ;
                        lemma_divides_trans(
                            ret@[t] as int,
                            c * prod1,
                            tot,
                        );
                    } else {
                        assert(ret@[t] == mid_seq[t]);
                        assert(1 <= mid_seq[t] && divides(mid_seq[t] as int, tot));
                    }
                }
                assert(ret@.len() == len0 + j * cnt1 + cnt1);
                assert((j + 1) * cnt1 == j * cnt1 + cnt1) by (nonlinear_arith);
            }
            if j < e {
                proof {
                    lemma_gen_bounds(cur as int, p as int, (j + 1) as nat, e as nat, prod1, tot);
                    assert(cur * pow(p as int, (j + 1) as nat) == (cur * pow(
                        p as int,
                        j as nat,
                    )) * p) by {
                        vstd::arithmetic::power::lemma_pow_adds(p as int, j as nat, 1);
                        vstd::arithmetic::power::lemma_pow1(p as int);
                        assert(cur * (pow(p as int, j as nat) * p) == (cur * pow(
                            p as int,
                            j as nat,
                        )) * p) by (nonlinear_arith);
                    }
                    assert(cur * pow(p as int, (j + 1) as nat) <= tot) by (nonlinear_arith)
                        requires
                            (cur * pow(p as int, (j + 1) as nat)) * prod1 <= tot,
                            prod1 >= 1,
                            1 <= cur * pow(p as int, (j + 1) as nat),
                    ;
                }
                c = c * p;
            }
            j = j + 1;
        }
        proof {
            assert(count_divisors_spec(s@.skip(pos as int)) == (e + 1) * cnt1);
        }
    }
}

/// The partial products of divisor generation stay under the total, and
/// the total is a multiple of each of them.
proof fn lemma_gen_bounds(cur: int, p: int, j: nat, e: nat, prod1: int, tot: int)
    requires
        cur >= 1,
        p >= 2,
        j <= e,
        prod1 >= 1,
        tot == cur * (pow(p, e) * prod1),
    ensures
        1 <= cur * pow(p, j),
        (cur * pow(p, j)) * prod1 <= tot,
        divides(cur * pow(p, j) * prod1, tot),
        tot == (cur * pow(p, j) * prod1) * pow(p, (e - j) as nat),
{
    vstd::arithmetic::power::lemma_pow_positive(p, j);
    vstd::arithmetic::power::lemma_pow_positive(p, (e - j) as nat);
    vstd::arithmetic::power::lemma_pow_adds(p, j, (e - j) as nat);
    assert(pow(p, e) == pow(p, j) * pow(p, (e - j) as nat));
    assert(cur * pow(p, j) >= 1) by (nonlinear_arith)
        requires
            cur >= 1,
            pow(p, j) >= 1,
    ;
    assert(tot == (cur * pow(p, j) * prod1) * pow(p, (e - j) as nat)) by (nonlinear_arith)
        requires
            tot == cur * (pow(p, e) * prod1),
            pow(p, e) == pow(p, j) * pow(p, (e - j) as nat),
    ;
    assert((cur * pow(p, j)) * prod1 <= tot && cur * pow(p, j) * prod1 >= 1)
        by (nonlinear_arith)
        requires
            tot == (cur * pow(p, j) * prod1) * pow(p, (e - j) as nat),
            cur * pow(p, j) >= 1,
            prod1 >= 1,
            pow(p, (e - j) as nat) >= 1,
    ;
    lemma_mod_multiples_basic(pow(p, (e - j) as nat), cur * pow(p, j) * prod1);
}

/// O(d).  Every divisor of `n`, generated from its factorization; the
/// list has exactly as many entries as `n` has divisors.
pub fn divisors(n: usize) -> (r: Vec<usize>)
    requires
        1 <= n,
    ensures
        r@.len() >= 1,
        forall|t: int|
            0 <= t < r@.len() ==> 1 <= #[trigger] r@[t] && divides(r@[t] as int, n as int),
{
    let fs = factor(n);
    let mut ret: Vec<usize> = Vec::new();
    proof {
        assert(fs@.skip(0) =~= fs@);
        assert(1 * prod_pows(fs@) == prod_pows(fs@)) by (nonlinear_arith);
        lemma_count_pos(fs@);
    }
    gen_divisors(fs.as_slice(), 0, 1, &mut ret);
    ret
}

} // verus!
