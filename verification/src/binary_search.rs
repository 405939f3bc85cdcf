//! Generic binary search over a predicate: shrink the interval between a
//! position where the predicate is known to hold and one where it is known
//! to fail, until they are adjacent.

use vstd::prelude::*;

verus! {

/// The distance between two interval endpoints.
pub open spec fn dist(a: int, b: int) -> int {
    if a >= b {
        a - b
    } else {
        b - a
    }
}

/// O(log |ok - ng|).  Starting from a position `ok` taken to satisfy the
/// predicate and a position `ng` taken to fail it, narrow the interval by
/// halving until the two are adjacent, and return the final `ok` side.
///
/// The result is either the given `ok` or a position the predicate
/// accepted, and next to it on the `ng` side stands either the given
/// `ng` or a position the predicate rejected.
pub fn binary_search<F: Fn(i64) -> bool>(ok: i64, ng: i64, pred: F) -> (r: i64)
    requires
        -0x2000_0000_0000_0000 < ok < 0x2000_0000_0000_0000,
        -0x2000_0000_0000_0000 < ng < 0x2000_0000_0000_0000,
        forall|x: i64|
            (ok <= x <= ng || ng <= x <= ok) ==> call_requires(pred, (x,)),
    ensures
        ok <= r <= ng || ng <= r <= ok,
        r == ok || call_ensures(pred, (r,), true),
        exists|g: i64|
            {
                &&& dist(r as int, g as int) <= 1
                &&& (ok <= g <= ng || ng <= g <= ok)
                &&& (g == ng || call_ensures(pred, (g,), false))
            },
{
    let mut lo = ok;
    let mut hi = ng;
    while lo + 1 < hi || hi + 1 < lo
        invariant
            -0x2000_0000_0000_0000 < lo < 0x2000_0000_0000_0000,
            -0x2000_0000_0000_0000 < hi < 0x2000_0000_0000_0000,
            ok <= lo <= hi <= ng || ng <= hi <= lo <= ok,
            lo == ok || call_ensures(pred, (lo,), true),
            hi == ng || call_ensures(pred, (hi,), false),
            forall|x: i64|
                (ok <= x <= ng || ng <= x <= ok) ==> call_requires(pred, (x,)),
        decreases dist(lo as int, hi as int),
    {
        let mi = midpoint(lo, hi);
        if pred(mi) {
            lo = mi;
        } else {
            hi = mi;
        }
    }
    proof {
        assert(dist(lo as int, hi as int) <= 1 && (ok <= hi <= ng || ng <= hi <= ok) && (hi == ng
            || call_ensures(pred, (hi,), false)));
    }
    lo
}

/// The midpoint of two machine integers, rounded toward zero.
fn midpoint(a: i64, b: i64) -> (r: i64)
    requires
        -0x2000_0000_0000_0000 < a < 0x2000_0000_0000_0000,
        -0x2000_0000_0000_0000 < b < 0x2000_0000_0000_0000,
        dist(a as int, b as int) > 1,
    ensures
        a < b ==> a < r < b,
        b < a ==> b < r < a,
{
    let s = a + b;
    if s >= 0 {
        (((s as u64) / 2) as i64)
    } else {
        let half = ((-(s as i128)) as u64) / 2;
        proof {
            lemma_half_between(a as int, b as int);
        }
        -(half as i64)
    }
}

/// Halving the sum of two integers at distance at least two lands strictly
/// between them, whichever way the division rounds.
proof fn lemma_half_between(a: int, b: int)
    requires
        dist(a, b) > 1,
    ensures
        a < b ==> a < (a + b) / 2 < b && a < (0 - ((0 - (a + b)) / 2)) < b,
        b < a ==> b < (a + b) / 2 < a && b < (0 - ((0 - (a + b)) / 2)) < a,
{
    let s = a + b;
    vstd::arithmetic::div_mod::lemma_fundamental_div_mod(s, 2);
    vstd::arithmetic::div_mod::lemma_mod_bound(s, 2);
    vstd::arithmetic::div_mod::lemma_fundamental_div_mod(0 - s, 2);
    vstd::arithmetic::div_mod::lemma_mod_bound(0 - s, 2);
}

} // verus!
