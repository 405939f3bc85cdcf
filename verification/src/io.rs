//! Token scanning over input text: whitespace splitting and decimal
//! parsing, the compute half of contest input handling.

use vstd::prelude::*;

verus! {

/// Whitespace as token separators: space, newline, tab, carriage return.
pub open spec fn is_ws(b: u8) -> bool {
    b == 32 || b == 10 || b == 9 || b == 13
}

/// One splitting step: a separator closes the pending token, any other
/// byte extends it.
pub open spec fn scan_step(acc: (Seq<Seq<u8>>, Seq<u8>), c: u8) -> (Seq<Seq<u8>>, Seq<u8>) {
    if is_ws(c) {
        if acc.1.len() == 0 {
            acc
        } else {
            (acc.0.push(acc.1), Seq::empty())
        }
    } else {
        (acc.0, acc.1.push(c))
    }
}

/// The completed tokens and the pending token after reading `s`.
pub open spec fn scan(s: Seq<u8>) -> (Seq<Seq<u8>>, Seq<u8>)
    decreases s.len(),
{
    if s.len() == 0 {
        (Seq::empty(), Seq::empty())
    } else {
        scan_step(scan(s.drop_last()), s.last())
    }
}

/// The whitespace-separated tokens of `s`.
pub open spec fn tokens_of(s: Seq<u8>) -> Seq<Seq<u8>> {
    if scan(s).1.len() == 0 {
        scan(s).0
    } else {
        scan(s).0.push(scan(s).1)
    }
}

/// The numeric value of a digit sequence.
pub open spec fn digits_val(s: Seq<u8>) -> int
    decreases s.len(),
{
    if s.len() == 0 {
        0
    } else {
        digits_val(s.drop_last()) * 10 + (s.last() - 48)
    }
}

/// All bytes are decimal digits.
pub open spec fn all_digits(s: Seq<u8>) -> bool {
    forall|t: int| 0 <= t < s.len() ==> 48 <= #[trigger] s[t] <= 57
}

/// A well-formed signed decimal token: digits, with an optional leading
/// minus sign before at least one digit.
pub open spec fn is_int_token(s: Seq<u8>) -> bool {
    if s.len() >= 1 && s[0] == 45 {
        s.len() >= 2 && all_digits(s.drop_first())
    } else {
        s.len() >= 1 && all_digits(s)
    }
}

/// The signed value of a well-formed decimal token.
pub open spec fn int_token_val(s: Seq<u8>) -> int {
    if s.len() >= 1 && s[0] == 45 {
        -digits_val(s.drop_first())
    } else {
        digits_val(s)
    }
}

/// The value of a digit string dominates the value of any of its
/// prefixes.
proof fn lemma_digits_prefix_le(s: Seq<u8>, i: int)
    requires
        0 <= i <= s.len(),
        all_digits(s),
    ensures
        0 <= digits_val(s.take(i)) <= digits_val(s),
        digits_val(s.take(s.len() as int)) == digits_val(s),
    decreases s.len() - i, s.len(),
{
    if i == s.len() {
        assert(s.take(i) =~= s);
        if s.len() > 0 {
            assert(s.drop_last() =~= s.take(s.len() - 1));
            assert forall|t: int| 0 <= t < s.drop_last().len() implies 48 <= #[trigger] s.drop_last()[t]
                <= 57 by {
                assert(s.drop_last()[t] == s[t]);
            }
            lemma_digits_prefix_le(s.drop_last(), s.drop_last().len() as int);
            assert(digits_val(s) == digits_val(s.drop_last()) * 10 + (s.last() - 48));
            assert(digits_val(s.drop_last()) * 10 >= digits_val(s.drop_last()))
                by (nonlinear_arith)
                requires
                    digits_val(s.drop_last()) >= 0,
            ;
        }
    } else {
        lemma_digits_prefix_le(s, i + 1);
        assert(s.take(i + 1).drop_last() =~= s.take(i));
        assert(s.take(i + 1).last() == s[i]);
        assert forall|t: int| 0 <= t < s.take(i + 1).len() implies 48 <= #[trigger] s.take(
            i + 1,
        )[t] <= 57 by {
            assert(s.take(i + 1)[t] == s[t]);
        }
        assert(digits_val(s.take(i + 1)) == digits_val(s.take(i)) * 10 + (s[i] - 48));
        assert(digits_val(s.take(i)) * 10 >= digits_val(s.take(i))) by (nonlinear_arith)
            requires
                digits_val(s.take(i)) >= 0,
        ;
        assert(digits_val(s.take(i)) >= 0) by {
            if i > 0 {
                assert(digits_val(s.take(i)) == digits_val(s.take(i).drop_last()) * 10 + (s.take(
                    i,
                ).last() - 48));
                lemma_digits_nonneg(s.take(i));
            }
        }
    }
}

/// Digit strings have nonnegative values.
proof fn lemma_digits_nonneg(s: Seq<u8>)
    requires
        all_digits(s),
    ensures
        digits_val(s) >= 0,
    decreases s.len(),
{
    if s.len() > 0 {
        assert forall|t: int| 0 <= t < s.drop_last().len() implies 48 <= #[trigger] s.drop_last()[t]
            <= 57 by {
            assert(s.drop_last()[t] == s[t]);
        }
        lemma_digits_nonneg(s.drop_last());
        assert(digits_val(s.drop_last()) * 10 >= 0) by (nonlinear_arith)
            requires
                digits_val(s.drop_last()) >= 0,
        ;
    }
}

/// Parse a digit run as an unsigned value.
fn parse_digits(tok: &Vec<u8>) -> (r: u64)
    requires
        all_digits(tok@),
        digits_val(tok@) <= u64::MAX,
    ensures
        r == digits_val(tok@),
{
    let mut acc: u64 = 0;
    let mut i: usize = 0;
    proof {
        assert(tok@.take(0) =~= Seq::<u8>::empty());
    }
    while i < tok.len()
        invariant
            i <= tok@.len(),
            all_digits(tok@),
            digits_val(tok@) <= u64::MAX,
            acc == digits_val(tok@.take(i as int)),
        decreases tok@.len() - i,
    {
        proof {
            lemma_digits_prefix_le(tok@, i + 1);
            assert(tok@.take(i + 1).drop_last() =~= tok@.take(i as int));
            assert(tok@.take(i + 1).last() == tok@[i as int]);
        }
        acc = acc * 10 + ((tok[i] - 48) as u64);
        i = i + 1;
    }
    proof {
        assert(tok@.take(tok@.len() as int) =~= tok@);
    }
    acc
}

/// A token scanner over input text: splits once, then hands the tokens
/// out in order.
pub struct Scanner {
    toks: Vec<Vec<u8>>,
    pos: usize,
}

impl Scanner {
    /// The tokens not yet consumed.
    pub closed spec fn remaining(&self) -> Seq<Seq<u8>> {
        self.toks@.map_values(|t: Vec<u8>| t@).skip(self.pos as int)
    }

    /// The position is within the token list.
    pub closed spec fn wf(&self) -> bool {
        self.pos <= self.toks@.len()
    }

    /// O(n).  Split input text into whitespace-separated tokens.
    pub fn new(s: &[u8]) -> (r: Scanner)
        ensures
            r.wf(),
            r.remaining() == tokens_of(s@),
    {
        let mut toks: Vec<Vec<u8>> = Vec::new();
        let mut cur: Vec<u8> = Vec::new();
        let mut i: usize = 0;
        proof {
            assert(s@.take(0) =~= Seq::<u8>::empty());
        }
        while i < s.len()
            invariant
                i <= s@.len(),
                toks@.map_values(|t: Vec<u8>| t@) == scan(s@.take(i as int)).0,
                cur@ == scan(s@.take(i as int)).1,
            decreases s@.len() - i,
        {
            let c = s[i];
            proof {
                assert(s@.take(i + 1).drop_last() =~= s@.take(i as int));
                assert(s@.take(i + 1).last() == s@[i as int]);
            }
            if c == 32 || c == 10 || c == 9 || c == 13 {
                if cur.len() > 0 {
                    let ghost pret = toks@;
                    let done = cur;
                    cur = Vec::new();
                    toks.push(done);
                    proof {
                        assert(toks@.map_values(|t: Vec<u8>| t@) =~= scan(s@.take(i + 1)).0);
                    }
                }
            } else {
                cur.push(c);
            }
            i = i + 1;
        }
        proof {
            assert(s@.take(s@.len() as int) =~= s@);
        }
        if cur.len() > 0 {
            toks.push(cur);
            proof {
                assert(toks@.map_values(|t: Vec<u8>| t@) =~= tokens_of(s@));
            }
        } else {
            proof {
                assert(toks@.map_values(|t: Vec<u8>| t@) =~= tokens_of(s@));
            }
        }
        let r = Scanner { toks, pos: 0 };
        proof {
            assert(r.remaining() =~= tokens_of(s@));
        }
        r
    }

    /// O(len).  The next token, parsed as a signed decimal integer.
    pub fn next(&mut self) -> (r: i64)
        requires
            old(self).wf(),
            old(self).remaining().len() >= 1,
            is_int_token(old(self).remaining()[0]),
            i64::MIN <= int_token_val(old(self).remaining()[0]) <= i64::MAX,
        ensures
            final(self).wf(),
            r == int_token_val(old(self).remaining()[0]),
            final(self).remaining() == old(self).remaining().drop_first(),
    {
        let tok = &self.toks[self.pos];
        let ghost tv = tok@;
        let r: i64;
        if tok.len() >= 1 && tok[0] == 45 {
            let mut digits: Vec<u8> = Vec::new();
            let mut i: usize = 1;
            while i < tok.len()
                invariant
                    1 <= i <= tv.len(),
                    tok@ == tv,
                    self.pos < self.toks@.len(),
                    tok@ == self.toks@[self.pos as int]@,
                    digits@ == tv.drop_first().take(i - 1),
                decreases tok@.len() - i,
            {
                digits.push(tok[i]);
                proof {
                    assert(digits@ =~= tv.drop_first().take(i as int));
                }
                i = i + 1;
            }
            proof {
                assert(digits@ =~= tv.drop_first());
                lemma_digits_nonneg(digits@);
            }
            proof {
                assert(tok@ == self.remaining()[0]);
                assert(digits_val(digits@) <= 0x8000_0000_0000_0000);
            }
            let m = parse_digits(&digits);
            r = (-(m as i128)) as i64;
        } else {
            proof {
                assert(tok@ == self.remaining()[0]);
                lemma_digits_nonneg(tok@);
            }
            let m = parse_digits(tok);
            r = m as i64;
        }
        proof {
            vstd::std_specs::vec::axiom_spec_len(&self.toks);
            assert(self.remaining().len() == self.toks@.len() - self.pos);
            assert(self.pos < self.toks@.len());
        }
        self.pos = self.pos + 1;
        proof {
            assert(final(self).remaining() =~= old(self).remaining().drop_first());
        }
        r
    }

    /// O(n · len).  Read a count and then that many integers.
    pub fn next_vec_len(&mut self) -> (r: Vec<i64>)
        requires
            old(self).wf(),
            old(self).remaining().len() >= 1,
            is_int_token(old(self).remaining()[0]),
            0 <= int_token_val(old(self).remaining()[0]) <= i64::MAX,
            int_token_val(old(self).remaining()[0]) + 1 <= old(self).remaining().len(),
            forall|t: int|
                1 <= t <= int_token_val(old(self).remaining()[0]) ==> is_int_token(
                    #[trigger] old(self).remaining()[t],
                ) && i64::MIN <= int_token_val(old(self).remaining()[t]) <= i64::MAX,
        ensures
            final(self).wf(),
            r@.len() == int_token_val(old(self).remaining()[0]),
            forall|t: int|
                0 <= t < r@.len() ==> #[trigger] r@[t] == int_token_val(
                    old(self).remaining()[t + 1],
                ),
            final(self).remaining() == old(self).remaining().skip(
                int_token_val(old(self).remaining()[0]) + 1,
            ),
    {
        let ghost rem0 = old(self).remaining();
        proof {
            vstd::std_specs::vec::axiom_spec_len(&self.toks);
            assert(rem0.len() <= self.toks@.len());
        }
        let n = self.next();
        let ghost mid = self.remaining();
        proof {
            assert(n == int_token_val(rem0[0]));
            assert(mid == rem0.drop_first());
            assert(n < usize::MAX);
        }
        let m = n as usize;
        let r = self.next_vec(m);
        proof {
            assert(m as int == n as int);
            assert(self.remaining() == mid.skip(m as int));
            assert(self.remaining() == mid.skip(n as int));
            assert forall|k: int| 0 <= k < mid.skip(n as int).len() implies mid.skip(n as int)[k]
                == rem0.skip(n + 1)[k] by {
                assert(mid.skip(n as int)[k] == mid[n + k]);
                assert(mid[n + k] == rem0[n + 1 + k]);
                assert(rem0.skip(n + 1)[k] == rem0[n + 1 + k]);
            }
            assert(self.remaining() =~= rem0.skip(int_token_val(rem0[0]) + 1));
        }
        r
    }

    /// O(n · len).  Read `n` integers.
    pub fn next_vec(&mut self, n: usize) -> (r: Vec<i64>)
        requires
            old(self).wf(),
            n <= old(self).remaining().len(),
            forall|t: int|
                0 <= t < n ==> is_int_token(#[trigger] old(self).remaining()[t]) && i64::MIN
                    <= int_token_val(old(self).remaining()[t]) <= i64::MAX,
        ensures
            final(self).wf(),
            r@.len() == n,
            forall|t: int|
                0 <= t < n ==> #[trigger] r@[t] == int_token_val(old(self).remaining()[t]),
            final(self).remaining() == old(self).remaining().skip(n as int),
    {
        let ghost rem0 = self.remaining();
        let mut r: Vec<i64> = Vec::new();
        let mut i: usize = 0;
        while i < n
            invariant
                i <= n,
                self.wf(),
                rem0 == old(self).remaining(),
                n <= rem0.len(),
                self.remaining() == rem0.skip(i as int),
                r@.len() == i,
                forall|t: int|
                    0 <= t < n ==> is_int_token(#[trigger] rem0[t]) && i64::MIN
                        <= int_token_val(rem0[t]) <= i64::MAX,
                forall|t: int| 0 <= t < i ==> #[trigger] r@[t] == int_token_val(rem0[t]),
            decreases n - i,
        {
            proof {
                assert(rem0.skip(i as int)[0] == rem0[i as int]);
            }
            let v = self.next();
            r.push(v);
            proof {
                assert(rem0.skip(i as int).drop_first() =~= rem0.skip(i + 1));
            }
            i = i + 1;
        }
        proof {
            assert(self.remaining() =~= rem0.skip(n as int));
        }
        r
    }
}

} // verus!
