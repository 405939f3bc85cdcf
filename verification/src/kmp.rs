//! Knuth-Morris-Pratt string matching over byte strings: the failure
//! function is proved to hold exactly the longest proper borders of the
//! pattern's prefixes, and the searches are proved to report exactly the
//! occurrences, in order.

use vstd::prelude::*;

verus! {

/// The pattern occurs in `s` at position `t`.
pub open spec fn match_at(s: Seq<u8>, pat: Seq<u8>, t: int) -> bool {
    0 <= t && t + pat.len() <= s.len() && (forall|u: int|
        0 <= u < pat.len() ==> s[t + u] == #[trigger] pat[u])
}

/// `b` is a border of the prefix `p[0..j]`: the first `b` characters equal
/// the last `b` characters of that prefix.
pub open spec fn is_border(p: Seq<u8>, j: int, b: int) -> bool {
    0 <= b <= j <= p.len() && (forall|u: int| 0 <= u < b ==> #[trigger] p[u] == p[j - b + u])
}

/// A border of a border is a border: borders compose through an
/// intermediate prefix length.
proof fn lemma_border_trans(p: Seq<u8>, i: int, j: int, b: int)
    requires
        is_border(p, i, j),
        is_border(p, j, b),
    ensures
        is_border(p, i, b),
{
    assert forall|u: int| 0 <= u < b implies #[trigger] p[u] == p[i - b + u] by {
        assert(p[u] == p[j - b + u]);
        assert(p[j - b + u] == p[i - j + (j - b + u)]);
    }
}

/// Two borders of the same prefix are nested: the smaller is a border of
/// the larger, seen as a prefix.
proof fn lemma_border_nested(p: Seq<u8>, i: int, b1: int, b2: int)
    requires
        is_border(p, i, b1),
        is_border(p, i, b2),
        b1 <= b2,
    ensures
        is_border(p, b2, b1),
{
    assert forall|u: int| 0 <= u < b1 implies #[trigger] p[u] == p[b2 - b1 + u] by {
        assert(p[u] == p[i - b1 + u]);
        assert(p[b2 - b1 + u] == p[i - b2 + (b2 - b1 + u)]);
    }
}

/// A border extends by one position when the next characters agree.
proof fn lemma_border_extend(p: Seq<u8>, i: int, b: int)
    requires
        1 <= i <= p.len(),
        is_border(p, i - 1, b),
        b < i - 1 || b == i - 1,
        p[b] == p[i - 1],
    ensures
        is_border(p, i, b + 1),
{
    assert forall|u: int| 0 <= u < b + 1 implies #[trigger] p[u] == p[i - (b + 1) + u] by {
        if u < b {
            assert(p[u] == p[(i - 1) - b + u]);
        } else {
            assert(u == b);
            assert(i - (b + 1) + u == i - 1);
        }
    }
}

/// A nonempty border shrinks by one position, and its last characters
/// agree.
proof fn lemma_border_shrink(p: Seq<u8>, i: int, c: int)
    requires
        1 <= i <= p.len(),
        1 <= c,
        is_border(p, i, c),
    ensures
        is_border(p, i - 1, c - 1),
        p[c - 1] == p[i - 1],
{
    assert forall|u: int| 0 <= u < c - 1 implies #[trigger] p[u] == p[(i - 1) - (c - 1) + u] by {
        assert(p[u] == p[i - c + u]);
    }
    assert(p[c - 1] == p[i - c + (c - 1)]);
}

/// Whether `fail` is the failure function of `p`: entry `j` holds the
/// length of the longest proper border of `p[0..j]`, with a `-1` sentinel
/// at entry 0.
pub open spec fn fail_wf(p: Seq<u8>, fail: Seq<isize>) -> bool {
    &&& fail.len() == p.len() + 1
    &&& fail.len() >= 1
    &&& fail[0] == -1
    &&& (forall|j: int|
        1 <= j <= p.len() ==> 0 <= #[trigger] fail[j] < j && is_border(p, j, fail[j] as int))
    &&& (forall|j: int, b: int|
        1 <= j <= p.len() && #[trigger] fail[j] < b < j ==> !#[trigger] is_border(p, j, b))
}

/// A Knuth-Morris-Pratt matcher: a pattern together with its failure
/// function.
pub struct KMP {
    pat: Vec<u8>,
    fail: Vec<isize>,
}

impl View for KMP {
    type V = Seq<u8>;

    /// The pattern being searched for.
    closed spec fn view(&self) -> Seq<u8> {
        self.pat@
    }
}

impl KMP {
    /// The failure function matches the pattern.
    pub closed spec fn wf(&self) -> bool {
        &&& fail_wf(self.pat@, self.fail@)
        &&& self.pat@.len() < isize::MAX
    }

    /// O(m).  Preprocess a pattern: compute the longest proper border of
    /// every prefix.
    pub fn new(pat: &[u8]) -> (r: KMP)
        requires
            pat@.len() < isize::MAX,
        ensures
            r.wf(),
            r@ == pat@,
    {
        let m = pat.len();
        let mut fail: Vec<isize> = Vec::new();
        while fail.len() < m + 1
            invariant
                m < isize::MAX,
                fail@.len() <= m + 1,
                forall|t: int| 0 <= t < fail@.len() ==> fail@[t] == -1isize,
            decreases m + 1 - fail@.len(),
        {
            fail.push(-1);
        }
        let mut j: isize = -1;
        let mut i: usize = 1;
        while i <= m
            invariant
                1 <= i <= m + 1,
                m == pat@.len(),
                m < isize::MAX,
                fail@.len() == m + 1,
                fail@[0] == -1isize,
                i <= m ==> j == fail@[i - 1],
                forall|t: int| 1 <= t < i ==> 0 <= #[trigger] fail@[t] < t && is_border(pat@, t, fail@[t] as int),
                forall|t: int, b: int|
                    1 <= t < i && #[trigger] fail@[t] < b < t ==> !#[trigger] is_border(pat@, t, b),
            decreases m + 1 - i,
        {
            proof {
                if i == 1 {
                    assert(is_border(pat@, 0, 0));
                }
            }
            while j >= 0 && pat[j as usize] != pat[i - 1]
                invariant
                    1 <= i <= m,
                    m == pat@.len(),
                    m < isize::MAX,
                    fail@.len() == m + 1,
                    fail@[0] == -1isize,
                    -1 <= j < i - 1 || (i == 1 && j == -1),
                    -1 <= j,
                    j < i,
                    j >= 0 ==> is_border(pat@, i - 1, j as int),
                    forall|b: int|
                        j < b < i - 1 && #[trigger] is_border(pat@, i - 1, b) ==> pat@[b] != pat@[i - 1],
                    forall|t: int| 1 <= t < i ==> 0 <= #[trigger] fail@[t] < t && is_border(pat@, t, fail@[t] as int),
                    forall|t: int, b: int|
                        1 <= t < i && #[trigger] fail@[t] < b < t ==> !#[trigger] is_border(pat@, t, b),
                decreases j + 1,
            {
                let ghost j0 = j as int;
                j = fail[j as usize];
                proof {
                    if j0 == 0 {
                        assert(j == -1);
                    } else {
                        assert(j == fail@[j0]);
                        assert(is_border(pat@, j0, j as int));
                        lemma_border_trans(pat@, i - 1, j0, j as int);
                        assert forall|b: int|
                            j < b < i - 1 && #[trigger] is_border(pat@, i - 1, b) implies pat@[b]
                            != pat@[i - 1] by {
                            if b == j0 {
                                assert(pat@[b] != pat@[i - 1]);
                            } else if b < j0 {
                                lemma_border_nested(pat@, i - 1, b, j0);
                                assert(!is_border(pat@, j0, b));
                            }
                        }
                    }
                }
            }
            let ghost jf = j as int;
            proof {
                if j >= 0 {
                    lemma_border_extend(pat@, i as int, jf);
                } else {
                    assert(is_border(pat@, i as int, 0));
                }
                assert(is_border(pat@, i as int, jf + 1));
            }
            j = j + 1;
            let ghost pre = fail@;
            fail[i] = j;
            proof {
                assert(fail@ == pre.update(i as int, j));
                assert forall|b: int| j < b < i implies !is_border(pat@, i as int, b) by {
                    if is_border(pat@, i as int, b) {
                        lemma_border_shrink(pat@, i as int, b);
                        assert(is_border(pat@, i - 1, b - 1) && pat@[b - 1] == pat@[i - 1]);
                        assert(jf < b - 1 < i - 1);
                        assert(false);
                    }
                }
            }
            i = i + 1;
        }
        let r = KMP { pat: vstd::slice::slice_to_vec(pat), fail };
        proof {
            assert(r.pat@ == pat@);
        }
        r
    }

    /// O(n).  The position of the first occurrence of the pattern in `s`,
    /// if there is one.
    pub fn find(&self, s: &[u8]) -> (r: Option<usize>)
        requires
            self.wf(),
            self@.len() >= 1,
        ensures
            r matches Some(t) ==> match_at(s@, self@, t as int) && (forall|t2: int|
                0 <= t2 < t ==> !match_at(s@, self@, t2)),
            r is None ==> forall|t: int| !match_at(s@, self@, t),
    {
        let m = self.pat.len();
        let mut k: isize = 0;
        let mut i: usize = 0;
        while i < s.len()
            invariant
                self.wf(),
                m == self@.len(),
                1 <= m,
                i <= s@.len(),
                m < isize::MAX,
                0 <= k < m,
                k <= i,
                forall|u: int| 0 <= u < k ==> self@[u] == s@[i - k + u],
                forall|t: int| 0 <= t < i - k ==> !match_at(s@, self@, t),
            decreases s@.len() - i,
        {
            while k >= 0 && self.pat[k as usize] != s[i]
                invariant
                    self.wf(),
                    m == self@.len(),
                    1 <= m,
                    i < s@.len(),
                    -1 <= k < m,
                    k <= i,
                    k >= 0 ==> forall|u: int| 0 <= u < k ==> self@[u] == s@[i - k + u],
                    forall|t: int| 0 <= t < i - k ==> !match_at(s@, self@, t),
                decreases k + 1,
            {
                let ghost k0 = k as int;
                k = self.fail[k as usize];
                proof {
                    lemma_skipped_no_match(s@, self@, self.fail@, i as int, k0);
                    if k >= 0 {
                        assert(k0 >= 1);
                        assert(is_border(self@, k0, k as int));
                        assert forall|u: int| 0 <= u < k implies self@[u] == s@[i - k + u] by {
                            assert(self@[u] == self@[k0 - k + u]);
                            assert(self@[k0 - k + u] == s@[i - k0 + (k0 - k + u)]);
                        }
                    }
                }
            }
            let ghost kx = k as int;
            k = k + 1;
            i = i + 1;
            proof {
                assert forall|u: int| 0 <= u < k implies self@[u] == s@[i - k + u] by {
                    if u < kx {
                        assert(self@[u] == s@[(i - 1) - kx + u]);
                    } else {
                        assert(u == kx);
                        assert(self@[kx] == s@[i - 1]);
                    }
                }
            }
            if k >= m as isize {
                proof {
                    assert(k == m);
                    assert(forall|u: int| 0 <= u < m ==> self@[u] == s@[i - m + u]);
                    assert(match_at(s@, self@, i - m));
                }
                return Some(i - m);
            }
        }
        proof {
            assert forall|t: int| !match_at(s@, self@, t) by {
                if match_at(s@, self@, t) {
                    assert(t + m <= s@.len());
                    assert(t < i - k);
                }
            }
        }
        None
    }

    /// O(n).  The positions of every occurrence of the pattern in `s`, in
    /// increasing order, overlaps included.
    pub fn find_all(&self, s: &[u8]) -> (r: Vec<usize>)
        requires
            self.wf(),
            self@.len() >= 1,
        ensures
            forall|t: usize| #[trigger] match_at(s@, self@, t as int) <==> r@.contains(t),
            forall|t1: int, t2: int| 0 <= t1 < t2 < r@.len() ==> r@[t1] < r@[t2],
            forall|t: int| 0 <= t < r@.len() ==> match_at(s@, self@, #[trigger] r@[t] as int),
    {
        let m = self.pat.len();
        let mut ret: Vec<usize> = Vec::new();
        let mut k: isize = 0;
        let mut i: usize = 0;
        while i < s.len()
            invariant
                self.wf(),
                m == self@.len(),
                1 <= m,
                i <= s@.len(),
                m < isize::MAX,
                0 <= k < m,
                k <= i,
                forall|u: int| 0 <= u < k ==> self@[u] == s@[i - k + u],
                forall|t: int|
                    0 <= t < i - k ==> (match_at(s@, self@, t) <==> ret@.contains(t as usize)),
                forall|t: int| 0 <= t < ret@.len() ==> #[trigger] ret@[t] < i - k,
                forall|t1: int, t2: int| 0 <= t1 < t2 < ret@.len() ==> ret@[t1] < ret@[t2],
                forall|t: int|
                    0 <= t < ret@.len() ==> match_at(s@, self@, #[trigger] ret@[t] as int),
            decreases s@.len() - i,
        {
            while k >= 0 && self.pat[k as usize] != s[i]
                invariant
                    self.wf(),
                    m == self@.len(),
                    1 <= m,
                    i < s@.len(),
                    -1 <= k < m,
                    k <= i,
                    k >= 0 ==> forall|u: int| 0 <= u < k ==> self@[u] == s@[i - k + u],
                    forall|t: int|
                        0 <= t < i - k ==> (match_at(s@, self@, t) <==> ret@.contains(
                        t as usize)),
                    forall|t: int| 0 <= t < ret@.len() ==> #[trigger] ret@[t] < i - k,
                    forall|t1: int, t2: int| 0 <= t1 < t2 < ret@.len() ==> ret@[t1] < ret@[t2],
                    forall|t: int|
                        0 <= t < ret@.len() ==> match_at(s@, self@, #[trigger] ret@[t] as int),
                decreases k + 1,
            {
                let ghost k0 = k as int;
                k = self.fail[k as usize];
                proof {
                    lemma_skipped_no_match(s@, self@, self.fail@, i as int, k0);
                    if k >= 0 {
                        assert(k0 >= 1);
                        assert(is_border(self@, k0, k as int));
                        assert forall|u: int| 0 <= u < k implies self@[u] == s@[i - k + u] by {
                            assert(self@[u] == self@[k0 - k + u]);
                            assert(self@[k0 - k + u] == s@[i - k0 + (k0 - k + u)]);
                        }
                    }
                }
            }
            let ghost kx = k as int;
            k = k + 1;
            i = i + 1;
            proof {
                assert forall|u: int| 0 <= u < k implies self@[u] == s@[i - k + u] by {
                    if u < kx {
                        assert(self@[u] == s@[(i - 1) - kx + u]);
                    } else {
                        assert(u == kx);
                        assert(self@[kx] == s@[i - 1]);
                    }
                }
            }
            if k >= m as isize {
                let t0 = i - m;
                proof {
                    assert(forall|u: int| 0 <= u < m ==> self@[u] == s@[i - m + u]);
                    assert(match_at(s@, self@, i - m));
                }
                let ghost pre = ret@;
                ret.push(t0);
                let ghost k1 = k as int;
                k = self.fail[k as usize];
                proof {
                    assert(k1 == m);
                    assert(0 <= k < m);
                    assert(is_border(self@, m as int, k as int));
                    assert forall|u: int| 0 <= u < k implies self@[u] == s@[i - k + u] by {
                        assert(self@[u] == self@[m - k + u]);
                        assert(self@[m - k + u] == s@[i - m + (m - k + u)]);
                    }
                    assert forall|t: int| 0 <= t < i - k implies (match_at(s@, self@, t)
                        <==> ret@.contains(t as usize)) by {
                        if t < t0 {
                            assert(match_at(s@, self@, t) <==> pre.contains(t as usize));
                            if pre.contains(t as usize) {
                                let w = choose|w: int|
                                    0 <= w < pre.len() && pre[w] == t as usize;
                                assert(ret@[w] == t as usize);
                            }
                            if ret@.contains(t as usize) {
                                let w = choose|w: int|
                                    0 <= w < ret@.len() && ret@[w] == t as usize;
                                assert(w < pre.len());
                            }
                        } else if t == t0 {
                            assert(ret@[ret@.len() - 1] == t0 as usize);
                        } else {
                            // positions between the match and the next
                            // candidate are excluded by border maximality
                            lemma_skipped_after_match(s@, self@, self.fail@, i as int, t);
                            if ret@.contains(t as usize) {
                                let w = choose|w: int|
                                    0 <= w < ret@.len() && ret@[w] == t as usize;
                                assert(ret@[w] <= t0);
                                assert(false);
                            }
                        }
                    }
                }
            }
        }
        proof {
            assert forall|t: usize| #[trigger] match_at(s@, self@, t as int) implies ret@.contains(
                t) by {
                assert(t + m <= s@.len());
                assert(t < i - k);
            }
            assert forall|t: usize| !match_at(s@, self@, t as int) implies !ret@.contains(t) by {
                if ret@.contains(t) {
                    let w = choose|w: int| 0 <= w < ret@.len() && ret@[w] == t;
                    assert(match_at(s@, self@, ret@[w] as int));
                }
            }
        }
        ret
    }
}

/// When the matched length `k0` fails to extend at `s[i]`, no occurrence
/// can start in the positions the failure jump skips: such an occurrence
/// would be a border of the matched prefix longer than the longest one.
proof fn lemma_skipped_no_match(s: Seq<u8>, p: Seq<u8>, fail: Seq<isize>, i: int, k0: int)
    requires
        fail_wf(p, fail),
        1 <= p.len(),
        0 <= i < s.len(),
        0 <= k0 < p.len(),
        k0 <= i,
        forall|u: int| 0 <= u < k0 ==> p[u] == s[i - k0 + u],
        p[k0] != s[i],
    ensures
        forall|t: int|
            i - k0 <= t < i - fail[k0] ==> !match_at(s, p, t),
{
    let f = fail[k0] as int;
    assert forall|t: int| i - k0 <= t < i - f implies !match_at(s, p, t) by {
        if match_at(s, p, t) {
            let c = i - t;
            if c == k0 {
                // the very next character refutes a match at i - k0
                assert(s[t + k0] == p[k0]);
                assert(t + k0 == i);
                assert(false);
            } else {
                // a match at t makes c = i - t a border of p[0..k0]
                assert(0 <= c < k0);
                assert forall|u: int| 0 <= u < c implies #[trigger] p[u] == p[k0 - c + u] by {
                    assert(s[t + u] == p[u]);
                    assert(p[k0 - c + u] == s[i - k0 + (k0 - c + u)]);
                    assert(i - k0 + (k0 - c + u) == t + u);
                }
                assert(is_border(p, k0, c));
                assert(f < c < k0);
                assert(!is_border(p, k0, c));
                assert(false);
            }
        }
    }
}

/// After a full match ending at `i`, no occurrence can start before the
/// position the failure jump resumes from.
proof fn lemma_skipped_after_match(s: Seq<u8>, p: Seq<u8>, fail: Seq<isize>, i: int, t: int)
    requires
        fail_wf(p, fail),
        1 <= p.len() <= i <= s.len(),
        forall|u: int| 0 <= u < p.len() ==> p[u] == s[i - p.len() + u],
        i - p.len() < t < i - fail[p.len() as int],
    ensures
        !match_at(s, p, t),
{
    let m = p.len() as int;
    let f = fail[m] as int;
    if match_at(s, p, t) {
        let c = i - t;
        assert(0 < c < m);
        assert forall|u: int| 0 <= u < c implies #[trigger] p[u] == p[m - c + u] by {
            assert(s[t + u] == p[u]);
            assert(p[m - c + u] == s[i - m + (m - c + u)]);
            assert(i - m + (m - c + u) == t + u);
        }
        assert(is_border(p, m, c));
        assert(f < c < m);
        assert(!is_border(p, m, c));
        assert(false);
    }
}

/// Find the first occurrence of `needle` in `haystack`.
pub fn kmp_find(haystack: &[u8], needle: &[u8]) -> (r: Option<usize>)
    requires
        1 <= needle@.len() < isize::MAX,
    ensures
        r matches Some(t) ==> match_at(haystack@, needle@, t as int) && (forall|t2: int|
            0 <= t2 < t ==> !match_at(haystack@, needle@, t2)),
        r is None ==> forall|t: int| !match_at(haystack@, needle@, t),
{
    KMP::new(needle).find(haystack)
}

/// Find every occurrence of `needle` in `haystack`, in increasing order.
pub fn kmp_find_all(haystack: &[u8], needle: &[u8]) -> (r: Vec<usize>)
    requires
        1 <= needle@.len() < isize::MAX,
    ensures
        forall|t: usize| #[trigger] match_at(haystack@, needle@, t as int) <==> r@.contains(t),
        forall|t1: int, t2: int| 0 <= t1 < t2 < r@.len() ==> r@[t1] < r@[t2],
{
    KMP::new(needle).find_all(haystack)
}

} // verus!
