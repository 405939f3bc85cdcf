//! A monoid-based segment tree: a flat, array-backed complete binary tree
//! over a fixed-size sequence, supporting point assignment and range
//! aggregation in O(log n) and an O(n) build.
//!
//! The logical sequence of `n` slots is padded to the next power of two
//! `n'`; the backing array holds `2 * n' - 1` elements.  In the proofs,
//! nodes are numbered 1-based: node `k` lives at array index `k - 1`, its
//! children are nodes `2k` and `2k + 1`, and the leaves are nodes
//! `n' .. 2n'`.

use crate::monoid::{lemma_mconcat_concat, mconcat_spec, Monoid};
use vstd::arithmetic::power2::{lemma_pow2_unfold, pow2};
use vstd::prelude::*;

verus! {

/// The parent-child relation of the flat layout: node `k` caches the
/// combination of its two children.
pub open spec fn heap_ok<T: Monoid>(s: Seq<T>, k: int) -> bool {
    s[k - 1] == T::op(s[2 * k - 1], s[2 * k])
}

/// Whether `a` is an ancestor of node `b` (including `b` itself) in the
/// 1-based node numbering.
pub open spec fn is_ancestor(a: int, b: int) -> bool
    decreases b,
{
    if b < 1 {
        false
    } else {
        a == b || is_ancestor(a, b / 2)
    }
}

/// Segment tree over a monoid.
pub struct SegmentTree<T> {
    len: usize,
    v: Vec<T>,
}

impl<T: Monoid> View for SegmentTree<T> {
    type V = Seq<T>;

    /// The logical sequence of leaf slots, without the padding.
    closed spec fn view(&self) -> Seq<T> {
        Seq::new(self.len as nat, |i: int| self.v@[self.pad() - 1 + i])
    }
}

impl<T: Monoid> SegmentTree<T> {
    /// The padded number of leaves: the backing array holds `2 * pad - 1`
    /// nodes.
    pub closed spec fn pad(&self) -> int {
        (self.v@.len() + 1) as int / 2
    }

    /// The padded leaf sequence: the logical slots followed by
    /// identity-filled padding.
    pub closed spec fn leaves(&self) -> Seq<T> {
        self.v@.subrange(self.pad() - 1, 2 * self.pad() - 1)
    }

    /// Well-formedness: the array has the shape of a complete binary tree,
    /// every internal node caches the combination of its children, and the
    /// padding slots hold the identity.
    pub closed spec fn wf(&self) -> bool {
        &&& self.v@.len() == 2 * self.pad() - 1
        &&& self.v@.len() < usize::MAX
        &&& self.len <= self.pad()
        &&& (forall|k: int| 1 <= k < self.pad() ==> #[trigger] heap_ok(self.v@, k))
        &&& (forall|i: int|
            self.len <= i < self.pad() ==> #[trigger] self.leaves()[i] == T::id())
    }

    /// O(n).  Construct a segment tree of `n` identity-valued slots.
    pub fn new(n: usize) -> (st: Self)
        requires
            n <= usize::MAX / 4,
        ensures
            st.wf(),
            st@.len() == n,
            forall|i: int| 0 <= i < n ==> st@[i] == T::id(),
    {
        let empty: Vec<T> = Vec::new();
        Self::init(n, empty.as_slice())
    }

    /// O(n).  Construct a segment tree whose slots are initialized, in
    /// order, from a slice.
    pub fn from_slice(s: &[T]) -> (st: Self)
        requires
            s@.len() <= usize::MAX / 4,
        ensures
            st.wf(),
            st@ == s@,
    {
        let st = Self::init(s.len(), s);
        proof {
            assert(st@ =~= s@);
        }
        st
    }

    /// O(n).  Build the padded array: leaves first, then each level of
    /// internal nodes bottom-up.
    fn init(len: usize, s: &[T]) -> (st: Self)
        requires
            s@.len() <= len,
            len <= usize::MAX / 4,
        ensures
            st.wf(),
            st@.len() == len,
            forall|i: int| 0 <= i < s@.len() ==> st@[i] == s@[i],
            forall|i: int| s@.len() <= i < len ==> st@[i] == T::id(),
    {
        // The smallest power of two that is at least `len`.
        let mut n: usize = 1;
        let ghost mut ne: nat = 0;
        proof {
            vstd::arithmetic::power2::lemma2_to64();
        }
        while n < len
            invariant
                1 <= n,
                len <= usize::MAX / 4,
                n == 1 || n < 2 * len,
                pow2(ne) == n,
            decreases 2 * len - n,
        {
            n = n * 2;
            proof {
                lemma_pow2_unfold(ne + 1);
                ne = ne + 1;
            }
        }
        let total = 2 * n - 1;

        let mut v: Vec<T> = Vec::new();
        while v.len() < total
            invariant
                v@.len() <= total,
                forall|j: int| 0 <= j < v@.len() ==> v@[j] == T::id(),
            decreases total - v@.len(),
        {
            v.push(T::mempty());
        }

        let mut i: usize = 0;
        while i < s.len()
            invariant
                i <= s@.len(),
                s@.len() <= len <= n,
                n <= usize::MAX / 2,
                v@.len() == 2 * n - 1,
                forall|j: int| 0 <= j < i ==> v@[n - 1 + j] == s@[j],
                forall|j: int| n - 1 + i <= j < v@.len() ==> v@[j] == T::id(),
                forall|j: int| 0 <= j < n - 1 ==> v@[j] == T::id(),
            decreases s@.len() - i,
        {
            v[n - 1 + i] = s[i];
            i = i + 1;
        }

        // Combine each level bottom-up; the level of `l` nodes consists of
        // nodes `l .. 2l`, stored at indices `l - 1 .. 2l - 1`.
        let mut l = n / 2;
        let mut ofs = n - 1 - l;
        let ghost mut le: nat = if ne >= 1 { (ne - 1) as nat } else { 0 };
        proof {
            if ne >= 1 {
                lemma_pow2_unfold(ne);
            }
        }
        while l > 0
            invariant
                v@.len() == 2 * n - 1,
                1 <= n,
                n <= usize::MAX / 2,
                s@.len() <= len <= n,
                l == 0 || ofs == l - 1,
                l == 0 || l == pow2(le),
                2 * l <= n,
                forall|j: int| 0 <= j < s@.len() ==> v@[n - 1 + j] == s@[j],
                forall|j: int| n - 1 + s@.len() <= j < 2 * n - 1 ==> v@[j] == T::id(),
                forall|k: int| 1 <= k < n && 2 * l <= k ==> #[trigger] heap_ok(v@, k),
            decreases l,
        {
            let mut j: usize = 0;
            while j < l
                invariant
                    v@.len() == 2 * n - 1,
                    1 <= l,
                    2 * l <= n,
                    n <= usize::MAX / 2,
                    ofs == l - 1,
                    j <= l,
                    s@.len() <= len <= n,
                    forall|t: int| 0 <= t < s@.len() ==> v@[n - 1 + t] == s@[t],
                    forall|t: int| n - 1 + s@.len() <= t < 2 * n - 1 ==> v@[t] == T::id(),
                    forall|k: int| 1 <= k < n && 2 * l <= k ==> #[trigger] heap_ok(v@, k),
                    forall|k: int| l <= k < l + j ==> #[trigger] heap_ok(v@, k),
                decreases l - j,
            {
                let ix = ofs + j;
                let a = T::mappend(&v[2 * ix + 1], &v[2 * ix + 2]);
                let ghost pre = v@;
                v[ix] = a;
                proof {
                    assert(heap_ok(v@, l + j));
                    assert forall|k: int| 1 <= k < n && 2 * l <= k implies #[trigger] heap_ok(
                        v@,
                        k,
                    ) by {
                        assert(heap_ok(pre, k));
                    }
                    assert forall|k: int| l <= k < l + j implies #[trigger] heap_ok(v@, k) by {
                        assert(heap_ok(pre, k));
                    }
                }
                j = j + 1;
            }
            proof {
                if l > 1 {
                    assert(le >= 1) by {
                        if le == 0 {
                            vstd::arithmetic::power2::lemma2_to64();
                        }
                    }
                    lemma_pow2_unfold(le);
                    le = (le - 1) as nat;
                } else {
                    vstd::arithmetic::power2::lemma2_to64();
                }
            }
            l = l / 2;
            ofs = ofs - l;
        }

        let st = Self { len, v };
        proof {
            assert(st.pad() == n);
            assert forall|i0: int| 0 <= i0 < s@.len() implies st@[i0] == s@[i0] by {
                assert(st.v@[n - 1 + i0] == s@[i0]);
            }
            assert forall|i0: int| s@.len() <= i0 < len implies st@[i0] == T::id() by {
                assert(st.v@[n - 1 + i0] == T::id());
            }
            assert forall|i0: int| st.len <= i0 < st.pad() implies #[trigger] st.leaves()[i0]
                == T::id() by {
                assert(st.v@[n - 1 + i0] == T::id());
            }
        }
        st
    }

    /// O(1).  The logical size supplied at construction.
    pub fn len(&self) -> (r: usize)
        ensures
            r == self@.len(),
    {
        self.len
    }

    /// O(log n).  Replace slot `i` and recompute every ancestor's cached
    /// aggregate.
    pub fn set(&mut self, i: usize, val: T)
        requires
            old(self).wf(),
            i < old(self)@.len(),
        ensures
            final(self).wf(),
            final(self)@ == old(self)@.update(i as int, val),
    {
        let n = (self.v.len() + 1) / 2;
        let ghost orig = *self;
        let mut cur = n - 1 + i;
        let ghost leaf: int = n + i;
        self.v[cur] = val;
        proof {
            lemma_ancestor_of_self(leaf);
            assert forall|k: int|
                1 <= k < n && !(is_ancestor(k, leaf) && k != leaf) implies #[trigger] heap_ok(
                self.v@,
                k,
            ) by {
                assert(heap_ok(orig.v@, k));
                if 2 * k - 1 == n - 1 + i || 2 * k == n - 1 + i {
                    assert(k == leaf / 2);
                    assert(is_ancestor(k, leaf / 2));
                    assert(is_ancestor(k, leaf));
                    assert(false);
                }
            }
        }
        while cur > 0
            invariant
                orig.wf(),
                n == orig.pad(),
                1 <= n,
                leaf == n + i,
                self.len == orig.len,
                self.v@.len() == orig.v@.len(),
                i < orig.len,
                cur <= 2 * n - 2,
                is_ancestor(cur + 1, leaf),
                forall|j: int|
                    n - 1 <= j < 2 * n - 1 ==> self.v@[j] == orig.v@.update(
                        n - 1 + i as int,
                        val,
                    )[j],
                forall|k: int|
                    1 <= k < n && !(is_ancestor(k, cur + 1) && k != cur + 1)
                        ==> #[trigger] heap_ok(self.v@, k),
            decreases cur,
        {
            let parent = (cur - 1) / 2;
            let ghost c: int = cur as int + 1;
            let ghost p: int = parent as int + 1;
            proof {
                assert(p == c / 2);
                lemma_ancestor_parent(c, leaf);
            }
            let a = T::mappend(&self.v[2 * parent + 1], &self.v[2 * parent + 2]);
            let ghost pre = self.v@;
            self.v[parent] = a;
            proof {
                assert(heap_ok(self.v@, p));
                assert forall|k: int|
                    1 <= k < n && !(is_ancestor(k, p) && k != p) implies #[trigger] heap_ok(
                    self.v@,
                    k,
                ) by {
                    if k == p {
                        assert(heap_ok(self.v@, p));
                    } else {
                        // `k` is not a proper ancestor of the old position
                        // either, so it was already correct.
                        assert(!(is_ancestor(k, c) && k != c)) by {
                            if is_ancestor(k, c) && k != c {
                                lemma_ancestor_unfold(k, c);
                            }
                        }
                        assert(heap_ok(pre, k));
                        // The write at index `p - 1` is outside the three
                        // slots that `k` reads.
                        assert(k - 1 != p - 1);
                        if 2 * k - 1 == p - 1 || 2 * k == p - 1 {
                            assert(k == p / 2);
                            assert(is_ancestor(k, p / 2));
                            assert(is_ancestor(k, p));
                            assert(false);
                        }
                        assert(heap_ok(self.v@, k));
                    }
                }
            }
            cur = parent;
        }
        proof {
            assert(cur + 1 == 1);
            assert forall|k: int| 1 <= k < n implies #[trigger] heap_ok(self.v@, k) by {
                if is_ancestor(k, 1) && k != 1 {
                    lemma_ancestor_unfold(k, 1);
                    assert(false);
                }
            }
            assert(self@ =~= orig@.update(i as int, val));
            assert forall|j: int| self.len <= j < self.pad() implies #[trigger] self.leaves()[j]
                == T::id() by {
                assert(orig.leaves()[j] == T::id());
                assert(self.leaves()[j] == orig.leaves()[j]);
            }
        }
    }

    /// O(log n).  Combine `val` into slot `i`: `s[i] = op(s[i], val)`.
    pub fn mappend(&mut self, i: usize, val: T)
        requires
            old(self).wf(),
            i < old(self)@.len(),
        ensures
            final(self).wf(),
            final(self)@ == old(self)@.update(i as int, T::op(old(self)@[i as int], val)),
    {
        let cur = self.get(i);
        self.set(i, T::mappend(&cur, &val));
    }

    /// O(1).  Read slot `i`; equal to aggregating the range `i .. i + 1`.
    pub fn get(&self, i: usize) -> (r: T)
        requires
            self.wf(),
            i < self@.len(),
        ensures
            r == self@[i as int],
    {
        let n = (self.v.len() + 1) / 2;
        self.v[n - 1 + i]
    }

    /// O(log n).  Aggregate the half-open range `range`, combining the
    /// slots left to right; an empty range yields the identity.
    pub fn query(&self, range: core::ops::Range<usize>) -> (res: T)
        requires
            self.wf(),
            range.start <= range.end,
            range.end <= self@.len(),
        ensures
            res == mconcat_spec(self@.subrange(range.start as int, range.end as int)),
            range.start == range.end ==> res == T::id(),
    {
        let l0 = range.start;
        let r0 = range.end;
        let n = (self.v.len() + 1) / 2;
        let mut l = n + l0;
        let mut r = n + r0;
        let mut ret_l = T::mempty();
        let mut ret_r = T::mempty();
        let ghost mut e: nat = 0;
        let ghost lvs = self.leaves();
        let ghost goal = mconcat_spec(lvs.subrange(l0 as int, r0 as int));

        proof {
            vstd::arithmetic::power2::lemma2_to64();
            T::lemma_id_left(goal);
            T::lemma_id_right(goal);
            T::lemma_id_left(T::id());
            assert(T::op(ret_l, T::op(mconcat_spec(lvs.subrange(l0 as int, r0 as int)), ret_r))
                == goal);
            assert(pow2(e) == 1);
            assert(pow2(e) * l - n == l0 as int && pow2(e) * r - n == r0 as int)
                by (nonlinear_arith)
                requires
                    pow2(e) == 1,
                    l == n + l0,
                    r == n + r0,
            ;
        }
        while l < r
            invariant
                self.wf(),
                n == self.pad(),
                1 <= n,
                self.v@.len() == 2 * n - 1,
                lvs == self.leaves(),
                l <= r,
                r <= 2 * n,
                pow2(e) * l >= n,
                pow2(e) * r <= 2 * n,
                pow2(e) >= 1,
                goal == mconcat_spec(lvs.subrange(l0 as int, r0 as int)),
                T::op(ret_l, T::op(mconcat_spec(lvs.subrange(pow2(e) * l - n, pow2(e) * r - n)),
                    ret_r)) == goal,
            decreases r - l,
        {
            let ghost w = pow2(e) as int;
            let ghost bl = w * l - n;
            let ghost br = w * r - n;
            proof {
                lemma_level_bounds(w, l as int, r as int, n as int);
            }
            if l % 2 == 1 {
                proof {
                    assert(w * (l + 1) == w * l + w && w * (l + 1) <= w * r) by (nonlinear_arith)
                        requires
                            w >= 1,
                            l + 1 <= r,
                    ;
                    lemma_node_value(self.v@, n as int, e, l as int);
                    lemma_split_fold(lvs, bl, bl + w, br);
                    let nodeval = self.v@[l - 1];
                    let rest = mconcat_spec(lvs.subrange(bl + w, br));
                    assert(nodeval == mconcat_spec(lvs.subrange(bl, bl + w)));
                    T::lemma_assoc(nodeval, rest, ret_r);
                    T::lemma_assoc(ret_l, nodeval, T::op(rest, ret_r));
                    assert(T::op(T::op(ret_l, nodeval), T::op(rest, ret_r)) == goal);
                }
                ret_l = T::mappend(&ret_l, &self.v[l - 1]);
                l = l + 1;
            }
            if r % 2 == 1 {
                r = r - 1;
                proof {
                    assert(w * (r + 1) == w * r + w && w * l <= w * r) by (nonlinear_arith)
                        requires
                            w >= 1,
                            l <= r,
                    ;
                    lemma_node_value(self.v@, n as int, e, r as int);
                    lemma_split_fold(lvs, w * l - n, w * r - n, br);
                    let nodeval = self.v@[r - 1];
                    let mid = mconcat_spec(lvs.subrange(w * l - n, w * r - n));
                    assert(nodeval == mconcat_spec(lvs.subrange(w * r - n, br)));
                    T::lemma_assoc(mid, nodeval, ret_r);
                    assert(T::op(ret_l, T::op(mid, T::op(nodeval, ret_r))) == goal);
                }
                ret_r = T::mappend(&self.v[r - 1], &ret_r);
            }
            proof {
                assert(l % 2 == 0 && r % 2 == 0);
                lemma_pow2_unfold(e + 1);
                assert(pow2(e + 1) * ((l / 2) as int) == pow2(e) * l) by (nonlinear_arith)
                    requires pow2(e + 1) == 2 * pow2(e) && l % 2 == 0;
                assert(pow2(e + 1) * ((r / 2) as int) == pow2(e) * r) by (nonlinear_arith)
                    requires pow2(e + 1) == 2 * pow2(e) && r % 2 == 0;
                e = e + 1;
            }
            l = l / 2;
            r = r / 2;
        }
        proof {
            assert(l == r);
            assert(lvs.subrange(pow2(e) * l - n, pow2(e) * r - n) =~= Seq::<T>::empty());
            T::lemma_id_left(ret_r);
            assert(self@.subrange(l0 as int, r0 as int) =~= lvs.subrange(l0 as int, r0 as int));
            if l0 == r0 {
                assert(lvs.subrange(l0 as int, r0 as int) =~= Seq::<T>::empty());
                T::lemma_id_left(T::id());
                T::lemma_id_right(ret_l);
            }
        }
        T::mappend(&ret_l, &ret_r)
    }

    /// O(log n).  Aggregate the closed range `lo ..= hi`.
    pub fn query_inclusive(&self, lo: usize, hi: usize) -> (res: T)
        requires
            self.wf(),
            lo <= hi,
            hi < self@.len(),
        ensures
            res == mconcat_spec(self@.subrange(lo as int, hi + 1)),
    {
        self.query(lo..hi + 1)
    }

    /// O(log n).  Aggregate the suffix starting at `lo`.
    pub fn query_from(&self, lo: usize) -> (res: T)
        requires
            self.wf(),
            lo <= self@.len(),
        ensures
            res == mconcat_spec(self@.subrange(lo as int, self@.len() as int)),
    {
        let r = self.len;
        self.query(lo..r)
    }

    /// O(log n).  Aggregate the prefix ending before `hi`.
    pub fn query_to(&self, hi: usize) -> (res: T)
        requires
            self.wf(),
            hi <= self@.len(),
        ensures
            res == mconcat_spec(self@.subrange(0, hi as int)),
    {
        self.query(0..hi)
    }

    /// O(log n).  Aggregate all slots.
    pub fn query_full(&self) -> (res: T)
        requires
            self.wf(),
        ensures
            res == mconcat_spec(self@),
    {
        let r = self.len;
        let res = self.query(0..r);
        proof {
            assert(self@.subrange(0, self@.len() as int) =~= self@);
        }
        res
    }
}

/// Law: building a tree from a sequence and then aggregating its full
/// range yields the fold of that sequence.  `from_slice` makes the view
/// equal to the input, `query` over `0..len` returns the fold of the
/// whole view, and subranging a whole sequence changes nothing.
pub proof fn lemma_build_query_full<T: Monoid>(v: Seq<T>)
    ensures
        mconcat_spec(v.subrange(0, v.len() as int)) == mconcat_spec(v),
{
    assert(v.subrange(0, v.len() as int) =~= v);
}

/// Every node is its own ancestor.
proof fn lemma_ancestor_of_self(a: int)
    requires
        a >= 1,
    ensures
        is_ancestor(a, a),
{
}

/// Unfolding the ancestor relation one step: an ancestor of `b` other than
/// `b` is an ancestor of `b`'s parent.
proof fn lemma_ancestor_unfold(a: int, b: int)
    requires
        b >= 1,
        is_ancestor(a, b),
        a != b,
    ensures
        is_ancestor(a, b / 2),
{
}

/// If `a` is an ancestor of `b`, so is `a`'s parent.
proof fn lemma_ancestor_parent(a: int, b: int)
    requires
        a >= 2,
        is_ancestor(a, b),
    ensures
        is_ancestor(a / 2, b),
    decreases b,
{
    if a == b {
        assert(is_ancestor(a / 2, b / 2));
    } else {
        lemma_ancestor_parent(a, b / 2);
    }
}

/// Bounds that relate a level's node numbers to leaf positions.
proof fn lemma_level_bounds(w: int, l: int, r: int, n: int)
    requires
        w >= 1,
        n >= 1,
        w * l >= n,
        w * r <= 2 * n,
        l <= r,
    ensures
        w * l - n >= 0,
        w * l <= w * r,
        w * r - n <= n,
{
    assert(w * l <= w * r) by (nonlinear_arith)
        requires w >= 1 && l <= r;
}

/// Splitting a fold of a range at an interior point combines the folds of
/// the two halves.
proof fn lemma_split_fold<T: Monoid>(s: Seq<T>, a: int, b: int, c: int)
    requires
        0 <= a <= b <= c <= s.len(),
    ensures
        mconcat_spec(s.subrange(a, c)) == T::op(
            mconcat_spec(s.subrange(a, b)),
            mconcat_spec(s.subrange(b, c)),
        ),
{
    assert(s.subrange(a, c) =~= s.subrange(a, b) + s.subrange(b, c));
    lemma_mconcat_concat(s.subrange(a, b), s.subrange(b, c));
}

/// The central structural fact: in a well-formed array, the node `k` whose
/// subtree has `2^e` leaves holds the fold of its leaf range.
proof fn lemma_node_value<T: Monoid>(s: Seq<T>, n: int, e: nat, k: int)
    requires
        n >= 1,
        k >= 1,
        s.len() == 2 * n - 1,
        forall|j: int| 1 <= j < n ==> #[trigger] heap_ok(s, j),
        pow2(e) * k >= n,
        pow2(e) * (k + 1) <= 2 * n,
    ensures
        s[k - 1] == mconcat_spec(
            s.subrange(n - 1, 2 * n - 1).subrange(pow2(e) * k - n, pow2(e) * k - n + pow2(e)),
        ),
    decreases e,
{
    let w = pow2(e) as int;
    let lvs = s.subrange(n - 1, 2 * n - 1);
    assert(w * (k + 1) == w * k + w) by (nonlinear_arith);
    assert(w >= 1) by {
        vstd::arithmetic::power2::lemma_pow2_pos(e);
    }
    if e == 0 {
        vstd::arithmetic::power2::lemma2_to64();
        assert(w == 1);
        assert(n <= k < 2 * n);
        let sub = lvs.subrange(k - n, k - n + 1);
        assert(sub.len() == 1);
        assert(sub.drop_last() =~= Seq::<T>::empty());
        assert(mconcat_spec(Seq::<T>::empty()) == T::id());
        assert(sub.last() == lvs[k - n]);
        assert(lvs[k - n] == s[k - 1]);
        assert(mconcat_spec(sub) == T::op(T::id(), sub.last()));
        T::lemma_id_left(sub.last());
        assert(mconcat_spec(sub) == s[k - 1]);
    } else {
        lemma_pow2_unfold(e);
        let w2 = pow2((e - 1) as nat) as int;
        assert(w == 2 * w2);
        assert(w2 >= 1) by {
            vstd::arithmetic::power2::lemma_pow2_pos((e - 1) as nat);
        }
        assert(k < n) by (nonlinear_arith)
            requires
                w >= 2,
                w * (k + 1) <= 2 * n,
                k >= 1,
                n >= 1,
        ;
        assert(w2 * (2 * k) == w * k && w2 * (2 * k + 1) == w * k + w2 && w2 * (2 * k + 2) == w * k
            + 2 * w2) by (nonlinear_arith)
            requires
                w == 2 * w2,
        ;
        lemma_node_value(s, n, (e - 1) as nat, 2 * k);
        lemma_node_value(s, n, (e - 1) as nat, 2 * k + 1);
        assert(heap_ok(s, k));
        assert(lvs.subrange(w * k - n, w * k - n + w) =~= lvs.subrange(
            w * k - n,
            w * k - n + w2,
        ) + lvs.subrange(w * k - n + w2, w * k - n + w));
        lemma_mconcat_concat(
            lvs.subrange(w * k - n, w * k - n + w2),
            lvs.subrange(w * k - n + w2, w * k - n + w),
        );
    }
}

} // verus!
