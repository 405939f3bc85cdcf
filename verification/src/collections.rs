//! A multiset of machine integers, kept as a sorted list of
//! `(value, count)` pairs, supporting insertion, removal of one copy, and
//! the minimum.

use vstd::prelude::*;

verus! {

/// How many copies of `k` a pair list holds.
pub open spec fn count_in(s: Seq<(i64, usize)>, k: int) -> int
    decreases s.len(),
{
    if s.len() == 0 {
        0
    } else if s.last().0 == k {
        s.last().1 as int
    } else {
        count_in(s.drop_last(), k)
    }
}

/// A multiset of machine integers.
pub struct MultiSet {
    v: Vec<(i64, usize)>,
}

impl MultiSet {
    /// Keys strictly increase and every stored count is positive.
    pub closed spec fn wf(&self) -> bool {
        &&& forall|t1: int, t2: int| 0 <= t1 < t2 < self.v@.len() ==> self.v@[t1].0 < self.v@[t2].0
        &&& forall|t: int| 0 <= t < self.v@.len() ==> (#[trigger] self.v@[t]).1 >= 1
    }

    /// The number of copies of `k` held.
    pub closed spec fn count(&self, k: int) -> int {
        count_in(self.v@, k)
    }

    /// The empty multiset.
    pub fn new() -> (r: MultiSet)
        ensures
            r.wf(),
            forall|k: int| r.count(k) == 0,
    {
        MultiSet { v: Vec::new() }
    }

    /// O(n).  Add one copy of `v`.
    pub fn insert(&mut self, val: i64)
        requires
            old(self).wf(),
            old(self).count(val as int) < usize::MAX,
        ensures
            final(self).wf(),
            final(self).count(val as int) == old(self).count(val as int) + 1,
            forall|k: int| k != val ==> final(self).count(k) == old(self).count(k),
    {
        let ghost pre = self.v@;
        let mut i: usize = 0;
        while i < self.v.len() && self.v[i].0 < val
            invariant
                self.wf(),
                self.v@ == pre,
                i <= self.v@.len(),
                forall|t: int| 0 <= t < i ==> (#[trigger] self.v@[t]).0 < val,
            decreases self.v@.len() - i,
        {
            i = i + 1;
        }
        if i < self.v.len() && self.v[i].0 == val {
            let c = self.v[i].1;
            proof {
                lemma_count_at(pre, i as int, val as int);
            }
            self.v[i] = (val, c + 1);
            proof {
                lemma_count_update(pre, self.v@, i as int);
            }
        } else {
            proof {
                lemma_count_absent(pre, val as int);
            }
            self.v.insert(i, (val, 1));
            proof {
                lemma_count_insert(pre, self.v@, i as int);
                assert forall|t1: int, t2: int|
                    0 <= t1 < t2 < self.v@.len() implies self.v@[t1].0 < self.v@[t2].0 by {
                    if t2 < i {
                    } else if t1 < i && t2 == i {
                        assert(self.v@[t1] == pre[t1]);
                    } else if t1 < i {
                        assert(self.v@[t1] == pre[t1] && self.v@[t2] == pre[t2 - 1]);
                    } else if t1 == i {
                        assert(self.v@[t2] == pre[t2 - 1]);
                        assert(pre[t2 - 1].0 >= val);
                        assert(pre[t2 - 1].0 != val);
                    } else {
                        assert(self.v@[t1] == pre[t1 - 1] && self.v@[t2] == pre[t2 - 1]);
                    }
                }
            }
        }
    }

    /// O(n).  Remove one copy of `v`, which must be present.
    pub fn remove(&mut self, val: i64)
        requires
            old(self).wf(),
            old(self).count(val as int) >= 1,
        ensures
            final(self).wf(),
            final(self).count(val as int) == old(self).count(val as int) - 1,
            forall|k: int| k != val ==> final(self).count(k) == old(self).count(k),
    {
        let ghost pre = self.v@;
        let mut i: usize = 0;
        proof {
            lemma_count_present(pre, val as int);
        }
        while i < self.v.len() && self.v[i].0 < val
            invariant
                self.wf(),
                self.v@ == pre,
                i <= self.v@.len(),
                forall|t: int| 0 <= t < i ==> (#[trigger] self.v@[t]).0 < val,
                exists|t: int| 0 <= t < self.v@.len() && (#[trigger] self.v@[t]).0 == val,
            decreases self.v@.len() - i,
        {
            proof {
                let t = choose|t: int|
                    0 <= t < self.v@.len() && (#[trigger] self.v@[t]).0 == val;
                assert(t > i);
            }
            i = i + 1;
        }
        proof {
            let t = choose|t: int| 0 <= t < self.v@.len() && (#[trigger] self.v@[t]).0 == val;
            assert(t >= i);
            if t > i {
                assert(self.v@[i as int].0 < self.v@[t].0);
            }
            assert(self.v@[i as int].0 == val);
            lemma_count_at(pre, i as int, val as int);
        }
        let c = self.v[i].1;
        if c == 1 {
            self.v.remove(i);
            proof {
                lemma_count_remove(pre, self.v@, i as int);
            }
        } else {
            self.v[i] = (val, c - 1);
            proof {
                lemma_count_update(pre, self.v@, i as int);
            }
        }
    }

    /// O(1).  The least value held, if any.
    pub fn min(&self) -> (r: Option<i64>)
        requires
            self.wf(),
        ensures
            r matches Some(m) ==> self.count(m as int) >= 1 && (forall|k: int|
                k < m ==> self.count(k) == 0),
            r is None ==> forall|k: int| self.count(k) == 0,
    {
        if self.v.len() == 0 {
            proof {
                assert forall|k: int| self.count(k) == 0 by {}
            }
            None
        } else {
            let m = self.v[0].0;
            proof {
                lemma_count_at(self.v@, 0, m as int);
                assert forall|k: int| k < m implies self.count(k) == 0 by {
                    lemma_count_small(self.v@, k, m as int);
                }
            }
            Some(m)
        }
    }
}

/// At a position holding key `k`, the count is that entry's count.
proof fn lemma_count_at(s: Seq<(i64, usize)>, i: int, k: int)
    requires
        0 <= i < s.len(),
        s[i].0 == k,
        forall|t1: int, t2: int| 0 <= t1 < t2 < s.len() ==> s[t1].0 < s[t2].0,
    ensures
        count_in(s, k) == s[i].1,
    decreases s.len(),
{
    if i == s.len() - 1 {
    } else {
        assert(s[i].0 < s.last().0);
        assert forall|t1: int, t2: int|
            0 <= t1 < t2 < s.drop_last().len() implies s.drop_last()[t1].0 < s.drop_last()[
        t2].0 by {
            assert(s.drop_last()[t1] == s[t1] && s.drop_last()[t2] == s[t2]);
        }
        lemma_count_at(s.drop_last(), i, k);
    }
}

/// A key held by no entry has count zero.
proof fn lemma_count_absent(s: Seq<(i64, usize)>, k: int)
    requires
        forall|t: int| 0 <= t < s.len() ==> (#[trigger] s[t]).0 != k,
    ensures
        count_in(s, k) == 0,
    decreases s.len(),
{
    if s.len() > 0 {
        lemma_count_absent(s.drop_last(), k);
    }
}

/// A key with positive count is held by some entry.
proof fn lemma_count_present(s: Seq<(i64, usize)>, k: int)
    requires
        count_in(s, k) >= 1,
    ensures
        exists|t: int| 0 <= t < s.len() && (#[trigger] s[t]).0 == k,
    decreases s.len(),
{
    if s.last().0 == k {
        assert(s[s.len() - 1].0 == k);
    } else {
        lemma_count_present(s.drop_last(), k);
        let t = choose|t: int|
            0 <= t < s.drop_last().len() && (#[trigger] s.drop_last()[t]).0 == k;
        assert(s[t].0 == k);
    }
}

/// Keys below the first entry of a sorted list have count zero.
proof fn lemma_count_small(s: Seq<(i64, usize)>, k: int, m: int)
    requires
        s.len() >= 1,
        s[0].0 == m,
        k < m,
        forall|t1: int, t2: int| 0 <= t1 < t2 < s.len() ==> s[t1].0 < s[t2].0,
    ensures
        count_in(s, k) == 0,
{
    assert forall|t: int| 0 <= t < s.len() implies (#[trigger] s[t]).0 != k by {
        if t > 0 {
            assert(s[0].0 < s[t].0);
        }
    }
    lemma_count_absent(s, k);
}

/// Updating one entry in place changes only that key's count.
proof fn lemma_count_update(pre: Seq<(i64, usize)>, post: Seq<(i64, usize)>, i: int)
    requires
        0 <= i < pre.len(),
        post == pre.update(i, post[i]),
        post[i].0 == pre[i].0,
        forall|t1: int, t2: int| 0 <= t1 < t2 < pre.len() ==> pre[t1].0 < pre[t2].0,
    ensures
        count_in(post, pre[i].0 as int) == post[i].1,
        forall|k: int| k != pre[i].0 ==> count_in(post, k) == count_in(pre, k),
{
    assert forall|t1: int, t2: int| 0 <= t1 < t2 < post.len() implies post[t1].0 < post[t2].0 by {
        assert(post[t1].0 == pre[t1].0 && post[t2].0 == pre[t2].0);
    }
    lemma_count_at(post, i, pre[i].0 as int);
    assert forall|k: int| k != pre[i].0 implies count_in(post, k) == count_in(pre, k) by {
        lemma_count_frame(pre, post, k);
    }
}

/// Two lists equal except at entries of other keys count any key the
/// same, pointwise by structure.
proof fn lemma_count_frame(pre: Seq<(i64, usize)>, post: Seq<(i64, usize)>, k: int)
    requires
        pre.len() == post.len(),
        forall|t: int|
            0 <= t < pre.len() ==> (#[trigger] post[t]).0 == pre[t].0 && (post[t].0 == k
                ==> post[t] == pre[t]),
    ensures
        count_in(post, k) == count_in(pre, k),
    decreases pre.len(),
{
    if pre.len() > 0 {
        assert forall|t: int|
            0 <= t < pre.drop_last().len() implies (#[trigger] post.drop_last()[t]).0
            == pre.drop_last()[t].0 && (post.drop_last()[t].0 == k ==> post.drop_last()[t]
            == pre.drop_last()[t]) by {
            assert(post.drop_last()[t] == post[t] && pre.drop_last()[t] == pre[t]);
        }
        lemma_count_frame(pre.drop_last(), post.drop_last(), k);
        assert(post.last().0 == pre.last().0);
    }
}

/// Inserting a fresh entry adds its count and leaves other keys alone.
proof fn lemma_count_insert(pre: Seq<(i64, usize)>, post: Seq<(i64, usize)>, i: int)
    requires
        0 <= i <= pre.len(),
        post == pre.insert(i, post[i]),
        forall|t: int| 0 <= t < pre.len() ==> (#[trigger] pre[t]).0 != post[i].0,
    ensures
        count_in(post, post[i].0 as int) == post[i].1,
        forall|k: int| k != post[i].0 ==> count_in(post, k) == count_in(pre, k),
    decreases pre.len(),
{
    let key = post[i].0 as int;
    if i == pre.len() {
        assert(post.last() == post[i]);
        assert(post.drop_last() =~= pre);
        assert(count_in(post, key) == post[i].1);
        assert forall|k: int| k != post[i].0 implies count_in(post, k) == count_in(pre, k) by {
            assert(count_in(post, k) == count_in(post.drop_last(), k));
        }
    } else {
        assert(post.last() == pre.last());
        assert(post.drop_last() =~= pre.drop_last().insert(i, post[i]));
        assert forall|t: int|
            0 <= t < pre.drop_last().len() implies (#[trigger] pre.drop_last()[t]).0 != post[
        i].0 by {
            assert(pre.drop_last()[t] == pre[t]);
        }
        assert(post.drop_last()[i] == post[i]);
        lemma_count_insert(pre.drop_last(), post.drop_last(), i);
        assert(pre.last().0 != post[i].0);
        assert(post.last().0 != key);
        assert(count_in(post, key) == count_in(post.drop_last(), key));
        assert(count_in(post, key) == post[i].1);
        assert forall|k: int| k != post[i].0 implies count_in(post, k) == count_in(pre, k) by {
            if pre.last().0 == k {
                assert(count_in(post, k) == post.last().1);
                assert(count_in(pre, k) == pre.last().1);
            } else {
                assert(count_in(post, k) == count_in(post.drop_last(), k));
                assert(count_in(pre, k) == count_in(pre.drop_last(), k));
            }
        }
    }
}

/// Removing an entry zeroes its key's count and leaves other keys alone.
proof fn lemma_count_remove(pre: Seq<(i64, usize)>, post: Seq<(i64, usize)>, i: int)
    requires
        0 <= i < pre.len(),
        post == pre.remove(i),
        forall|t1: int, t2: int| 0 <= t1 < t2 < pre.len() ==> pre[t1].0 < pre[t2].0,
    ensures
        count_in(post, pre[i].0 as int) == 0,
        forall|k: int| k != pre[i].0 ==> count_in(post, k) == count_in(pre, k),
        forall|t1: int, t2: int| 0 <= t1 < t2 < post.len() ==> post[t1].0 < post[t2].0,
    decreases pre.len(),
{
    let key = pre[i].0 as int;
    assert forall|t1: int, t2: int| 0 <= t1 < t2 < post.len() implies post[t1].0 < post[t2].0 by {
        if t2 < i {
            assert(post[t1] == pre[t1] && post[t2] == pre[t2]);
        } else if t1 < i {
            assert(post[t1] == pre[t1] && post[t2] == pre[t2 + 1]);
        } else {
            assert(post[t1] == pre[t1 + 1] && post[t2] == pre[t2 + 1]);
        }
    }
    assert forall|t: int| 0 <= t < post.len() implies (#[trigger] post[t]).0 != pre[i].0 by {
        if t < i {
            assert(post[t] == pre[t]);
            assert(pre[t].0 < pre[i].0);
        } else {
            assert(post[t] == pre[t + 1]);
            assert(pre[i].0 < pre[t + 1].0);
        }
    }
    lemma_count_absent(post, key);
    assert forall|k: int| k != pre[i].0 implies count_in(post, k) == count_in(pre, k) by {
        lemma_count_remove_other(pre, post, i, k);
    }
}

/// Removing an entry leaves the counts of other keys unchanged.
proof fn lemma_count_remove_other(pre: Seq<(i64, usize)>, post: Seq<(i64, usize)>, i: int, k: int)
    requires
        0 <= i < pre.len(),
        post == pre.remove(i),
        k != pre[i].0,
    ensures
        count_in(post, k) == count_in(pre, k),
    decreases pre.len(),
{
    if i == pre.len() - 1 {
        assert(post =~= pre.drop_last());
    } else {
        assert(post.len() == pre.len() - 1);
        assert(post.last() == pre.last());
        assert(post.drop_last() =~= pre.drop_last().remove(i));
        lemma_count_remove_other(pre.drop_last(), post.drop_last(), i, k);
    }
}

} // verus!
