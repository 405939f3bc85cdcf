//! A disjoint-set forest with path compression: `find` returns a set's
//! representative, `union` merges two sets, and both are proved to
//! preserve or merge the partition exactly.

use vstd::prelude::*;

verus! {

/// A union-find structure over the elements `0 .. n`.
///
/// The ghost `depth` assigns every element a rank that strictly decreases
/// along parent links, which makes the parent chains well-founded.
pub struct UnionFind {
    p: Vec<usize>,
    depth: Ghost<Seq<int>>,
}

impl UnionFind {
    /// Parent links stay in range and strictly decrease the ghost depth,
    /// so every chain reaches a root.
    pub closed spec fn wf(&self) -> bool {
        &&& self.p@.len() == self.depth@.len()
        &&& forall|i: int| 0 <= i < self.p@.len() ==> #[trigger] self.p@[i] < self.p@.len()
        &&& forall|i: int| 0 <= i < self.p@.len() ==> #[trigger] self.depth@[i] >= 0
        &&& forall|i: int|
            0 <= i < self.p@.len() && #[trigger] self.p@[i] != i ==> self.depth@[self.p@[i] as int]
                < self.depth@[i]
    }

    /// The number of elements.
    pub closed spec fn spec_len(&self) -> int {
        self.p@.len() as int
    }

    /// The ghost rank of an element, the measure by which parent chains
    /// terminate.
    pub closed spec fn depth_of(&self, i: int) -> int {
        self.depth@[i]
    }

    /// The representative of the set containing `i`: the end of the parent
    /// chain.
    pub closed spec fn root_of(&self, i: int) -> int
        decreases self.depth_of(i),
        when self.wf() && 0 <= i < self.spec_len()
    {
        if self.p@[i] == i {
            i
        } else {
            self.root_of(self.p@[i] as int)
        }
    }

    /// Whether `i` and `j` belong to the same set.
    pub open spec fn same_set(&self, i: int, j: int) -> bool {
        self.root_of(i) == self.root_of(j)
    }

    /// O(n).  A structure of `n` singleton sets.
    pub fn new(n: usize) -> (r: UnionFind)
        ensures
            r.wf(),
            r.spec_len() == n,
            forall|i: int| 0 <= i < n ==> #[trigger] r.root_of(i) == i,
    {
        let mut p: Vec<usize> = Vec::new();
        while p.len() < n
            invariant
                p@.len() <= n,
                forall|i: int| 0 <= i < p@.len() ==> #[trigger] p@[i] == i,
            decreases n - p@.len(),
        {
            let t = p.len();
            p.push(t);
        }
        let r = UnionFind { p, depth: Ghost(Seq::new(n as nat, |i: int| 0int)) };
        proof {
            assert forall|i: int| 0 <= i < n implies #[trigger] r.root_of(i) == i by {
                assert(r.p@[i] == i);
            }
        }
        r
    }

    /// Amortized O(alpha(n)).  The representative of `i`'s set, compressing
    /// the path behind it; which set each element belongs to is unchanged.
    pub fn find(&mut self, i: usize) -> (r: usize)
        requires
            old(self).wf(),
            i < old(self).spec_len(),
        ensures
            final(self).wf(),
            final(self).spec_len() == old(self).spec_len(),
            r == old(self).root_of(i as int),
            forall|j: int|
                0 <= j < old(self).spec_len() ==> final(self).root_of(j) == old(self).root_of(j),
        decreases old(self).depth_of(i as int),
    {
        let pi = self.p[i];
        if pi == i {
            proof {
                assert(self.root_of(i as int) == i);
            }
            i
        } else {
            let ghost pre = *self;
            let r = self.find(pi);
            let ghost mid = *self;
            proof {
                lemma_root_props(&pre, pi as int);
                assert(pre.root_of(i as int) == pre.root_of(pi as int));
                assert(mid.root_of(i as int) == pre.root_of(i as int));
                assert(mid.root_of(i as int) != i);
                assert(mid.p@[i as int] != i);
                lemma_root_is_root(&mid, r as int);
                lemma_root_depth(&mid, i as int);
                assert(mid.root_of(i as int) == mid.root_of(mid.p@[i as int] as int));
            }
            self.p[i] = r;
            proof {
                assert(self.depth@ == mid.depth@);
                // the new link points at the root, whose depth lies below
                // every element of the chain
                assert forall|j: int|
                    0 <= j < self.p@.len() && #[trigger] self.p@[j] != j implies self.depth@[
                self.p@[j] as int] < self.depth@[j] by {
                    if j != i {
                        assert(self.p@[j] == mid.p@[j]);
                    } else {
                        lemma_root_depth(&mid, i as int);
                    }
                }
                lemma_redirect_preserves_roots(&mid, self, i as int, r as int);
            }
            r
        }
    }

    /// Amortized O(alpha(n)).  Merge the sets containing `i` and `j`; two
    /// elements end up together exactly when they were already together or
    /// their sets were the two merged ones.
    pub fn union(&mut self, i: usize, j: usize)
        requires
            old(self).wf(),
            i < old(self).spec_len(),
            j < old(self).spec_len(),
        ensures
            final(self).wf(),
            final(self).spec_len() == old(self).spec_len(),
            forall|a: int, b: int|
                0 <= a < old(self).spec_len() && 0 <= b < old(self).spec_len() ==> (
                #[trigger] final(self).same_set(a, b) <==> (old(self).same_set(a, b) || (old(
                    self,
                ).same_set(a, i as int) && old(self).same_set(b, j as int)) || (old(
                    self,
                ).same_set(a, j as int) && old(self).same_set(b, i as int)))),
    {
        let ni = self.find(i);
        let nj = self.find(j);
        let ghost mid = *self;
        if ni == nj {
            proof {
                assert forall|a: int, b: int|
                    0 <= a < mid.spec_len() && 0 <= b < mid.spec_len() implies (
                #[trigger] self.same_set(a, b) <==> (mid.same_set(a, b) || (mid.same_set(
                    a,
                    i as int,
                ) && mid.same_set(b, j as int)) || (mid.same_set(a, j as int) && mid.same_set(
                    b,
                    i as int,
                )))) by {}
            }
            return ;
        }
        proof {
            lemma_root_is_root(&mid, ni as int);
            lemma_root_is_root(&mid, nj as int);
        }
        let ghost newdepth = Seq::new(
            mid.depth@.len(),
            |x: int|
                if mid.root_of(x) == ni as int {
                    mid.depth@[x] + mid.depth@[nj as int] + 1
                } else {
                    mid.depth@[x]
                },
        );
        self.p[ni] = nj;
        self.depth = Ghost(newdepth);
        proof {
            lemma_link_wf(&mid, self, ni as int, nj as int);
        }
    }
}

/// The root of a chain is linked to itself.
proof fn lemma_root_is_root(uf: &UnionFind, r: int)
    requires
        uf.wf(),
        exists|i: int| 0 <= i < uf.p@.len() && #[trigger] uf.root_of(i) == r,
    ensures
        0 <= r < uf.p@.len(),
        uf.p@[r] == r,
        uf.root_of(r) == r,
{
    let i = choose|i: int| 0 <= i < uf.p@.len() && #[trigger] uf.root_of(i) == r;
    lemma_root_props(uf, i);
}

/// Walking to the root stays in range, ends at a self-link, and never
/// increases the depth.
proof fn lemma_root_props(uf: &UnionFind, i: int)
    requires
        uf.wf(),
        0 <= i < uf.p@.len(),
    ensures
        0 <= uf.root_of(i) < uf.p@.len(),
        uf.p@[uf.root_of(i)] == uf.root_of(i),
        uf.depth@[uf.root_of(i)] <= uf.depth@[i],
    decreases uf.depth@[i],
{
    if uf.p@[i] != i {
        lemma_root_props(uf, uf.p@[i] as int);
    }
}

/// The depth of a non-root strictly exceeds its root's depth.
proof fn lemma_root_depth(uf: &UnionFind, i: int)
    requires
        uf.wf(),
        0 <= i < uf.p@.len(),
        uf.p@[i] != i,
    ensures
        uf.depth@[uf.root_of(i)] < uf.depth@[i],
        uf.root_of(i) == uf.root_of(uf.p@[i] as int),
{
    lemma_root_props(uf, uf.p@[i] as int);
}

/// Redirecting one element straight to its own root changes no element's
/// root.
proof fn lemma_redirect_preserves_roots(
    pre: &UnionFind,
    post: &UnionFind,
    i: int,
    r: int,
)
    requires
        pre.wf(),
        post.wf(),
        0 <= i < pre.p@.len(),
        pre.root_of(i) == r,
        post.p@ == pre.p@.update(i, r as usize),
        post.depth@ == pre.depth@,
        0 <= r < pre.p@.len(),
        pre.p@[r] == r,
    ensures
        forall|j: int| 0 <= j < pre.p@.len() ==> post.root_of(j) == pre.root_of(j),
{
    assert forall|j: int| 0 <= j < pre.p@.len() implies post.root_of(j) == pre.root_of(j) by {
        lemma_redirect_one(pre, post, i, r, j);
    }
}

/// Roots are preserved pointwise under redirection, by induction on the
/// depth of the chain.
proof fn lemma_redirect_one(pre: &UnionFind, post: &UnionFind, i: int, r: int, j: int)
    requires
        pre.wf(),
        post.wf(),
        0 <= i < pre.p@.len(),
        pre.root_of(i) == r,
        post.p@ == pre.p@.update(i, r as usize),
        post.depth@ == pre.depth@,
        0 <= r < pre.p@.len(),
        pre.p@[r] == r,
        0 <= j < pre.p@.len(),
    ensures
        post.root_of(j) == pre.root_of(j),
    decreases pre.depth@[j],
{
    if j == i {
        if pre.p@[i] == i {
            assert(r == i);
        } else {
            assert(post.p@[j] == r);
            if r == i {
                assert(post.root_of(j) == r);
            } else {
                lemma_redirect_one(pre, post, i, r, r);
                assert(pre.root_of(r) == r);
            }
        }
    } else {
        if pre.p@[j] == j {
        } else {
            lemma_root_depth(pre, j);
            lemma_redirect_one(pre, post, i, r, pre.p@[j] as int);
        }
    }
}

/// Linking root `ni` under root `nj`, with the ghost depths lifted on the
/// absorbed tree, keeps the structure well-formed and redirects exactly
/// the absorbed set.
proof fn lemma_link_wf(pre: &UnionFind, post: &UnionFind, ni: int, nj: int)
    requires
        pre.wf(),
        0 <= ni < pre.p@.len(),
        0 <= nj < pre.p@.len(),
        ni != nj,
        pre.p@[ni] == ni,
        pre.p@[nj] == nj,
        post.p@ == pre.p@.update(ni, nj as usize),
        post.depth@ == Seq::new(
            pre.depth@.len(),
            |x: int|
                if pre.root_of(x) == ni {
                    pre.depth@[x] + pre.depth@[nj] + 1
                } else {
                    pre.depth@[x]
                },
        ),
    ensures
        post.wf(),
        forall|x: int|
            0 <= x < pre.p@.len() ==> post.root_of(x) == (if pre.root_of(x) == ni {
                nj
            } else {
                pre.root_of(x)
            }),
        forall|a: int, b: int|
            0 <= a < pre.p@.len() && 0 <= b < pre.p@.len() ==> (#[trigger] post.same_set(a, b)
                <==> (pre.same_set(a, b) || (pre.same_set(a, ni) && pre.same_set(b, nj)) || (
            pre.same_set(a, nj) && pre.same_set(b, ni)))),
{
    assert(pre.root_of(ni) == ni);
    assert(pre.root_of(nj) == nj);
    assert forall|x: int|
        0 <= x < post.p@.len() && #[trigger] post.p@[x] != x implies post.depth@[
    post.p@[x] as int] < post.depth@[x] by {
        if x == ni {
            assert(pre.root_of(ni) == ni);
            assert(post.depth@[nj] == pre.depth@[nj]);
            assert(post.depth@[ni] == pre.depth@[ni] + pre.depth@[nj] + 1);
        } else {
            assert(pre.p@[x] != x);
            lemma_root_depth(pre, x);
            assert(pre.root_of(x) == pre.root_of(pre.p@[x] as int));
        }
    }
    assert(post.wf());
    assert forall|x: int| 0 <= x < pre.p@.len() implies post.root_of(x) == (if pre.root_of(x)
        == ni {
        nj
    } else {
        pre.root_of(x)
    }) by {
        lemma_link_root(pre, post, ni, nj, x);
    }
}

/// The pointwise root map after linking, by induction on depth.
proof fn lemma_link_root(pre: &UnionFind, post: &UnionFind, ni: int, nj: int, x: int)
    requires
        pre.wf(),
        post.wf(),
        0 <= ni < pre.p@.len(),
        0 <= nj < pre.p@.len(),
        ni != nj,
        pre.p@[ni] == ni,
        pre.p@[nj] == nj,
        post.p@ == pre.p@.update(ni, nj as usize),
        0 <= x < pre.p@.len(),
    ensures
        post.root_of(x) == (if pre.root_of(x) == ni {
            nj
        } else {
            pre.root_of(x)
        }),
    decreases pre.depth@[x],
{
    if pre.p@[x] == x {
        if x == ni {
            assert(post.p@[x] == nj);
            assert(post.root_of(x) == post.root_of(nj));
            assert(post.p@[nj] == nj);
        } else {
            assert(post.p@[x] == x);
        }
    } else {
        assert(x != ni);
        lemma_root_depth(pre, x);
        lemma_link_root(pre, post, ni, nj, pre.p@[x] as int);
        assert(post.p@[x] == pre.p@[x]);
    }
}

} // verus!
