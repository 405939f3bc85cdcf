//! Adjacency-list graphs: construction from edge lists, breadth-first
//! traversal, and distance tables.

use std::collections::VecDeque;
use vstd::prelude::*;

verus! {

/// An unweighted graph as adjacency lists.
pub type UnweightedGraph = Vec<Vec<usize>>;

/// A weighted graph as adjacency lists of `(target, weight)` pairs.
pub type WeightedGraph = Vec<Vec<(usize, i64)>>;

/// The targets of the edges leaving `u`, in input order.
pub open spec fn adj_directed(edges: Seq<(usize, usize)>, u: int) -> Seq<usize>
    decreases edges.len(),
{
    if edges.len() == 0 {
        Seq::empty()
    } else {
        adj_directed(edges.drop_last(), u) + (if edges.last().0 == u {
            seq![edges.last().1]
        } else {
            Seq::empty()
        })
    }
}

/// The neighbours of `u` when every edge runs both ways, in input order.
pub open spec fn adj_undirected(edges: Seq<(usize, usize)>, u: int) -> Seq<usize>
    decreases edges.len(),
{
    if edges.len() == 0 {
        Seq::empty()
    } else {
        adj_undirected(edges.drop_last(), u) + (if edges.last().0 == u {
            seq![edges.last().1]
        } else {
            Seq::empty()
        }) + (if edges.last().1 == u {
            seq![edges.last().0]
        } else {
            Seq::empty()
        })
    }
}

/// The weighted edges leaving `u`, in input order.
pub open spec fn adjw_directed(edges: Seq<(usize, usize, i64)>, u: int) -> Seq<(usize, i64)>
    decreases edges.len(),
{
    if edges.len() == 0 {
        Seq::empty()
    } else {
        adjw_directed(edges.drop_last(), u) + (if edges.last().0 == u {
            seq![(edges.last().1, edges.last().2)]
        } else {
            Seq::empty()
        })
    }
}

/// The weighted neighbours of `u` when every edge runs both ways.
pub open spec fn adjw_undirected(edges: Seq<(usize, usize, i64)>, u: int) -> Seq<(usize, i64)>
    decreases edges.len(),
{
    if edges.len() == 0 {
        Seq::empty()
    } else {
        adjw_undirected(edges.drop_last(), u) + (if edges.last().0 == u {
            seq![(edges.last().1, edges.last().2)]
        } else {
            Seq::empty()
        }) + (if edges.last().1 == u {
            seq![(edges.last().0, edges.last().2)]
        } else {
            Seq::empty()
        })
    }
}

/// O(n + m).  The directed graph with the given edges.
pub fn make_directed_graph(n: usize, edges: &[(usize, usize)]) -> (g: UnweightedGraph)
    requires
        forall|t: int|
            0 <= t < edges@.len() ==> (#[trigger] edges@[t]).0 < n && edges@[t].1 < n,
    ensures
        g@.len() == n,
        forall|u: int| 0 <= u < n ==> (#[trigger] g@[u])@ == adj_directed(edges@, u),
{
    let mut g: Vec<Vec<usize>> = Vec::new();
    while g.len() < n
        invariant
            g@.len() <= n,
            forall|u: int| 0 <= u < g@.len() ==> (#[trigger] g@[u])@ == Seq::<usize>::empty(),
        decreases n - g@.len(),
    {
        g.push(Vec::new());
    }
    proof {
        assert forall|u: int| 0 <= u < n implies (#[trigger] g@[u])@ == adj_directed(
            edges@.take(0),
            u,
        ) by {
            assert(adj_directed(edges@.take(0), u) =~= Seq::<usize>::empty());
        }
    }
    let mut i: usize = 0;
    while i < edges.len()
        invariant
            i <= edges@.len(),
            g@.len() == n,
            forall|t: int|
                0 <= t < edges@.len() ==> (#[trigger] edges@[t]).0 < n && edges@[t].1 < n,
            forall|u: int|
                0 <= u < n ==> (#[trigger] g@[u])@ == adj_directed(edges@.take(i as int), u),
        decreases edges@.len() - i,
    {
        let (u, v) = edges[i];
        let ghost pre = g@;
        let row = &mut g[u];
        row.push(v);
        proof {
            assert forall|w: int| 0 <= w < n implies (#[trigger] g@[w])@ == adj_directed(
                edges@.take(i + 1),
                w,
            ) by {
                assert(edges@.take(i + 1).drop_last() =~= edges@.take(i as int));
                assert(edges@.take(i + 1).last() == edges@[i as int]);
                if w == u {
                    assert(g@[w]@ =~= adj_directed(edges@.take(i + 1), w));
                } else {
                    assert(g@[w]@ == pre[w]@);
                    assert(g@[w]@ =~= adj_directed(edges@.take(i + 1), w));
                }
            }
        }
        i = i + 1;
    }
    proof {
        assert(edges@.take(edges@.len() as int) =~= edges@);
    }
    g
}

/// O(n + m).  The undirected graph with the given edges: each edge is
/// entered in both endpoint lists.
pub fn make_undirected_graph(n: usize, edges: &[(usize, usize)]) -> (g: UnweightedGraph)
    requires
        forall|t: int|
            0 <= t < edges@.len() ==> (#[trigger] edges@[t]).0 < n && edges@[t].1 < n,
    ensures
        g@.len() == n,
        forall|u: int| 0 <= u < n ==> (#[trigger] g@[u])@ == adj_undirected(edges@, u),
{
    let mut g: Vec<Vec<usize>> = Vec::new();
    while g.len() < n
        invariant
            g@.len() <= n,
            forall|u: int| 0 <= u < g@.len() ==> (#[trigger] g@[u])@ == Seq::<usize>::empty(),
        decreases n - g@.len(),
    {
        g.push(Vec::new());
    }
    proof {
        assert forall|u: int| 0 <= u < n implies (#[trigger] g@[u])@ == adj_undirected(
            edges@.take(0),
            u,
        ) by {
            assert(adj_undirected(edges@.take(0), u) =~= Seq::<usize>::empty());
        }
    }
    let mut i: usize = 0;
    while i < edges.len()
        invariant
            i <= edges@.len(),
            g@.len() == n,
            forall|t: int|
                0 <= t < edges@.len() ==> (#[trigger] edges@[t]).0 < n && edges@[t].1 < n,
            forall|u: int|
                0 <= u < n ==> (#[trigger] g@[u])@ == adj_undirected(edges@.take(i as int), u),
        decreases edges@.len() - i,
    {
        let (u, v) = edges[i];
        let ghost pre = g@;
        let row = &mut g[u];
        row.push(v);
        let ghost mid = g@;
        let row2 = &mut g[v];
        row2.push(u);
        proof {
            assert forall|w: int| 0 <= w < n implies (#[trigger] g@[w])@ == adj_undirected(
                edges@.take(i + 1),
                w,
            ) by {
                assert(edges@.take(i + 1).drop_last() =~= edges@.take(i as int));
                assert(edges@.take(i + 1).last() == edges@[i as int]);
                if w == u && w == v {
                    assert(mid[w]@ == pre[w]@ + seq![v]);
                    assert(g@[w]@ == mid[w]@ + seq![u]);
                    assert(g@[w]@ =~= adj_undirected(edges@.take(i + 1), w));
                } else if w == u {
                    assert(g@[w]@ == mid[w]@);
                    assert(mid[w]@ == pre[w]@ + seq![v]);
                    assert(g@[w]@ =~= adj_undirected(edges@.take(i + 1), w));
                } else if w == v {
                    assert(mid[w]@ == pre[w]@);
                    assert(g@[w]@ == mid[w]@ + seq![u]);
                    assert(g@[w]@ =~= adj_undirected(edges@.take(i + 1), w));
                } else {
                    assert(g@[w]@ == pre[w]@);
                    assert(g@[w]@ =~= adj_undirected(edges@.take(i + 1), w));
                }
            }
        }
        i = i + 1;
    }
    proof {
        assert(edges@.take(edges@.len() as int) =~= edges@);
    }
    g
}

/// O(n + m).  The weighted directed graph with the given edges.
pub fn make_weighted_directed_graph(n: usize, edges: &[(usize, usize, i64)]) -> (g:
    WeightedGraph)
    requires
        forall|t: int|
            0 <= t < edges@.len() ==> (#[trigger] edges@[t]).0 < n && edges@[t].1 < n,
    ensures
        g@.len() == n,
        forall|u: int| 0 <= u < n ==> (#[trigger] g@[u])@ == adjw_directed(edges@, u),
{
    let mut g: Vec<Vec<(usize, i64)>> = Vec::new();
    while g.len() < n
        invariant
            g@.len() <= n,
            forall|u: int|
                0 <= u < g@.len() ==> (#[trigger] g@[u])@ == Seq::<(usize, i64)>::empty(),
        decreases n - g@.len(),
    {
        g.push(Vec::new());
    }
    proof {
        assert forall|u: int| 0 <= u < n implies (#[trigger] g@[u])@ == adjw_directed(
            edges@.take(0),
            u,
        ) by {
            assert(adjw_directed(edges@.take(0), u) =~= Seq::<(usize, i64)>::empty());
        }
    }
    let mut i: usize = 0;
    while i < edges.len()
        invariant
            i <= edges@.len(),
            g@.len() == n,
            forall|t: int|
                0 <= t < edges@.len() ==> (#[trigger] edges@[t]).0 < n && edges@[t].1 < n,
            forall|u: int|
                0 <= u < n ==> (#[trigger] g@[u])@ == adjw_directed(edges@.take(i as int), u),
        decreases edges@.len() - i,
    {
        let (u, v, w) = edges[i];
        let ghost pre = g@;
        let row = &mut g[u];
        row.push((v, w));
        proof {
            assert forall|x: int| 0 <= x < n implies (#[trigger] g@[x])@ == adjw_directed(
                edges@.take(i + 1),
                x,
            ) by {
                assert(edges@.take(i + 1).drop_last() =~= edges@.take(i as int));
                assert(edges@.take(i + 1).last() == edges@[i as int]);
                if x == u {
                    assert(g@[x]@ =~= adjw_directed(edges@.take(i + 1), x));
                } else {
                    assert(g@[x]@ == pre[x]@);
                    assert(g@[x]@ =~= adjw_directed(edges@.take(i + 1), x));
                }
            }
        }
        i = i + 1;
    }
    proof {
        assert(edges@.take(edges@.len() as int) =~= edges@);
    }
    g
}

/// O(n + m).  The weighted undirected graph with the given edges.
pub fn make_weighted_undirected_graph(n: usize, edges: &[(usize, usize, i64)]) -> (g:
    WeightedGraph)
    requires
        forall|t: int|
            0 <= t < edges@.len() ==> (#[trigger] edges@[t]).0 < n && edges@[t].1 < n,
    ensures
        g@.len() == n,
        forall|u: int| 0 <= u < n ==> (#[trigger] g@[u])@ == adjw_undirected(edges@, u),
{
    let mut g: Vec<Vec<(usize, i64)>> = Vec::new();
    while g.len() < n
        invariant
            g@.len() <= n,
            forall|u: int|
                0 <= u < g@.len() ==> (#[trigger] g@[u])@ == Seq::<(usize, i64)>::empty(),
        decreases n - g@.len(),
    {
        g.push(Vec::new());
    }
    proof {
        assert forall|u: int| 0 <= u < n implies (#[trigger] g@[u])@ == adjw_undirected(
            edges@.take(0),
            u,
        ) by {
            assert(adjw_undirected(edges@.take(0), u) =~= Seq::<(usize, i64)>::empty());
        }
    }
    let mut i: usize = 0;
    while i < edges.len()
        invariant
            i <= edges@.len(),
            g@.len() == n,
            forall|t: int|
                0 <= t < edges@.len() ==> (#[trigger] edges@[t]).0 < n && edges@[t].1 < n,
            forall|u: int|
                0 <= u < n ==> (#[trigger] g@[u])@ == adjw_undirected(edges@.take(i as int), u),
        decreases edges@.len() - i,
    {
        let (u, v, w) = edges[i];
        let ghost pre = g@;
        let row = &mut g[u];
        row.push((v, w));
        let ghost mid = g@;
        let row2 = &mut g[v];
        row2.push((u, w));
        proof {
            assert forall|x: int| 0 <= x < n implies (#[trigger] g@[x])@ == adjw_undirected(
                edges@.take(i + 1),
                x,
            ) by {
                assert(edges@.take(i + 1).drop_last() =~= edges@.take(i as int));
                assert(edges@.take(i + 1).last() == edges@[i as int]);
                if x == u && x == v {
                    assert(mid[x]@ == pre[x]@ + seq![(v, w)]);
                    assert(g@[x]@ == mid[x]@ + seq![(u, w)]);
                    assert(g@[x]@ =~= adjw_undirected(edges@.take(i + 1), x));
                } else if x == u {
                    assert(g@[x]@ == mid[x]@);
                    assert(mid[x]@ == pre[x]@ + seq![(v, w)]);
                    assert(g@[x]@ =~= adjw_undirected(edges@.take(i + 1), x));
                } else if x == v {
                    assert(mid[x]@ == pre[x]@);
                    assert(g@[x]@ == mid[x]@ + seq![(u, w)]);
                    assert(g@[x]@ =~= adjw_undirected(edges@.take(i + 1), x));
                } else {
                    assert(g@[x]@ == pre[x]@);
                    assert(g@[x]@ =~= adjw_undirected(edges@.take(i + 1), x));
                }
            }
        }
        i = i + 1;
    }
    proof {
        assert(edges@.take(edges@.len() as int) =~= edges@);
    }
    g
}

/// There is an edge from `a` to `b`.
pub open spec fn edge(g: Seq<Vec<usize>>, a: int, b: int) -> bool {
    0 <= a < g.len() && exists|j: int| 0 <= j < g[a]@.len() && g[a]@[j] == b
}

/// The consecutive elements of `p` are joined by edges.
pub open spec fn is_path(g: Seq<Vec<usize>>, p: Seq<int>) -> bool
    decreases p.len(),
{
    if p.len() <= 1 {
        true
    } else {
        edge(g, p[0], p[1]) && is_path(g, p.drop_first())
    }
}

/// Some path leads from `s` to `v`.
pub open spec fn reachable(g: Seq<Vec<usize>>, s: int, v: int) -> bool {
    exists|p: Seq<int>| is_path(g, p) && p.len() >= 1 && p[0] == s && p.last() == v
}

/// Every vertex reaches itself.
proof fn lemma_reach_self(g: Seq<Vec<usize>>, s: int)
    ensures
        reachable(g, s, s),
{
    let p = seq![s];
    assert(is_path(g, p) && p.len() >= 1 && p[0] == s && p.last() == s);
}

/// A path extends along an edge.
proof fn lemma_path_push(g: Seq<Vec<usize>>, p: Seq<int>, w: int)
    requires
        is_path(g, p),
        p.len() >= 1,
        edge(g, p.last(), w),
    ensures
        is_path(g, p.push(w)),
    decreases p.len(),
{
    if p.len() == 1 {
        assert(p.push(w)[0] == p[0] && p.push(w)[1] == w);
        assert(p.push(w).drop_first() =~= seq![w]);
        assert(is_path(g, seq![w]));
        assert(is_path(g, p.push(w)));
    } else {
        assert(p.drop_first().last() == p.last());
        lemma_path_push(g, p.drop_first(), w);
        assert(p.push(w).drop_first() =~= p.drop_first().push(w));
        assert(p.push(w)[0] == p[0] && p.push(w)[1] == p[1]);
        assert(is_path(g, p.push(w)));
    }
}

/// Reachability extends along an edge.
proof fn lemma_reach_step(g: Seq<Vec<usize>>, s: int, u: int, w: int)
    requires
        reachable(g, s, u),
        edge(g, u, w),
    ensures
        reachable(g, s, w),
{
    let p = choose|p: Seq<int>| is_path(g, p) && p.len() >= 1 && p[0] == s && p.last() == u;
    lemma_path_push(g, p, w);
    let p2 = p.push(w);
    assert(is_path(g, p2) && p2.len() >= 1 && p2[0] == s && p2.last() == w);
}

/// Every edge target is a vertex.
pub open spec fn graph_ok(g: Seq<Vec<usize>>) -> bool {
    forall|u: int, j: int|
        0 <= u < g.len() && 0 <= j < g[u]@.len() ==> (#[trigger] g[u]@[j]) < g.len()
}

/// `x` is one of the queued values.
pub open spec fn in_q(q: Seq<usize>, x: int) -> bool {
    exists|t: int| 0 <= t < q.len() && q[t] == x
}

/// The number of table entries already assigned a distance.
pub open spec fn count_assigned(s: Seq<usize>) -> int
    decreases s.len(),
{
    if s.len() == 0 {
        0
    } else {
        count_assigned(s.drop_last()) + (if s.last() != usize::MAX {
            1int
        } else {
            0int
        })
    }
}

/// A table of unassigned entries counts zero.
proof fn lemma_count_assigned_zero(s: Seq<usize>)
    requires
        forall|t: int| 0 <= t < s.len() ==> #[trigger] s[t] == usize::MAX,
    ensures
        count_assigned(s) == 0,
    decreases s.len(),
{
    if s.len() > 0 {
        lemma_count_assigned_zero(s.drop_last());
    }
}

/// With an unassigned entry present, the count stays under the length.
proof fn lemma_count_assigned_lt(s: Seq<usize>, i: int)
    requires
        0 <= i < s.len(),
        s[i] == usize::MAX,
    ensures
        count_assigned(s) < s.len(),
    decreases s.len(),
{
    lemma_count_assigned_le(s.drop_last());
    if i == s.len() - 1 {
    } else {
        assert(s.drop_last()[i] == s[i]);
        lemma_count_assigned_lt(s.drop_last(), i);
    }
}

/// The assigned count never exceeds the length.
proof fn lemma_count_assigned_le(s: Seq<usize>)
    ensures
        0 <= count_assigned(s) <= s.len(),
    decreases s.len(),
{
    if s.len() > 0 {
        lemma_count_assigned_le(s.drop_last());
    }
}

/// Assigning an unassigned entry raises the count by one.
proof fn lemma_count_assigned_update(pre: Seq<usize>, post: Seq<usize>, i: int)
    requires
        0 <= i < pre.len(),
        pre[i] == usize::MAX,
        post[i] != usize::MAX,
        post == pre.update(i, post[i]),
    ensures
        count_assigned(post) == count_assigned(pre) + 1,
    decreases pre.len(),
{
    if i == pre.len() - 1 {
        assert(post.drop_last() =~= pre.drop_last());
    } else {
        assert(post.last() == pre.last());
        assert(post.drop_last() =~= pre.drop_last().update(i, post[i]));
        assert(post.drop_last()[i] == post[i]);
        lemma_count_assigned_update(pre.drop_last(), post.drop_last(), i);
    }
}

/// The number of queued entries without a parent.
pub open spec fn count_roots(q: Seq<(usize, Option<usize>)>) -> int
    decreases q.len(),
{
    if q.len() == 0 {
        0
    } else {
        count_roots(q.drop_last()) + (if q.last().1 is None {
            1int
        } else {
            0int
        })
    }
}

/// The root count is nonnegative, and splits off the head entry.
proof fn lemma_count_roots_head(q: Seq<(usize, Option<usize>)>)
    requires
        q.len() >= 1,
    ensures
        count_roots(q) == (if q[0].1 is None {
            1int
        } else {
            0int
        }) + count_roots(q.drop_first()),
        count_roots(q) >= 0,
    decreases q.len(),
{
    if q.len() == 1 {
        assert(q.drop_first() =~= Seq::<(usize, Option<usize>)>::empty());
        assert(count_roots(q.drop_first()) == 0);
        assert(q.drop_last() =~= Seq::<(usize, Option<usize>)>::empty());
        assert(q.last() == q[0]);
    } else {
        lemma_count_roots_head(q.drop_last());
        assert(q.drop_last()[0] == q[0]);
        assert(q.drop_first().drop_last() =~= q.drop_last().drop_first());
        assert(q.drop_first().last() == q.last());
        assert(count_roots(q.drop_first()) == count_roots(q.drop_first().drop_last()) + (
        if q.drop_first().last().1 is None {
            1int
        } else {
            0int
        }));
    }
}

/// A breadth-first traversal in progress over some graph: a frontier
/// queue of `(vertex, parent)` pairs and the set of vertices seen so far.
pub struct Bfs {
    visited: Vec<bool>,
    q: VecDeque<(usize, Option<usize>)>,
}

impl Bfs {
    /// The traversal state fits the graph: queued vertices are in range
    /// and already marked, and every queued parent link is a real edge.
    pub closed spec fn wf(&self, g: Seq<Vec<usize>>) -> bool {
        &&& self.visited@.len() == g.len()
        &&& forall|t: int|
            0 <= t < self.q@.len() ==> (#[trigger] self.q@[t]).0 < g.len() && self.visited@[
            self.q@[t].0 as int]
        &&& forall|t: int|
            0 <= t < self.q@.len() ==> ((#[trigger] self.q@[t]).1 matches Some(p) ==> edge(
                g,
                p as int,
                self.q@[t].0 as int,
            ))
    }

    /// The frontier holds no more entries; the traversal is finished.
    pub closed spec fn done(&self) -> bool {
        self.q@.len() == 0
    }

    /// Amortized O(deg).  The next tree edge `(parent, vertex)` of the
    /// traversal, marking and enqueueing the vertex's unseen neighbours;
    /// nothing once the frontier is exhausted.
    pub fn next(&mut self, g: &UnweightedGraph) -> (r: Option<(usize, usize)>)
        requires
            old(self).wf(g@),
            graph_ok(g@),
        ensures
            final(self).wf(g@),
            r matches Some(pu) ==> edge(g@, pu.0 as int, pu.1 as int),
            r is None ==> final(self).done(),
    {
        loop
            invariant
                self.wf(g@),
                graph_ok(g@),
            decreases count_roots(self.q@) + 1,
        {
            proof {
                if self.q@.len() >= 1 {
                    lemma_count_roots_head(self.q@);
                }
            }
            let popped = self.q.pop_front();
            match popped {
                None => {
                    return None;
                },
                Some((u, prev)) => {
                    let mut j: usize = 0;
                    let ghost rc = count_roots(self.q@);
                    while j < g[u].len()
                        invariant
                            self.wf(g@),
                            graph_ok(g@),
                            u < g@.len(),
                            j <= g@[u as int]@.len(),
                            count_roots(self.q@) == rc,
                        decreases g@[u as int]@.len() - j,
                    {
                        let v = g[u][j];
                        if !self.visited[v] {
                            self.visited[v] = true;
                            let ghost preq = self.q@;
                            self.q.push_back((v, Some(u)));
                            proof {
                                assert(edge(g@, u as int, v as int));
                                assert(self.q@.drop_last() =~= preq);
                            }
                        }
                        j = j + 1;
                    }
                    match prev {
                        Some(p) => {
                            return Some((p, u));
                        },
                        None => {
                        },
                    }
                },
            }
        }
    }
}

/// O(n).  Begin a breadth-first traversal of `g` at `start`.
pub fn bfs(g: &UnweightedGraph, start: usize) -> (r: Bfs)
    requires
        graph_ok(g@),
        start < g@.len(),
    ensures
        r.wf(g@),
{
    let n = g.len();
    let mut visited: Vec<bool> = Vec::new();
    while visited.len() < n
        invariant
            visited@.len() <= n,
            forall|t: int| 0 <= t < visited@.len() ==> !(#[trigger] visited@[t]),
        decreases n - visited@.len(),
    {
        visited.push(false);
    }
    visited[start] = true;
    let mut q: VecDeque<(usize, Option<usize>)> = VecDeque::new();
    q.push_back((start, None));
    Bfs { visited, q }
}

/// O(n + m).  Distances from `start` by breadth-first search: `usize::MAX`
/// marks an unreached vertex.  Every finite entry belongs to a vertex
/// reachable from `start`, is justified by an edge from another finite
/// entry, and finite entries are closed under edges, so they cover
/// exactly the reachable vertices.
#[verifier::rlimit(100)]
pub fn make_dist_table(g: &UnweightedGraph, start: usize) -> (r: Vec<usize>)
    requires
        graph_ok(g@),
        start < g@.len(),
        g@.len() < usize::MAX,
    ensures
        r@.len() == g@.len(),
        r@[start as int] == 0,
        forall|x: int| 0 <= x < g@.len() && #[trigger] r@[x] != usize::MAX ==> reachable(
            g@,
            start as int,
            x,
        ),
        forall|x: int, j: int|
            0 <= x < g@.len() && r@[x] != usize::MAX && 0 <= j < g@[x]@.len()
                ==> r@[(#[trigger] g@[x]@[j]) as int] != usize::MAX,
{
    let n = g.len();
    let mut dist: Vec<usize> = Vec::new();
    while dist.len() < n
        invariant
            dist@.len() <= n,
            forall|t: int| 0 <= t < dist@.len() ==> #[trigger] dist@[t] == usize::MAX,
        decreases n - dist@.len(),
    {
        dist.push(usize::MAX);
    }
    dist[start] = 0;
    let mut q: VecDeque<usize> = VecDeque::new();
    q.push_back(start);
    proof {
        lemma_reach_self(g@, start as int);
        assert(dist@ =~= Seq::new(n as nat, |t: int| usize::MAX).update(start as int, 0usize));
        lemma_count_assigned_update(
            Seq::new(n as nat, |t: int| usize::MAX),
            dist@,
            start as int,
        );
        assert(count_assigned(Seq::new(n as nat, |t: int| usize::MAX)) == 0) by {
            lemma_count_assigned_zero(Seq::new(n as nat, |t: int| usize::MAX));
        }
        assert(q@[0] == start);
        assert(in_q(q@, start as int));
    }
    while q.len() > 0
        invariant
            dist@.len() == n,
            n == g@.len(),
            n < usize::MAX,
            start < n,
            graph_ok(g@),
            dist@[start as int] == 0,
            forall|t: int| 0 <= t < q@.len() ==> (#[trigger] q@[t]) < n && dist@[q@[t] as int]
                != usize::MAX,
            forall|t1: int, t2: int| 0 <= t1 < t2 < q@.len() ==> q@[t1] != q@[t2],
            forall|x: int| 0 <= x < n && #[trigger] dist@[x] != usize::MAX ==> reachable(
                g@,
                start as int,
                x,
            ),
            forall|x: int|
                0 <= x < n && #[trigger] dist@[x] != usize::MAX ==> dist@[x] < count_assigned(
                    dist@,
                ),
            count_assigned(dist@) <= n,
            forall|x: int|
                0 <= x < n && #[trigger] dist@[x] != usize::MAX ==> (in_q(q@, x) || (forall|
                    j: int,
                |
                    0 <= j < g@[x]@.len() ==> dist@[#[trigger] g@[x]@[j] as int]
                        != usize::MAX)),
        decreases n - count_assigned(dist@), q@.len(),
    {
        let ghost preq = q@;
        let u = q.pop_front().unwrap();
        proof {
            assert(preq[0] == u);
            assert(!in_q(q@, u as int)) by {
                if in_q(q@, u as int) {
                    let t = choose|t: int| 0 <= t < q@.len() && q@[t] == u as int;
                    assert(preq[t + 1] == q@[t]);
                    assert(preq[0] != preq[t + 1]);
                }
            }
            assert forall|x: int|
                0 <= x < n && x != u && #[trigger] dist@[x] != usize::MAX && in_q(preq, x)
                implies in_q(q@, x) by {
                let t = choose|t: int| 0 <= t < preq.len() && preq[t] == x;
                assert(t >= 1);
                assert(q@[t - 1] == preq[t]);
            }
        }
        let mut j: usize = 0;
        let ghost entry = count_assigned(dist@);
        let ghost qentry = q@.len();
        while j < g[u].len()
            invariant
                dist@.len() == n,
                n == g@.len(),
                n < usize::MAX,
                start < n,
                graph_ok(g@),
                u < n,
                dist@[start as int] == 0,
                dist@[u as int] != usize::MAX,
                j <= g@[u as int]@.len(),
                count_assigned(dist@) >= entry,
                q@.len() == qentry + count_assigned(dist@) - entry,
                forall|t: int|
                    0 <= t < q@.len() ==> (#[trigger] q@[t]) < n && dist@[q@[t] as int]
                        != usize::MAX,
                forall|t1: int, t2: int| 0 <= t1 < t2 < q@.len() ==> q@[t1] != q@[t2],
                !in_q(q@, u as int),
                forall|x: int| 0 <= x < n && #[trigger] dist@[x] != usize::MAX ==> reachable(
                    g@,
                    start as int,
                    x,
                ),
                forall|x: int|
                    0 <= x < n && #[trigger] dist@[x] != usize::MAX ==> dist@[x]
                        < count_assigned(dist@),
                count_assigned(dist@) <= n,
                forall|x: int|
                    0 <= x < n && x != u && #[trigger] dist@[x] != usize::MAX ==> (in_q(q@, x)
                        || (forall|t: int|
                        0 <= t < g@[x]@.len() ==> dist@[#[trigger] g@[x]@[t] as int]
                            != usize::MAX)),
                forall|t: int|
                    0 <= t < j ==> dist@[#[trigger] g@[u as int]@[t] as int] != usize::MAX,
            decreases g@[u as int]@.len() - j,
        {
            let v = g[u][j];
            if dist[v] == usize::MAX {
                let ghost pred = dist@;
                let du = dist[u];
                proof {
                    lemma_count_assigned_le(dist@);
                    lemma_count_assigned_lt(dist@, v as int);
                }
                dist[v] = du + 1;
                let ghost preq2 = q@;
                q.push_back(v);
                proof {
                    lemma_count_assigned_update(pred, dist@, v as int);
                    assert(edge(g@, u as int, v as int));
                    lemma_reach_step(g@, start as int, u as int, v as int);
                    assert(q@.drop_last() =~= preq2);
                    assert forall|t1: int, t2: int|
                        0 <= t1 < t2 < q@.len() implies q@[t1] != q@[t2] by {
                        if t2 == q@.len() - 1 {
                            assert(q@[t1] == preq2[t1]);
                            assert(pred[q@[t1] as int] != usize::MAX);
                        }
                    }
                    assert(q@[q@.len() - 1] == v);
                    assert forall|x: int|
                        0 <= x < n && x != u as int && #[trigger] dist@[x] != usize::MAX implies
                        (in_q(q@, x) || (forall|t: int|
                            0 <= t < g@[x]@.len() ==> dist@[#[trigger] g@[x]@[t] as int]
                                != usize::MAX)) by {
                        if x == v {
                            assert(in_q(q@, x));
                        } else {
                            assert(pred[x] != usize::MAX);
                            if in_q(preq2, x) {
                                let t = choose|t: int| 0 <= t < preq2.len() && preq2[t] == x;
                                assert(q@[t] == preq2[t]);
                                assert(in_q(q@, x));
                            }
                        }
                    }
                }
            }
            j = j + 1;
        }
    }
    proof {
        assert forall|x: int, j: int|
            0 <= x < g@.len() && dist@[x] != usize::MAX && 0 <= j < g@[x]@.len()
            implies dist@[(#[trigger] g@[x]@[j]) as int] != usize::MAX by {
            assert(!in_q(q@, x));
        }
    }
    dist
}

} // verus!
