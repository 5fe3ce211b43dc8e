use vstd::prelude::*;
use super::{AdjList, Graph, unlabeled, heads};
use crate::graph::{Graph as PlainGraph, LabeledGraph, reverse_rows};
use crate::graph::tsort::{tsort as plain_tsort, is_topological_order, is_cycle, heads_below};
use crate::graph::djikstra::{djikstra as plain_djikstra, Weight, is_walk, walk_weight, heads_in_range};

verus! {

/// `d` counts the edges on a shortest path from `s`: `s` is at 0, every other vertex
/// with a level is one edge past a vertex one level lower, and every edge out of a
/// vertex with a level leads to a vertex with a level at most one higher. The
/// vertices without a level, `usize::MAX`, are those `s` does not reach.
#[verifier::opaque]
pub open spec fn bfs_levels(adj: Seq<Seq<usize>>, s: int, d: Seq<usize>) -> bool {
    &&& d.len() == adj.len()
    &&& d[s] == 0
    &&& forall|v: int|
        0 <= v < adj.len() && v != s && #[trigger] d[v] != usize::MAX ==> exists|u: int, k: int|
            0 <= u < adj.len() && 0 <= k < adj[u].len() && d[u] != usize::MAX && #[trigger] adj[u][k] == v && d[v]
                == d[u] + 1
    &&& forall|u: int, k: int|
        0 <= u < adj.len() && 0 <= k < adj[u].len() && d[u] != usize::MAX ==> d[#[trigger] adj[u][k] as int]
            != usize::MAX && d[adj[u][k] as int] <= d[u] + 1
}

impl<T> AdjList<T> {
    /// The same edges as a labelled graph.
    fn to_labeled(&self) -> (g: LabeledGraph<T>)
        where
            T: Copy,
        ensures
            g.adj() == self.rows(),
    {
        let n = self.len();
        let ghost rows = self.rows();
        let mut b = LabeledGraph::builder(n);
        let mut u: usize = 0;
        while u < n
            invariant
                n == rows.len(),
                rows == self.rows(),
                u <= n,
                b.added().len() == n,
                forall|w: int| 0 <= w < u ==> #[trigger] b.added()[w] == rows[w].reverse(),
                forall|w: int| u <= w < n ==> #[trigger] b.added()[w] == Seq::<(usize, T)>::empty(),
            decreases n - u,
        {
            let row = self.adj(u);
            let mut k = row.len();
            proof {
                assert(row@.subrange(k as int, row@.len() as int).reverse() =~= Seq::<(usize, T)>::empty());
            }
            while k > 0
                invariant
                    n == rows.len(),
                    u < n,
                    row@ == rows[u as int],
                    k <= row@.len(),
                    b.added().len() == n,
                    b.added()[u as int] == row@.subrange(k as int, row@.len() as int).reverse(),
                    forall|w: int| 0 <= w < u ==> #[trigger] b.added()[w] == rows[w].reverse(),
                    forall|w: int| u < w < n ==> #[trigger] b.added()[w] == Seq::<(usize, T)>::empty(),
                decreases k,
            {
                k -= 1;
                let (v, l) = row[k];
                b.edge(u, v, l);
                assert(row@.subrange(k as int, row@.len() as int).reverse() =~= row@.subrange(
                    k as int + 1,
                    row@.len() as int,
                ).reverse().push((v, l)));
            }
            assert(row@.subrange(0, row@.len() as int) =~= row@);
            u += 1;
        }
        let g = b.build();
        proof {
            assert(g.adj() =~= rows) by {
                assert forall|w: int| 0 <= w < n implies #[trigger] g.adj()[w] == rows[w] by {
                    assert(rows[w].reverse().reverse() =~= rows[w]);
                }
            }
        }
        g
    }

    /// The same edges without labels.
    fn to_plain(&self) -> (g: PlainGraph)
        ensures
            g.adj() == unlabeled(self.rows()),
    {
        let n = self.len();
        let ghost rows = self.rows();
        let ghost want = unlabeled(rows);
        let mut b = PlainGraph::builder(n);
        let mut u: usize = 0;
        while u < n
            invariant
                n == rows.len(),
                rows == self.rows(),
                want == unlabeled(rows),
                u <= n,
                b.added().len() == n,
                forall|w: int| 0 <= w < u ==> #[trigger] b.added()[w] == want[w].reverse(),
                forall|w: int| u <= w < n ==> #[trigger] b.added()[w] == Seq::<usize>::empty(),
            decreases n - u,
        {
            let row = self.adj(u);
            let mut k = row.len();
            proof {
                assert(heads(row@).subrange(k as int, row@.len() as int).reverse() =~= Seq::<usize>::empty());
            }
            while k > 0
                invariant
                    n == rows.len(),
                    want == unlabeled(rows),
                    u < n,
                    row@ == rows[u as int],
                    k <= row@.len(),
                    b.added().len() == n,
                    b.added()[u as int] == heads(row@).subrange(k as int, row@.len() as int).reverse(),
                    forall|w: int| 0 <= w < u ==> #[trigger] b.added()[w] == want[w].reverse(),
                    forall|w: int| u < w < n ==> #[trigger] b.added()[w] == Seq::<usize>::empty(),
                decreases k,
            {
                k -= 1;
                let v = row[k].0;
                b.edge(u, v);
                assert(heads(row@).subrange(k as int, row@.len() as int).reverse() =~= heads(row@).subrange(
                    k as int + 1,
                    row@.len() as int,
                ).reverse().push(v));
            }
            assert(heads(row@).subrange(0, row@.len() as int) =~= want[u as int]);
            u += 1;
        }
        let g = b.build();
        proof {
            assert(g.adj() =~= want) by {
                assert forall|w: int| 0 <= w < n implies #[trigger] g.adj()[w] == want[w] by {
                    assert(want[w].reverse().reverse() =~= want[w]);
                }
            }
        }
        g
    }
}

/// Searches over a [`Graph`].
pub trait GraphExt<T>: Graph<T> {
    /// A topological order of the vertices, or `None` when the graph has a cycle.
    fn tsort(&self) -> (r: Option<Vec<usize>>)
        requires
            heads_below(unlabeled(self.rows())),
        ensures
            r matches Some(res) ==> is_topological_order(unlabeled(self.rows()), res@),
            r is None ==> exists|c: Seq<int>| is_cycle(unlabeled(self.rows()), c),
    ;

    /// Distances from `s`, counted from `init`: each reached vertex has a walk from `s`
    /// of that weight above `init`, and no edge out of a reached vertex leads to a
    /// vertex farther than its end by more than its weight, as far as sums fit.
    fn djikstra(&self, s: usize, init: T) -> (res: Vec<Option<T>>)
        where
            T: Weight,
        requires
            s < self.rows().len(),
            heads_in_range(self.rows()),
        ensures
            res@.len() == self.rows().len(),
            res@[s as int] == Some(init),
            forall|v: int|
                0 <= v < res@.len() && #[trigger] res@[v] is Some ==> exists|vs: Seq<int>, ws: Seq<T>|
                    is_walk(self.rows(), s as int, vs, ws) && vs.last() == v && init.val() + walk_weight(ws)
                        == res@[v]->0.val(),
            forall|u: int, k: int|
                0 <= u < self.rows().len() && 0 <= k < self.rows()[u].len() && #[trigger] res@[u] is Some
                    && res@[u]->0.val() + (#[trigger] self.rows()[u][k]).1.val() <= T::max_val() ==> ({
                    let v = self.rows()[u][k].0 as int;
                    &&& res@[v] is Some
                    &&& res@[v]->0.val() <= res@[u]->0.val() + self.rows()[u][k].1.val()
                }),
    ;

    /// The number of edges on a shortest path from `s` to each vertex, by breadth-first
    /// search, or `usize::MAX` where `s` does not reach it.
    fn dist_bfs(&self, s: usize) -> (res: Vec<usize>)
        requires
            s < self.rows().len(),
            heads_below(unlabeled(self.rows())),
        ensures
            bfs_levels(unlabeled(self.rows()), s as int, res@),
    ;
}

impl<T> GraphExt<T> for AdjList<T> {
    fn tsort(&self) -> (r: Option<Vec<usize>>) {
        let g = self.to_plain();
        plain_tsort(&g)
    }

    fn djikstra(&self, s: usize, init: T) -> (res: Vec<Option<T>>)
        where
            T: Weight,
    {
        let g = self.to_labeled();
        let d = plain_djikstra(&g, s);
        let ghost adj = self.rows();
        let mut res: Vec<Option<T>> = Vec::new();
        let mut v: usize = 0;
        while v < d.len()
            invariant
                v <= d@.len(),
                res@.len() == v,
                adj == g.adj(),
                forall|x: int| 0 <= x < v ==> (#[trigger] res@[x] is Some <==> (d@[x] is Some && init.val() + d@[x]->0.val() <= T::max_val())),
                forall|x: int| 0 <= x < v && #[trigger] res@[x] is Some ==> res@[x]->0.val() == init.val() + d@[x]->0.val(),
            decreases d@.len() - v,
        {
            match d[v] {
                Some(x) => res.push(T::checked_plus(init, x)),
                None => res.push(None),
            }
            v += 1;
        }
        proof {
            T::lemma_val_injective(init, init);
            assert(res@[s as int] is Some);
            T::lemma_val_injective(res@[s as int]->0, init);
            assert forall|v: int|
                0 <= v < res@.len() && #[trigger] res@[v] is Some implies exists|vs: Seq<int>, ws: Seq<T>|
                    is_walk(adj, s as int, vs, ws) && vs.last() == v && init.val() + walk_weight(ws) == res@[v]->0.val() by {
                let (vs, ws) = choose|vs: Seq<int>, ws: Seq<T>|
                    is_walk(g.adj(), s as int, vs, ws) && vs.last() == v && walk_weight(ws) == d@[v]->0.val();
            }
            assert forall|u: int, k: int|
                0 <= u < adj.len() && 0 <= k < adj[u].len() && #[trigger] res@[u] is Some
                    && res@[u]->0.val() + (#[trigger] adj[u][k]).1.val() <= T::max_val() implies ({
                    let v = adj[u][k].0 as int;
                    &&& res@[v] is Some
                    &&& res@[v]->0.val() <= res@[u]->0.val() + adj[u][k].1.val()
                }) by {
                assert(d@[u] is Some);
            }
        }
        res
    }

    fn dist_bfs(&self, s: usize) -> (res: Vec<usize>) {
        let n = self.len();
        let ghost adj = unlabeled(self.rows());
        let mut res: Vec<usize> = vec![usize::MAX; n];
        let mut que: Vec<usize> = Vec::new();
        let mut seen: Vec<bool> = vec![false; n];
        proof {
            crate::graph::djikstra::lemma_count_true_none(seen@);
        }
        res.set(s, 0);
        let ghost sb = seen@;
        seen.set(s, true);
        proof {
            crate::graph::djikstra::lemma_count_true_set(sb, s as int);
        }
        que.push(s);
        let mut head: usize = 0;
        proof {
            assert forall|w: int| 0 <= w < n && #[trigger] seen@[w] implies exists|j: int| 0 <= j < que@.len() && que@[j] == w by {
                assert(que@[0] == w);
            }
        }
        while head < que.len()
            invariant
                n == self.rows().len(),
                adj == unlabeled(self.rows()),
                heads_below(adj),
                s < n,
                res@.len() == n,
                seen@.len() == n,
                res@[s as int] == 0,
                crate::graph::djikstra::count_true(seen@) == que@.len(),
                que@.len() <= n,
                head <= que@.len(),
                forall|j: int| 0 <= j < que@.len() ==> (#[trigger] que@[j]) < n && seen@[que@[j] as int],
                forall|w: int| 0 <= w < n ==> (#[trigger] seen@[w] <==> res@[w] != usize::MAX),
                forall|w: int| 0 <= w < n && #[trigger] seen@[w] ==> res@[w] < que@.len(),
                forall|w: int| 0 <= w < n && #[trigger] seen@[w] ==> exists|j: int| 0 <= j < que@.len() && que@[j] == w,
                forall|i: int, j: int| 0 <= i <= j < que@.len() ==> res@[#[trigger] que@[i] as int] <= res@[#[trigger] que@[j] as int],
                head < que@.len() ==> res@[que@[que@.len() - 1] as int] <= res@[que@[head as int] as int] + 1,
                forall|v: int|
                    0 <= v < n && v != s && #[trigger] res@[v] != usize::MAX ==> exists|u: int, k: int|
                        0 <= u < n && 0 <= k < adj[u].len() && res@[u] != usize::MAX && #[trigger] adj[u][k] == v
                            && res@[v] == res@[u] + 1,
                forall|j: int, k: int|
                    0 <= j < head && 0 <= k < adj[que@[j] as int].len() ==> res@[#[trigger] adj[que@[j] as int][k] as int]
                        != usize::MAX && res@[adj[que@[j] as int][k] as int] <= res@[que@[j] as int] + 1,
            decreases n - head,
        {
            let u = que[head];
            head += 1;
            let d = res[u];
            let row = self.adj(u);
            let mut k: usize = 0;
            while k < row.len()
                invariant
                    n == self.rows().len(),
                    adj == unlabeled(self.rows()),
                    heads_below(adj),
                    u < n,
                    row@ == self.rows()[u as int],
                    s < n,
                    res@.len() == n,
                    seen@.len() == n,
                    res@[s as int] == 0,
                    crate::graph::djikstra::count_true(seen@) == que@.len(),
                    que@.len() <= n,
                    1 <= head <= que@.len(),
                    u == que@[head - 1],
                    d == res@[u as int],
                    d < que@.len(),
                    forall|j: int| 0 <= j < que@.len() ==> (#[trigger] que@[j]) < n && seen@[que@[j] as int],
                    forall|w: int| 0 <= w < n ==> (#[trigger] seen@[w] <==> res@[w] != usize::MAX),
                    forall|w: int| 0 <= w < n && #[trigger] seen@[w] ==> res@[w] < que@.len(),
                    forall|w: int| 0 <= w < n && #[trigger] seen@[w] ==> exists|j: int| 0 <= j < que@.len() && que@[j] == w,
                    forall|i: int, j: int| 0 <= i <= j < que@.len() ==> res@[#[trigger] que@[i] as int] <= res@[#[trigger] que@[j] as int],
                    res@[que@[que@.len() - 1] as int] <= d + 1,
                    forall|v: int|
                        0 <= v < n && v != s && #[trigger] res@[v] != usize::MAX ==> exists|u2: int, k2: int|
                            0 <= u2 < n && 0 <= k2 < adj[u2].len() && res@[u2] != usize::MAX && #[trigger] adj[u2][k2] == v
                                && res@[v] == res@[u2] + 1,
                    forall|j: int, k2: int|
                        0 <= j < head - 1 && 0 <= k2 < adj[que@[j] as int].len() ==> res@[#[trigger] adj[que@[j] as int][k2] as int]
                            != usize::MAX && res@[adj[que@[j] as int][k2] as int] <= res@[que@[j] as int] + 1,
                    forall|k2: int|
                        0 <= k2 < k ==> res@[#[trigger] adj[u as int][k2] as int] != usize::MAX && res@[adj[u as int][k2] as int] <= d + 1,
                    k <= row@.len(),
                decreases row@.len() - k,
            {
                let v = row[k].0;
                proof {
                    assert(adj[u as int][k as int] == v);
                }
                if res[v] == usize::MAX {
                    let ghost sb = seen@;
                    let ghost rb = res@;
                    let ghost qb = que@;
                    proof {
                        crate::graph::djikstra::lemma_count_true_set(sb, v as int);
                        crate::graph::djikstra::lemma_count_true_bound(seen@.update(v as int, true));
                    }
                    res.set(v, d + 1);
                    seen.set(v, true);
                    que.push(v);
                    proof {
                        assert forall|w: int| 0 <= w < n && #[trigger] seen@[w] implies exists|j: int|
                            0 <= j < que@.len() && que@[j] == w by {
                            if w == v as int {
                                assert(que@[qb.len() as int] == w);
                            } else {
                                assert(sb[w]);
                                let j = choose|j: int| 0 <= j < qb.len() && qb[j] == w;
                                assert(que@[j] == w);
                            }
                        }
                        assert forall|j: int| 0 <= j < que@.len() implies (#[trigger] que@[j]) < n && seen@[que@[j] as int] by {
                            if j < qb.len() {
                                assert(que@[j] == qb[j]);
                            }
                        }
                        assert forall|i: int, j: int| 0 <= i <= j < que@.len() implies res@[#[trigger] que@[i] as int]
                            <= res@[#[trigger] que@[j] as int] by {
                            if j < qb.len() {
                                assert(que@[i] == qb[i] && que@[j] == qb[j]);
                                assert(sb[qb[i] as int] && sb[qb[j] as int]);
                            } else if i < qb.len() {
                                assert(que@[i] == qb[i]);
                                assert(sb[qb[i] as int]);
                                assert(rb[qb[i] as int] <= rb[qb[qb.len() - 1] as int]);
                                assert(sb[qb[qb.len() - 1] as int]);
                            }
                        }
                        assert forall|w: int|
                            0 <= w < n && w != s && #[trigger] res@[w] != usize::MAX implies exists|u2: int, k2: int|
                                0 <= u2 < n && 0 <= k2 < adj[u2].len() && res@[u2] != usize::MAX && #[trigger] adj[u2][k2] == w
                                    && res@[w] == res@[u2] + 1 by {
                            if w == v as int {
                                assert(adj[u as int][k as int] == w);
                            } else {
                                assert(rb[w] != usize::MAX);
                                let (u2, k2) = choose|u2: int, k2: int|
                                    0 <= u2 < n && 0 <= k2 < adj[u2].len() && rb[u2] != usize::MAX && #[trigger] adj[u2][k2] == w
                                        && rb[w] == rb[u2] + 1;
                                assert(res@[u2] == rb[u2]);
                            }
                        }
                        assert forall|j: int, k2: int|
                            0 <= j < head - 1 && 0 <= k2 < adj[que@[j] as int].len() implies res@[#[trigger] adj[que@[j] as int][k2] as int]
                                != usize::MAX && res@[adj[que@[j] as int][k2] as int] <= res@[que@[j] as int] + 1 by {
                            assert(que@[j] == qb[j]);
                            assert(rb[adj[qb[j] as int][k2] as int] != usize::MAX);
                            assert(sb[qb[j] as int]);
                        }
                        assert forall|k2: int|
                            0 <= k2 < k + 1 implies res@[#[trigger] adj[u as int][k2] as int] != usize::MAX && res@[adj[u as int][k2] as int] <= d + 1 by {
                            if k2 < k {
                                assert(rb[adj[u as int][k2] as int] != usize::MAX);
                            }
                        }
                    }
                } else {
                    proof {
                        let w = v as int;
                        assert(seen@[w]);
                        let j = choose|j: int| 0 <= j < que@.len() && que@[j] == w;
                        assert(res@[que@[j] as int] <= res@[que@[que@.len() - 1] as int]);
                        assert(res@[adj[u as int][k as int] as int] <= d + 1);
                    }
                }
                k += 1;
            }
            proof {
                assert forall|j: int, k2: int|
                    0 <= j < head && 0 <= k2 < adj[que@[j] as int].len() implies res@[#[trigger] adj[que@[j] as int][k2] as int]
                        != usize::MAX && res@[adj[que@[j] as int][k2] as int] <= res@[que@[j] as int] + 1 by {
                    if j == head - 1 {
                        assert(adj[que@[j] as int][k2] == adj[u as int][k2]);
                    }
                }
                if head < que.len() {
                    assert(res@[que@[head - 1] as int] <= res@[que@[head as int] as int]);
                }
            }
        }
        proof {
            reveal(bfs_levels);
            assert forall|x: int, k2: int|
                0 <= x < adj.len() && 0 <= k2 < adj[x].len() && res@[x] != usize::MAX implies res@[#[trigger] adj[x][k2] as int]
                    != usize::MAX && res@[adj[x][k2] as int] <= res@[x] + 1 by {
                assert(seen@[x]);
                let j = choose|j: int| 0 <= j < que@.len() && que@[j] == x;
                assert(adj[que@[j] as int][k2] == adj[x][k2]);
            }
        }
        res
    }
}

} // verus!
