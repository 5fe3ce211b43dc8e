use vstd::prelude::*;
use super::{AdjList, Graph, unlabeled, heads};
use super::graph_ext::{GraphExt, bfs_levels};
use crate::graph::tsort::heads_below;

verus! {

/// Computations on a tree given by its edges in both directions.
pub trait Tree<T>: Graph<T> {
    /// The number of vertices in the subtree of each vertex, rooted at `root`.
    fn subtree_vertex_count(&self, root: usize) -> (res: Vec<usize>)
        requires
            root < self.rows().len(),
            heads_below(unlabeled(self.rows())),
        ensures
            res@.len() == self.rows().len(),
            forall|v: int| 0 <= v < res@.len() ==> #[trigger] res@[v] >= 1,
    ;

    /// A longest path: from the vertex farthest from the one farthest from `v`, back
    /// to that one, each vertex joined to the next by an edge. Its end is a vertex
    /// farthest from `v`, its start is a vertex farthest from its end, and it is a
    /// shortest path between the two; in a tree, such a path is a longest one.
    fn diameter(&self, v: usize) -> (path: Vec<usize>)
        requires
            v < self.rows().len(),
            heads_below(unlabeled(self.rows())),
            symmetric(unlabeled(self.rows())),
        ensures
            path@.len() >= 1,
            forall|i: int| 0 <= i < path@.len() ==> #[trigger] path@[i] < self.rows().len(),
            forall|i: int|
                0 <= i < path@.len() - 1 ==> unlabeled(self.rows())[path@[i] as int].contains(#[trigger] path@[i + 1]),
            exists|dv: Seq<usize>|
                #[trigger] bfs_levels(unlabeled(self.rows()), v as int, dv) && farthest_of(dv, path@.last() as int),
            exists|ds: Seq<usize>|
                #[trigger] bfs_levels(unlabeled(self.rows()), path@.last() as int, ds) && farthest_of(ds, path@[0] as int)
                    && path@.len() == ds[path@[0] as int] + 1,
    ;
}

/// Each edge also stands the other way round.
pub open spec fn symmetric(adj: Seq<Seq<usize>>) -> bool {
    forall|u: int, k: int| 0 <= u < adj.len() && 0 <= k < adj[u].len() ==> adj[#[trigger] adj[u][k] as int].contains(u as usize)
}

/// `w` has a level in `d`, and none is higher.
pub open spec fn farthest_of(d: Seq<usize>, w: int) -> bool {
    &&& 0 <= w < d.len()
    &&& d[w] != usize::MAX
    &&& forall|k: int| 0 <= k < d.len() && #[trigger] d[k] != usize::MAX ==> d[k] <= d[w]
}

/// In a graph whose edges stand both ways, every vertex other than `s` with a level
/// has a neighbour one level lower.
proof fn lemma_lower_neighbor(adj: Seq<Seq<usize>>, d: Seq<usize>, s: int, u: int) -> (idx: int)
    requires
        symmetric(adj),
        bfs_levels(adj, s, d),
        adj.len() <= usize::MAX,
        0 <= u < adj.len(),
        u != s,
        d[u] != usize::MAX,
    ensures
        0 <= idx < adj[u].len(),
        d[adj[u][idx] as int] != usize::MAX,
        d[u] == d[adj[u][idx] as int] + 1,
{
    reveal(bfs_levels);
    let (p, kp) = choose|p: int, kp: int|
        0 <= p < adj.len() && 0 <= kp < adj[p].len() && d[p] != usize::MAX && #[trigger] adj[p][kp] == u && d[u]
            == d[p] + 1;
    assert(adj[adj[p][kp] as int].contains(p as usize));
    let idx = choose|idx: int| 0 <= idx < adj[u].len() && adj[u][idx] == p as usize;
    idx
}

/// The last position holding the largest value other than `usize::MAX`, or 0.
fn farthest(d: &Vec<usize>) -> (i: usize)
    requires
        d@.len() >= 1,
    ensures
        i < d@.len(),
        (forall|k: int| 0 <= k < d@.len() ==> #[trigger] d@[k] == usize::MAX) ==> i == 0,
        (exists|k: int| 0 <= k < d@.len() && #[trigger] d@[k] != usize::MAX) ==> {
            &&& d@[i as int] != usize::MAX
            &&& forall|k: int| 0 <= k < d@.len() && #[trigger] d@[k] != usize::MAX ==> d@[k] <= d@[i as int]
            &&& forall|k: int| i < k < d@.len() && #[trigger] d@[k] != usize::MAX ==> d@[k] < d@[i as int]
        },
{
    let mut best: usize = 0;
    let mut found = false;
    let mut k: usize = 0;
    while k < d.len()
        invariant
            k <= d@.len(),
            best < d@.len(),
            !found ==> best == 0 && forall|j: int| 0 <= j < k ==> #[trigger] d@[j] == usize::MAX,
            found ==> best < k && d@[best as int] != usize::MAX,
            found ==> forall|j: int| 0 <= j < k && #[trigger] d@[j] != usize::MAX ==> d@[j] <= d@[best as int],
            found ==> forall|j: int| best < j < k && #[trigger] d@[j] != usize::MAX ==> d@[j] < d@[best as int],
        decreases d@.len() - k,
    {
        if d[k] != usize::MAX && (!found || d[k] >= d[best]) {
            best = k;
            found = true;
        }
        k += 1;
    }
    best
}

impl<T> Tree<T> for AdjList<T> {
    fn subtree_vertex_count(&self, root: usize) -> (res: Vec<usize>) {
        let n = self.len();
        let mut res: Vec<usize> = vec![1; n];
        let mut par: Vec<usize> = vec![usize::MAX; n];
        let mut seen: Vec<bool> = vec![false; n];
        let mut stk: Vec<(usize, bool)> = Vec::new();
        proof {
            crate::graph::djikstra::lemma_count_true_none(seen@);
        }
        stk.push((root, false));
        let ghost mut cnt: nat = 0;
        while stk.len() > 0
            invariant
                n == self.rows().len(),
                heads_below(unlabeled(self.rows())),
                res@.len() == n,
                par@.len() == n,
                seen@.len() == n,
                cnt == crate::graph::djikstra::count_true(seen@),
                cnt <= n,
                forall|j: int| 0 <= j < stk@.len() ==> (#[trigger] stk@[j]).0 < n,
                forall|j: int| 0 <= j < stk@.len() && (#[trigger] stk@[j]).1 ==> seen@[stk@[j].0 as int],
                forall|v: int| 0 <= v < n ==> #[trigger] res@[v] >= 1,
            decreases n - cnt, stk@.len(),
        {
            let (u, done) = stk.pop().unwrap();
            if !done {
                if !seen[u] {
                    let ghost sb = seen@;
                    seen.set(u, true);
                    proof {
                        crate::graph::djikstra::lemma_count_true_set(sb, u as int);
                        cnt = cnt + 1;
                    }
                    stk.push((u, true));
                    let p = par[u];
                    let row = self.adj(u);
                    let mut k: usize = 0;
                    while k < row.len()
                        invariant
                            n == self.rows().len(),
                            heads_below(unlabeled(self.rows())),
                            u < n,
                            row@ == self.rows()[u as int],
                            res@.len() == n,
                            par@.len() == n,
                            seen@.len() == n,
                            cnt == crate::graph::djikstra::count_true(seen@),
                            cnt <= n,
                            forall|j: int| 0 <= j < stk@.len() ==> (#[trigger] stk@[j]).0 < n,
                            forall|j: int| 0 <= j < stk@.len() && (#[trigger] stk@[j]).1 ==> seen@[stk@[j].0 as int],
                            forall|v: int| 0 <= v < n ==> #[trigger] res@[v] >= 1,
                            k <= row@.len(),
                        decreases row@.len() - k,
                    {
                        let v = row[k].0;
                        proof {
                            assert(unlabeled(self.rows())[u as int][k as int] == v);
                        }
                        if v != p && !seen[v] {
                            par.set(v, u);
                            stk.push((v, false));
                        }
                        k += 1;
                    }
                }
            } else {
                let s = res[u];
                let p = par[u];
                if p < n {
                    if res[p] <= usize::MAX - s {
                        let x = res[p] + s;
                        res.set(p, x);
                    }
                }
            }
        }
        res
    }

    fn diameter(&self, v: usize) -> (path: Vec<usize>) {
        let ghost rows = unlabeled(self.rows());
        let n = self.len();
        let dv = self.dist_bfs(v);
        assert(dv@[v as int] != usize::MAX && dv@.len() == rows.len()) by {
            reveal(bfs_levels);
        }
        let s = farthest(&dv);
        let ds = self.dist_bfs(s);
        assert(ds@[s as int] == 0 && ds@.len() == rows.len()) by {
            reveal(bfs_levels);
        }
        let t = farthest(&ds);
        let mut path: Vec<usize> = Vec::new();
        let mut u = t;
        path.push(u);
        while u != s
            invariant
                rows == unlabeled(self.rows()),
                heads_below(rows),
                symmetric(rows),
                n == rows.len(),
                s < rows.len(),
                t < rows.len(),
                bfs_levels(rows, s as int, ds@),
                ds@.len() == rows.len(),
                ds@[s as int] == 0,
                ds@[t as int] != usize::MAX,
                u < rows.len(),
                ds@[u as int] != usize::MAX,
                path@.len() >= 1,
                path@[0] == t,
                path@.last() == u,
                path@.len() == ds@[t as int] - ds@[u as int] + 1,
                forall|i: int| 0 <= i < path@.len() ==> #[trigger] path@[i] < rows.len(),
                forall|i: int| 0 <= i < path@.len() - 1 ==> rows[path@[i] as int].contains(#[trigger] path@[i + 1]),
            decreases ds@[u as int],
        {
            let row = self.adj(u);
            let mut next = u;
            let mut k: usize = 0;
            while k < row.len()
                invariant
                    rows == unlabeled(self.rows()),
                    heads_below(rows),
                    ds@.len() == rows.len(),
                    u < rows.len(),
                    row@ == self.rows()[u as int],
                    next == u || (next < rows.len() && rows[u as int].contains(next) && ds@[next as int] != usize::MAX
                        && ds@[u as int] == ds@[next as int] + 1),
                    next == u ==> forall|k2: int|
                        0 <= k2 < k ==> !(ds@[#[trigger] rows[u as int][k2] as int] != usize::MAX && ds@[u as int]
                            == ds@[rows[u as int][k2] as int] + 1),
                    k <= row@.len(),
                ensures
                    next == u || (next < rows.len() && rows[u as int].contains(next) && ds@[next as int] != usize::MAX
                        && ds@[u as int] == ds@[next as int] + 1),
                    next == u ==> forall|k2: int|
                        0 <= k2 < rows[u as int].len() ==> !(ds@[#[trigger] rows[u as int][k2] as int] != usize::MAX && ds@[u as int]
                            == ds@[rows[u as int][k2] as int] + 1),
                decreases row@.len() - k,
            {
                let w = row[k].0;
                proof {
                    assert(rows[u as int][k as int] == w);
                }
                if ds[w] != usize::MAX && ds[u] == ds[w] + 1 {
                    next = w;
                    break;
                }
                k += 1;
            }
            if next == u {
                proof {
                    let idx = lemma_lower_neighbor(rows, ds@, s as int, u as int);
                    assert(false);
                }
            }
            let ghost p0 = path@;
            path.push(next);
            proof {
                assert forall|i: int| 0 <= i < path@.len() - 1 implies rows[path@[i] as int].contains(#[trigger] path@[i + 1]) by {
                    if i < p0.len() - 1 {
                        assert(path@[i] == p0[i] && path@[i + 1] == p0[i + 1]);
                    } else {
                        assert(path@[i] == u && path@[i + 1] == next);
                    }
                }
            }
            u = next;
        }
        proof {
            assert(bfs_levels(rows, v as int, dv@) && farthest_of(dv@, path@.last() as int));
            assert(bfs_levels(rows, path@.last() as int, ds@) && farthest_of(ds@, path@[0] as int) && path@.len()
                == ds@[path@[0] as int] + 1);
        }
        path
    }
}

} // verus!
