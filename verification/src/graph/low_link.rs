use vstd::prelude::*;
use std::collections::BTreeSet;
use crate::graph::tsort::heads_below;
use crate::graph::scc::adjacency;

verus! {

/// The number of entries equal to `usize::MAX`.
pub open spec fn count_unset(s: Seq<usize>) -> nat
    decreases s.len(),
{
    if s.len() == 0 {
        0
    } else {
        count_unset(s.drop_last()) + if s.last() == usize::MAX {
            1nat
        } else {
            0nat
        }
    }
}

pub(crate) proof fn lemma_count_unset_set(s: Seq<usize>, i: int, x: usize)
    requires
        0 <= i < s.len(),
        s[i] == usize::MAX,
        x != usize::MAX,
    ensures
        count_unset(s.update(i, x)) == count_unset(s) - 1,
    decreases s.len(),
{
    let t = s.update(i, x);
    if i == s.len() - 1 {
        assert(t.drop_last() =~= s.drop_last());
    } else {
        lemma_count_unset_set(s.drop_last(), i, x);
        assert(t.drop_last() =~= s.drop_last().update(i, x));
    }
}

pub(crate) proof fn lemma_count_unset_bound(s: Seq<usize>)
    ensures
        count_unset(s) <= s.len(),
    decreases s.len(),
{
    if s.len() > 0 {
        lemma_count_unset_bound(s.drop_last());
    }
}

pub(crate) proof fn lemma_count_unset_all(s: Seq<usize>)
    requires
        forall|i: int| 0 <= i < s.len() ==> s[i] == usize::MAX,
    ensures
        count_unset(s) == s.len(),
    decreases s.len(),
{
    if s.len() > 0 {
        lemma_count_unset_all(s.drop_last());
    }
}

/// With order numbers `ord` and low links `low`, the edge between `u` and `v` is
/// flagged as a bridge: the later-visited end cannot reach above the earlier one
/// without it.
pub open spec fn flagged(ord: Seq<usize>, low: Seq<usize>, u: int, v: int) -> bool {
    if ord[u] > ord[v] {
        ord[v] < low[u]
    } else {
        ord[u] < low[v]
    }
}

/// `v` stands at two different places of `row`: a parallel edge.
pub open spec fn listed_twice(row: Seq<usize>, v: usize) -> bool {
    exists|k1: int, k2: int|
        #![trigger row[k1], row[k2]]
        0 <= k1 < k2 < row.len() && row[k1] == v && row[k2] == v
}

/// The edge from `u` to `v` keeps them in one two-edge-connected component: `u` lists
/// `v`, and the edge is not flagged as a bridge or is one of several parallel edges.
pub open spec fn joinable(adj: Seq<Seq<usize>>, ord: Seq<usize>, low: Seq<usize>, u: int, v: int) -> bool {
    &&& 0 <= v
    &&& adj[u].contains(v as usize)
    &&& (!flagged(ord, low, u, v) || listed_twice(adj[u], v as usize))
}

/// Vertex `w` comes first of its component in the order `rank`, or a joinable edge
/// leads to it from a vertex of its component that comes before it.
pub open spec fn entered(adj: Seq<Seq<usize>>, ord: Seq<usize>, low: Seq<usize>, cc: Seq<usize>, rank: Seq<int>, w: int) -> bool {
    ||| forall|x: int| 0 <= x < cc.len() && cc[x] == cc[w] ==> rank[w] <= #[trigger] rank[x]
    ||| exists|p: int|
        0 <= p < cc.len() && cc[p] == cc[w] && rank[p] < rank[w] && #[trigger] joinable(adj, ord, low, p, w)
}

/// The labels `cc` put into one component only vertices joined by joinable edges:
/// in some order `rank` of the vertices, each vertex but the first of its component
/// is reached by a joinable edge from an earlier vertex of the same component.
pub open spec fn joined_in_order(adj: Seq<Seq<usize>>, ord: Seq<usize>, low: Seq<usize>, cc: Seq<usize>, rank: Seq<int>) -> bool {
    &&& rank.len() == cc.len()
    &&& forall|x: int, y: int| 0 <= x < cc.len() && 0 <= y < cc.len() && x != y ==> #[trigger] rank[x] != #[trigger] rank[y]
    &&& forall|w: int| 0 <= w < cc.len() ==> #[trigger] entered(adj, ord, low, cc, rank, w)
}

/// Every edge is listed from both of its ends, and a parallel edge from both ends
/// as a parallel edge.
pub open spec fn undirected(adj: Seq<Seq<usize>>) -> bool {
    forall|u: int, v: usize|
        0 <= u < adj.len() && #[trigger] adj[u].contains(v) ==> adj[v as int].contains(u as usize)
            && (listed_twice(adj[u], v) ==> listed_twice(adj[v as int], u as usize))
}

/// The labels `cc` never part the two ends of a joinable edge.
pub open spec fn closed_under_joinable(adj: Seq<Seq<usize>>, ord: Seq<usize>, low: Seq<usize>, cc: Seq<usize>) -> bool {
    forall|u: int, v: int| 0 <= u < cc.len() && 0 <= v < cc.len() && #[trigger] joinable(adj, ord, low, u, v) ==> cc[u] == cc[v]
}

/// The labels `cc` of two-edge-connected components with respect to the order numbers
/// `ord` and low links `low`: components are grown along joinable edges only, in the
/// order `rank`, and for a graph that lists each edge from both ends no joinable edge
/// leaves a component.
pub open spec fn two_edge_labels(adj: Seq<Seq<usize>>, ord: Seq<usize>, low: Seq<usize>, cc: Seq<usize>, rank: Seq<int>) -> bool {
    &&& joined_in_order(adj, ord, low, cc, rank)
    &&& undirected(adj) ==> closed_under_joinable(adj, ord, low, cc)
}

/// All joinable edges from the labelled vertex `x` lead to labelled vertices.
spec fn settled(adj: Seq<Seq<usize>>, ord: Seq<usize>, low: Seq<usize>, cc: Seq<usize>, x: int) -> bool {
    forall|y: int| 0 <= y < cc.len() && #[trigger] joinable(adj, ord, low, x, y) ==> cc[y] != usize::MAX
}

/// In a graph that lists each edge from both ends, with distinct order numbers,
/// joinable edges are joinable both ways.
proof fn lemma_joinable_symmetric(adj: Seq<Seq<usize>>, ord: Seq<usize>, low: Seq<usize>, u: int, v: int)
    requires
        undirected(adj),
        distinct_set(ord),
        ord.len() == adj.len(),
        adj.len() < usize::MAX,
        forall|w: int| 0 <= w < adj.len() ==> #[trigger] ord[w] != usize::MAX,
        0 <= u < adj.len(),
        0 <= v < adj.len(),
        joinable(adj, ord, low, u, v),
    ensures
        joinable(adj, ord, low, v, u),
{
    let vu = v as usize;
    assert(adj[u].contains(vu));
    assert(vu as int == v);
    assert(adj[v].contains(u as usize));
    if u != v {
        assert(ord[u] != usize::MAX && ord[v] != usize::MAX);
        assert(ord[u] != ord[v]);
    }
}

/// [`joined_in_order`] over the labelled vertices, with every rank below `next`.
spec fn labelled_in_order(adj: Seq<Seq<usize>>, ord: Seq<usize>, low: Seq<usize>, cc: Seq<usize>, rank: Seq<int>, next: int) -> bool {
    &&& rank.len() == cc.len()
    &&& forall|x: int| 0 <= x < cc.len() && cc[x] != usize::MAX ==> 0 <= #[trigger] rank[x] < next
    &&& forall|x: int, y: int|
        0 <= x < cc.len() && 0 <= y < cc.len() && x != y && cc[x] != usize::MAX && cc[y] != usize::MAX ==> #[trigger] rank[x] != #[trigger] rank[y]
    &&& forall|w: int| 0 <= w < cc.len() && cc[w] != usize::MAX ==> #[trigger] entered(adj, ord, low, cc, rank, w)
}

/// Labelling one more vertex `u` with `col` and rank `next` keeps the order, when `u`
/// starts a new component or is reached by a joinable edge from a vertex labelled `col`.
proof fn lemma_label_one(adj: Seq<Seq<usize>>, ord: Seq<usize>, low: Seq<usize>, cc: Seq<usize>, rank: Seq<int>, next: int, u: int, col: usize)
    requires
        labelled_in_order(adj, ord, low, cc, rank, next),
        0 <= u < cc.len(),
        0 <= next,
        cc[u] == usize::MAX,
        col != usize::MAX,
        (forall|x: int| 0 <= x < cc.len() && cc[x] != usize::MAX ==> cc[x] != col)
            || (exists|p: int| 0 <= p < cc.len() && cc[p] == col && #[trigger] joinable(adj, ord, low, p, u)),
    ensures
        labelled_in_order(adj, ord, low, cc.update(u, col), rank.update(u, next), next + 1),
{
    let cc2 = cc.update(u, col);
    let rk2 = rank.update(u, next);
    assert forall|x: int| 0 <= x < cc2.len() && cc2[x] != usize::MAX implies 0 <= #[trigger] rk2[x] < next + 1 by {
        if x != u {
            assert(0 <= rank[x] < next);
        }
    }
    assert forall|w: int| 0 <= w < cc2.len() && cc2[w] != usize::MAX implies #[trigger] entered(adj, ord, low, cc2, rk2, w) by {
        if w == u {
            if forall|x: int| 0 <= x < cc.len() && cc[x] != usize::MAX ==> cc[x] != col {
                assert forall|x: int| 0 <= x < cc2.len() && cc2[x] == cc2[w] implies rk2[w] <= #[trigger] rk2[x] by {
                    if x != u {
                        assert(cc[x] == col);
                    }
                }
            } else {
                let p = choose|p: int| 0 <= p < cc.len() && cc[p] == col && #[trigger] joinable(adj, ord, low, p, u);
                assert(p != u);
                assert(cc2[p] == cc2[w] && rk2[p] < rk2[w]);
            }
        } else {
            assert(entered(adj, ord, low, cc, rank, w));
            if forall|x: int| 0 <= x < cc.len() && cc[x] == cc[w] ==> rank[w] <= #[trigger] rank[x] {
                assert forall|x: int| 0 <= x < cc2.len() && cc2[x] == cc2[w] implies rk2[w] <= #[trigger] rk2[x] by {
                    if x != u {
                        assert(cc[x] == cc[w]);
                    }
                }
            } else {
                let p = choose|p: int|
                    0 <= p < cc.len() && cc[p] == cc[w] && rank[p] < rank[w] && #[trigger] joinable(adj, ord, low, p, w);
                assert(p != u);
                assert(cc2[p] == cc2[w] && rk2[p] < rk2[w]);
            }
        }
    }
    assert forall|x: int, y: int|
        0 <= x < cc2.len() && 0 <= y < cc2.len() && x != y && cc2[x] != usize::MAX && cc2[y] != usize::MAX implies #[trigger] rk2[x] != #[trigger] rk2[y] by {
        if x != u && y != u {
            assert(rank[x] != rank[y]);
        } else if x == u {
            assert(0 <= rank[y] < next);
        } else {
            assert(0 <= rank[x] < next);
        }
    }
}

/// The entries of `s` other than `usize::MAX` are pairwise different.
pub open spec fn distinct_set(s: Seq<usize>) -> bool {
    forall|x: int, y: int|
        0 <= x < s.len() && 0 <= y < s.len() && x != y && s[x] != usize::MAX && s[y] != usize::MAX ==> #[trigger] s[x] != #[trigger] s[y]
}

/// Depth-first order numbers and low links of an undirected graph given by adjacency
/// lists holding each edge in both directions.
pub struct LowLink<'a> {
    g: &'a [Vec<usize>],
    ord: Vec<usize>,
    low: Vec<usize>,
}

impl<'a> LowLink<'a> {
    /// The adjacency lists.
    pub closed spec fn adj(&self) -> Seq<Seq<usize>> {
        self.g@.map_values(|r: Vec<usize>| r@)
    }

    /// The order number of each vertex.
    pub closed spec fn order(&self) -> Seq<usize> {
        self.ord@
    }

    /// The least order number reachable from each vertex's subtree by one back edge.
    pub closed spec fn lowlink(&self) -> Seq<usize> {
        self.low@
    }

    pub closed spec fn wf(&self) -> bool {
        &&& self.ord@.len() == self.g@.len()
        &&& self.low@.len() == self.g@.len()
    }

    pub fn new(g: &'a [Vec<usize>]) -> (ll: Self)
        requires
            heads_below(g@.map_values(|r: Vec<usize>| r@)),
            g@.len() < usize::MAX,
        ensures
            ll.wf(),
            ll.adj() == g@.map_values(|r: Vec<usize>| r@),
            forall|u: int| 0 <= u < g@.len() ==> #[trigger] ll.order()[u] < g@.len(),
            distinct_set(ll.order()),
    {
        let n = g.len();
        let mut ll = LowLink { g, ord: vec![usize::MAX; n], low: vec![usize::MAX; n] };
        let mut id: usize = 0;
        proof {
            lemma_count_unset_all(ll.ord@);
        }
        let mut u: usize = 0;
        while u < n
            invariant
                n == g@.len(),
                ll.g == g,
                n < usize::MAX,
                heads_below(g@.map_values(|r: Vec<usize>| r@)),
                ll.wf(),
                u <= n,
                id + count_unset(ll.ord@) == n,
                forall|w: int| 0 <= w < n && #[trigger] ll.ord@[w] != usize::MAX ==> ll.ord@[w] < id,
                forall|w: int| 0 <= w < u ==> #[trigger] ll.ord@[w] != usize::MAX,
                distinct_set(ll.ord@),
            decreases n - u,
        {
            if ll.ord[u] == usize::MAX {
                let ghost l = count_unset(ll.ord@);
                ll.dfs(u, usize::MAX, &mut id, Ghost(l));
            }
            u += 1;
        }
        ll
    }

    fn dfs(&mut self, u: usize, p: usize, id: &mut usize, Ghost(left): Ghost<nat>)
        requires
            old(self).wf(),
            heads_below(old(self).adj()),
            u < old(self).g@.len(),
            old(self).g@.len() < usize::MAX,
            old(self).ord@[u as int] == usize::MAX,
            left == count_unset(old(self).ord@),
            *old(id) + count_unset(old(self).ord@) == old(self).g@.len(),
            forall|w: int| 0 <= w < old(self).g@.len() && #[trigger] old(self).ord@[w] != usize::MAX ==> old(self).ord@[w] < *old(id),
            distinct_set(old(self).ord@),
        ensures
            distinct_set(final(self).ord@),
            final(self).wf(),
            final(self).g == old(self).g,
            *final(id) + count_unset(final(self).ord@) == final(self).g@.len(),
            forall|w: int| 0 <= w < final(self).g@.len() && #[trigger] final(self).ord@[w] != usize::MAX ==> final(self).ord@[w] < *final(id),
            forall|w: int| 0 <= w < final(self).g@.len() && old(self).ord@[w] != usize::MAX ==> #[trigger] final(self).ord@[w] == old(self).ord@[w],
            final(self).ord@[u as int] != usize::MAX,
            count_unset(final(self).ord@) < count_unset(old(self).ord@),
        decreases left,
    {
        let n = self.g.len();
        proof {
            lemma_count_unset_set(self.ord@, u as int, *id);
            lemma_count_unset_bound(self.ord@);
        }
        self.ord.set(u, *id);
        self.low.set(u, *id);
        *id += 1;
        let row = &self.g[u];
        let ghost adj = self.adj();
        proof {
            assert(row@ == adj[u as int]);
        }
        let mut k: usize = 0;
        while k < row.len()
            invariant
                self.wf(),
                adj == self.adj(),
                self.g == old(self).g,
                heads_below(adj),
                row@ == adj[u as int],
                n == self.g@.len(),
                n < usize::MAX,
                u < n,
                self.ord@[u as int] != usize::MAX,
                count_unset(self.ord@) < left,
                *id + count_unset(self.ord@) == n,
                forall|w: int| 0 <= w < n && #[trigger] self.ord@[w] != usize::MAX ==> self.ord@[w] < *id,
                forall|w: int| 0 <= w < n && old(self).ord@[w] != usize::MAX ==> #[trigger] self.ord@[w] == old(self).ord@[w],
                k <= row@.len(),
                distinct_set(self.ord@),
            decreases row@.len() - k,
        {
            let v = row[k];
            proof {
                assert(adj[u as int][k as int] == v);
            }
            if v != p {
                if self.ord[v] == usize::MAX {
                    let ghost l = count_unset(self.ord@);
                    self.dfs(v, u, id, Ghost(l));
                }
                if self.low[v] < self.low[u] {
                    let x = self.low[v];
                    self.low.set(u, x);
                }
            }
            k += 1;
        }
    }

    /// The adjacency lists.
    pub fn graph(&self) -> (g: &'a [Vec<usize>])
        ensures
            g@.map_values(|r: Vec<usize>| r@) == self.adj(),
    {
        self.g
    }

    /// Whether the edge between `u` and `v` is a bridge: the later-visited end cannot
    /// reach above the earlier one without it.
    pub fn is_bridge(&self, u: usize, v: usize) -> (b: bool)
        requires
            self.wf(),
            u < self.adj().len(),
            v < self.adj().len(),
        ensures
            b == if self.order()[u as int] > self.order()[v as int] {
                self.order()[v as int] < self.lowlink()[u as int]
            } else {
                self.order()[u as int] < self.lowlink()[v as int]
            },
    {
        let (a, b) = if self.ord[u] > self.ord[v] {
            (v, u)
        } else {
            (u, v)
        };
        self.ord[a] < self.low[b]
    }
}

/// The two-edge-connected components: for each vertex, the index of its component.
///
/// A component is grown only along joinable edges: edges that [`LowLink::is_bridge`]
/// does not flag, and parallel edges, which it flags since the depth-first search skips
/// every edge back to the parent. So a component never crosses a single flagged edge.
pub fn two_edge_connected_components(g: &[Vec<usize>]) -> (cc: Vec<usize>)
    requires
        heads_below(g@.map_values(|r: Vec<usize>| r@)),
        g@.len() < usize::MAX,
    ensures
        cc@.len() == g@.len(),
        forall|u: int| 0 <= u < g@.len() ==> #[trigger] cc@[u] < g@.len(),
        exists|ord: Seq<usize>, low: Seq<usize>, rank: Seq<int>|
            ord.len() == g@.len() && low.len() == g@.len() && distinct_set(ord)
                && #[trigger] two_edge_labels(adjacency(g@), ord, low, cc@, rank),
{
    let ll = LowLink::new(g);
    let n = g.len();
    let mut cc: Vec<usize> = vec![usize::MAX; n];
    proof {
        lemma_count_unset_all(cc@);
    }
    let ghost mut rank: Seq<int> = Seq::new(n as nat, |x: int| 0int);
    let mut col: usize = 0;
    let mut u: usize = 0;
    while u < n
        invariant
            n == g@.len(),
            n < usize::MAX,
            ll.wf(),
            ll.adj() == g@.map_values(|r: Vec<usize>| r@),
            heads_below(ll.adj()),
            cc@.len() == n,
            u <= n,
            col <= u,
            forall|w: int| 0 <= w < u ==> #[trigger] cc@[w] != usize::MAX,
            forall|w: int| 0 <= w < n && #[trigger] cc@[w] != usize::MAX ==> cc@[w] < col,
            count_unset(cc@) <= n,
            labelled_in_order(ll.adj(), ll.order(), ll.lowlink(), cc@, rank, n - count_unset(cc@)),
            distinct_set(ll.order()),
            forall|w: int| 0 <= w < n ==> #[trigger] ll.order()[w] < n,
            undirected(ll.adj()) ==> forall|y: int, x: int|
                0 <= y < n && 0 <= x < n && cc@[y] != usize::MAX && #[trigger] joinable(ll.adj(), ll.order(), ll.lowlink(), y, x) ==> cc@[x] == cc@[y],
        decreases n - u,
    {
        if cc[u] == usize::MAX {
            let ghost l = count_unset(cc@);
            let ghost cb = cc@;
            let r = tecc_dfs(&ll, u, &mut cc, col, Ghost(l), Ghost(rank));
            proof {
                rank = r@;
                let adj = ll.adj();
                let ord = ll.order();
                let low = ll.lowlink();
                if undirected(adj) {
                    assert forall|y: int, x: int|
                        0 <= y < n && 0 <= x < n && cc@[y] != usize::MAX && #[trigger] joinable(adj, ord, low, y, x) implies cc@[x] == cc@[y] by {
                        if cb[y] != usize::MAX {
                            assert(cb[x] == cb[y]);
                        } else {
                            assert(settled(adj, ord, low, cc@, y));
                            if cb[x] != usize::MAX {
                                assert(ord[x] < n && ord[y] < n);
                                assert forall|w: int| 0 <= w < adj.len() implies #[trigger] ord[w] != usize::MAX by {
                                    assert(ord[w] < n);
                                }
                                lemma_joinable_symmetric(adj, ord, low, y, x);
                                assert(cb[y] == cb[x]);
                            }
                        }
                    }
                }
            }
            col += 1;
        }
        u += 1;
    }
    proof {
        assert forall|w: int| 0 <= w < n implies #[trigger] entered(ll.adj(), ll.order(), ll.lowlink(), cc@, rank, w) by {
            assert(cc@[w] != usize::MAX);
        }
        assert forall|x: int, y: int| 0 <= x < n && 0 <= y < n && x != y implies #[trigger] rank[x] != #[trigger] rank[y] by {
            assert(cc@[x] != usize::MAX && cc@[y] != usize::MAX);
        }
        assert(joined_in_order(ll.adj(), ll.order(), ll.lowlink(), cc@, rank));
        if undirected(ll.adj()) {
            assert forall|x: int, y: int| 0 <= x < n && 0 <= y < n && #[trigger] joinable(ll.adj(), ll.order(), ll.lowlink(), x, y) implies cc@[x] == cc@[y] by {
                assert(cc@[x] != usize::MAX);
            }
        }
        assert(two_edge_labels(ll.adj(), ll.order(), ll.lowlink(), cc@, rank));
        assert(adjacency(g@) == ll.adj());
    }
    cc
}

/// `usize` keys follow the order that the standard sets are specified with.
spec fn usize_keys_ordered() -> bool {
    vstd::laws_cmp::obeys_cmp::<usize>()
}

proof fn lemma_usize_ordered()
    ensures
        usize_keys_ordered(),
{
    broadcast use vstd::laws_cmp::group_laws_cmp;
}

fn tecc_dfs(ll: &LowLink, u: usize, cc: &mut Vec<usize>, col: usize, Ghost(left): Ghost<nat>, Ghost(rank): Ghost<Seq<int>>) -> (rank_out: Ghost<Seq<int>>)
    requires
        ll.wf(),
        heads_below(ll.adj()),
        u < ll.adj().len(),
        old(cc)@.len() == ll.adj().len(),
        old(cc)@[u as int] == usize::MAX,
        col < usize::MAX,
        left == count_unset(old(cc)@),
        count_unset(old(cc)@) <= old(cc)@.len(),
        labelled_in_order(ll.adj(), ll.order(), ll.lowlink(), old(cc)@, rank, old(cc)@.len() - count_unset(old(cc)@)),
        (forall|x: int| 0 <= x < old(cc)@.len() && old(cc)@[x] != usize::MAX ==> old(cc)@[x] != col)
            || (exists|p: int| 0 <= p < old(cc)@.len() && old(cc)@[p] == col && #[trigger] joinable(ll.adj(), ll.order(), ll.lowlink(), p, u as int)),
    ensures
        final(cc)@.len() == old(cc)@.len(),
        final(cc)@[u as int] == col,
        forall|w: int| 0 <= w < old(cc)@.len() ==> #[trigger] final(cc)@[w] == old(cc)@[w] || (old(cc)@[w] == usize::MAX && final(cc)@[w] == col),
        count_unset(final(cc)@) < count_unset(old(cc)@),
        labelled_in_order(ll.adj(), ll.order(), ll.lowlink(), final(cc)@, rank_out@, final(cc)@.len() - count_unset(final(cc)@)),
        forall|x: int|
            0 <= x < old(cc)@.len() && old(cc)@[x] == usize::MAX && final(cc)@[x] != usize::MAX ==> #[trigger] settled(ll.adj(), ll.order(), ll.lowlink(), final(cc)@, x),
    decreases left,
{
    let ghost c0 = cc@;
    let ghost ord = ll.order();
    let ghost low = ll.lowlink();
    let ghost n = c0.len() as int;
    proof {
        lemma_count_unset_set(cc@, u as int, col);
        lemma_count_unset_bound(cc@);
        lemma_label_one(ll.adj(), ord, low, cc@, rank, n - count_unset(cc@), u as int, col);
    }
    let ghost mut rk = rank.update(u as int, n - count_unset(cc@));
    cc.set(u, col);
    let g = ll.graph();
    let ghost adj = ll.adj();
    let row = &g[u];
    proof {
        assert(row@ == adj[u as int]);
    }
    let mut appeared: BTreeSet<usize> = BTreeSet::new();
    proof {
        lemma_usize_ordered();
    }
    let mut k: usize = 0;
    while k < row.len()
        invariant
            ll.wf(),
            adj == ll.adj(),
            ord == ll.order(),
            low == ll.lowlink(),
            heads_below(adj),
            row@ == adj[u as int],
            u < adj.len(),
            cc@.len() == adj.len(),
            c0.len() == adj.len(),
            n == c0.len(),
            cc@[u as int] == col,
            col < usize::MAX,
            count_unset(cc@) < left,
            count_unset(cc@) <= n,
            forall|w: int| 0 <= w < c0.len() ==> #[trigger] cc@[w] == c0[w] || (c0[w] == usize::MAX && cc@[w] == col),
            labelled_in_order(adj, ord, low, cc@, rk, n - count_unset(cc@)),
            forall|x: usize| #[trigger] appeared@.contains(x) ==> exists|k1: int| 0 <= k1 < k && row@[k1] == x,
            k <= row@.len(),
            usize_keys_ordered(),
            forall|x: int| 0 <= x < n && x != u && c0[x] == usize::MAX && cc@[x] != usize::MAX ==> #[trigger] settled(adj, ord, low, cc@, x),
            forall|k1: int|
                0 <= k1 < k ==> cc@[#[trigger] row@[k1] as int] != usize::MAX || (flagged(ord, low, u as int, row@[k1] as int)
                    && appeared@.contains(row@[k1]) && forall|k2: int| 0 <= k2 < k && k2 != k1 ==> row@[k2] != row@[k1]),
        decreases row@.len() - k,
    {
        broadcast use vstd::std_specs::btree::group_btree_axioms;
        let v = row[k];
        proof {
            assert(adj[u as int][k as int] == v);
        }
        if cc[v] == usize::MAX {
            if !ll.is_bridge(u, v) || appeared.contains(&v) {
                let ghost c1 = cc@;
                let ghost l = count_unset(cc@);
                proof {
                    assert(adj[u as int].contains(v));
                    if flagged(ord, low, u as int, v as int) {
                        assert(appeared@.contains(v));
                        let k1 = choose|k1: int| 0 <= k1 < k && row@[k1] == v;
                        assert(row@[k1] == v && row@[k as int] == v);
                        assert(listed_twice(adj[u as int], v));
                    }
                    assert(joinable(adj, ord, low, u as int, v as int));
                }
                let r = tecc_dfs(ll, v, cc, col, Ghost(l), Ghost(rk));
                proof {
                    rk = r@;
                    assert forall|x: int| 0 <= x < n && x != u && c0[x] == usize::MAX && cc@[x] != usize::MAX implies #[trigger] settled(adj, ord, low, cc@, x) by {
                        if c1[x] != usize::MAX {
                            assert(settled(adj, ord, low, c1, x));
                            assert forall|y: int| 0 <= y < cc@.len() && #[trigger] joinable(adj, ord, low, x, y) implies cc@[y] != usize::MAX by {
                                assert(c1[y] != usize::MAX);
                            }
                        }
                    }
                    assert forall|k1: int| 0 <= k1 <= k implies cc@[#[trigger] row@[k1] as int] != usize::MAX || (flagged(ord, low, u as int, row@[k1] as int)
                        && appeared@.contains(row@[k1]) && forall|k2: int| 0 <= k2 < k + 1 && k2 != k1 ==> row@[k2] != row@[k1]) by {
                        if k1 < k {
                            if c1[row@[k1] as int] != usize::MAX {
                                assert(cc@[row@[k1] as int] == c1[row@[k1] as int]);
                            }
                        } else {
                            assert(row@[k1] == v);
                        }
                    }
                    assert(c1.len() == c0.len());
                    assert forall|w: int| 0 <= w < c0.len() implies #[trigger] cc@[w] == c0[w] || (c0[w] == usize::MAX && cc@[w] == col) by {
                        assert(0 <= w < c1.len());
                        assert(cc@[w] == c1[w] || (c1[w] == usize::MAX && cc@[w] == col));
                        assert(c1[w] == c0[w] || (c0[w] == usize::MAX && c1[w] == col));
                    }
                    lemma_count_unset_bound(cc@);
                }
            } else {
                let ghost a0 = appeared@;
                appeared.insert(v);
                proof {
                    assert(row@[k as int] == v);
                    assert(!a0.contains(v));
                    assert forall|k1: int| 0 <= k1 <= k implies cc@[#[trigger] row@[k1] as int] != usize::MAX || (flagged(ord, low, u as int, row@[k1] as int)
                        && appeared@.contains(row@[k1]) && forall|k2: int| 0 <= k2 < k + 1 && k2 != k1 ==> row@[k2] != row@[k1]) by {
                        if k1 < k && cc@[row@[k1] as int] == usize::MAX {
                            assert(a0.contains(row@[k1]));
                        }
                        if k1 == k {
                            assert forall|k2: int| 0 <= k2 < k + 1 && k2 != k1 implies row@[k2] != row@[k1] by {
                                if row@[k2] == v {
                                    assert(cc@[row@[k2] as int] == usize::MAX);
                                }
                            }
                        }
                    }
                }
            }
        } else {
            proof {
                assert forall|k1: int| 0 <= k1 <= k implies cc@[#[trigger] row@[k1] as int] != usize::MAX || (flagged(ord, low, u as int, row@[k1] as int)
                    && appeared@.contains(row@[k1]) && forall|k2: int| 0 <= k2 < k + 1 && k2 != k1 ==> row@[k2] != row@[k1]) by {
                    if k1 < k && cc@[row@[k1] as int] == usize::MAX {
                        assert(row@[k1] != v);
                    }
                }
            }
        }
        k += 1;
    }
    proof {
        assert forall|y: int| 0 <= y < cc@.len() && #[trigger] joinable(adj, ord, low, u as int, y) implies cc@[y] != usize::MAX by {
            assert(row@.contains(y as usize));
            let k1 = choose|k1: int| 0 <= k1 < row@.len() && row@[k1] == y as usize;
            if cc@[row@[k1] as int] == usize::MAX {
                if listed_twice(row@, y as usize) {
                    let (ka, kb) = choose|ka: int, kb: int| 0 <= ka < kb < row@.len() && row@[ka] == y as usize && row@[kb] == y as usize;
                    if ka != k1 {
                        assert(row@[ka] != row@[k1]);
                    } else {
                        assert(row@[kb] != row@[k1]);
                    }
                }
            }
        }
    }
    Ghost(rk)
}

} // verus!
