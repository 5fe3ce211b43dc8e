use vstd::prelude::*;

verus! {

/// A residual edge: its head, the index of its partner in the head's row, its remaining
/// capacity and its cost.
#[derive(Clone, Copy)]
struct Edge {
    v: usize,
    rev: usize,
    cap: i32,
    cost: i64,
}

/// Minimum cost flow by successive shortest paths with potentials.
pub struct MinCostFlow {
    g: Vec<Vec<Edge>>,
}

/// The sum of the capacities of a row.
spec fn row_caps(row: Seq<Edge>) -> int
    decreases row.len(),
{
    if row.len() == 0 {
        0
    } else {
        row_caps(row.drop_last()) + row.last().cap
    }
}

/// The sum of cost times capacity over a row.
spec fn row_weight(row: Seq<Edge>) -> int
    decreases row.len(),
{
    if row.len() == 0 {
        0
    } else {
        row_weight(row.drop_last()) + row.last().cost * row.last().cap
    }
}

/// The sum of cost times capacity over all rows.
spec fn total_weight(rows: Seq<Vec<Edge>>) -> int
    decreases rows.len(),
{
    if rows.len() == 0 {
        0
    } else {
        total_weight(rows.drop_last()) + row_weight(rows.last()@)
    }
}

proof fn lemma_row_update(row: Seq<Edge>, k: int, e: Edge)
    requires
        0 <= k < row.len(),
    ensures
        row_caps(row.update(k, e)) == row_caps(row) - row[k].cap + e.cap,
        row_weight(row.update(k, e)) == row_weight(row) - row[k].cost * row[k].cap + e.cost * e.cap,
    decreases row.len(),
{
    let r2 = row.update(k, e);
    if k < row.len() - 1 {
        assert(r2.drop_last() =~= row.drop_last().update(k, e));
        lemma_row_update(row.drop_last(), k, e);
    } else {
        assert(r2.drop_last() =~= row.drop_last());
    }
}

proof fn lemma_total_update(rows: Seq<Vec<Edge>>, u: int, r: Vec<Edge>)
    requires
        0 <= u < rows.len(),
    ensures
        total_weight(rows.update(u, r)) == total_weight(rows) - row_weight(rows[u]@) + row_weight(r@),
    decreases rows.len(),
{
    let r2 = rows.update(u, r);
    if u < rows.len() - 1 {
        assert(r2.drop_last() =~= rows.drop_last().update(u, r));
        lemma_total_update(rows.drop_last(), u, r);
    } else {
        assert(r2.drop_last() =~= rows.drop_last());
    }
}

/// Every edge leads to a vertex; an edge between distinct vertices and its partner point
/// at each other, have opposite costs, and their capacities add up to an `i32`.
spec fn graph_wf(g: Seq<Vec<Edge>>) -> bool {
    forall|u: int, i: int|
        0 <= u < g.len() && 0 <= i < g[u]@.len() ==> {
            let e = #[trigger] g[u]@[i];
            &&& e.v < g.len()
            &&& e.rev < g[e.v as int]@.len()
            &&& e.cost != i64::MIN
            &&& e.v != u ==> {
                let r = g[e.v as int]@[e.rev as int];
                &&& r.v == u
                &&& r.rev == i
                &&& r.cost == -e.cost
                &&& i32::MIN <= e.cap + r.cap <= i32::MAX
            }
        }
}

impl MinCostFlow {
    /// The number of vertices.
    pub closed spec fn len(&self) -> nat {
        self.g@.len()
    }

    /// The number of residual edges leaving `u`.
    pub closed spec fn deg(&self, u: int) -> nat {
        self.g@[u]@.len()
    }

    /// The head, remaining capacity and cost of the `i`-th residual edge leaving `u`.
    pub closed spec fn edge_at(&self, u: int, i: int) -> (int, int, int) {
        let e = self.g@[u]@[i];
        (e.v as int, e.cap as int, e.cost as int)
    }

    /// The sum of the remaining capacities of the edges leaving `u`.
    pub closed spec fn out_cap(&self, u: int) -> int {
        row_caps(self.g@[u]@)
    }

    /// The sum of cost times remaining capacity over all residual edges.
    pub closed spec fn weight(&self) -> int {
        total_weight(self.g@)
    }

    /// Every edge leads to a vertex; an edge between distinct vertices and its partner
    /// point at each other, have opposite costs, and their capacities add up to an `i32`.
    pub closed spec fn wf(&self) -> bool {
        graph_wf(self.g@)
    }

    pub fn new(n: usize) -> (f: Self)
        ensures
            f.wf(),
            f.len() == n,
            forall|u: int| 0 <= u < n ==> #[trigger] f.deg(u) == 0,
    {
        let mut g: Vec<Vec<Edge>> = Vec::new();
        let mut i: usize = 0;
        while i < n
            invariant
                i <= n,
                g@.len() == i,
                forall|u: int| 0 <= u < i ==> (#[trigger] g@[u])@.len() == 0,
            decreases n - i,
        {
            g.push(Vec::new());
            i += 1;
        }
        MinCostFlow { g }
    }

    /// Adds an edge `u -> v` of capacity `cap` and cost `cost`, with its partner
    /// `v -> u` of capacity 0 and cost `-cost`.
    pub fn add_edge(&mut self, u: usize, v: usize, cap: i32, cost: i64)
        requires
            old(self).wf(),
            u < old(self).len(),
            v < old(self).len(),
            cost != i64::MIN,
            old(self).deg(u as int) + 2 <= usize::MAX,
            old(self).deg(v as int) + 2 <= usize::MAX,
        ensures
            final(self).wf(),
            final(self).len() == old(self).len(),
            final(self).edge_at(u as int, old(self).deg(u as int) as int) == (v as int, cap as int, cost as int),
            u != v ==> final(self).edge_at(v as int, old(self).deg(v as int) as int) == (u as int, 0int, -cost),
            u == v ==> final(self).edge_at(u as int, old(self).deg(u as int) + 1int) == (u as int, 0int, -cost),
            forall|w: int|
                0 <= w < old(self).len() ==> #[trigger] final(self).deg(w) == old(self).deg(w) + if w == u && w == v {
                    2int
                } else if w == u || w == v {
                    1int
                } else {
                    0int
                },
            forall|w: int, i: int|
                0 <= w < old(self).len() && 0 <= i < old(self).deg(w) ==> #[trigger] final(self).edge_at(w, i)
                    == old(self).edge_at(w, i),
    {
        let rev_u = self.g[v].len();
        let rev_v = self.g[u].len();
        let ghost g0 = self.g@;
        self.g[u].push(Edge { v, rev: rev_u, cap, cost });
        let ghost g1 = self.g@;
        self.g[v].push(Edge { v: u, rev: rev_v, cap: 0, cost: -cost });
        proof {
            let g2 = self.g@;
            assert forall|w: int, i: int|
                0 <= w < g2.len() && 0 <= i < g2[w]@.len() implies {
                    let e = #[trigger] g2[w]@[i];
                    &&& e.v < g2.len()
                    &&& e.rev < g2[e.v as int]@.len()
                    &&& e.cost != i64::MIN
                    &&& e.v != w ==> {
                        let r = g2[e.v as int]@[e.rev as int];
                        &&& r.v == w
                        &&& r.rev == i
                        &&& r.cost == -e.cost
                        &&& i32::MIN <= e.cap + r.cap <= i32::MAX
                    }
                } by {
                if i < g0[w]@.len() {
                    assert(g2[w]@[i] == g0[w]@[i]);
                    let e = g0[w]@[i];
                    if e.v != w {
                        assert(g2[e.v as int]@[e.rev as int] == g0[e.v as int]@[e.rev as int]);
                    }
                }
            }
        }
    }
}


/// Every recorded predecessor edge leads to its vertex, has capacity left and starts at a
/// reached vertex; every reached vertex other than the source has a predecessor.
spec fn tree_ok(g: Seq<Vec<Edge>>, s: int, dist: Seq<i64>, prev: Seq<Option<(usize, usize)>>) -> bool {
    &&& forall|v: int|
        0 <= v < prev.len() && #[trigger] prev[v] is Some ==> {
            let (u, i) = prev[v]->0;
            &&& u < g.len()
            &&& i < g[u as int]@.len()
            &&& g[u as int]@[i as int].v == v
            &&& g[u as int]@[i as int].cap > 0
            &&& dist[u as int] < i64::MAX
        }
    &&& forall|v: int| 0 <= v < dist.len() && #[trigger] dist[v] < i64::MAX ==> v == s || prev[v] is Some
}

impl MinCostFlow {
    /// Shortest distances from `s` by reduced costs over edges with capacity left, with
    /// the edge by which each reached vertex was last improved.
    fn shortest(&self, s: usize, p: &Vec<i64>) -> (res: (Vec<i64>, Vec<Option<(usize, usize)>>))
        requires
            self.wf(),
            s < self.len(),
            p@.len() == self.len(),
        ensures
            res.0@.len() == self.len(),
            res.1@.len() == self.len(),
            tree_ok(self.g@, s as int, res.0@, res.1@),
    {
        let n = self.g.len();
        let mut dist: Vec<i64> = vec![i64::MAX; n];
        let mut prev: Vec<Option<(usize, usize)>> = vec![None; n];
        let mut done: Vec<bool> = vec![false; n];
        dist.set(s, 0);
        proof {
            crate::graph::djikstra::lemma_count_true_none(done@);
        }
        let ghost mut cnt: nat = 0;
        loop
            invariant
                n == self.g@.len(),
                self.wf(),
                s < n,
                p@.len() == n,
                dist@.len() == n,
                prev@.len() == n,
                done@.len() == n,
                cnt <= n,
                crate::graph::djikstra::count_true(done@) == cnt,
                tree_ok(self.g@, s as int, dist@, prev@),
            decreases n - cnt,
        {
            let mut best: usize = n;
            let mut x: usize = 0;
            while x < n
                invariant
                    n == dist@.len(),
                    n == done@.len(),
                    x <= n,
                    best == n || (best < n && !done@[best as int] && dist@[best as int] < i64::MAX),
                decreases n - x,
            {
                if !done[x] && dist[x] < i64::MAX && (best == n || dist[x] < dist[best]) {
                    best = x;
                }
                x += 1;
            }
            if best == n {
                break;
            }
            let u = best;
            let ghost d0 = done@;
            done.set(u, true);
            proof {
                crate::graph::djikstra::lemma_count_true_set(d0, u as int);
                cnt = cnt + 1;
            }
            let du = dist[u];
            let pu = p[u];
            let deg = self.g[u].len();
            let mut i: usize = 0;
            while i < deg
                invariant
                    n == self.g@.len(),
                    self.wf(),
                    u < n,
                    deg == self.g@[u as int]@.len(),
                    p@.len() == n,
                    dist@.len() == n,
                    prev@.len() == n,
                    dist@[u as int] < i64::MAX,
                    du == dist@[u as int] || dist@[u as int] < du,
                    du < i64::MAX,
                    pu == p@[u as int],
                    tree_ok(self.g@, s as int, dist@, prev@),
                decreases deg - i,
            {
                let e = self.g[u][i];
                proof {
                    assert(e == self.g@[u as int]@[i as int]);
                }
                if e.cap > 0 {
                    let dd: i128 = du as i128 + e.cost as i128 - p[e.v] as i128 + pu as i128;
                    if dd < dist[e.v] as i128 && dd >= i64::MIN as i128 {
                        dist.set(e.v, dd as i64);
                        prev.set(e.v, Some((u, i)));
                    }
                }
                i += 1;
            }
        }
        (dist, prev)
    }
}

/// The same vertices and edges, with the same heads, partners and costs.
#[verifier::opaque]
spec fn same_shape(a: Seq<Vec<Edge>>, b: Seq<Vec<Edge>>) -> bool {
    &&& a.len() == b.len()
    &&& forall|u: int| 0 <= u < a.len() ==> (#[trigger] a[u])@.len() == b[u]@.len()
    &&& forall|u: int, i: int|
        0 <= u < a.len() && 0 <= i < a[u]@.len() ==> {
            let x = #[trigger] a[u]@[i];
            let y = b[u]@[i];
            x.v == y.v && x.rev == y.rev && x.cost == y.cost
        }
}

/// Vertex `j` of a path given by its edges from `t` backwards.
spec fn vtx(t: usize, path: Seq<(usize, usize)>, j: int) -> usize {
    if j == 0 {
        t
    } else {
        path[j - 1].0
    }
}

/// The edges of `path` have capacity left and lead, from `t` backwards, through its vertices.
spec fn edges_ok(g: Seq<Vec<Edge>>, t: usize, path: Seq<(usize, usize)>) -> bool {
    forall|j: int|
        0 <= j < path.len() ==> {
            let (u, i) = #[trigger] path[j];
            &&& u < g.len()
            &&& i < g[u as int]@.len()
            &&& g[u as int]@[i as int].v == vtx(t, path, j)
            &&& g[u as int]@[i as int].cap > 0
        }
}

/// The vertices of `path` are pairwise distinct.
spec fn distinct_vertices(t: usize, path: Seq<(usize, usize)>) -> bool {
    forall|a: int, b: int| 0 <= a < b <= path.len() ==> vtx(t, path, a) != vtx(t, path, b)
}

/// `path` lists, from `t` back to `s`, edges with capacity left through distinct vertices.
#[verifier::opaque]
spec fn path_ok(g: Seq<Vec<Edge>>, s: usize, t: usize, path: Seq<(usize, usize)>) -> bool {
    &&& edges_ok(g, t, path)
    &&& vtx(t, path, path.len() as int) == s
    &&& distinct_vertices(t, path)
}

proof fn lemma_vtx_push(t: usize, p0: Seq<(usize, usize)>, e: (usize, usize))
    ensures
        forall|j: int| 0 <= j <= p0.len() ==> #[trigger] vtx(t, p0.push(e), j) == vtx(t, p0, j),
        vtx(t, p0.push(e), p0.len() + 1int) == e.0,
{
    assert forall|j: int| 0 <= j <= p0.len() implies #[trigger] vtx(t, p0.push(e), j) == vtx(t, p0, j) by {
        if j > 0 {
            assert(p0.push(e)[j - 1] == p0[j - 1]);
        }
    }
}

/// One more edge to a vertex not on the path keeps the path well formed.
proof fn lemma_path_push(g: Seq<Vec<Edge>>, t: usize, p0: Seq<(usize, usize)>, e: (usize, usize), seen: Seq<bool>)
    requires
        edges_ok(g, t, p0),
        distinct_vertices(t, p0),
        forall|j: int| 0 <= j <= p0.len() ==> seen[vtx(t, p0, j) as int],
        forall|j: int| 0 <= j <= p0.len() ==> vtx(t, p0, j) < seen.len(),
        e.0 < seen.len(),
        !seen[e.0 as int],
        e.0 < g.len(),
        e.1 < g[e.0 as int]@.len(),
        g[e.0 as int]@[e.1 as int].v == vtx(t, p0, p0.len() as int),
        g[e.0 as int]@[e.1 as int].cap > 0,
    ensures
        edges_ok(g, t, p0.push(e)),
        distinct_vertices(t, p0.push(e)),
        forall|j: int| 0 <= j <= p0.len() + 1 ==> seen.update(e.0 as int, true)[vtx(t, p0.push(e), j) as int],
{
    let p1 = p0.push(e);
    lemma_vtx_push(t, p0, e);
    assert forall|j: int| 0 <= j < p1.len() implies {
        let (u, i) = #[trigger] p1[j];
        &&& u < g.len()
        &&& i < g[u as int]@.len()
        &&& g[u as int]@[i as int].v == vtx(t, p1, j)
        &&& g[u as int]@[i as int].cap > 0
    } by {
        if j < p0.len() {
            assert(p1[j] == p0[j]);
        }
    }
    assert forall|a: int, b: int| 0 <= a < b <= p1.len() implies vtx(t, p1, a) != vtx(t, p1, b) by {
        if b == p1.len() {
            assert(seen[vtx(t, p0, a) as int]);
        }
    }
    let s1 = seen.update(e.0 as int, true);
    assert forall|j: int| 0 <= j <= p0.len() + 1 implies s1[vtx(t, p1, j) as int] by {
        if j <= p0.len() {
            assert(seen[vtx(t, p0, j) as int]);
        }
    }
}

/// The sum of the costs of the first `j` edges of the path.
spec fn path_cost(g: Seq<Vec<Edge>>, path: Seq<(usize, usize)>, j: int) -> int
    decreases j,
{
    if j <= 0 {
        0
    } else {
        path_cost(g, path, j - 1) + g[path[j - 1].0 as int]@[path[j - 1].1 as int].cost
    }
}

/// The vertex reached from `t` after `j` steps back along the predecessor edges, or
/// `-1` once a vertex without one is passed.
pub open spec fn walk_back(prev: Seq<Option<(usize, usize)>>, t: usize, j: nat) -> int
    decreases j,
{
    if j == 0 {
        t as int
    } else {
        let w = walk_back(prev, t, (j - 1) as nat);
        if 0 <= w < prev.len() && prev[w] is Some {
            (prev[w]->0).0 as int
        } else {
            -1
        }
    }
}

/// One more step back along the predecessor edges keeps the path in step with the walk.
proof fn lemma_walk_push(
    prev: Seq<Option<(usize, usize)>>,
    t: usize,
    s: usize,
    n: int,
    p0: Seq<(usize, usize)>,
    e: (usize, usize),
    v: usize,
    sb: Seq<bool>,
    s1: Seq<bool>,
)
    requires
        forall|j: int| 0 <= j <= p0.len() ==> #[trigger] vtx(t, p0, j) == walk_back(prev, t, j as nat),
        forall|j: int| 0 <= j < p0.len() ==> #[trigger] vtx(t, p0, j) != s,
        forall|x: int| 0 <= x < n && #[trigger] sb[x] ==> exists|j: int| 0 <= j <= p0.len() && vtx(t, p0, j) == x,
        v == vtx(t, p0, p0.len() as int),
        v != s,
        walk_back(prev, t, (p0.len() + 1) as nat) == e.0,
        sb.len() == n,
        e.0 < n,
        s1 == sb.update(e.0 as int, true),
    ensures
        forall|j: int| 0 <= j <= p0.len() + 1 ==> #[trigger] vtx(t, p0.push(e), j) == walk_back(prev, t, j as nat),
        forall|j: int| 0 <= j < p0.len() + 1 ==> #[trigger] vtx(t, p0.push(e), j) != s,
        forall|x: int| 0 <= x < n && #[trigger] s1[x] ==> exists|j: int| 0 <= j <= p0.len() + 1 && vtx(t, p0.push(e), j) == x,
{
    let p1 = p0.push(e);
    lemma_vtx_push(t, p0, e);
    assert forall|j: int| 0 <= j <= p1.len() implies #[trigger] vtx(t, p1, j) == walk_back(prev, t, j as nat) by {
        if j <= p0.len() {
            assert(vtx(t, p0, j) == walk_back(prev, t, j as nat));
        }
    }
    assert forall|j: int| 0 <= j < p1.len() implies #[trigger] vtx(t, p1, j) != s by {
        if j < p0.len() {
            assert(vtx(t, p0, j) != s);
        }
    }
    assert forall|x: int| 0 <= x < n && #[trigger] s1[x] implies exists|j: int| 0 <= j <= p1.len() && vtx(t, p1, j) == x by {
        if x == e.0 {
            assert(vtx(t, p1, p0.len() + 1int) == x);
        } else {
            assert(sb[x]);
            let j = choose|j: int| 0 <= j <= p0.len() && vtx(t, p0, j) == x;
            assert(vtx(t, p1, j) == x);
        }
    }
}

/// A step back to a vertex already on the path closes a circle that misses `s`.
proof fn lemma_walk_repeat(
    prev: Seq<Option<(usize, usize)>>,
    t: usize,
    s: usize,
    n: int,
    p: Seq<(usize, usize)>,
    u: usize,
    seen: Seq<bool>,
)
    requires
        forall|j: int| 0 <= j <= p.len() ==> #[trigger] vtx(t, p, j) == walk_back(prev, t, j as nat),
        forall|j: int| 0 <= j < p.len() ==> #[trigger] vtx(t, p, j) != s,
        forall|x: int| 0 <= x < n && #[trigger] seen[x] ==> exists|j: int| 0 <= j <= p.len() && vtx(t, p, j) == x,
        vtx(t, p, p.len() as int) != s,
        walk_back(prev, t, (p.len() + 1) as nat) == u,
        u < n,
        seen[u as int],
    ensures
        exists|j1: nat, j2: nat|
            j1 < j2 && #[trigger] walk_back(prev, t, j1) == #[trigger] walk_back(prev, t, j2) && forall|j: nat|
                j < j2 ==> #[trigger] walk_back(prev, t, j) != s,
{
    let l = p.len();
    let j1 = choose|j: int| 0 <= j <= l && vtx(t, p, j) == u;
    assert(walk_back(prev, t, j1 as nat) == walk_back(prev, t, (l + 1) as nat));
    assert forall|j: nat| j < l + 1 implies #[trigger] walk_back(prev, t, j) != s by {
        assert(vtx(t, p, j as int) == walk_back(prev, t, j));
    }
}

impl MinCostFlow {
    /// The path to `t` along the recorded predecessor edges, if `t` was reached and the
    /// edges lead back to `s` without a repeated vertex.
    #[verifier::rlimit(60)]
    fn find_path(&self, s: usize, t: usize, dist: &Vec<i64>, prev: &Vec<Option<(usize, usize)>>) -> (r: Option<Vec<(usize, usize)>>)
        requires
            self.wf(),
            s < self.len(),
            t < self.len(),
            dist@.len() == self.len(),
            prev@.len() == self.len(),
            tree_ok(self.g@, s as int, dist@, prev@),
        ensures
            r matches Some(path) ==> path_ok(self.g@, s, t, path@),
            r is None ==> prev@[t as int] is None || exists|j1: nat, j2: nat|
                j1 < j2 && #[trigger] walk_back(prev@, t, j1) == #[trigger] walk_back(prev@, t, j2) && forall|j: nat|
                    j < j2 ==> #[trigger] walk_back(prev@, t, j) != s,
    {
        let n = self.g.len();
        if prev[t].is_none() {
            return None;
        }
        let mut path: Vec<(usize, usize)> = Vec::new();
        let mut seen: Vec<bool> = vec![false; n];
        proof {
            crate::graph::djikstra::lemma_count_true_none(seen@);
        }
        let ghost s0 = seen@;
        seen.set(t, true);
        proof {
            crate::graph::djikstra::lemma_count_true_set(s0, t as int);
            assert forall|x: int| 0 <= x < n && #[trigger] seen@[x] implies exists|j: int|
                0 <= j <= path@.len() && vtx(t, path@, j) == x by {
                assert(x == t);
                assert(vtx(t, path@, 0) == x);
            }
        }
        let mut v = t;
        while v != s
            invariant
                n == self.g@.len(),
                s < n,
                t < n,
                v < n,
                dist@.len() == n,
                prev@.len() == n,
                seen@.len() == n,
                tree_ok(self.g@, s as int, dist@, prev@),
                v == vtx(t, path@, path@.len() as int),
                v == s || prev@[v as int] is Some,
                crate::graph::djikstra::count_true(seen@) == path@.len() + 1,
                forall|j: int| 0 <= j <= path@.len() ==> seen@[vtx(t, path@, j) as int],
                forall|j: int| 0 <= j <= path@.len() ==> vtx(t, path@, j) < n,
                edges_ok(self.g@, t, path@),
                distinct_vertices(t, path@),
                forall|j: int| 0 <= j <= path@.len() ==> #[trigger] vtx(t, path@, j) == walk_back(prev@, t, j as nat),
                forall|j: int| 0 <= j < path@.len() ==> #[trigger] vtx(t, path@, j) != s,
                forall|x: int| 0 <= x < n && #[trigger] seen@[x] ==> exists|j: int| 0 <= j <= path@.len() && vtx(t, path@, j) == x,
            decreases n - crate::graph::djikstra::count_true(seen@),
        {
            let (u, i) = prev[v].unwrap();
            proof {
                let l = path@.len();
                assert(walk_back(prev@, t, (l + 1) as nat) == u) by {
                    assert(walk_back(prev@, t, l as nat) == v);
                }
            }
            if seen[u] {
                proof {
                    lemma_walk_repeat(prev@, t, s, n as int, path@, u, seen@);
                }
                return None;
            }
            let ghost p0 = path@;
            let ghost sb = seen@;
            proof {
                lemma_path_push(self.g@, t, p0, (u, i), sb);
                crate::graph::djikstra::lemma_count_true_set(sb, u as int);
            }
            seen.set(u, true);
            path.push((u, i));
            proof {
                lemma_vtx_push(t, p0, (u, i));
                lemma_walk_push(prev@, t, s, n as int, p0, (u, i), v, sb, seen@);
            }
            v = u;
        }
        proof {
            reveal(path_ok);
        }
        Some(path)
    }
}

/// All capacities other than those of slots `x` and `y` agree.
#[verifier::opaque]
spec fn caps_agree_except(a: Seq<Vec<Edge>>, b: Seq<Vec<Edge>>, x: (int, int), y: (int, int)) -> bool {
    forall|w: int, k: int|
        0 <= w < a.len() && 0 <= k < a[w]@.len() && (w, k) != x && (w, k) != y ==> #[trigger] b[w]@[k].cap
            == a[w]@[k].cap
}

/// Moving capacity between an edge and its partner keeps the graph well formed.
proof fn lemma_wf_shift(a: Seq<Vec<Edge>>, b: Seq<Vec<Edge>>, x: (int, int), y: (int, int))
    requires
        graph_wf(a),
        same_shape(a, b),
        0 <= x.0 < a.len(),
        0 <= x.1 < a[x.0]@.len(),
        a[x.0]@[x.1].v != x.0,
        y == (a[x.0]@[x.1].v as int, a[x.0]@[x.1].rev as int),
        caps_agree_except(a, b, x, y),
        b[x.0]@[x.1].cap + b[y.0]@[y.1].cap == a[x.0]@[x.1].cap + a[y.0]@[y.1].cap,
    ensures
        graph_wf(b),
{
    reveal(same_shape);
    reveal(caps_agree_except);
    assert forall|u: int, i: int| 0 <= u < b.len() && 0 <= i < b[u]@.len() implies {
        let e = #[trigger] b[u]@[i];
        &&& e.v < b.len()
        &&& e.rev < b[e.v as int]@.len()
        &&& e.cost != i64::MIN
        &&& e.v != u ==> {
            let r = b[e.v as int]@[e.rev as int];
            &&& r.v == u
            &&& r.rev == i
            &&& r.cost == -e.cost
            &&& i32::MIN <= e.cap + r.cap <= i32::MAX
        }
    } by {
        let ea = a[u]@[i];
        let eb = b[u]@[i];
        assert(ea.v == eb.v && ea.rev == eb.rev && ea.cost == eb.cost);
        if ea.v != u {
            let ra = a[ea.v as int]@[ea.rev as int];
            let rb = b[ea.v as int]@[ea.rev as int];
            assert(ra.v == rb.v && ra.rev == rb.rev && ra.cost == rb.cost);
            let xa = a[x.0]@[x.1];
            let ya = a[y.0]@[y.1];
            assert(ya.v == x.0 && ya.rev == x.1);
            if (u, i) == x {
            } else if (u, i) == y {
            } else {
                assert((ea.v as int, ea.rev as int) != x);
                assert((ea.v as int, ea.rev as int) != y);
            }
        }
    }
}

/// Slot `(w, k)` is neither one of the first `j` path edges nor one of their partners.
#[verifier::opaque]
spec fn off_path(g0: Seq<Vec<Edge>>, t: usize, path: Seq<(usize, usize)>, j: int, w: int, k: int) -> bool {
    forall|jj: int|
        0 <= jj < j ==> (w, k) != ((#[trigger] path[jj]).0 as int, path[jj].1 as int) && (w, k) != (
        vtx(t, path, jj) as int,
        g0[path[jj].0 as int]@[path[jj].1 as int].rev as int,
    )
}

/// The capacity moved so far: slots off the first `j` path edges are untouched, no
/// capacity that was nonnegative became negative, each row changed by `add` at `t` and
/// at vertex `j` of the path, and the weight by the cost of the first `j` edges.
#[verifier::opaque]
spec fn shifted(g0: Seq<Vec<Edge>>, g: Seq<Vec<Edge>>, t: usize, path: Seq<(usize, usize)>, j: int, add: int) -> bool {
    &&& forall|w: int, k: int|
        0 <= w < g0.len() && 0 <= k < g0[w]@.len() && off_path(g0, t, path, j, w, k) ==> #[trigger] g[w]@[k].cap
            == g0[w]@[k].cap
    &&& forall|w: int, k: int|
        0 <= w < g0.len() && 0 <= k < g0[w]@.len() && g0[w]@[k].cap >= 0 ==> #[trigger] g[w]@[k].cap >= 0
    &&& forall|w: int|
        0 <= w < g0.len() ==> #[trigger] row_caps(g[w]@) == row_caps(g0[w]@) + (if w == t {
            add
        } else {
            0int
        }) - (if w == vtx(t, path, j) {
            add
        } else {
            0int
        })
    &&& total_weight(g) == total_weight(g0) - 2 * add * path_cost(g0, path, j)
}

/// Edge `j` of the path still has its starting capacity.
proof fn lemma_next_untouched(
    g0: Seq<Vec<Edge>>,
    gb: Seq<Vec<Edge>>,
    s: usize,
    t: usize,
    path: Seq<(usize, usize)>,
    j: int,
    add: int,
)
    requires
        path_ok(g0, s, t, path),
        0 <= j < path.len(),
        shifted(g0, gb, t, path, j, add),
    ensures
        gb[path[j].0 as int]@[path[j].1 as int].cap == g0[path[j].0 as int]@[path[j].1 as int].cap,
{
    reveal(path_ok);
    reveal(shifted);
    reveal(off_path);
    let x = (path[j].0 as int, path[j].1 as int);
    assert(edges_ok(g0, t, path));
    let (u, i) = path[j];
    assert(u < g0.len() && i < g0[u as int]@.len());
    assert forall|jj: int| 0 <= jj < j implies x != (path[jj].0 as int, path[jj].1 as int) && x != (
        vtx(t, path, jj) as int,
        g0[path[jj].0 as int]@[path[jj].1 as int].rev as int,
    ) by {
        assert(vtx(t, path, jj) != vtx(t, path, j));
        let (u2, i2) = path[jj];
        assert(g0[u2 as int]@[i2 as int].v == vtx(t, path, jj));
        if x == (vtx(t, path, jj) as int, g0[u2 as int]@[i2 as int].rev as int) {
            assert(vtx(t, path, jj) == vtx(t, path, j + 1));
        }
    }
    assert(off_path(g0, t, path, j, x.0, x.1));
}

/// The capacity of slot `x` went down by `add` and that of slot `y` up by `add`; nothing
/// else changed.
spec fn moved(gb: Seq<Vec<Edge>>, g2: Seq<Vec<Edge>>, x: (int, int), y: (int, int), add: int) -> bool {
    &&& same_shape(gb, g2)
    &&& caps_agree_except(gb, g2, x, y)
    &&& g2[x.0]@[x.1].cap == gb[x.0]@[x.1].cap - add
    &&& g2[y.0]@[y.1].cap == gb[y.0]@[y.1].cap + add
    &&& forall|w: int| 0 <= w < gb.len() && w != x.0 && w != y.0 ==> #[trigger] g2[w] == gb[w]
    &&& g2[x.0]@ == gb[x.0]@.update(x.1, g2[x.0]@[x.1])
    &&& g2[y.0]@ == gb[y.0]@.update(y.1, g2[y.0]@[y.1])
}

proof fn lemma_shape_trans(a: Seq<Vec<Edge>>, b: Seq<Vec<Edge>>, c: Seq<Vec<Edge>>)
    requires
        same_shape(a, b),
        same_shape(b, c),
    ensures
        same_shape(a, c),
{
    reveal(same_shape);
    assert forall|u: int, i: int| 0 <= u < a.len() && 0 <= i < a[u]@.len() implies {
        let x = #[trigger] a[u]@[i];
        let y = c[u]@[i];
        x.v == y.v && x.rev == y.rev && x.cost == y.cost
    } by {
        assert(b[u]@[i].v == a[u]@[i].v);
    }
}

/// The weight drops by twice `add` times the cost of the edge moved.
proof fn lemma_weight_step(gb: Seq<Vec<Edge>>, g2: Seq<Vec<Edge>>, x: (int, int), y: (int, int), add: int)
    requires
        graph_wf(gb),
        0 <= x.0 < gb.len(),
        0 <= x.1 < gb[x.0]@.len(),
        gb[x.0]@[x.1].v != x.0,
        y == (gb[x.0]@[x.1].v as int, gb[x.0]@[x.1].rev as int),
        moved(gb, g2, x, y, add),
    ensures
        total_weight(g2) == total_weight(gb) - 2 * (gb[x.0]@[x.1].cost * add),
{
    reveal(same_shape);
    let eb = gb[x.0]@[x.1];
    let rb = gb[y.0]@[y.1];
    assert(rb.cost == -eb.cost);
    let g1 = gb.update(x.0, g2[x.0]);
    lemma_row_update(gb[x.0]@, x.1, g2[x.0]@[x.1]);
    lemma_total_update(gb, x.0, g2[x.0]);
    assert(g1[y.0] == gb[y.0]);
    lemma_row_update(gb[y.0]@, y.1, g2[y.0]@[y.1]);
    lemma_total_update(g1, y.0, g2[y.0]);
    assert(g1.update(y.0, g2[y.0]) =~= g2);
    let cu = eb.cost as int;
    let cv = rb.cost as int;
    let ca = eb.cap as int;
    let cb = rb.cap as int;
    assert(cu * (ca - add) - cu * ca == -(cu * add)) by (nonlinear_arith);
    assert(cv * (cb + add) - cv * cb == cv * add) by (nonlinear_arith);
    assert(cv * add == -(cu * add)) by (nonlinear_arith)
        requires
            cv == -cu,
    ;
}

/// One more edge of the path carried `add` units.
proof fn lemma_shift_step(
    g0: Seq<Vec<Edge>>,
    gb: Seq<Vec<Edge>>,
    g2: Seq<Vec<Edge>>,
    s: usize,
    t: usize,
    path: Seq<(usize, usize)>,
    j: int,
    add: int,
)
    requires
        graph_wf(g0),
        graph_wf(gb),
        same_shape(g0, gb),
        path_ok(g0, s, t, path),
        0 <= j < path.len(),
        add > 0,
        shifted(g0, gb, t, path, j, add),
        gb[path[j].0 as int]@[path[j].1 as int].cap == g0[path[j].0 as int]@[path[j].1 as int].cap,
        g0[path[j].0 as int]@[path[j].1 as int].cap >= add,
        path[j].0 < g0.len(),
        path[j].1 < g0[path[j].0 as int]@.len(),
        moved(
            gb,
            g2,
            (path[j].0 as int, path[j].1 as int),
            (g0[path[j].0 as int]@[path[j].1 as int].v as int, g0[path[j].0 as int]@[path[j].1 as int].rev as int),
            add,
        ),
    ensures
        graph_wf(g2),
        same_shape(g0, g2),
        shifted(g0, g2, t, path, j + 1, add),
{
    let (u, i) = path[j];
    let e = g0[u as int]@[i as int];
    let x = (u as int, i as int);
    let y = (e.v as int, e.rev as int);
    let v = e.v;
    reveal(same_shape);
    assert(vtx(t, path, j + 1) == u);
    assert(v == vtx(t, path, j)) by {
        reveal(path_ok);
    }
    assert(u != v) by {
        reveal(path_ok);
    }
    let eb = gb[u as int]@[i as int];
    assert(eb.v == v && eb.rev == e.rev && eb.cost == e.cost) by {
        reveal(same_shape);
    }
    lemma_wf_shift(gb, g2, x, y);
    lemma_shape_trans(g0, gb, g2);
    lemma_weight_step(gb, g2, x, y, add);
    let cu = e.cost as int;
    let pc = path_cost(g0, path, j);
    assert(path_cost(g0, path, j + 1) == pc + cu);
    assert(2 * add * (pc + cu) == 2 * add * pc + 2 * (cu * add)) by (nonlinear_arith);
    reveal(shifted);
    assert forall|w: int, k: int|
        0 <= w < g0.len() && 0 <= k < g0[w]@.len() && off_path(g0, t, path, j + 1, w, k) implies #[trigger] g2[w]@[k].cap
            == g0[w]@[k].cap by {
        reveal(off_path);
        reveal(caps_agree_except);
        assert forall|jj: int| 0 <= jj < j implies (w, k) != (path[jj].0 as int, path[jj].1 as int) && (w, k) != (
            vtx(t, path, jj) as int,
            g0[path[jj].0 as int]@[path[jj].1 as int].rev as int,
        ) by {
            assert(0 <= jj < j + 1);
            let pj = path[jj];
        }
        assert(off_path(g0, t, path, j, w, k));
        assert((w, k) != x);
        assert((w, k) != y);
    }
    assert forall|w: int, k: int|
        0 <= w < g0.len() && 0 <= k < g0[w]@.len() && g0[w]@[k].cap >= 0 implies #[trigger] g2[w]@[k].cap >= 0 by {
        reveal(same_shape);
        reveal(caps_agree_except);
        if (w, k) != x && (w, k) != y {
            assert(g2[w]@[k].cap == gb[w]@[k].cap);
        }
    }
    lemma_row_update(gb[u as int]@, i as int, g2[u as int]@[i as int]);
    lemma_row_update(gb[v as int]@, e.rev as int, g2[v as int]@[e.rev as int]);
    assert forall|w: int| 0 <= w < g0.len() implies #[trigger] row_caps(g2[w]@) == row_caps(g0[w]@) + (if w == t {
        add
    } else {
        0int
    }) - (if w == vtx(t, path, j + 1) {
        add
    } else {
        0int
    }) by {
        if w != u as int && w != v as int {
            assert(g2[w] == gb[w]);
        }
    }
}

proof fn lemma_shift_init(g0: Seq<Vec<Edge>>, t: usize, path: Seq<(usize, usize)>, add: int)
    ensures
        shifted(g0, g0, t, path, 0, add),
        same_shape(g0, g0),
{
    reveal(shifted);
    reveal(same_shape);
    assert(vtx(t, path, 0) == t);
}

proof fn lemma_moved(gb: Seq<Vec<Edge>>, g2: Seq<Vec<Edge>>, x: (int, int), y: (int, int), add: int)
    requires
        x.0 != y.0,
        0 <= x.0 < gb.len(),
        0 <= y.0 < gb.len(),
        0 <= x.1 < gb[x.0]@.len(),
        0 <= y.1 < gb[y.0]@.len(),
        g2.len() == gb.len(),
        forall|w: int| 0 <= w < gb.len() && w != x.0 && w != y.0 ==> #[trigger] g2[w] == gb[w],
        g2[x.0]@ == gb[x.0]@.update(x.1, g2[x.0]@[x.1]),
        g2[y.0]@ == gb[y.0]@.update(y.1, g2[y.0]@[y.1]),
        g2[x.0]@[x.1] == (Edge { cap: (gb[x.0]@[x.1].cap - add) as i32, ..gb[x.0]@[x.1] }),
        g2[y.0]@[y.1] == (Edge { cap: (gb[y.0]@[y.1].cap + add) as i32, ..gb[y.0]@[y.1] }),
        i32::MIN <= gb[x.0]@[x.1].cap - add,
        gb[y.0]@[y.1].cap + add <= i32::MAX,
        add >= 0,
    ensures
        moved(gb, g2, x, y, add),
{
    reveal(same_shape);
    reveal(caps_agree_except);
    assert forall|u: int| 0 <= u < gb.len() implies (#[trigger] gb[u])@.len() == g2[u]@.len() by {
        if u != x.0 && u != y.0 {
            assert(g2[u] == gb[u]);
        }
    }
    assert forall|u: int, i: int| 0 <= u < gb.len() && 0 <= i < gb[u]@.len() implies {
        let p = #[trigger] gb[u]@[i];
        let q = g2[u]@[i];
        p.v == q.v && p.rev == q.rev && p.cost == q.cost
    } by {
        if u != x.0 && u != y.0 {
            assert(g2[u] == gb[u]);
        }
    }
    assert forall|w: int, k: int|
        0 <= w < gb.len() && 0 <= k < gb[w]@.len() && (w, k) != x && (w, k) != y implies #[trigger] g2[w]@[k].cap
            == gb[w]@[k].cap by {
        if w != x.0 && w != y.0 {
            assert(g2[w] == gb[w]);
        }
    }
}

impl MinCostFlow {
    /// Pushes `add` units along the path: each path edge loses `add` of its capacity and
    /// its partner gains it.
    fn augment(&mut self, s: usize, t: usize, path: &Vec<(usize, usize)>, add: i32)
        requires
            old(self).wf(),
            s < old(self).len(),
            t < old(self).len(),
            path_ok(old(self).g@, s, t, path@),
            add > 0,
            forall|j: int|
                0 <= j < path@.len() ==> old(self).g@[(#[trigger] path@[j]).0 as int]@[path@[j].1 as int].cap >= add,
        ensures
            final(self).wf(),
            same_shape(old(self).g@, final(self).g@),
            shifted(old(self).g@, final(self).g@, t, path@, path@.len() as int, add as int),
    {
        let ghost g0 = self.g@;
        proof {
            lemma_shift_init(g0, t, path@, add as int);
        }
        let mut j: usize = 0;
        while j < path.len()
            invariant
                graph_wf(self.g@),
                graph_wf(g0),
                same_shape(g0, self.g@),
                s < g0.len(),
                t < g0.len(),
                add > 0,
                j <= path@.len(),
                path_ok(g0, s, t, path@),
                forall|jj: int|
                    0 <= jj < path@.len() ==> g0[(#[trigger] path@[jj]).0 as int]@[path@[jj].1 as int].cap >= add,
                shifted(g0, self.g@, t, path@, j as int, add as int),
            decreases path@.len() - j,
        {
            let (u, i) = path[j];
            let ghost gb = self.g@;
            proof {
                assert(path@[j as int] == (u, i));
                lemma_next_untouched(g0, gb, s, t, path@, j as int, add as int);
                reveal(path_ok);
                reveal(same_shape);
                assert(vtx(t, path@, j as int + 1) == u);
                assert(u < g0.len() && i < g0[u as int]@.len());
            }
            let e = self.g[u][i];
            let v = e.v;
            let r = e.rev;
            proof {
                reveal(path_ok);
                reveal(same_shape);
                assert(v == vtx(t, path@, j as int));
                assert(u != v);
                assert(gb[v as int]@[r as int].v == u);
                assert(i32::MIN <= gb[u as int]@[i as int].cap + gb[v as int]@[r as int].cap <= i32::MAX);
            }
            self.g[u][i].cap = e.cap - add;
            let c = self.g[v][r].cap;
            self.g[v][r].cap = c + add;
            proof {
                let g2 = self.g@;
                assert(g2[u as int]@ =~= gb[u as int]@.update(i as int, g2[u as int]@[i as int]));
                assert(g2[v as int]@ =~= gb[v as int]@.update(r as int, g2[v as int]@[r as int]));
                lemma_moved(gb, g2, (u as int, i as int), (v as int, r as int), add as int);
                reveal(same_shape);
                lemma_shift_step(g0, gb, g2, s, t, path@, j as int, add as int);
            }
            j += 1;
        }
    }
}

impl MinCostFlow {
    /// The least capacity along the path, and at most `bound`.
    fn path_min(&self, s: usize, t: usize, path: &Vec<(usize, usize)>, bound: i32) -> (add: i32)
        requires
            self.wf(),
            path_ok(self.g@, s, t, path@),
            bound > 0,
        ensures
            0 < add <= bound,
            forall|j: int|
                0 <= j < path@.len() ==> self.g@[(#[trigger] path@[j]).0 as int]@[path@[j].1 as int].cap >= add,
    {
        proof {
            reveal(path_ok);
        }
        let mut add = bound;
        let mut j: usize = 0;
        while j < path.len()
            invariant
                edges_ok(self.g@, t, path@),
                j <= path@.len(),
                0 < add <= bound,
                forall|jj: int|
                    0 <= jj < j ==> self.g@[(#[trigger] path@[jj]).0 as int]@[path@[jj].1 as int].cap >= add,
            decreases path@.len() - j,
        {
            let (u, i) = path[j];
            assert(path@[j as int] == (u, i));
            let c = self.g[u][i].cap;
            if c < add {
                add = c;
            }
            j += 1;
        }
        add
    }

    /// The sum of the costs along the path, if it fits.
    fn path_cost_of(&self, s: usize, t: usize, path: &Vec<(usize, usize)>) -> (c: Option<i64>)
        requires
            self.wf(),
            path_ok(self.g@, s, t, path@),
        ensures
            c matches Some(c) ==> c == path_cost(self.g@, path@, path@.len() as int),
            c is Some <==> forall|j: int|
                0 <= j <= path@.len() ==> i64::MIN <= #[trigger] path_cost(self.g@, path@, j) <= i64::MAX,
    {
        proof {
            reveal(path_ok);
        }
        let mut c: i64 = 0;
        let mut j: usize = 0;
        while j < path.len()
            invariant
                edges_ok(self.g@, t, path@),
                j <= path@.len(),
                c == path_cost(self.g@, path@, j as int),
                forall|j2: int| 0 <= j2 <= j ==> i64::MIN <= #[trigger] path_cost(self.g@, path@, j2) <= i64::MAX,
            decreases path@.len() - j,
        {
            let (u, i) = path[j];
            assert(path@[j as int] == (u, i));
            match c.checked_add(self.g[u][i].cost) {
                Some(x) => c = x,
                None => {
                    proof {
                        assert(!(i64::MIN <= path_cost(self.g@, path@, j + 1) <= i64::MAX));
                    }
                    return None;
                },
            }
            j += 1;
        }
        Some(c)
    }

    /// Sends up to `limit` units from `s` to `t`, each time along a path of least cost
    /// among the edges with capacity left, and returns the flow sent and its cost.
    ///
    /// Distances and potentials are kept in `i64`; a round whose potentials or cost would
    /// leave that range is not made, and neither is one whose predecessor edges run in a
    /// circle instead of back to `s`.
    pub fn run(&mut self, s: usize, t: usize, limit: i32) -> (res: (i32, i64))
        requires
            old(self).wf(),
            s < old(self).len(),
            t < old(self).len(),
        ensures
            final(self).wf(),
            final(self).len() == old(self).len(),
            forall|u: int| 0 <= u < old(self).len() ==> #[trigger] final(self).deg(u) == old(self).deg(u),
            forall|u: int, i: int|
                0 <= u < old(self).len() && 0 <= i < old(self).deg(u) ==> (#[trigger] final(self).edge_at(u, i)).0
                    == old(self).edge_at(u, i).0 && final(self).edge_at(u, i).2 == old(self).edge_at(u, i).2,
            0 <= res.0,
            limit <= 0 ==> res.0 == 0,
            limit > 0 ==> res.0 <= limit,
            forall|u: int|
                0 <= u < old(self).len() ==> old(self).out_cap(u) - #[trigger] final(self).out_cap(u) == (if u == s {
                    res.0 as int
                } else {
                    0int
                }) - (if u == t {
                    res.0 as int
                } else {
                    0int
                }),
            2 * res.1 == old(self).weight() - final(self).weight(),
            forall|u: int, i: int|
                0 <= u < old(self).len() && 0 <= i < old(self).deg(u) && old(self).edge_at(u, i).1 >= 0
                    ==> (#[trigger] final(self).edge_at(u, i)).1 >= 0,
    {
        let n = self.g.len();
        let mut flow: i32 = 0;
        let mut cost: i64 = 0;
        let mut p: Vec<i64> = vec![0; n];
        let ghost g0 = self.g@;
        proof {
            lemma_shift_init(g0, t, Seq::empty(), 0);
        }
        while flow < limit
            invariant
                graph_wf(self.g@),
                same_shape(g0, self.g@),
                n == g0.len(),
                self.g@.len() == n,
                s < n,
                t < n,
                p@.len() == n,
                0 <= flow,
                flow <= limit || flow == 0,
                forall|u: int|
                    0 <= u < n ==> row_caps(g0[u]@) - #[trigger] row_caps(self.g@[u]@) == (if u == s {
                        flow as int
                    } else {
                        0int
                    }) - (if u == t {
                        flow as int
                    } else {
                        0int
                    }),
                total_weight(g0) - total_weight(self.g@) == 2 * cost,
                forall|w: int, k: int|
                    0 <= w < n && 0 <= k < g0[w]@.len() && g0[w]@[k].cap >= 0 ==> #[trigger] self.g@[w]@[k].cap
                        >= 0,
            decreases limit - flow,
        {
            let (dist, prev) = self.shortest(s, &p);
            let path = match self.find_path(s, t, &dist, &prev) {
                Some(path) => path,
                None => break,
            };
            let mut np: Vec<i64> = Vec::new();
            let mut u: usize = 0;
            let mut fits = true;
            while u < n
                invariant
                    u <= n,
                    np@.len() == u,
                    p@.len() == n,
                    dist@.len() == n,
                decreases n - u,
            {
                if dist[u] != i64::MAX {
                    match p[u].checked_add(dist[u]) {
                        Some(x) => np.push(x),
                        None => {
                            fits = false;
                            np.push(p[u]);
                        },
                    }
                } else {
                    np.push(p[u]);
                }
                u += 1;
            }
            if !fits {
                break;
            }
            p = np;
            let add = self.path_min(s, t, &path, limit - flow);
            let pc = match self.path_cost_of(s, t, &path) {
                Some(pc) => pc,
                None => break,
            };
            let new_cost = match pc.checked_mul(add as i64) {
                Some(d) => match cost.checked_add(d) {
                    Some(c) => c,
                    None => break,
                },
                None => break,
            };
            let ghost gb = self.g@;
            self.augment(s, t, &path, add);
            proof {
                let g2 = self.g@;
                reveal(shifted);
                reveal(path_ok);
                lemma_shape_trans(g0, gb, g2);
                assert(vtx(t, path@, path@.len() as int) == s);
                assert(2 * (add as int) * pc == 2 * (pc * (add as int))) by (nonlinear_arith);
                reveal(same_shape);
                assert forall|w: int, k: int|
                    0 <= w < n && 0 <= k < g0[w]@.len() && g0[w]@[k].cap >= 0 implies #[trigger] g2[w]@[k].cap
                        >= 0 by {
                    assert(gb[w]@[k].cap >= 0);
                }
            }
            flow = flow + add;
            cost = new_cost;
        }
        proof {
            reveal(same_shape);
        }
        (flow, cost)
    }
}

} // verus!
