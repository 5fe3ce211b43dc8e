use vstd::prelude::*;
use crate::graph::tsort::heads_below;

verus! {

/// The number of entries equal to 0.
pub open spec fn count_unvisited(s: Seq<usize>) -> nat
    decreases s.len(),
{
    if s.len() == 0 {
        0
    } else {
        count_unvisited(s.drop_last()) + if s.last() == 0 {
            1nat
        } else {
            0nat
        }
    }
}

proof fn lemma_count_unvisited_set(s: Seq<usize>, i: int, x: usize)
    requires
        0 <= i < s.len(),
    ensures
        count_unvisited(s.update(i, x)) == count_unvisited(s) - (if s[i] == 0 {
            1int
        } else {
            0int
        }) + (if x == 0 {
            1int
        } else {
            0int
        }),
    decreases s.len(),
{
    let t = s.update(i, x);
    if i == s.len() - 1 {
        assert(t.drop_last() =~= s.drop_last());
    } else {
        lemma_count_unvisited_set(s.drop_last(), i, x);
        assert(t.drop_last() =~= s.drop_last().update(i, x));
    }
}

proof fn lemma_count_unvisited_bound(s: Seq<usize>)
    ensures
        count_unvisited(s) <= s.len(),
    decreases s.len(),
{
    if s.len() > 0 {
        lemma_count_unvisited_bound(s.drop_last());
    }
}

/// Some vertex has component index `c`.
pub open spec fn id_taken(ids: Seq<usize>, c: int) -> bool {
    exists|v: int| 0 <= v < ids.len() && ids[v] == c
}

/// The order number given to the vertices of the `c`-th closed component.
pub open spec fn closed_mark(c: int) -> int {
    usize::MAX + 1 - c
}

/// Some vertex carries the mark of component `c`.
pub open spec fn marked(ord: Seq<usize>, c: int) -> bool {
    exists|v: int| 0 <= v < ord.len() && ord[v] == closed_mark(c)
}

/// The edges `adj[x][..upto]` lead to closed vertices, or to open ones whose order is at
/// least the low link of `x`.
pub open spec fn scanned(ord: Seq<usize>, low: Seq<usize>, adj: Seq<Seq<usize>>, x: int, upto: int, n: int) -> bool {
    forall|kk: int|
        0 <= kk < upto ==> ord[#[trigger] adj[x][kk] as int] > n || (1 <= ord[adj[x][kk] as int] <= n && low[x]
            <= ord[adj[x][kk] as int])
}

/// The rows of `g` as sequences.
pub open spec fn adjacency(g: Seq<Vec<usize>>) -> Seq<Seq<usize>> {
    g.map_values(|r: Vec<usize>| r@)
}

/// Every edge from a closed vertex leads to a vertex closed no later.
pub open spec fn closed_edges(ord: Seq<usize>, adj: Seq<Seq<usize>>, n: int) -> bool {
    forall|x: int, kk: int|
        0 <= x < n && ord[x] > n && 0 <= kk < adj[x].len() ==> ord[#[trigger] adj[x][kk] as int] >= ord[x]
}

proof fn lemma_scanned_keep(
    o1: Seq<usize>,
    l1: Seq<usize>,
    o2: Seq<usize>,
    l2: Seq<usize>,
    adj: Seq<Seq<usize>>,
    x: int,
    upto: int,
    n: int,
)
    requires
        keeps(o1, l1, o2, l2),
        scanned(o1, l1, adj, x, upto, n),
        0 <= x < o1.len(),
        o1[x] != 0,
        o1.len() == n,
        n >= 0,
        forall|kk: int| 0 <= kk < upto ==> 0 <= #[trigger] adj[x][kk] < n,
    ensures
        scanned(o2, l2, adj, x, upto, n),
{
    assert forall|kk: int| 0 <= kk < upto implies o2[#[trigger] adj[x][kk] as int] > n || (1 <= o2[adj[x][kk] as int] <= n
        && l2[x] <= o2[adj[x][kk] as int]) by {
        let v = adj[x][kk] as int;
        assert(o1[v] != 0);
        assert(o2[v] == o1[v]);
        assert(o2[x] == o1[x]);
    }
}

proof fn lemma_scanned_lower(
    o: Seq<usize>,
    l: Seq<usize>,
    l2: Seq<usize>,
    adj: Seq<Seq<usize>>,
    x: int,
    upto: int,
    n: int,
    u: int,
    y: usize,
)
    requires
        scanned(o, l, adj, x, upto, n),
        0 <= u < l.len(),
        0 <= x < l.len(),
        l2 == l.update(u, y),
        u != x || y <= l[x],
    ensures
        scanned(o, l2, adj, x, upto, n),
{
    assert forall|kk: int| 0 <= kk < upto implies o[#[trigger] adj[x][kk] as int] > n || (1 <= o[adj[x][kk] as int] <= n
        && l2[x] <= o[adj[x][kk] as int]) by {
        assert(o[adj[x][kk] as int] > n || (1 <= o[adj[x][kk] as int] <= n && l[x] <= o[adj[x][kk] as int]));
    }
}

/// The vertices at stack positions `lo..hi` have their edges scanned and links at least
/// that of `w`.
#[verifier::opaque]
pub open spec fn frame(
    ord: Seq<usize>,
    low: Seq<usize>,
    stk: Seq<usize>,
    adj: Seq<Seq<usize>>,
    lo: int,
    hi: int,
    w: int,
    n: int,
) -> bool {
    forall|j: int|
        lo <= j < hi ==> #[trigger] scanned(ord, low, adj, stk[j] as int, adj[stk[j] as int].len() as int, n)
            && low[w] <= low[stk[j] as int]
}

proof fn lemma_frame_empty(ord: Seq<usize>, low: Seq<usize>, stk: Seq<usize>, adj: Seq<Seq<usize>>, lo: int, hi: int, w: int, n: int)
    requires
        lo >= hi,
    ensures
        frame(ord, low, stk, adj, lo, hi, w, n),
{
    reveal(frame);
}

proof fn lemma_frame_join(
    ord: Seq<usize>,
    low: Seq<usize>,
    stk: Seq<usize>,
    adj: Seq<Seq<usize>>,
    lo: int,
    mid: int,
    hi: int,
    w: int,
    n: int,
)
    requires
        frame(ord, low, stk, adj, lo, mid, w, n),
        frame(ord, low, stk, adj, mid, hi, w, n),
    ensures
        frame(ord, low, stk, adj, lo, hi, w, n),
{
    reveal(frame);
    assert forall|j: int| lo <= j < hi implies #[trigger] scanned(ord, low, adj, stk[j] as int, adj[stk[j] as int].len() as int, n)
        && low[w] <= low[stk[j] as int] by {
        if j < mid {
            assert(scanned(ord, low, adj, stk[j] as int, adj[stk[j] as int].len() as int, n));
        } else {
            assert(scanned(ord, low, adj, stk[j] as int, adj[stk[j] as int].len() as int, n));
        }
    }
}

proof fn lemma_frame_weaken(
    ord: Seq<usize>,
    low: Seq<usize>,
    stk: Seq<usize>,
    adj: Seq<Seq<usize>>,
    lo: int,
    hi: int,
    w1: int,
    w2: int,
    n: int,
)
    requires
        frame(ord, low, stk, adj, lo, hi, w1, n),
        low[w2] <= low[w1],
    ensures
        frame(ord, low, stk, adj, lo, hi, w2, n),
{
    reveal(frame);
    assert forall|j: int| lo <= j < hi implies #[trigger] scanned(ord, low, adj, stk[j] as int, adj[stk[j] as int].len() as int, n)
        && low[w2] <= low[stk[j] as int] by {
        assert(scanned(ord, low, adj, stk[j] as int, adj[stk[j] as int].len() as int, n));
    }
}

proof fn lemma_frame_prepend(
    ord: Seq<usize>,
    low: Seq<usize>,
    stk: Seq<usize>,
    adj: Seq<Seq<usize>>,
    lo: int,
    hi: int,
    w: int,
    n: int,
)
    requires
        frame(ord, low, stk, adj, lo + 1, hi, w, n),
        scanned(ord, low, adj, stk[lo] as int, adj[stk[lo] as int].len() as int, n),
        low[w] <= low[stk[lo] as int],
    ensures
        frame(ord, low, stk, adj, lo, hi, w, n),
{
    reveal(frame);
    assert forall|j: int| lo <= j < hi implies #[trigger] scanned(ord, low, adj, stk[j] as int, adj[stk[j] as int].len() as int, n)
        && low[w] <= low[stk[j] as int] by {
        if j > lo {
            assert(scanned(ord, low, adj, stk[j] as int, adj[stk[j] as int].len() as int, n));
        }
    }
}

/// The vertices visited in `o1` keep their order and low link in `o2`, `l2`.
pub open spec fn keeps(o1: Seq<usize>, l1: Seq<usize>, o2: Seq<usize>, l2: Seq<usize>) -> bool {
    forall|v: int| 0 <= v < o1.len() && o1[v] != 0 ==> #[trigger] o2[v] == o1[v] && l2[v] == l1[v]
}

proof fn lemma_keeps_at(o1: Seq<usize>, l1: Seq<usize>, o2: Seq<usize>, l2: Seq<usize>, x: int)
    requires
        keeps(o1, l1, o2, l2),
        0 <= x < o1.len(),
        o1[x] != 0,
    ensures
        o2[x] == o1[x],
        l2[x] == l1[x],
{
    assert(o2[x] == o1[x] && l2[x] == l1[x]);
}

proof fn lemma_keeps_lower(o1: Seq<usize>, l1: Seq<usize>, o2: Seq<usize>, l2: Seq<usize>, l3: Seq<usize>, u: int, x: usize)
    requires
        keeps(o1, l1, o2, l2),
        0 <= u < l2.len(),
        o1.len() <= l2.len(),
        0 <= u < o1.len(),
        o1[u] == 0,
        l3 == l2.update(u, x),
    ensures
        keeps(o1, l1, o2, l3),
{
    assert forall|v: int| 0 <= v < o1.len() && o1[v] != 0 implies #[trigger] o2[v] == o1[v] && l3[v] == l1[v] by {
        assert(v != u);
        lemma_keeps_at(o1, l1, o2, l2, v);
    }
}

proof fn lemma_keeps_trans(
    o1: Seq<usize>,
    l1: Seq<usize>,
    o2: Seq<usize>,
    l2: Seq<usize>,
    o3: Seq<usize>,
    l3: Seq<usize>,
)
    requires
        keeps(o1, l1, o2, l2),
        keeps(o2, l2, o3, l3),
        o1.len() == o2.len(),
    ensures
        keeps(o1, l1, o3, l3),
{
    assert forall|v: int| 0 <= v < o1.len() && o1[v] != 0 implies #[trigger] o3[v] == o1[v] && l3[v] == l1[v] by {
        assert(o2[v] == o1[v]);
    }
}

/// Tarjan's search state: visiting order and low links, the stack of open vertices,
/// the next order number and the number of components closed so far.
struct Scc {
    stk: Vec<usize>,
    ord: Vec<usize>,
    low: Vec<usize>,
    idx: usize,
    comp_id: usize,
}

impl Scc {
    spec fn ok(&self, n: nat) -> bool {
        &&& self.ord@.len() == n
        &&& self.low@.len() == n
        &&& forall|j: int| 0 <= j < self.stk@.len() ==> (#[trigger] self.stk@[j]) < n && self.ord@[self.stk@[j] as int] != 0
        &&& 1 <= self.idx <= n + 1 - count_unvisited(self.ord@)
        &&& self.comp_id + count_unvisited(self.ord@) <= n
    }

    /// `v` is on the stack.
    spec fn on_stack(&self, v: int) -> bool {
        exists|j: int| 0 <= j < self.stk@.len() && self.stk@[j] == v
    }

    /// `x` is the order number of a vertex on the stack.
    spec fn stack_order(&self, x: int) -> bool {
        exists|j: int| 0 <= j < self.stk@.len() && self.ord@[self.stk@[j] as int] == x
    }

    /// Open vertices carry their order number, below `idx`, and are exactly the vertices
    /// on the stack, in increasing order; the low link of an open vertex is at most its
    /// order and is the order of a vertex on the stack; closed vertices carry the mark of
    /// their component, and every component has a vertex.
    #[verifier::opaque]
    spec fn tarjan(&self, n: nat) -> bool {
        &&& n <= usize::MAX / 2
        &&& self.ord@.len() == n
        &&& self.low@.len() == n
        &&& forall|j: int| 0 <= j < self.stk@.len() ==> #[trigger] self.stk@[j] < n
        &&& forall|j: int| 0 <= j < self.stk@.len() ==> 1 <= #[trigger] self.ord@[self.stk@[j] as int] < self.idx
        &&& forall|j1: int, j2: int|
            0 <= j1 < j2 < self.stk@.len() ==> #[trigger] self.ord@[self.stk@[j1] as int] < #[trigger] self.ord@[
                self.stk@[j2] as int]
        &&& forall|v: int| 0 <= v < n && 1 <= #[trigger] self.ord@[v] <= n ==> self.ord@[v] < self.idx
        &&& forall|v: int| 0 <= v < n && 1 <= #[trigger] self.ord@[v] <= n ==> self.on_stack(v)
        &&& forall|v: int| 0 <= v < n && 1 <= #[trigger] self.ord@[v] <= n ==> self.low@[v] <= self.ord@[v]
            && self.stack_order(self.low@[v] as int)
        &&& forall|v: int|
            0 <= v < n && #[trigger] self.ord@[v] > n ==> exists|c: int| 1 <= c <= self.comp_id && self.ord@[v]
                == closed_mark(c)
        &&& forall|c: int| 1 <= c <= self.comp_id ==> #[trigger] marked(self.ord@, c)
        &&& self.comp_id <= n
        &&& 1 <= self.idx <= n + 1
    }

    /// What the search uses of its state: open vertices are on the stack, in increasing
    /// order, and carry orders below `idx`.
    proof fn lemma_facts(&self, n: nat)
        requires
            self.tarjan(n),
        ensures
            n <= usize::MAX / 2,
            self.comp_id <= n,
            self.ord@.len() == n,
            self.low@.len() == n,
            forall|j: int| 0 <= j < self.stk@.len() ==> #[trigger] self.stk@[j] < n,
            forall|j1: int, j2: int|
                0 <= j1 < j2 < self.stk@.len() ==> #[trigger] self.ord@[self.stk@[j1] as int] < #[trigger] self.ord@[
                    self.stk@[j2] as int],
            forall|v: int| 0 <= v < n && 1 <= #[trigger] self.ord@[v] <= n ==> self.on_stack(v),
            forall|j: int| 0 <= j < self.stk@.len() ==> 1 <= #[trigger] self.ord@[self.stk@[j] as int] < self.idx,
            forall|v: int|
                0 <= v < n && #[trigger] self.ord@[v] > n ==> exists|c: int| 1 <= c <= self.comp_id && self.ord@[v]
                    == closed_mark(c),
            forall|c: int| 1 <= c <= self.comp_id ==> #[trigger] marked(self.ord@, c),
            1 <= self.idx <= n + 1,
    {
        reveal(Scc::tarjan);
    }

    /// Visiting `u`: it gets the next order and low link and goes on the stack.
    proof fn lemma_visit(before: Scc, after: Scc, u: int, n: nat)
        requires
            before.tarjan(n),
            1 <= before.idx <= n,
            0 <= u < n,
            before.ord@[u] == 0,
            after.ord@ == before.ord@.update(u, before.idx),
            after.low@ == before.low@.update(u, before.idx),
            after.idx == before.idx + 1,
            after.stk@ == before.stk@.push(u as usize),
            after.comp_id == before.comp_id,
        ensures
            after.tarjan(n),
    {
        reveal(Scc::tarjan);
        let e = before.stk@.len() as int;
        assert(after.stk@[e] == u);
        assert forall|v: int| 0 <= v < n && 1 <= #[trigger] after.ord@[v] <= n implies after.on_stack(v) by {
            if v != u {
                assert(before.on_stack(v));
                let j = choose|j: int| 0 <= j < before.stk@.len() && before.stk@[j] == v;
                assert(after.stk@[j] == v);
            }
        }
        assert forall|v: int| 0 <= v < n && 1 <= #[trigger] after.ord@[v] <= n implies after.low@[v] <= after.ord@[v]
            && after.stack_order(after.low@[v] as int) by {
            if v == u {
                assert(after.ord@[after.stk@[e] as int] == before.idx);
            } else {
                assert(before.stack_order(before.low@[v] as int));
                let j = choose|j: int| 0 <= j < before.stk@.len() && before.ord@[before.stk@[j] as int] == before.low@[v];
                assert(after.stk@[j] == before.stk@[j]);
                assert(before.stk@[j] != u);
            }
        }
        assert forall|c: int| 1 <= c <= after.comp_id implies #[trigger] marked(after.ord@, c) by {
            assert(marked(before.ord@, c));
            let v = choose|v: int| 0 <= v < before.ord@.len() && before.ord@[v] == closed_mark(c);
            assert(v != u);
            assert(after.ord@[v] == closed_mark(c));
        }
        assert forall|j1: int, j2: int|
            0 <= j1 < j2 < after.stk@.len() implies #[trigger] after.ord@[after.stk@[j1] as int] < #[trigger] after.ord@[
                after.stk@[j2] as int] by {
            assert(before.stk@[j1] != u);
            if j2 < e {
                assert(before.stk@[j2] != u);
            }
        }
        assert forall|j: int| 0 <= j < after.stk@.len() implies 1 <= #[trigger] after.ord@[after.stk@[j] as int] < after.idx by {
            if j < e {
                assert(before.stk@[j] != u);
            }
        }
        assert forall|v: int|
            0 <= v < n && #[trigger] after.ord@[v] > n implies exists|c: int| 1 <= c <= after.comp_id && after.ord@[v]
                == closed_mark(c) by {
            assert(v != u);
            assert(before.ord@[v] > n);
        }
        assert forall|v: int| 0 <= v < n && 1 <= #[trigger] after.ord@[v] <= n implies after.ord@[v] < after.idx by {
            if v != u {
                assert(before.ord@[v] == after.ord@[v]);
            }
        }
    }

    /// Lowering the link of the open vertex `u` to the order of a vertex on the stack.
    proof fn lemma_lower(before: Scc, after: Scc, u: int, x: int, n: nat)
        requires
            before.tarjan(n),
            0 <= u < n,
            1 <= before.ord@[u] <= n,
            x <= before.ord@[u],
            before.stack_order(x),
            0 <= x,
            after.low@ == before.low@.update(u, x as usize),
            after.ord@ == before.ord@,
            after.stk@ == before.stk@,
            after.idx == before.idx,
            after.comp_id == before.comp_id,
        ensures
            after.tarjan(n),
    {
        reveal(Scc::tarjan);
        assert forall|v: int| 0 <= v < n && 1 <= #[trigger] after.ord@[v] <= n implies after.on_stack(v) by {
            assert(before.on_stack(v));
            let j = choose|j: int| 0 <= j < before.stk@.len() && before.stk@[j] == v;
            assert(after.stk@[j] == v);
        }
        assert forall|v: int| 0 <= v < n && 1 <= #[trigger] after.ord@[v] <= n implies after.low@[v] <= after.ord@[v]
            && after.stack_order(after.low@[v] as int) by {
            if v == u {
                let j = choose|j: int| 0 <= j < before.stk@.len() && before.ord@[before.stk@[j] as int] == x;
                assert(after.ord@[after.stk@[j] as int] == x);
            } else {
                assert(before.stack_order(before.low@[v] as int));
                let j = choose|j: int| 0 <= j < before.stk@.len() && before.ord@[before.stk@[j] as int] == before.low@[v];
                assert(after.ord@[after.stk@[j] as int] == after.low@[v]);
            }
        }
        assert forall|c: int| 1 <= c <= after.comp_id implies #[trigger] marked(after.ord@, c) by {
            assert(marked(before.ord@, c));
        }
    }

    /// After the search from a child `v` of `u` returns: the edges scanned from `u` and
    /// from the finished open vertices above it still satisfy [`scanned`], and the low
    /// links of the vertices the child left open are at least the child's.
    proof fn lemma_child_done(before: Scc, after: Scc, adj: Seq<Seq<usize>>, u: int, v: int, e: int, k: int, n: nat)
        requires
            before.tarjan(n),
            heads_below(adj),
            adj.len() == n,
            0 <= u < n,
            0 <= v < n,
            0 <= e < before.stk@.len(),
            before.stk@[e] == u,
            0 <= k <= adj[u].len(),
            keeps(before.ord@, before.low@, after.ord@, after.low@),
            after.ord@.len() == n,
            after.low@.len() == n,
            after.stk@.len() >= before.stk@.len(),
            forall|j: int| 0 <= j < before.stk@.len() ==> #[trigger] after.stk@[j] == before.stk@[j],
            scanned(before.ord@, before.low@, adj, u, k, n as int),
            frame(before.ord@, before.low@, before.stk@, adj, e + 1, before.stk@.len() as int, u, n as int),
            after.ord@[v] > n ==> after.stk@ == before.stk@,
            after.ord@[v] <= n ==> frame(after.ord@, after.low@, after.stk@, adj, before.stk@.len() as int, after.stk@.len() as int, v, n as int),
        ensures
            scanned(after.ord@, after.low@, adj, u, k, n as int),
            frame(after.ord@, after.low@, after.stk@, adj, e + 1, before.stk@.len() as int, u, n as int),
            after.ord@[v] <= n ==> frame(after.ord@, after.low@, after.stk@, adj, before.stk@.len() as int, after.stk@.len() as int, v, n as int),
    {
        reveal(frame);
        before.lemma_facts(n);
        assert(before.ord@[before.stk@[e] as int] >= 1);
        assert(before.ord@[u] != 0);
        assert forall|kk: int| 0 <= kk < k implies 0 <= #[trigger] adj[u][kk] < n by {}
        lemma_scanned_keep(before.ord@, before.low@, after.ord@, after.low@, adj, u, k, n as int);
        assert forall|j: int| e < j < after.stk@.len() implies #[trigger] scanned(
            after.ord@,
            after.low@,
            adj,
            after.stk@[j] as int,
            adj[after.stk@[j] as int].len() as int,
            n as int,
        ) by {
            if j < before.stk@.len() {
                let x = before.stk@[j] as int;
                assert(after.stk@[j] == before.stk@[j]);
                assert(scanned(before.ord@, before.low@, adj, x, adj[x].len() as int, n as int));
                assert(before.ord@[x] != 0 && x < n);
                assert forall|kk: int| 0 <= kk < adj[x].len() implies 0 <= #[trigger] adj[x][kk] < n by {}
                lemma_scanned_keep(before.ord@, before.low@, after.ord@, after.low@, adj, x, adj[x].len() as int, n as int);
            } else {
                if after.ord@[v] > n {
                    assert(after.stk@ == before.stk@);
                }
            }
        }
        assert forall|j: int| e < j < before.stk@.len() implies after.low@[u] <= #[trigger] after.low@[after.stk@[j] as int] by {
            let x = before.stk@[j] as int;
            assert(after.stk@[j] == before.stk@[j]);
            assert(scanned(before.ord@, before.low@, adj, x, adj[x].len() as int, n as int));
            assert(before.ord@[x] != 0 && x < n);
            lemma_keeps_at(before.ord@, before.low@, after.ord@, after.low@, x);
            lemma_keeps_at(before.ord@, before.low@, after.ord@, after.low@, u);
        }
        assert forall|j: int| before.stk@.len() <= j < after.stk@.len() implies after.low@[v] <= #[trigger] after.low@[
            after.stk@[j] as int] by {
            if after.ord@[v] > n {
                assert(after.stk@ == before.stk@);
            }
            assert(scanned(after.ord@, after.low@, adj, after.stk@[j] as int, adj[after.stk@[j] as int].len() as int, n as int));
        }
        assert forall|j: int| e + 1 <= j < before.stk@.len() as int implies #[trigger] scanned(after.ord@, after.low@, adj, after.stk@[j] as int,
            adj[after.stk@[j] as int].len() as int, n as int) && after.low@[u] <= after.low@[after.stk@[j] as int] by {
            assert(after.low@[u] <= after.low@[after.stk@[j] as int]);
        }
    }

    /// Lowering the link of `u` to `x` keeps a frame whose links are at least `x` a
    /// frame for `u`.
    proof fn lemma_lowered_range(mid: Scc, fin: Scc, adj: Seq<Seq<usize>>, u: int, x: usize, lo: int, hi: int, w0: int, e: int, n: nat)
        requires
            mid.tarjan(n),
            0 <= u < n,
            0 <= w0 < n,
            0 <= e < lo,
            hi <= mid.stk@.len(),
            mid.stk@[e] == u,
            fin.low@ == mid.low@.update(u, x),
            fin.ord@ == mid.ord@,
            fin.stk@ == mid.stk@,
            x <= mid.low@[w0],
            frame(mid.ord@, mid.low@, mid.stk@, adj, lo, hi, w0, n as int),
        ensures
            frame(fin.ord@, fin.low@, fin.stk@, adj, lo, hi, u, n as int),
    {
        reveal(frame);
        mid.lemma_facts(n);
        assert forall|j: int| lo <= j < hi implies #[trigger] scanned(fin.ord@, fin.low@, adj, fin.stk@[j] as int,
            adj[fin.stk@[j] as int].len() as int, n as int) && fin.low@[u] <= fin.low@[fin.stk@[j] as int] by {
            let w = mid.stk@[j] as int;
            assert(mid.ord@[mid.stk@[e] as int] < mid.ord@[mid.stk@[j] as int]);
            assert(w != u);
            assert(0 <= w < n);
            assert(scanned(mid.ord@, mid.low@, adj, w, adj[w].len() as int, n as int));
            lemma_scanned_lower(mid.ord@, mid.low@, fin.low@, adj, w, adj[w].len() as int, n as int, u, x);
            assert(fin.low@[w] == mid.low@[w]);
            assert(fin.low@[u] == x);
        }
    }

    /// The edge `k` of `u`, to `v`, is scanned once `v` is closed or its order is at least
    /// the link of `u`.
    proof fn lemma_edge_scanned(before: Scc, fin: Scc, adj: Seq<Seq<usize>>, u: int, v: int, k: int, n: nat)
        requires
            0 <= k < adj[u].len(),
            adj[u][k] == v,
            scanned(fin.ord@, fin.low@, adj, u, k, n as int),
            fin.ord@[v] > n || (1 <= fin.ord@[v] <= n && fin.low@[u] <= fin.ord@[v]),
        ensures
            scanned(fin.ord@, fin.low@, adj, u, k + 1, n as int),
    {
        assert forall|kk: int| 0 <= kk < k + 1 implies fin.ord@[#[trigger] adj[u][kk] as int] > n || (1 <= fin.ord@[
            adj[u][kk] as int] <= n && fin.low@[u] <= fin.ord@[adj[u][kk] as int]) by {
            if kk < k {
                assert(fin.ord@[adj[u][kk] as int] > n || (1 <= fin.ord@[adj[u][kk] as int] <= n && fin.low@[u]
                    <= fin.ord@[adj[u][kk] as int]));
            }
        }
    }

    /// Closing the component of `u` keeps every edge from a closed vertex leading to a
    /// vertex closed no later: the edges of the vertices closed now lead to vertices
    /// closed before or now.
    #[verifier::spinoff_prover]
    #[verifier::rlimit(60)]
    proof fn lemma_close_edges(mid: Scc, fin: Scc, adj: Seq<Seq<usize>>, e: int, n: nat)
        requires
            mid.tarjan(n),
            closed_edges(mid.ord@, adj, n as int),
            heads_below(adj),
            adj.len() == n,
            0 <= e < mid.stk@.len(),
            frame(mid.ord@, mid.low@, mid.stk@, adj, e, mid.stk@.len() as int, mid.stk@[e] as int, n as int),
            mid.low@[mid.stk@[e] as int] == mid.ord@[mid.stk@[e] as int],
            fin.comp_id == mid.comp_id + 1,
            fin.comp_id <= n,
            fin.ord@.len() == n,
            forall|j: int| e <= j < mid.stk@.len() ==> #[trigger] fin.ord@[mid.stk@[j] as int] == closed_mark(fin.comp_id as int),
            forall|j: int| 0 <= j < e ==> #[trigger] fin.ord@[mid.stk@[j] as int] == mid.ord@[mid.stk@[j] as int],
            forall|v: int|
                0 <= v < n ==> #[trigger] fin.ord@[v] == mid.ord@[v] || (fin.ord@[v] == closed_mark(fin.comp_id as int)
                    && mid.on_stack(v)),
        ensures
            closed_edges(fin.ord@, adj, n as int),
    {
        reveal(Scc::tarjan);
        reveal(frame);
        let cid = fin.comp_id as int;
        assert forall|x: int, kk: int|
            0 <= x < n && fin.ord@[x] > n && 0 <= kk < adj[x].len() implies fin.ord@[#[trigger] adj[x][kk] as int] >= fin.ord@[x] by {
            let v = adj[x][kk] as int;
            assert(0 <= v < n);
            if fin.ord@[x] == mid.ord@[x] && mid.ord@[x] > n {
                assert(mid.ord@[v] >= mid.ord@[x]);
                if fin.ord@[v] != mid.ord@[v] {
                    assert(mid.on_stack(v));
                    let j = choose|j: int| 0 <= j < mid.stk@.len() && mid.stk@[j] == v;
                    assert(mid.ord@[mid.stk@[j] as int] < mid.idx);
                }
            } else {
                if fin.ord@[x] != closed_mark(cid) {
                    assert(fin.ord@[x] == mid.ord@[x]);
                }
                assert(fin.ord@[x] == closed_mark(cid));
                if !mid.on_stack(x) {
                    assert(fin.ord@[x] == mid.ord@[x]);
                    let c = choose|c: int| 1 <= c <= mid.comp_id && mid.ord@[x] == closed_mark(c);
                    assert(false);
                }
                let jx = choose|j: int| 0 <= j < mid.stk@.len() && mid.stk@[j] == x;
                if jx < e {
                    assert(fin.ord@[mid.stk@[jx] as int] == mid.ord@[mid.stk@[jx] as int]);
                    assert(mid.ord@[mid.stk@[jx] as int] < mid.idx);
                }
                assert(scanned(mid.ord@, mid.low@, adj, mid.stk@[jx] as int, adj[mid.stk@[jx] as int].len() as int, n as int));
                assert(mid.low@[mid.stk@[e] as int] <= mid.low@[mid.stk@[jx] as int]);
                assert(mid.ord@[adj[x][kk] as int] > n || (1 <= mid.ord@[adj[x][kk] as int] <= n && mid.low@[x]
                    <= mid.ord@[adj[x][kk] as int]));
                if mid.ord@[v] > n {
                    if fin.ord@[v] != mid.ord@[v] {
                        assert(mid.on_stack(v));
                        let j = choose|j: int| 0 <= j < mid.stk@.len() && mid.stk@[j] == v;
                        assert(mid.ord@[mid.stk@[j] as int] < mid.idx);
                    }
                    let c = choose|c: int| 1 <= c <= mid.comp_id && mid.ord@[v] == closed_mark(c);
                } else {
                    assert(mid.on_stack(v));
                    let jv = choose|j: int| 0 <= j < mid.stk@.len() && mid.stk@[j] == v;
                    if jv < e {
                        assert(mid.ord@[mid.stk@[jv] as int] < mid.ord@[mid.stk@[e] as int]);
                    }
                    assert(fin.ord@[mid.stk@[jv] as int] == closed_mark(cid));
                }
            }
        }
    }

    /// Closing the component of `u`: the stack above position `e`, where `u` sits, gets the
    /// mark of a new component.
    #[verifier::spinoff_prover]
    #[verifier::rlimit(60)]
    proof fn lemma_close(mid: Scc, fin: Scc, e: int, n: nat)
        requires
            mid.tarjan(n),
            0 <= e < mid.stk@.len(),
            fin.stk@ == mid.stk@.take(e),
            fin.comp_id == mid.comp_id + 1,
            fin.idx == mid.idx,
            fin.low@ == mid.low@,
            fin.ord@.len() == n,
            forall|j: int| e <= j < mid.stk@.len() ==> #[trigger] fin.ord@[mid.stk@[j] as int] == closed_mark(fin.comp_id as int),
            forall|j: int| 0 <= j < e ==> #[trigger] fin.ord@[mid.stk@[j] as int] == mid.ord@[mid.stk@[j] as int],
            forall|v: int|
                0 <= v < n ==> #[trigger] fin.ord@[v] == mid.ord@[v] || (fin.ord@[v] == closed_mark(fin.comp_id as int)
                    && mid.on_stack(v)),
            fin.comp_id <= n,
        ensures
            fin.tarjan(n),
    {
        reveal(Scc::tarjan);
        let cid = fin.comp_id as int;
        let u = mid.stk@[e];
        let my = mid.ord@[u as int];
        assert(mid.stk@[e] < n) by {
            assert(1 <= mid.ord@[mid.stk@[e] as int]);
        }
        assert forall|j: int| 0 <= j < fin.stk@.len() implies #[trigger] fin.ord@[fin.stk@[j] as int] == mid.ord@[mid.stk@[j] as int] by {
            assert(fin.stk@[j] == mid.stk@[j]);
        }
        assert forall|v: int| 0 <= v < n && 1 <= #[trigger] fin.ord@[v] <= n implies fin.on_stack(v) && fin.ord@[v] < my
            && fin.ord@[v] == mid.ord@[v] by {
            assert(fin.ord@[v] == mid.ord@[v]);
            assert(mid.on_stack(v));
            let j = choose|j: int| 0 <= j < mid.stk@.len() && mid.stk@[j] == v;
            if j >= e {
                assert(fin.ord@[mid.stk@[j] as int] == closed_mark(cid));
            }
            assert(fin.stk@[j] == v);
            assert(mid.ord@[mid.stk@[j] as int] < mid.ord@[mid.stk@[e] as int]);
        }
        assert forall|v: int| 0 <= v < n && 1 <= #[trigger] fin.ord@[v] <= n implies fin.low@[v] <= fin.ord@[v]
            && fin.stack_order(fin.low@[v] as int) by {
            assert(fin.ord@[v] == mid.ord@[v] && fin.ord@[v] < my);
            assert(mid.stack_order(mid.low@[v] as int));
            let j = choose|j: int| 0 <= j < mid.stk@.len() && mid.ord@[mid.stk@[j] as int] == mid.low@[v];
            if j >= e {
                if j > e {
                    assert(mid.ord@[mid.stk@[e] as int] < mid.ord@[mid.stk@[j] as int]);
                }
            }
            assert(fin.ord@[fin.stk@[j] as int] == fin.low@[v]);
        }
        assert forall|v: int|
            0 <= v < n && #[trigger] fin.ord@[v] > n implies exists|c: int| 1 <= c <= fin.comp_id && fin.ord@[v]
                == closed_mark(c) by {
            if fin.ord@[v] != closed_mark(cid) {
                assert(fin.ord@[v] == mid.ord@[v]);
            }
        }
        assert forall|c: int| 1 <= c <= fin.comp_id implies #[trigger] marked(fin.ord@, c) by {
            if c == cid {
                assert(fin.ord@[mid.stk@[e] as int] == closed_mark(cid));
            } else {
                assert(marked(mid.ord@, c));
                let v = choose|v: int| 0 <= v < mid.ord@.len() && mid.ord@[v] == closed_mark(c);
                if fin.ord@[v] != mid.ord@[v] {
                    assert(mid.on_stack(v));
                    let j = choose|j: int| 0 <= j < mid.stk@.len() && mid.stk@[j] == v;
                    assert(mid.ord@[mid.stk@[j] as int] < mid.idx);
                }
                assert(fin.ord@[v] == closed_mark(c));
            }
        }
        assert forall|j1: int, j2: int|
            0 <= j1 < j2 < fin.stk@.len() implies #[trigger] fin.ord@[fin.stk@[j1] as int] < #[trigger] fin.ord@[
                fin.stk@[j2] as int] by {
            assert(mid.ord@[mid.stk@[j1] as int] < mid.ord@[mid.stk@[j2] as int]);
        }
        assert forall|j: int| 0 <= j < fin.stk@.len() implies 1 <= #[trigger] fin.ord@[fin.stk@[j] as int] < fin.idx by {
            assert(1 <= mid.ord@[mid.stk@[j] as int] < mid.idx);
        }
        assert forall|v: int| 0 <= v < n && 1 <= #[trigger] fin.ord@[v] <= n implies fin.ord@[v] < fin.idx by {
            assert(fin.ord@[v] == mid.ord@[v]);
        }
    }

    #[verifier::spinoff_prover]
    #[verifier::rlimit(100)]
    fn rec(&mut self, g: &[Vec<usize>], u: usize, Ghost(left): Ghost<nat>)
        requires
            old(self).ok(g@.len() as nat),
            old(self).tarjan(g@.len() as nat),
            heads_below(adjacency(g@)),
            u < g@.len(),
            old(self).ord@[u as int] == 0,
            left == count_unvisited(old(self).ord@),
            g@.len() < usize::MAX,
            closed_edges(old(self).ord@, adjacency(g@), g@.len() as int),
        ensures
            closed_edges(final(self).ord@, adjacency(g@), g@.len() as int),
            final(self).ord@[u as int] <= g@.len() ==> frame(final(self).ord@, final(self).low@, final(self).stk@, adjacency(g@),
                old(self).stk@.len() as int, final(self).stk@.len() as int, u as int, g@.len() as int),
            final(self).ok(g@.len() as nat),
            final(self).tarjan(g@.len() as nat),
            count_unvisited(final(self).ord@) < count_unvisited(old(self).ord@),
            final(self).comp_id + count_unvisited(final(self).ord@) <= old(self).comp_id + count_unvisited(old(self).ord@),
            final(self).idx > old(self).idx,
            final(self).ord@[u as int] != 0,
            final(self).stk@.len() >= old(self).stk@.len(),
            forall|j: int| 0 <= j < old(self).stk@.len() ==> #[trigger] final(self).stk@[j] == old(self).stk@[j],
            forall|j: int|
                old(self).stk@.len() <= j < final(self).stk@.len() ==> old(self).ord@[#[trigger] final(self).stk@[j] as int]
                    == 0,
            keeps(old(self).ord@, old(self).low@, final(self).ord@, final(self).low@),
            final(self).ord@[u as int] > g@.len() ==> final(self).low@[u as int] == old(self).idx
                && final(self).stk@ == old(self).stk@,
            final(self).ord@[u as int] <= g@.len() ==> final(self).ord@[u as int] == old(self).idx
                && final(self).low@[u as int] < old(self).idx && final(self).stk@.len() > old(self).stk@.len()
                && final(self).stk@[old(self).stk@.len() as int] == u && old(self).stack_order(
                final(self).low@[u as int] as int,
            ),
        decreases left, 1nat,
    {
        let n = g.len();
        let ghost adj = adjacency(g@);
        let ghost c0 = self.comp_id;
        let ghost u0 = count_unvisited(self.ord@);
        let ghost old_self = *self;
        let ghost e = self.stk@.len() as int;
        proof {
            lemma_count_unvisited_set(self.ord@, u as int, self.idx);
            lemma_count_unvisited_bound(self.ord@);
            old_self.lemma_facts(n as nat);
        }
        let my = self.idx;
        self.ord.set(u, self.idx);
        self.low.set(u, self.idx);
        self.idx += 1;
        self.stk.push(u);
        proof {
            Scc::lemma_visit(old_self, *self, u as int, n as nat);
            assert forall|w: int| 0 <= w < old_self.ord@.len() && old_self.ord@[w] != 0 implies #[trigger] self.ord@[w]
                == old_self.ord@[w] && self.low@[w] == old_self.low@[w] by {
                assert(w != u);
            }
        }
        let row = &g[u];
        proof {
            assert(row@ == adj[u as int]);
            assert(self.ord@[self.stk@[e] as int] == self.low@[u as int]);
        }
        let ghost c0n: nat = c0 as nat;
        proof {
            lemma_frame_empty(self.ord@, self.low@, self.stk@, adjacency(g@), e + 1, self.stk@.len() as int, u as int, g@.len() as int);
        }
        self.scan(g, u, Ghost(e), Ghost(my), Ghost(old_self), Ghost(left), Ghost(c0n), Ghost(u0));
        proof {
            self.lemma_facts(n as nat);
        }
        proof {
            assert(adjacency(g@) == adj);
            assert(self.stk@[e] == u);
            lemma_frame_prepend(self.ord@, self.low@, self.stk@, adj, e, self.stk@.len() as int, u as int, g@.len() as int);
        }
        if self.ord[u] == self.low[u] {
            self.close(u, Ghost(e), Ghost(n as nat), Ghost(adj), Ghost(old_self));
            proof {
                assert(!(self.ord@[u as int] <= g@.len()));
            }
        } else {
            proof {
                let jw = choose|j: int| 0 <= j <= e && self.ord@[self.stk@[j] as int] == self.low@[u as int];
                assert(jw != e);
                assert(old_self.ord@[old_self.stk@[jw] as int] == self.low@[u as int]);
            }
        }
    }
}

impl Scc {
    /// Scans the edges of `u` in order, searching from the unvisited heads and lowering
    /// the link of `u` by what they reach.
    #[verifier::spinoff_prover]
    #[verifier::rlimit(100)]
    fn scan(
        &mut self,
        g: &[Vec<usize>],
        u: usize,
        Ghost(e): Ghost<int>,
        Ghost(my): Ghost<usize>,
        Ghost(old_self): Ghost<Scc>,
        Ghost(left): Ghost<nat>,
        Ghost(c0): Ghost<nat>,
        Ghost(u0): Ghost<nat>,
    )
        requires
            heads_below(adjacency(g@)),
            u < g@.len(),
            g@.len() < usize::MAX,
            old(self).ok(g@.len() as nat),
            old(self).tarjan(g@.len() as nat),
            count_unvisited(old(self).ord@) < left,
            left == u0,
            old(self).comp_id + count_unvisited(old(self).ord@) + 1 <= c0 + u0,
            my == old_self.idx,
            old(self).idx > my,
            old(self).ord@[u as int] == my,
            1 <= my <= g@.len(),
            old(self).low@[u as int] <= my,
            old(self).stk@.len() > e,
            old(self).stk@[e] == u,
            e == old_self.stk@.len(),
            old_self.ord@[u as int] == 0,
            old_self.ord@.len() == g@.len(),
            forall|j: int| 0 <= j < e ==> #[trigger] old(self).stk@[j] == old_self.stk@[j],
            forall|j: int| e <= j < old(self).stk@.len() ==> old_self.ord@[#[trigger] old(self).stk@[j] as int] == 0,
            exists|j: int| 0 <= j <= e && old(self).ord@[old(self).stk@[j] as int] == old(self).low@[u as int],
            keeps(old_self.ord@, old_self.low@, old(self).ord@, old(self).low@),
            closed_edges(old(self).ord@, adjacency(g@), g@.len() as int),
            scanned(old(self).ord@, old(self).low@, adjacency(g@), u as int, 0, g@.len() as int),
            frame(old(self).ord@, old(self).low@, old(self).stk@, adjacency(g@), e + 1, old(self).stk@.len() as int, u as int, g@.len() as int),
        ensures
            final(self).ok(g@.len() as nat),
            final(self).tarjan(g@.len() as nat),
            count_unvisited(final(self).ord@) < left,
            final(self).comp_id + count_unvisited(final(self).ord@) + 1 <= c0 + u0,
            final(self).idx > my,
            final(self).ord@[u as int] == my,
            final(self).low@[u as int] <= my,
            final(self).stk@.len() > e,
            final(self).stk@[e] == u,
            forall|j: int| 0 <= j < e ==> #[trigger] final(self).stk@[j] == old_self.stk@[j],
            forall|j: int| e <= j < final(self).stk@.len() ==> old_self.ord@[#[trigger] final(self).stk@[j] as int] == 0,
            exists|j: int| 0 <= j <= e && final(self).ord@[final(self).stk@[j] as int] == final(self).low@[u as int],
            keeps(old_self.ord@, old_self.low@, final(self).ord@, final(self).low@),
            closed_edges(final(self).ord@, adjacency(g@), g@.len() as int),
            scanned(final(self).ord@, final(self).low@, adjacency(g@), u as int, adjacency(g@)[u as int].len() as int, g@.len() as int),
            frame(final(self).ord@, final(self).low@, final(self).stk@, adjacency(g@), e + 1, final(self).stk@.len() as int, u as int, g@.len() as int),
        decreases left, 0nat,
    {
        let n = g.len();
        let ghost adj = adjacency(g@);
        let row = &g[u];
        proof {
            assert(row@ == adj[u as int]);
        }
        let mut k: usize = 0;
        while k < row.len()
            invariant
                n == g@.len(),
                adj == adjacency(g@),
                heads_below(adj),
                row@ == adj[u as int],
                u < n,
                n < usize::MAX,
                self.ok(n as nat),
                self.tarjan(n as nat),
                count_unvisited(self.ord@) < left,
                left == u0,
                self.comp_id + count_unvisited(self.ord@) + 1 <= c0 + u0,
                k <= row@.len(),
                my == old_self.idx,
                self.idx > my,
                self.ord@[u as int] == my,
                1 <= my <= n,
                self.low@[u as int] <= my,
                self.stk@.len() > e,
                self.stk@[e] == u,
                e == old_self.stk@.len(),
                old_self.ord@[u as int] == 0,
                forall|j: int| 0 <= j < e ==> #[trigger] self.stk@[j] == old_self.stk@[j],
                forall|j: int| e <= j < self.stk@.len() ==> old_self.ord@[#[trigger] self.stk@[j] as int] == 0,
                exists|j: int| 0 <= j <= e && self.ord@[self.stk@[j] as int] == self.low@[u as int],
                old_self.ord@.len() == n,
                keeps(old_self.ord@, old_self.low@, self.ord@, self.low@),
                closed_edges(self.ord@, adj, n as int),
                scanned(self.ord@, self.low@, adj, u as int, k as int, n as int),
                frame(self.ord@, self.low@, self.stk@, adj, e + 1, self.stk@.len() as int, u as int, n as int),
            decreases row@.len() - k,
        {
            let v = row[k];
            proof {
                assert(adj[u as int][k as int] == v);
            }
            let ghost before = *self;
            proof {
                before.lemma_facts(n as nat);
            }
            if self.ord[v] == 0 {
                self.rec(g, v, Ghost(count_unvisited(self.ord@)));
                proof {
                    self.lemma_facts(n as nat);
                    assert(self.stk@[e] == before.stk@[e]);
                    assert forall|j: int| 0 <= j < e implies #[trigger] self.stk@[j] == old_self.stk@[j] by {
                        assert(self.stk@[j] == before.stk@[j]);
                    }
                    assert forall|j: int| e <= j < self.stk@.len() implies old_self.ord@[#[trigger] self.stk@[j] as int] == 0 by {
                        if j < before.stk@.len() {
                            assert(self.stk@[j] == before.stk@[j]);
                        } else {
                            let w = self.stk@[j] as int;
                            assert(before.ord@[w] == 0);
                            assert(w < n);
                            if old_self.ord@[w] != 0 {
                                assert(before.ord@[w] == old_self.ord@[w]);
                            }
                        }
                    }
                    lemma_keeps_trans(old_self.ord@, old_self.low@, before.ord@, before.low@, self.ord@, self.low@);
                    let jw = choose|j: int| 0 <= j <= e && before.ord@[before.stk@[j] as int] == before.low@[u as int];
                    assert(self.stk@[jw] == before.stk@[jw]);
                    assert(before.ord@[before.stk@[jw] as int] != 0);
                    assert(self.ord@[self.stk@[jw] as int] == self.low@[u as int]);
                    Scc::lemma_child_done(before, *self, adj, u as int, v as int, e, k as int, n as nat);
                }
                let ghost after = *self;
                if self.low[v] < self.low[u] {
                    let x = self.low[v];
                    proof {
                        assert(self.ord@[v as int] <= n) by {
                            if self.ord@[v as int] > n {
                                assert(self.low@[v as int] == before.idx);
                            }
                        }
                        let jw = choose|j: int| 0 <= j < before.stk@.len() && before.ord@[before.stk@[j] as int] == x;
                        assert(self.stk@[jw] == before.stk@[jw]);
                        if jw > e {
                            assert(before.ord@[before.stk@[e] as int] < before.ord@[before.stk@[jw] as int]);
                        }
                        assert(before.ord@[before.stk@[jw] as int] != 0);
                        assert(self.ord@[self.stk@[jw] as int] == x);
                        assert(self.stack_order(x as int));
                    }
                    let ghost mid = *self;
                    self.low.set(u, x);
                    proof {
                        Scc::lemma_lower(mid, *self, u as int, x as int, n as nat);
                        lemma_keeps_lower(old_self.ord@, old_self.low@, mid.ord@, mid.low@, self.low@, u as int, x);
                        let jw = choose|j: int| 0 <= j < before.stk@.len() && before.ord@[before.stk@[j] as int] == x;
                        if jw > e {
                            assert(before.ord@[before.stk@[e] as int] < before.ord@[before.stk@[jw] as int]);
                        }
                        assert(self.ord@[self.stk@[jw] as int] == self.low@[u as int]);
                        lemma_scanned_lower(mid.ord@, mid.low@, self.low@, adj, u as int, k as int, n as int, u as int, x);
                        Scc::lemma_lowered_range(mid, *self, adj, u as int, x, e + 1, before.stk@.len() as int, u as int, e, n as nat);
                        Scc::lemma_lowered_range(mid, *self, adj, u as int, x, before.stk@.len() as int, self.stk@.len() as int, v as int, e, n as nat);
                        lemma_frame_join(self.ord@, self.low@, self.stk@, adj, e + 1, before.stk@.len() as int, self.stk@.len() as int, u as int, n as int);
                    }
                } else {
                    proof {
                        if self.ord@[v as int] <= n {
                            lemma_frame_weaken(self.ord@, self.low@, self.stk@, adj, before.stk@.len() as int, self.stk@.len() as int, v as int, u as int, n as int);
                        } else {
                            lemma_frame_empty(self.ord@, self.low@, self.stk@, adj, before.stk@.len() as int, self.stk@.len() as int, u as int, n as int);
                        }
                        lemma_frame_join(self.ord@, self.low@, self.stk@, adj, e + 1, before.stk@.len() as int, self.stk@.len() as int, u as int, n as int);
                    }
                }
                proof {
                    if self.ord@[v as int] <= n {
                        assert(self.ord@[v as int] == before.idx);
                    }
                    Scc::lemma_edge_scanned(before, *self, adj, u as int, v as int, k as int, n as nat);
                }
            } else {
                if self.ord[v] < self.low[u] {
                    let x = self.ord[v];
                    proof {
                        assert(v < n);
                        assert(1 <= x <= n);
                        assert(self.on_stack(v as int));
                        let jv = choose|j: int| 0 <= j < self.stk@.len() && self.stk@[j] == v;
                        if jv > e {
                            assert(self.ord@[self.stk@[e] as int] < self.ord@[self.stk@[jv] as int]);
                        }
                        assert(self.ord@[self.stk@[jv] as int] == x);
                        assert(self.stack_order(x as int));
                    }
                    let ghost mid = *self;
                    self.low.set(u, x);
                    proof {
                        Scc::lemma_lower(mid, *self, u as int, x as int, n as nat);
                        lemma_keeps_lower(old_self.ord@, old_self.low@, mid.ord@, mid.low@, self.low@, u as int, x);
                        let jv = choose|j: int| 0 <= j < mid.stk@.len() && mid.stk@[j] == v;
                        if jv > e {
                            assert(mid.ord@[mid.stk@[e] as int] < mid.ord@[mid.stk@[jv] as int]);
                        }
                        assert(self.ord@[self.stk@[jv] as int] == self.low@[u as int]);
                        lemma_scanned_lower(mid.ord@, mid.low@, self.low@, adj, u as int, k as int, n as int, u as int, x);
                        Scc::lemma_lowered_range(mid, *self, adj, u as int, x, e + 1, self.stk@.len() as int, u as int, e, n as nat);
                    }
                }
                proof {
                    Scc::lemma_edge_scanned(before, *self, adj, u as int, v as int, k as int, n as nat);
                }
            }
            k += 1;
        }
    }

    /// Closes the component rooted at `u`, which sits at position `e` of the stack: every
    /// vertex from `u` up gets the mark of a new component.
    #[verifier::spinoff_prover]
    #[verifier::rlimit(60)]
    fn close(&mut self, u: usize, Ghost(e): Ghost<int>, Ghost(n): Ghost<nat>, Ghost(adj): Ghost<Seq<Seq<usize>>>, Ghost(old_self): Ghost<Scc>)
        requires
            old(self).ok(n),
            old(self).tarjan(n),
            n == old(self).ord@.len(),
            u < n,
            0 <= e < old(self).stk@.len(),
            old(self).stk@[e] == u,
            old(self).ord@[u as int] == old(self).low@[u as int],
            old(self).comp_id + count_unvisited(old(self).ord@) + 1 <= n,
            e == old_self.stk@.len(),
            old_self.ord@.len() == n,
            forall|j: int| 0 <= j < e ==> #[trigger] old(self).stk@[j] == old_self.stk@[j],
            forall|j: int| e <= j < old(self).stk@.len() ==> old_self.ord@[#[trigger] old(self).stk@[j] as int] == 0,
            keeps(old_self.ord@, old_self.low@, old(self).ord@, old(self).low@),
            closed_edges(old(self).ord@, adj, n as int),
            heads_below(adj),
            adj.len() == n,
            frame(old(self).ord@, old(self).low@, old(self).stk@, adj, e, old(self).stk@.len() as int, u as int, n as int),
        ensures
            final(self).ok(n),
            final(self).tarjan(n),
            closed_edges(final(self).ord@, adj, n as int),
            final(self).stk@ == old_self.stk@,
            final(self).ord@[u as int] > n,
            final(self).low@ == old(self).low@,
            final(self).idx == old(self).idx,
            final(self).comp_id == old(self).comp_id + 1,
            count_unvisited(final(self).ord@) == count_unvisited(old(self).ord@),
            keeps(old_self.ord@, old_self.low@, final(self).ord@, final(self).low@),
    {
        let ghost entry = *self;
        proof {
            self.lemma_facts(n);
        }
        let mut i = self.stk.len();
        while i > 0
            invariant
                0 <= e < i <= self.stk@.len(),
                self.stk@[e] == u,
            ensures
                i > 0 && self.stk@[i - 1] == u,
                e < i <= self.stk@.len(),
            decreases i,
        {
            if self.stk[i - 1] == u {
                break;
            }
            i -= 1;
        }
        proof {
            if self.stk@[i - 1] == u && i - 1 != e {
                assert(self.ord@[self.stk@[e] as int] < self.ord@[self.stk@[i - 1] as int]);
            }
        }
        let start = i - 1;
        let ghost mid = *self;
        self.comp_id += 1;
        let ghost cid = self.comp_id as int;
        while self.stk.len() > start
            invariant
                self.ok(n),
                count_unvisited(self.ord@) == count_unvisited(entry.ord@),
                start == e,
                e <= self.stk@.len() <= mid.stk@.len(),
                self.stk@ == mid.stk@.take(self.stk@.len() as int),
                self.comp_id == cid,
                cid == mid.comp_id + 1,
                self.idx == mid.idx,
                self.low@ == mid.low@,
                self.ord@.len() == n,
                mid.tarjan(n as nat),
                forall|v: int|
                    0 <= v < n ==> #[trigger] self.ord@[v] == mid.ord@[v] || (self.ord@[v] == closed_mark(cid)
                        && mid.on_stack(v)),
                forall|j: int| self.stk@.len() <= j < mid.stk@.len() ==> #[trigger] self.ord@[mid.stk@[j] as int]
                    == closed_mark(cid),
                forall|j: int| 0 <= j < self.stk@.len() ==> #[trigger] self.ord@[self.stk@[j] as int] == mid.ord@[mid.stk@[j] as int],
            decreases self.stk@.len(),
        {
            let ghost st0 = self.stk@;
            let v = self.stk.pop().unwrap();
            let c = 0usize.wrapping_sub(self.comp_id);
            proof {
                mid.lemma_facts(n as nat);
                assert(st0[st0.len() - 1] == v);
                assert(self.ord@[v as int] != 0);
                lemma_count_unvisited_set(self.ord@, v as int, c);
                assert(c != 0);
                assert(c == closed_mark(cid));
                assert(mid.stk@[st0.len() - 1] == v);
            }
            self.ord.set(v, c);
            proof {
                assert(mid.on_stack(v as int));
                assert forall|j: int| 0 <= j < self.stk@.len() implies (#[trigger] self.stk@[j]) < n
                    && self.ord@[self.stk@[j] as int] != 0 by {
                    assert(self.stk@[j] == st0[j]);
                    assert(mid.ord@[mid.stk@[j] as int] < mid.ord@[mid.stk@[st0.len() - 1] as int]);
                }
                assert(self.stk@ =~= mid.stk@.take(self.stk@.len() as int));
                assert forall|j: int| 0 <= j < self.stk@.len() implies #[trigger] self.ord@[self.stk@[j] as int] == mid.ord@[mid.stk@[j] as int] by {
                    assert(mid.ord@[mid.stk@[j] as int] < mid.ord@[mid.stk@[st0.len() - 1] as int]);
                    assert(self.stk@[j] == st0[j]);
                }
            }
        }
        proof {
            assert(self.comp_id <= n) by {
                lemma_count_unvisited_bound(self.ord@);
            }
            assert(self.stk@ =~= mid.stk@.take(e));
            assert forall|j: int| 0 <= j < e implies #[trigger] self.ord@[mid.stk@[j] as int] == mid.ord@[mid.stk@[j] as int] by {
                assert(self.stk@[j] == mid.stk@[j]);
            }
            Scc::lemma_close(mid, *self, e, n as nat);
            assert(mid.stk@[e] == u);
            Scc::lemma_close_edges(mid, *self, adj, e, n as nat);
            assert(self.stk@ =~= old_self.stk@);
            assert(self.ord@[u as int] == closed_mark(cid));
            assert forall|w: int| 0 <= w < old_self.ord@.len() && old_self.ord@[w] != 0 implies #[trigger] self.ord@[w]
                == old_self.ord@[w] && self.low@[w] == old_self.low@[w] by {
                if self.ord@[w] != mid.ord@[w] {
                    let j = choose|j: int| 0 <= j < mid.stk@.len() && mid.stk@[j] == w;
                    if j >= e {
                        assert(old_self.ord@[mid.stk@[j] as int] == 0);
                    } else {
                        assert(self.ord@[mid.stk@[j] as int] == mid.ord@[mid.stk@[j] as int]);
                    }
                }
                assert(mid.ord@[w] == old_self.ord@[w]);
            }
        }

    }
}

/// An edge leads from vertex `i` of `p` to vertex `i + 1`.
pub open spec fn linked(adj: Seq<Seq<usize>>, p: Seq<usize>, i: int) -> bool {
    adj[p[i] as int].contains(p[i + 1])
}

/// `p` is a walk: a nonempty sequence of vertices, each joined to the next by an edge.
pub open spec fn walk(adj: Seq<Seq<usize>>, p: Seq<usize>) -> bool {
    &&& p.len() >= 1
    &&& forall|i: int| 0 <= i < p.len() - 1 ==> #[trigger] linked(adj, p, i)
}

/// Some walk leads from `u` to `v`.
pub open spec fn reaches(adj: Seq<Seq<usize>>, u: int, v: int) -> bool {
    exists|p: Seq<usize>| walk(adj, p) && p[0] == u && p.last() == v
}

/// Indices that never decrease along an edge never decrease along a walk.
proof fn lemma_walk_order(adj: Seq<Seq<usize>>, ids: Seq<usize>, p: Seq<usize>)
    requires
        heads_below(adj),
        ids.len() == adj.len(),
        walk(adj, p),
        p[0] < adj.len(),
        forall|u: int, k: int| 0 <= u < adj.len() && 0 <= k < adj[u].len() ==> ids[u] <= ids[#[trigger] adj[u][k] as int],
    ensures
        ids[p[0] as int] <= ids[p.last() as int],
        p.last() < adj.len(),
    decreases p.len(),
{
    if p.len() > 1 {
        let q = p.drop_first();
        assert forall|i: int| 0 <= i < q.len() - 1 implies #[trigger] linked(adj, q, i) by {
            assert(linked(adj, p, i + 1));
            assert(q[i] == p[i + 1] && q[i + 1] == p[i + 2]);
        }
        assert(linked(adj, p, 0));
        let k = choose|k: int| 0 <= k < adj[p[0] as int].len() && adj[p[0] as int][k] == p[1];
        assert(ids[p[0] as int] <= ids[adj[p[0] as int][k] as int]);
        lemma_walk_order(adj, ids, q);
        assert(q.last() == p.last());
    }
}

/// The strongly connected components by Tarjan's algorithm: their number and, for each
/// vertex, the index of its component. Every index is below the number of components,
/// each index up to it is taken, and indices never decrease along an edge, so the
/// components come in topological order and vertices that reach each other share an
/// index.
pub fn strongly_connected_components(g: &[Vec<usize>]) -> (r: (usize, Vec<usize>))
    requires
        heads_below(adjacency(g@)),
        g@.len() <= usize::MAX / 2,
    ensures
        r.1@.len() == g@.len(),
        r.0 <= g@.len(),
        forall|v: int| 0 <= v < g@.len() ==> #[trigger] r.1@[v] < r.0,
        forall|c: int| 0 <= c < r.0 ==> #[trigger] id_taken(r.1@, c),
        forall|u: int, k: int|
            0 <= u < g@.len() && 0 <= k < adjacency(g@)[u].len() ==> r.1@[u] <= r.1@[#[trigger] adjacency(g@)[u][k] as int],
        forall|u: int, v: int|
            0 <= u < g@.len() && 0 <= v < g@.len() && #[trigger] reaches(adjacency(g@), u, v) && #[trigger] reaches(
                adjacency(g@),
                v,
                u,
            ) ==> r.1@[u] == r.1@[v],
{
    let n = g.len();
    let mut s = Scc { stk: Vec::new(), ord: vec![0; n], low: vec![0; n], idx: 1, comp_id: 0 };
    proof {
        lemma_count_all_unvisited(s.ord@);
        reveal(Scc::tarjan);
        assert(closed_edges(s.ord@, adjacency(g@), n as int));
    }
    let mut r: usize = 0;
    while r < n
        invariant
            n == g@.len(),
            n <= usize::MAX / 2,
            heads_below(adjacency(g@)),
            s.ok(n as nat),
            s.tarjan(n as nat),
            s.stk@.len() == 0,
            r <= n,
            forall|v: int| 0 <= v < r ==> #[trigger] s.ord@[v] != 0,
            closed_edges(s.ord@, adjacency(g@), n as int),
        decreases n - r,
    {
        if s.ord[r] == 0 {
            let ghost before = s;
            s.rec(g, r, Ghost(count_unvisited(s.ord@)));
            proof {
                if s.ord@[r as int] <= n {
                    assert(before.stack_order(s.low@[r as int] as int));
                    assert(false);
                }
                assert forall|v: int| 0 <= v < r + 1 implies #[trigger] s.ord@[v] != 0 by {
                    if v < r {
                        assert(before.ord@[v] != 0);
                    }
                }
            }
        }
        r += 1;
    }
    proof {
        s.lemma_facts(n as nat);
        assert forall|v: int| 0 <= v < n implies #[trigger] s.ord@[v] > n by {
            assert(s.ord@[v] != 0);
            if s.ord@[v] <= n {
                assert(s.on_stack(v));
            }
        }
    }
    let ghost o = s.ord@;
    let k = s.comp_id;
    let mut i: usize = 0;
    while i < n
        invariant
            s.ord@.len() == n,
            o.len() == n,
            i <= n,
            k == s.comp_id,
            k <= n,
            n <= usize::MAX / 2,
            forall|v: int| i <= v < n ==> #[trigger] s.ord@[v] == o[v],
            forall|v: int| 0 <= v < i ==> exists|c: int| 1 <= c <= k && #[trigger] s.ord@[v] == k - c && o[v] == closed_mark(c),
            forall|v: int| 0 <= v < n && #[trigger] o[v] > n ==> exists|c: int| 1 <= c <= k && o[v] == closed_mark(c),
            forall|v: int| 0 <= v < n ==> #[trigger] o[v] > n,
        decreases n - i,
    {
        let c = s.ord[i].wrapping_add(s.comp_id);
        proof {
            assert(o[i as int] > n);
            let cc = choose|cc: int| 1 <= cc <= k && o[i as int] == closed_mark(cc);
            assert(c == k - cc);
        }
        s.ord.set(i, c);
        proof {
            assert forall|v: int| 0 <= v < i + 1 implies exists|c2: int| 1 <= c2 <= k && #[trigger] s.ord@[v] == k - c2 && o[v] == closed_mark(c2) by {
                if v == i {
                    let cc = choose|cc: int| 1 <= cc <= k && o[i as int] == closed_mark(cc);
                    assert(s.ord@[v] == k - cc);
                }
            }
        }
        i += 1;
    }
    proof {
        assert forall|v: int| 0 <= v < n implies #[trigger] s.ord@[v] < k by {
            let c = choose|c: int| 1 <= c <= k && s.ord@[v] == k - c && o[v] == closed_mark(c);
        }
        assert forall|c: int| 0 <= c < k implies #[trigger] id_taken(s.ord@, c) by {
            let cm = k - c;
            assert(marked(o, cm));
            let v = choose|v: int| 0 <= v < o.len() && o[v] == closed_mark(cm);
            let c2 = choose|c2: int| 1 <= c2 <= k && s.ord@[v] == k - c2 && o[v] == closed_mark(c2);
            assert(c2 == cm);
            assert(s.ord@[v] == c);
        }
        let adj = adjacency(g@);
        assert forall|u: int, kk: int| 0 <= u < n && 0 <= kk < adj[u].len() implies s.ord@[u] <= s.ord@[#[trigger] adj[u][kk] as int] by {
            let v = adj[u][kk] as int;
            assert(0 <= v < n);
            assert(o[u] > n);
            assert(o[v] >= o[u]);
            let cu = choose|c: int| 1 <= c <= k && s.ord@[u] == k - c && o[u] == closed_mark(c);
            let cv = choose|c: int| 1 <= c <= k && s.ord@[v] == k - c && o[v] == closed_mark(c);
        }
        assert forall|u: int, v: int|
            0 <= u < n && 0 <= v < n && #[trigger] reaches(adj, u, v) && #[trigger] reaches(adj, v, u) implies s.ord@[u]
                == s.ord@[v] by {
            let p = choose|p: Seq<usize>| walk(adj, p) && p[0] == u && p.last() == v;
            let q = choose|q: Seq<usize>| walk(adj, q) && q[0] == v && q.last() == u;
            lemma_walk_order(adj, s.ord@, p);
            lemma_walk_order(adj, s.ord@, q);
        }
    }
    (s.comp_id, s.ord)
}

proof fn lemma_count_all_unvisited(s: Seq<usize>)
    requires
        forall|i: int| 0 <= i < s.len() ==> s[i] == 0,
    ensures
        count_unvisited(s) == s.len(),
    decreases s.len(),
{
    if s.len() > 0 {
        lemma_count_all_unvisited(s.drop_last());
    }
}

} // verus!
