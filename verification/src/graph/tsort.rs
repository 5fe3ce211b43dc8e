use vstd::prelude::*;
use super::Graph;

verus! {

/// `adj[u]` holds an edge to `v`.
pub open spec fn succ(adj: Seq<Seq<usize>>, u: int, v: int) -> bool {
    0 <= u < adj.len() && exists|k: int| 0 <= k < adj[u].len() && #[trigger] adj[u][k] == v
}

/// `c` is a closed walk of at least one edge.
pub open spec fn is_cycle(adj: Seq<Seq<usize>>, c: Seq<int>) -> bool {
    &&& c.len() >= 2
    &&& c[0] == c.last()
    &&& forall|i: int| 0 <= i < c.len() - 1 ==> succ(adj, #[trigger] c[i], c[i + 1])
}

/// `res` lists every vertex once, each edge pointing from an earlier to a later one.
pub open spec fn is_topological_order(adj: Seq<Seq<usize>>, res: Seq<usize>) -> bool {
    &&& res.len() == adj.len()
    &&& forall|a: int| 0 <= a < res.len() ==> res[a] < adj.len()
    &&& forall|a: int, b: int| 0 <= a < b < res.len() ==> res[a] != res[b]
    &&& forall|a: int, b: int|
        0 <= a < res.len() && 0 <= b < res.len() && succ(adj, res[a] as int, res[b] as int) ==> a < b
}

/// Every head lies among the vertices.
pub open spec fn heads_below(adj: Seq<Seq<usize>>) -> bool {
    forall|u: int, k: int| 0 <= u < adj.len() && 0 <= k < adj[u].len() ==> (#[trigger] adj[u][k]) < adj.len()
}

/// `v` occurs in `res`.
pub open spec fn occurs(res: Seq<usize>, v: int) -> bool {
    exists|a: int| 0 <= a < res.len() && #[trigger] res[a] == v
}

/// A position of `v` in `res`, if it occurs.
pub open spec fn position(res: Seq<usize>, v: int) -> int {
    choose|a: int| 0 <= a < res.len() && #[trigger] res[a] == v
}

/// A graph with a topological order has no cycle.
pub proof fn lemma_topological_order_acyclic(adj: Seq<Seq<usize>>, res: Seq<usize>, c: Seq<int>)
    requires
        is_topological_order(adj, res),
    ensures
        !is_cycle(adj, c),
{
    if !is_cycle(adj, c) {
        return;
    }
    let n = res.len();
    assert forall|v: int| 0 <= v < n implies #[trigger] occurs(res, v) by {
        lemma_injective_onto(res, n as int, v);
    }
    lemma_cycle_positions(adj, res, c, c.len() - 1);
}

proof fn lemma_cycle_positions(adj: Seq<Seq<usize>>, res: Seq<usize>, c: Seq<int>, i: int)
    requires
        is_topological_order(adj, res),
        is_cycle(adj, c),
        0 < i < c.len(),
        forall|v: int| 0 <= v < res.len() ==> #[trigger] occurs(res, v),
    ensures
        position(res, c[0]) < position(res, c[i]),
    decreases i,
{
    let n = res.len();
    assert(succ(adj, c[i - 1], c[i]));
    assert(0 <= c[i - 1] < n);
    let k = choose|k: int| 0 <= k < adj[c[i - 1]].len() && #[trigger] adj[c[i - 1]][k] == c[i];
    assert(0 <= c[i] < n);
    assert(occurs(res, c[i - 1]) && occurs(res, c[i]));
    let a = position(res, c[i - 1]);
    let b = position(res, c[i]);
    assert(succ(adj, res[a] as int, res[b] as int));
    if i > 1 {
        lemma_cycle_positions(adj, res, c, i - 1);
    }
}

/// An injective sequence of `n` values below `n` takes every value below `n`.
proof fn lemma_injective_onto(res: Seq<usize>, n: int, v: int)
    requires
        res.len() == n,
        forall|a: int| 0 <= a < n ==> res[a] < n,
        forall|a: int, b: int| 0 <= a < b < n ==> res[a] != res[b],
        0 <= v < n,
    ensures
        exists|a: int| 0 <= a < n && #[trigger] res[a] == v,
{
    let m = res.map_values(|x: usize| x as int);
    let s = m.to_set();
    let full = Set::new(|x: int| 0 <= x < n);
    vstd::set_lib::lemma_int_range(0, n);
    assert(full =~= vstd::set_lib::set_int_range(0, n));
    assert(s.subset_of(full)) by {
        assert forall|x: int| s.contains(x) implies full.contains(x) by {
            let a = choose|a: int| 0 <= a < m.len() && #[trigger] m[a] == x;
        }
    }
    assert(m.no_duplicates()) by {
        assert forall|a: int, b: int| 0 <= a < m.len() && 0 <= b < m.len() && a != b implies #[trigger] m[a]
            != #[trigger] m[b] by {
            if a < b {
                assert(res[a] != res[b]);
            } else {
                assert(res[b] != res[a]);
            }
        }
    }
    m.unique_seq_to_set();
    if !s.contains(v) {
        assert(s.subset_of(full.remove(v)));
        vstd::set_lib::lemma_len_subset(s, full.remove(v));
    }
    let a = choose|a: int| 0 <= a < m.len() && #[trigger] m[a] == v;
    assert(res[a] == v);
}

/// The number of entries equal to `c`.
pub open spec fn count_eq(s: Seq<u8>, c: u8) -> nat
    decreases s.len(),
{
    if s.len() == 0 {
        0
    } else {
        count_eq(s.drop_last(), c) + if s.last() == c {
            1nat
        } else {
            0nat
        }
    }
}

proof fn lemma_count_eq_update(s: Seq<u8>, c: u8, i: int, x: u8)
    requires
        0 <= i < s.len(),
        s[i] == c,
        x != c,
    ensures
        count_eq(s.update(i, x), c) + 1 == count_eq(s, c),
    decreases s.len(),
{
    let t = s.update(i, x);
    if i == s.len() - 1 {
        assert(t.drop_last() =~= s.drop_last());
    } else {
        lemma_count_eq_update(s.drop_last(), c, i, x);
        assert(t.drop_last() =~= s.drop_last().update(i, x));
    }
}

proof fn lemma_count_eq_other(s: Seq<u8>, c: u8, i: int, x: u8)
    requires
        0 <= i < s.len(),
        s[i] != c,
        x != c,
    ensures
        count_eq(s.update(i, x), c) == count_eq(s, c),
    decreases s.len(),
{
    let t = s.update(i, x);
    if i == s.len() - 1 {
        assert(t.drop_last() =~= s.drop_last());
    } else {
        lemma_count_eq_other(s.drop_last(), c, i, x);
        assert(t.drop_last() =~= s.drop_last().update(i, x));
    }
}

/// The vertex of the topmost marker below position `q` leads by an edge to `stack[q].0`.
pub open spec fn linked(adj: Seq<Seq<usize>>, stack: Seq<(usize, bool)>, q: int) -> bool {
    exists|q0: int|
        0 <= q0 < q && (#[trigger] stack[q0]).1 && (forall|q1: int| q0 < q1 < q ==> !(#[trigger] stack[q1]).1)
            && succ(adj, stack[q0].0 as int, stack[q].0 as int)
}

/// The markers from position `lo` up to position `hi` spell a walk.
proof fn lemma_marker_walk(adj: Seq<Seq<usize>>, stack: Seq<(usize, bool)>, lo: int, hi: int) -> (c: Seq<int>)
    requires
        0 <= lo <= hi < stack.len(),
        stack[lo].1,
        stack[hi].1,
        forall|q: int| 0 <= q < stack.len() && (exists|q0: int| 0 <= q0 < q && (#[trigger] stack[q0]).1)
            ==> linked(adj, stack, q),
    ensures
        c.len() >= 1,
        c[0] == stack[lo].0,
        c.last() == stack[hi].0,
        forall|i: int| 0 <= i < c.len() - 1 ==> succ(adj, #[trigger] c[i], c[i + 1]),
    decreases hi - lo,
{
    if lo == hi {
        seq![stack[lo].0 as int]
    } else {
        assert(stack[lo].1);
        assert(linked(adj, stack, hi));
        let q0 = choose|q0: int|
            0 <= q0 < hi && (#[trigger] stack[q0]).1 && (forall|q1: int| q0 < q1 < hi ==> !(#[trigger] stack[q1]).1)
                && succ(adj, stack[q0].0 as int, stack[hi].0 as int);
        if q0 < lo {
            assert(!stack[lo].1);
        }
        let c0 = lemma_marker_walk(adj, stack, lo, q0);
        let c = c0.push(stack[hi].0 as int);
        assert forall|i: int| 0 <= i < c.len() - 1 implies succ(adj, #[trigger] c[i], c[i + 1]) by {
            if i < c0.len() - 1 {
                assert(c[i] == c0[i] && c[i + 1] == c0[i + 1]);
            } else {
                assert(c[i] == c0.last());
            }
        }
        c
    }
}

/// The finished vertices sit at `i..n` of `res`, each after everything it leads to.
pub open spec fn finished_ok(adj: Seq<Seq<usize>>, state: Seq<u8>, res: Seq<usize>, i: int, pos: Seq<int>) -> bool {
    let n = adj.len();
    &&& state.len() == n && res.len() == n && pos.len() == n
    &&& 0 <= i <= n
    &&& forall|x: int| 0 <= x < n ==> (#[trigger] state[x]) <= 2
    &&& count_eq(state, 2) == n - i
    &&& forall|x: int| 0 <= x < n && #[trigger] state[x] == 2 ==> i <= pos[x] < n && res[pos[x]] == x
    &&& forall|p: int| i <= p < n ==> (#[trigger] res[p]) < n && state[res[p] as int] == 2 && pos[res[p] as int] == p
    &&& forall|x: int, k: int|
        0 <= x < n && state[x] == 2 && 0 <= k < adj[x].len() ==> state[(#[trigger] adj[x][k]) as int] == 2
            && pos[adj[x][k] as int] > pos[x]
}

/// The search stack: markers `(x, true)` for the open vertices, which form a walk, and
/// entries `(y, false)` for vertices still to visit.
pub open spec fn stack_ok(adj: Seq<Seq<usize>>, state: Seq<u8>, stack: Seq<(usize, bool)>) -> bool {
    let n = adj.len();
    &&& forall|q: int| 0 <= q < stack.len() ==> (#[trigger] stack[q]).0 < n
    &&& forall|x: int| 0 <= x < n && #[trigger] state[x] == 1 ==> exists|q: int|
        0 <= q < stack.len() && #[trigger] stack[q] == (x as usize, true)
    &&& forall|q: int| 0 <= q < stack.len() && (#[trigger] stack[q]).1 ==> state[stack[q].0 as int] == 1
    &&& forall|q: int, q2: int|
        0 <= q < stack.len() && 0 <= q2 < stack.len() && (#[trigger] stack[q]).1 && (#[trigger] stack[q2]).1
            && stack[q].0 == stack[q2].0 ==> q == q2
    &&& forall|q: int, k: int|
        0 <= q < stack.len() && stack[q].1 && 0 <= k < adj[stack[q].0 as int].len() ==> ({
            let y = (#[trigger] adj[stack[q].0 as int][k]) as int;
            state[y] == 2 || exists|q2: int| q < q2 < stack.len() && (#[trigger] stack[q2]).0 == y
        })
    &&& forall|q: int, q2: int|
        0 <= q2 <= q < stack.len() && (#[trigger] stack[q]).1 && (#[trigger] stack[q2]).1 ==> !succ(
            adj,
            stack[q].0 as int,
            stack[q2].0 as int,
        )
    &&& forall|q: int|
        0 <= q < stack.len() && (exists|q0: int| 0 <= q0 < q && (#[trigger] stack[q0]).1) ==> linked(adj, stack, q)
}

proof fn lemma_count_eq_none(s: Seq<u8>, c: u8)
    requires
        forall|i: int| 0 <= i < s.len() ==> s[i] != c,
    ensures
        count_eq(s, c) == 0,
    decreases s.len(),
{
    if s.len() > 0 {
        lemma_count_eq_none(s.drop_last(), c);
    }
}

proof fn lemma_count_eq_all(s: Seq<u8>, c: u8)
    requires
        forall|i: int| 0 <= i < s.len() ==> s[i] == c,
    ensures
        count_eq(s, c) == s.len(),
    decreases s.len(),
{
    if s.len() > 0 {
        lemma_count_eq_all(s.drop_last(), c);
    }
}

proof fn lemma_count_eq_bound(s: Seq<u8>, c: u8, j: int)
    requires
        0 <= j < s.len(),
        s[j] != c,
    ensures
        count_eq(s, c) < s.len(),
    decreases s.len(),
{
    if j < s.len() - 1 {
        lemma_count_eq_bound(s.drop_last(), c, j);
    } else {
        lemma_count_eq_le(s.drop_last(), c);
    }
}

proof fn lemma_count_eq_le(s: Seq<u8>, c: u8)
    ensures
        count_eq(s, c) <= s.len(),
    decreases s.len(),
{
    if s.len() > 0 {
        lemma_count_eq_le(s.drop_last(), c);
    }
}

/// `linked` at `q` depends only on the stack up to `q`.
proof fn lemma_linked_prefix(adj: Seq<Seq<usize>>, a: Seq<(usize, bool)>, b: Seq<(usize, bool)>, q: int)
    requires
        0 <= q < a.len(),
        q < b.len(),
        forall|j: int| 0 <= j <= q ==> a[j] == b[j],
        (exists|q0: int| 0 <= q0 < q && (#[trigger] b[q0]).1) ==> linked(adj, a, q),
    ensures
        (exists|q0: int| 0 <= q0 < q && (#[trigger] b[q0]).1) ==> linked(adj, b, q),
{
    if exists|q0: int| 0 <= q0 < q && (#[trigger] b[q0]).1 {
        let w = choose|q0: int| 0 <= q0 < q && (#[trigger] b[q0]).1;
        assert(a[w] == b[w]);
        let q0 = choose|q0: int|
            0 <= q0 < q && (#[trigger] a[q0]).1 && (forall|q1: int| q0 < q1 < q ==> !(#[trigger] a[q1]).1) && succ(
                adj,
                a[q0].0 as int,
                a[q].0 as int,
            );
        assert(a[q0] == b[q0]);
        assert forall|q1: int| q0 < q1 < q implies !(#[trigger] b[q1]).1 by {
            assert(a[q1] == b[q1]);
        }
    }
}

/// Removing the top entry, when it is not a marker, keeps the stack in order.
proof fn lemma_pop_entry(adj: Seq<Seq<usize>>, state: Seq<u8>, st0: Seq<(usize, bool)>)
    requires
        stack_ok(adj, state, st0),
        st0.len() > 0,
        !st0.last().1,
        state[st0.last().0 as int] == 2 || state[st0.last().0 as int] == 1,
        state.len() == adj.len(),
    ensures
        stack_ok(adj, state, st0.drop_last()),
{
    let st = st0.drop_last();
    let top = st.len() as int;
    let u = st0.last().0 as int;
    assert forall|x: int| 0 <= x < adj.len() && #[trigger] state[x] == 1 implies exists|q: int|
        0 <= q < st.len() && #[trigger] st[q] == (x as usize, true) by {
        let q = choose|q: int| 0 <= q < st0.len() && #[trigger] st0[q] == (x as usize, true);
        assert(st[q] == st0[q]);
    }
    assert forall|q: int, kk: int|
        0 <= q < st.len() && st[q].1 && 0 <= kk < adj[st[q].0 as int].len() implies ({
            let y = (#[trigger] adj[st[q].0 as int][kk]) as int;
            state[y] == 2 || exists|q2: int| q < q2 < st.len() && (#[trigger] st[q2]).0 == y
        }) by {
        let x = st[q].0 as int;
        let y = adj[x][kk] as int;
        assert(st0[q] == st[q]);
        if state[y] != 2 {
            let q2 = choose|q2: int| q < q2 < st0.len() && (#[trigger] st0[q2]).0 == y;
            if q2 == top {
                let qu = choose|qu: int| 0 <= qu < st0.len() && #[trigger] st0[qu] == (u as usize, true);
                if qu <= q {
                    assert(succ(adj, x, y));
                } else {
                    assert(st[qu] == st0[qu]);
                }
            } else {
                assert(st[q2] == st0[q2]);
            }
        }
    }
    assert forall|q: int|
        0 <= q < st.len() && (exists|q0: int| 0 <= q0 < q && (#[trigger] st[q0]).1) implies linked(adj, st, q) by {
        lemma_linked_prefix(adj, st0, st, q);
    }
}

/// Removing the top marker and finishing its vertex keeps the stack in order.
proof fn lemma_pop_marker(adj: Seq<Seq<usize>>, state0: Seq<u8>, st0: Seq<(usize, bool)>)
    requires
        stack_ok(adj, state0, st0),
        st0.len() > 0,
        st0.last().1,
        state0.len() == adj.len(),
        adj.len() <= usize::MAX,
        heads_below(adj),
    ensures
        stack_ok(adj, state0.update(st0.last().0 as int, 2), st0.drop_last()),
{
    let st = st0.drop_last();
    let top = st.len() as int;
    let u = st0.last().0 as int;
    let state = state0.update(u, 2);
    assert(st0[top] == st0.last());
    assert forall|x: int| 0 <= x < adj.len() && #[trigger] state[x] == 1 implies exists|q: int|
        0 <= q < st.len() && #[trigger] st[q] == (x as usize, true) by {
        assert(x != u);
        let q = choose|q: int| 0 <= q < st0.len() && #[trigger] st0[q] == (x as usize, true);
        assert(q != top);
        assert(st[q] == st0[q]);
    }
    assert forall|q: int| 0 <= q < st.len() && (#[trigger] st[q]).1 implies state[st[q].0 as int] == 1 by {
        assert(st[q] == st0[q]);
        if st[q].0 as int == u {
            assert(q == top);
        }
    }
    assert forall|q: int, kk: int|
        0 <= q < st.len() && st[q].1 && 0 <= kk < adj[st[q].0 as int].len() implies ({
            let y = (#[trigger] adj[st[q].0 as int][kk]) as int;
            state[y] == 2 || exists|q2: int| q < q2 < st.len() && (#[trigger] st[q2]).0 == y
        }) by {
        let x = st[q].0 as int;
        let y = adj[x][kk] as int;
        assert(st0[q] == st[q]);
        if state[y] != 2 {
            assert(0 <= y < adj.len());
            assert(y != u);
            let q2 = choose|q2: int| q < q2 < st0.len() && (#[trigger] st0[q2]).0 == y;
            assert(q2 != top);
            assert(st[q2] == st0[q2]);
        }
    }
    assert forall|q: int|
        0 <= q < st.len() && (exists|q0: int| 0 <= q0 < q && (#[trigger] st[q0]).1) implies linked(adj, st, q) by {
        lemma_linked_prefix(adj, st0, st, q);
    }
}

/// A topological order found by depth-first search, or `None` when the graph has a
/// cycle. Vertices that finish later come first.
pub fn tsort(g: &Graph) -> (r: Option<Vec<usize>>)
    requires
        heads_below(g.adj()),
    ensures
        r matches Some(res) ==> is_topological_order(g.adj(), res@),
        r is None ==> exists|c: Seq<int>| is_cycle(g.adj(), c),
{
    let n = g.len();
    let ghost adj = g.adj();
    let mut res: Vec<usize> = vec![0; n];
    let mut i = n;
    let mut state: Vec<u8> = vec![0u8; n];
    let mut stack: Vec<(usize, bool)> = Vec::new();
    let ghost mut pos: Seq<int> = Seq::new(n as nat, |x: int| 0);
    proof {
        lemma_count_eq_none(state@, 2);
    }
    let mut root = n;
    while root > 0
        invariant
            n == adj.len(),
            adj == g.adj(),
            heads_below(adj),
            finished_ok(adj, state@, res@, i as int, pos),
            stack@.len() == 0,
            root <= n,
            forall|x: int| 0 <= x < n ==> (#[trigger] state@[x]) == 0 || state@[x] == 2,
            forall|x: int| root <= x < n ==> #[trigger] state@[x] == 2,
        decreases root,
    {
        root -= 1;
        if state[root] == 0 {
            stack.push((root, false));
            while stack.len() > 0
                invariant
                    n == adj.len(),
                    adj == g.adj(),
                    heads_below(adj),
                    root < n,
                    finished_ok(adj, state@, res@, i as int, pos),
                    stack_ok(adj, state@, stack@),
                    forall|x: int| root < x < n ==> #[trigger] state@[x] == 2,
                    state@[root as int] != 0 || (stack@.len() == 1 && stack@[0] == (root, false)),
                decreases count_eq(state@, 0), stack@.len(),
            {
                let ghost st0 = stack@;
                let ghost sv0 = state@;
                let (u, finish) = stack.pop().unwrap();
                assert(stack@ =~= st0.drop_last());
                let top = stack.len();
                if !finish {
                    if state[u] == 0 {
                        state.set(u, 1);
                        stack.push((u, true));
                        proof {
                            lemma_count_eq_update(sv0, 0, u as int, 1);
                            lemma_count_eq_other(sv0, 2, u as int, 1);
                            let st = stack@;
                            assert(st =~= st0.update(top as int, (u, true)));
                            assert forall|x: int| 0 <= x < n && #[trigger] state@[x] == 1 implies exists|q: int|
                                0 <= q < st.len() && #[trigger] st[q] == (x as usize, true) by {
                                if x != u as int {
                                    let q = choose|q: int| 0 <= q < st0.len() && #[trigger] st0[q] == (x as usize, true);
                                    assert(st[q] == st0[q]);
                                } else {
                                    assert(st[top as int] == (u, true));
                                }
                            }
                            assert forall|q: int, kk: int|
                                0 <= q < st.len() && st[q].1 && (q < top || adj[u as int].len() <= kk) && 0 <= kk < adj[st[q].0 as int].len() implies ({
                                    let y = (#[trigger] adj[st[q].0 as int][kk]) as int;
                                    state@[y] == 2 || exists|q2: int| q < q2 < st.len() && (#[trigger] st[q2]).0 == y
                                }) by {
                                if q < top {
                                    let x = st[q].0 as int;
                                    let y = adj[x][kk] as int;
                                    assert(st0[q] == st[q]);
                                    if state@[y] != 2 {
                                        let q2 = choose|q2: int| q < q2 < st0.len() && (#[trigger] st0[q2]).0 == y;
                                        assert(st[q2].0 == st0[q2].0);
                                    }
                                }
                            }
                            assert forall|q: int|
                                0 <= q < st.len() && (exists|q0: int| 0 <= q0 < q && (#[trigger] st[q0]).1) implies linked(adj, st, q) by {
                                if q < top {
                                    lemma_linked_prefix(adj, st0, st, q);
                                } else {
                                    assert forall|q0: int| 0 <= q0 < q && (#[trigger] st[q0]).1 implies (#[trigger] st0[q0]).1 by {}
                                    assert(linked(adj, st0, q));
                                    let q0 = choose|q0: int|
                                        0 <= q0 < q && (#[trigger] st0[q0]).1 && (forall|q1: int| q0 < q1 < q ==> !(#[trigger] st0[q1]).1)
                                            && succ(adj, st0[q0].0 as int, st0[q].0 as int);
                                    assert(st[q0] == st0[q0]);
                                    assert forall|q1: int| q0 < q1 < q implies !(#[trigger] st[q1]).1 by {
                                        assert(st[q1] == st0[q1]);
                                    }
                                }
                            }
                        }
                        let succs = g.get(u);
                        let mut k = succs.len();
                        while k > 0
                            invariant
                                n == adj.len(),
                                adj == g.adj(),
                                heads_below(adj),
                                root < n,
                                u < n,
                                succs@ == adj[u as int],
                                k <= succs@.len(),
                                top < stack@.len(),
                                stack@[top as int] == (u, true),
                                state@[u as int] == 1,
                                state@[root as int] != 0,
                                count_eq(state@, 0) < count_eq(sv0, 0),
                                finished_ok(adj, state@, res@, i as int, pos),
                                forall|x: int| root < x < n ==> #[trigger] state@[x] == 2,
                                forall|q: int| top < q < stack@.len() ==> !(#[trigger] stack@[q]).1,
                                forall|kk: int| k <= kk < succs@.len() ==> state@[(#[trigger] succs@[kk]) as int] != 1,
                                forall|q: int| 0 <= q < stack@.len() ==> (#[trigger] stack@[q]).0 < n,
                                forall|x: int| 0 <= x < n && #[trigger] state@[x] == 1 ==> exists|q: int|
                                    0 <= q < stack@.len() && #[trigger] stack@[q] == (x as usize, true),
                                forall|q: int| 0 <= q < stack@.len() && (#[trigger] stack@[q]).1 ==> state@[stack@[q].0 as int] == 1,
                                forall|q: int, q2: int|
                                    0 <= q < stack@.len() && 0 <= q2 < stack@.len() && (#[trigger] stack@[q]).1 && (#[trigger] stack@[q2]).1
                                        && stack@[q].0 == stack@[q2].0 ==> q == q2,
                                forall|q: int, kk: int|
                                    0 <= q < stack@.len() && stack@[q].1 && (q < top || k <= kk) && 0 <= kk < adj[stack@[q].0 as int].len() ==> ({
                                        let y = (#[trigger] adj[stack@[q].0 as int][kk]) as int;
                                        state@[y] == 2 || exists|q2: int| q < q2 < stack@.len() && (#[trigger] stack@[q2]).0 == y
                                    }),
                                forall|q: int, q2: int|
                                    0 <= q2 <= q < top && (#[trigger] stack@[q]).1 && (#[trigger] stack@[q2]).1 ==> !succ(
                                        adj,
                                        stack@[q].0 as int,
                                        stack@[q2].0 as int,
                                    ),
                                forall|q: int|
                                    0 <= q < stack@.len() && (exists|q0: int| 0 <= q0 < q && (#[trigger] stack@[q0]).1) ==> linked(adj, stack@, q),
                            decreases k,
                        {
                            k -= 1;
                            let v = succs[k];
                            assert(adj[u as int][k as int] == v);
                            assert(v < n);
                            if state[v] == 0 {
                                let ghost st1 = stack@;
                                stack.push((v, false));
                                proof {
                                    let st = stack@;
                                    let q = st1.len() as int;
                                    assert(st[top as int] == (u, true));
                                    assert(linked(adj, st, q)) by {
                                        assert forall|q1: int| top < q1 < q implies !(#[trigger] st[q1]).1 by {
                                            assert(st[q1] == st1[q1]);
                                        }
                                        assert(succ(adj, st[top as int].0 as int, st[q].0 as int));
                                    }
                                    assert forall|qq: int|
                                        0 <= qq < st.len() && (exists|q0: int| 0 <= q0 < qq && (#[trigger] st[q0]).1) implies linked(adj, st, qq) by {
                                        if qq < q {
                                            assert(exists|q0: int| 0 <= q0 < qq && (#[trigger] st1[q0]).1) by {
                                                let q0 = choose|q0: int| 0 <= q0 < qq && (#[trigger] st[q0]).1;
                                                assert(st1[q0] == st[q0]);
                                            }
                                            assert(linked(adj, st1, qq));
                                            let q0 = choose|q0: int|
                                                0 <= q0 < qq && (#[trigger] st1[q0]).1 && (forall|q1: int| q0 < q1 < qq ==> !(#[trigger] st1[q1]).1)
                                                    && succ(adj, st1[q0].0 as int, st1[qq].0 as int);
                                            assert(st[q0] == st1[q0] && st[qq] == st1[qq]);
                                            assert forall|q1: int| q0 < q1 < qq implies !(#[trigger] st[q1]).1 by {
                                                assert(st[q1] == st1[q1]);
                                            }
                                        }
                                    }
                                    assert forall|qq: int, kk: int|
                                        0 <= qq < st.len() && st[qq].1 && (qq < top || k <= kk) && 0 <= kk < adj[st[qq].0 as int].len() implies ({
                                            let y = (#[trigger] adj[st[qq].0 as int][kk]) as int;
                                            state@[y] == 2 || exists|q2: int| qq < q2 < st.len() && (#[trigger] st[q2]).0 == y
                                        }) by {
                                        if qq < q {
                                            assert(st[qq] == st1[qq]);
                                            if qq == top && kk == k {
                                                assert(st[q].0 == v);
                                            } else {
                                                let y = adj[st[qq].0 as int][kk] as int;
                                                if state@[y] != 2 {
                                                    let q2 = choose|q2: int| qq < q2 < st1.len() && (#[trigger] st1[q2]).0 == y;
                                                    assert(st[q2] == st1[q2]);
                                                }
                                            }
                                        }
                                    }
                                    assert forall|x: int| 0 <= x < n && #[trigger] state@[x] == 1 implies exists|qq: int|
                                        0 <= qq < st.len() && #[trigger] st[qq] == (x as usize, true) by {
                                        let qq = choose|qq: int| 0 <= qq < st1.len() && #[trigger] st1[qq] == (x as usize, true);
                                        assert(st[qq] == st1[qq]);
                                    }
                                }
                            } else if state[v] == 1 {
                                proof {
                                    let st = stack@;
                                    let qv = choose|qv: int| 0 <= qv < st.len() && #[trigger] st[qv] == (v, true);
                                    if qv > top {
                                        assert(!st[qv].1);
                                    }
                                    let w = lemma_marker_walk(adj, st, qv, top as int);
                                    let c = w.push(v as int);
                                    assert(succ(adj, u as int, v as int));
                                    assert forall|j: int| 0 <= j < c.len() - 1 implies succ(adj, #[trigger] c[j], c[j + 1]) by {
                                        if j < w.len() - 1 {
                                            assert(c[j] == w[j] && c[j + 1] == w[j + 1]);
                                        } else {
                                            assert(c[j] == w.last());
                                        }
                                    }
                                    assert(is_cycle(adj, c));
                                }
                                return None;
                            }
                        }
                        proof {
                            let st = stack@;
                            assert forall|q: int, q2: int|
                                0 <= q2 <= q < st.len() && (#[trigger] st[q]).1 && (#[trigger] st[q2]).1 implies !succ(
                                    adj,
                                    st[q].0 as int,
                                    st[q2].0 as int,
                                ) by {
                                if q == top as int {
                                    if succ(adj, u as int, st[q2].0 as int) {
                                        let kk = choose|kk: int| 0 <= kk < adj[u as int].len() && #[trigger] adj[u as int][kk]
                                            == st[q2].0 as int;
                                        assert(succs@[kk] == adj[u as int][kk]);
                                    }
                                } else if q > top as int {
                                    assert(!st[q].1);
                                }
                            }
                        }
                    } else {
                        proof {
                            lemma_pop_entry(adj, state@, st0);
                        }
                    }
                } else {
                    proof {
                        lemma_count_eq_bound(sv0, 2, u as int);
                        assert(st0.last() == (u, true));
                        lemma_pop_marker(adj, sv0, st0);
                    }
                    state.set(u, 2);
                    i -= 1;
                    res.set(i, u);
                    proof {
                        pos = pos.update(u as int, i as int);
                        let t = sv0.update(u as int, 2);
                        assert(t.update(u as int, 1) =~= sv0);
                        lemma_count_eq_update(t, 2, u as int, 1);
                        lemma_count_eq_other(sv0, 0, u as int, 2);
                    }
                }
            }
        }
    }
    proof {
        lemma_count_eq_all(state@, 2);
    }
    Some(res)
}

} // verus!
