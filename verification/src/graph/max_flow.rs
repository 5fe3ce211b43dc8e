use vstd::prelude::*;

verus! {

/// Maximum flow by blocking flows along shortest augmenting paths.
pub struct Dinic {
    g: Vec<Vec<(usize, bool)>>,
    es: Vec<(usize, usize, i64)>,
}

/// The flow leaving `w` minus the flow entering it, over the first `m` edges.
pub open spec fn balance(es: Seq<(usize, usize, i64)>, flow: Seq<i64>, w: int, m: int) -> int
    decreases m,
{
    if m <= 0 {
        0
    } else {
        balance(es, flow, w, m - 1) + (if es[m - 1].0 == w {
            flow[m - 1] as int
        } else {
            0int
        }) - (if es[m - 1].1 == w {
            flow[m - 1] as int
        } else {
            0int
        })
    }
}

/// The sum of the positive capacities of the first `m` edges leaving `w`.
pub open spec fn out_capacity(es: Seq<(usize, usize, i64)>, w: int, m: int) -> int
    decreases m,
{
    if m <= 0 {
        0
    } else {
        out_capacity(es, w, m - 1) + (if es[m - 1].0 == w && es[m - 1].2 > 0 {
            es[m - 1].2 as int
        } else {
            0int
        })
    }
}

/// Each edge carries between zero and its capacity.
pub open spec fn feasible(es: Seq<(usize, usize, i64)>, flow: Seq<i64>) -> bool {
    &&& flow.len() == es.len()
    &&& forall|i: int| 0 <= i < es.len() ==> 0 <= #[trigger] flow[i] && (flow[i] <= es[i].2 || flow[i] == 0)
}

/// `reach` holds `s` and not `t`, and no edge can carry more flow out of it: each edge
/// from inside to outside is full, and each edge from outside to inside is empty. No
/// path from `s` to `t` is left along which flow could still be pushed.
pub open spec fn residual_cut(es: Seq<(usize, usize, i64)>, flow: Seq<i64>, reach: Seq<bool>, s: int, t: int) -> bool {
    &&& reach[s]
    &&& !reach[t]
    &&& forall|i: int|
        #![trigger es[i]]
        0 <= i < es.len() ==> (reach[es[i].0 as int] && flow[i] < es[i].2 ==> reach[es[i].1 as int]) && (
        reach[es[i].1 as int] && flow[i] > 0 ==> reach[es[i].0 as int])
}

/// `flow` sends `v` from `s` to `t`: every vertex below `n` other than the two has
/// as much flow entering as leaving.
pub open spec fn carries(es: Seq<(usize, usize, i64)>, flow: Seq<i64>, n: int, s: int, t: int, v: int) -> bool {
    forall|w: int|
        0 <= w < n ==> #[trigger] balance(es, flow, w, es.len() as int) == (if w == s {
            v
        } else {
            0int
        }) - (if w == t {
            v
        } else {
            0int
        })
}

/// The sum of the positive capacities of the first `m` edges that leave `reach`.
pub open spec fn cut_capacity(es: Seq<(usize, usize, i64)>, reach: Seq<bool>, m: int) -> int
    decreases m,
{
    if m <= 0 {
        0
    } else {
        cut_capacity(es, reach, m - 1) + (if reach[es[m - 1].0 as int] && !reach[es[m - 1].1 as int]
            && es[m - 1].2 > 0 {
            es[m - 1].2 as int
        } else {
            0int
        })
    }
}

/// The sum of the balances of the vertices below `n` that `reach` holds.
spec fn set_balance(es: Seq<(usize, usize, i64)>, flow: Seq<i64>, reach: Seq<bool>, n: int, m: int) -> int
    decreases n,
{
    if n <= 0 {
        0
    } else {
        set_balance(es, flow, reach, n - 1, m) + (if reach[n - 1] {
            balance(es, flow, n - 1, m)
        } else {
            0int
        })
    }
}

/// The flow of the first `m` edges leaving `reach` minus that of those entering it.
spec fn crossing(es: Seq<(usize, usize, i64)>, flow: Seq<i64>, reach: Seq<bool>, m: int) -> int
    decreases m,
{
    if m <= 0 {
        0
    } else {
        crossing(es, flow, reach, m - 1) + (if reach[es[m - 1].0 as int] {
            flow[m - 1] as int
        } else {
            0int
        }) - (if reach[es[m - 1].1 as int] {
            flow[m - 1] as int
        } else {
            0int
        })
    }
}

proof fn lemma_set_balance_zero(es: Seq<(usize, usize, i64)>, flow: Seq<i64>, reach: Seq<bool>, n: int)
    ensures
        set_balance(es, flow, reach, n, 0) == 0,
    decreases n,
{
    if n > 0 {
        lemma_set_balance_zero(es, flow, reach, n - 1);
    }
}

proof fn lemma_set_balance_step(es: Seq<(usize, usize, i64)>, flow: Seq<i64>, reach: Seq<bool>, n: int, m: int)
    requires
        m >= 1,
    ensures
        set_balance(es, flow, reach, n, m) == set_balance(es, flow, reach, n, m - 1) + (if 0 <= es[m - 1].0 < n
            && reach[es[m - 1].0 as int] {
            flow[m - 1] as int
        } else {
            0int
        }) - (if 0 <= es[m - 1].1 < n && reach[es[m - 1].1 as int] {
            flow[m - 1] as int
        } else {
            0int
        }),
    decreases n,
{
    if n > 0 {
        lemma_set_balance_step(es, flow, reach, n - 1, m);
    }
}

proof fn lemma_set_balance_crossing(es: Seq<(usize, usize, i64)>, flow: Seq<i64>, reach: Seq<bool>, n: int, m: int)
    requires
        0 <= m <= es.len(),
        forall|i: int| 0 <= i < es.len() ==> (#[trigger] es[i]).0 < n && es[i].1 < n,
    ensures
        set_balance(es, flow, reach, n, m) == crossing(es, flow, reach, m),
    decreases m,
{
    if m == 0 {
        lemma_set_balance_zero(es, flow, reach, n);
    } else {
        lemma_set_balance_crossing(es, flow, reach, n, m - 1);
        lemma_set_balance_step(es, flow, reach, n, m);
        assert(es[m - 1].0 < n && es[m - 1].1 < n);
    }
}

proof fn lemma_crossing_bound(es: Seq<(usize, usize, i64)>, flow: Seq<i64>, reach: Seq<bool>, m: int)
    requires
        0 <= m <= es.len(),
        feasible(es, flow),
    ensures
        crossing(es, flow, reach, m) <= cut_capacity(es, reach, m),
    decreases m,
{
    if m > 0 {
        lemma_crossing_bound(es, flow, reach, m - 1);
        assert(0 <= flow[m - 1]);
    }
}

proof fn lemma_crossing_cut(es: Seq<(usize, usize, i64)>, flow: Seq<i64>, reach: Seq<bool>, s: int, t: int, m: int)
    requires
        0 <= m <= es.len(),
        feasible(es, flow),
        residual_cut(es, flow, reach, s, t),
    ensures
        crossing(es, flow, reach, m) == cut_capacity(es, reach, m),
    decreases m,
{
    if m > 0 {
        lemma_crossing_cut(es, flow, reach, s, t, m - 1);
        assert(0 <= flow[m - 1]);
        let e = es[m - 1];
        assert((reach[e.0 as int] && flow[m - 1] < e.2 ==> reach[e.1 as int]) && (reach[e.1 as int] && flow[m - 1]
            > 0 ==> reach[e.0 as int]));
    }
}

proof fn lemma_set_balance_value(
    es: Seq<(usize, usize, i64)>,
    flow: Seq<i64>,
    reach: Seq<bool>,
    n: int,
    k: int,
    s: int,
    t: int,
    v: int,
)
    requires
        0 <= k <= n,
        0 <= s < n,
        0 <= t < n,
        reach[s],
        !reach[t],
        carries(es, flow, n, s, t, v),
    ensures
        set_balance(es, flow, reach, k, es.len() as int) == if s < k {
            v
        } else {
            0
        },
    decreases k,
{
    if k > 0 {
        lemma_set_balance_value(es, flow, reach, n, k - 1, s, t, v);
        assert(balance(es, flow, k - 1, es.len() as int) == (if k - 1 == s {
            v
        } else {
            0int
        }) - (if k - 1 == t {
            v
        } else {
            0int
        }));
    }
}

/// Max-flow min-cut: a feasible flow that leaves a residual cut carries exactly the
/// capacity of that cut, and no feasible flow from `s` to `t` carries more. So the
/// flow that leaves a residual cut is a maximum flow.
pub proof fn lemma_max_flow_min_cut(
    es: Seq<(usize, usize, i64)>,
    n: int,
    s: int,
    t: int,
    flow: Seq<i64>,
    v: int,
    reach: Seq<bool>,
    other: Seq<i64>,
    w: int,
)
    requires
        forall|i: int| 0 <= i < es.len() ==> (#[trigger] es[i]).0 < n && es[i].1 < n,
        0 <= s < n,
        0 <= t < n,
        reach.len() == n,
        feasible(es, flow),
        carries(es, flow, n, s, t, v),
        residual_cut(es, flow, reach, s, t),
        feasible(es, other),
        carries(es, other, n, s, t, w),
    ensures
        v == cut_capacity(es, reach, es.len() as int),
        w <= v,
{
    let m = es.len() as int;
    lemma_set_balance_value(es, flow, reach, n, n, s, t, v);
    lemma_set_balance_crossing(es, flow, reach, n, m);
    lemma_crossing_cut(es, flow, reach, s, t, m);
    lemma_set_balance_value(es, other, reach, n, n, s, t, w);
    lemma_set_balance_crossing(es, other, reach, n, m);
    lemma_crossing_bound(es, other, reach, m);
}

proof fn lemma_balance_update(es: Seq<(usize, usize, i64)>, flow: Seq<i64>, i: int, x: i64, w: int, m: int)
    requires
        0 <= i < es.len(),
        0 <= m <= es.len(),
        flow.len() == es.len(),
    ensures
        balance(es, flow.update(i, x), w, m) == balance(es, flow, w, m) + if i < m {
            (if es[i].0 == w {
                x - flow[i]
            } else {
                0int
            }) - (if es[i].1 == w {
                x - flow[i]
            } else {
                0int
            })
        } else {
            0int
        },
    decreases m,
{
    if m > 0 {
        lemma_balance_update(es, flow, i, x, w, m - 1);
    }
}

proof fn lemma_balance_bound(es: Seq<(usize, usize, i64)>, flow: Seq<i64>, w: int, m: int)
    requires
        0 <= m <= es.len(),
        feasible(es, flow),
    ensures
        balance(es, flow, w, m) <= out_capacity(es, w, m),
    decreases m,
{
    if m > 0 {
        lemma_balance_bound(es, flow, w, m - 1);
        assert(0 <= flow[m - 1]);
    }
}

proof fn lemma_balance_zero(es: Seq<(usize, usize, i64)>, flow: Seq<i64>, w: int, m: int)
    requires
        0 <= m <= es.len(),
        flow.len() == es.len(),
        forall|i: int| 0 <= i < es.len() ==> flow[i] == 0,
    ensures
        balance(es, flow, w, m) == 0,
    decreases m,
{
    if m > 0 {
        lemma_balance_zero(es, flow, w, m - 1);
    }
}

impl Dinic {
    /// The edges, each as its tail, head and capacity.
    pub closed spec fn edges(&self) -> Seq<(usize, usize, i64)> {
        self.es@
    }

    /// The number of vertices.
    pub closed spec fn len(&self) -> nat {
        self.g@.len()
    }

    /// Each vertex lists the edges at it: `(i, true)` for an edge `i` leaving it,
    /// `(i, false)` for one entering it.
    pub closed spec fn wf(&self) -> bool {
        &&& forall|i: int| 0 <= i < self.es@.len() ==> (#[trigger] self.es@[i]).0 < self.g@.len() && self.es@[i].1 < self.g@.len()
        &&& forall|u: int, k: int|
            0 <= u < self.g@.len() && 0 <= k < self.g@[u]@.len() ==> {
                let (i, fw) = #[trigger] self.g@[u]@[k];
                &&& i < self.es@.len()
                &&& fw ==> self.es@[i as int].0 == u
                &&& !fw ==> self.es@[i as int].1 == u
            }
        &&& forall|i: int| 0 <= i < self.es@.len() ==> #[trigger] self.listed(i)
    }

    /// Edge `i` stands in the list at its tail as leaving and in the list at its head
    /// as entering.
    pub closed spec fn listed(&self, i: int) -> bool {
        let (a, b, c) = self.es@[i];
        &&& exists|k: int| 0 <= k < self.g@[a as int]@.len() && #[trigger] self.g@[a as int]@[k] == (i as usize, true)
        &&& exists|k: int| 0 <= k < self.g@[b as int]@.len() && #[trigger] self.g@[b as int]@[k] == (i as usize, false)
    }

    pub fn new(n: usize) -> (d: Self)
        ensures
            d.wf(),
            d.len() == n,
            d.edges() == Seq::<(usize, usize, i64)>::empty(),
    {
        let mut g: Vec<Vec<(usize, bool)>> = Vec::new();
        let mut i: usize = 0;
        while i < n
            invariant
                i <= n,
                g@.len() == i,
                forall|u: int| 0 <= u < i ==> (#[trigger] g@[u])@.len() == 0,
            decreases n - i,
        {
            g.push(Vec::new());
            i += 1;
        }
        Dinic { g, es: Vec::new() }
    }

    /// Adds an edge `u -> v` of capacity `cap`.
    pub fn add_edge(&mut self, u: usize, v: usize, cap: i64)
        requires
            old(self).wf(),
            u < old(self).len(),
            v < old(self).len(),
        ensures
            final(self).wf(),
            final(self).len() == old(self).len(),
            final(self).edges() == old(self).edges().push((u, v, cap)),
    {
        let m = self.es.len();
        let ghost g0 = self.g@;
        self.g[u].push((m, true));
        self.g[v].push((m, false));
        self.es.push((u, v, cap));
        proof {
            let g2 = self.g@;
            assert forall|w: int, k: int| 0 <= w < g2.len() && 0 <= k < g2[w]@.len() implies {
                let (i, fw) = #[trigger] g2[w]@[k];
                &&& i < self.es@.len()
                &&& fw ==> self.es@[i as int].0 == w
                &&& !fw ==> self.es@[i as int].1 == w
            } by {
                if k < g0[w]@.len() {
                    assert(g2[w]@[k] == g0[w]@[k]);
                }
            }
            let es2 = self.es@;
            assert forall|j: int| 0 <= j < es2.len() implies #[trigger] self.listed(j) by {
                if j == m as int {
                    assert(g2[u as int]@[g0[u as int]@.len() as int] == (m, true));
                    if u == v {
                        assert(g2[v as int]@[(g0[v as int]@.len() + 1) as int] == (m, false));
                    } else {
                        assert(g2[v as int]@[g0[v as int]@.len() as int] == (m, false));
                    }
                } else {
                    assert(old(self).listed(j));
                    let a = es2[j].0 as int;
                    let b = es2[j].1 as int;
                    let ka = choose|k: int| 0 <= k < g0[a]@.len() && #[trigger] g0[a]@[k] == (j as usize, true);
                    let kb = choose|k: int| 0 <= k < g0[b]@.len() && #[trigger] g0[b]@[k] == (j as usize, false);
                    assert(g2[a]@[ka] == (j as usize, true));
                    assert(g2[b]@[kb] == (j as usize, false));
                }
            }
        }
    }

    /// The far end of edge `i` seen from one of its ends, and what can still be sent
    /// that way.
    fn edge(&self, flow: &Vec<i64>, i: usize, fw: bool) -> (r: (usize, i64))
        requires
            i < self.es@.len(),
            flow@.len() == self.es@.len(),
            0 <= flow@[i as int],
            flow@[i as int] <= self.es@[i as int].2 || flow@[i as int] == 0,
        ensures
            fw ==> r == (self.es@[i as int].1, (self.es@[i as int].2 - flow@[i as int]) as i64),
            !fw ==> r == (self.es@[i as int].0, flow@[i as int]),
    {
        let (u, v, c) = self.es[i];
        if fw {
            (v, c - flow[i])
        } else {
            (u, flow[i])
        }
    }
}

/// Levels are at most `n`, or unset.
spec fn levels_ok(dist: Seq<usize>, n: int) -> bool {
    forall|w: int| 0 <= w < dist.len() ==> #[trigger] dist[w] <= n || dist[w] == usize::MAX
}

/// Each level kept, or cleared from above `d`.
spec fn levels_cleared(d0: Seq<usize>, d1: Seq<usize>, d: int) -> bool {
    &&& d1.len() == d0.len()
    &&& forall|w: int| 0 <= w < d0.len() ==> #[trigger] d1[w] == d0[w] || (d1[w] == 0 && d0[w] > d)
}

/// Only edges between vertices of level at least `d` changed.
spec fn changed_above(
    es: Seq<(usize, usize, i64)>,
    f0: Seq<i64>,
    f1: Seq<i64>,
    dist: Seq<usize>,
    d: int,
) -> bool {
    forall|i: int|
        0 <= i < es.len() && #[trigger] f1[i] != f0[i] ==> dist[es[i].0 as int] >= d && dist[es[i].1 as int] >= d
}

/// The far end of edge `i` taken forward (`fw`) or backward, and what it can still
/// carry that way.
pub open spec fn residual(es: Seq<(usize, usize, i64)>, flow: Seq<i64>, i: int, fw: bool) -> (int, int) {
    if fw {
        (es[i].1 as int, es[i].2 - flow[i])
    } else {
        (es[i].0 as int, flow[i] as int)
    }
}

/// Levels only ever drop to zero.
spec fn resets_only(d1: Seq<usize>, d2: Seq<usize>) -> bool {
    &&& d2.len() == d1.len()
    &&& forall|w: int| 0 <= w < d1.len() ==> #[trigger] d2[w] == d1[w] || d2[w] == 0
}

impl Dinic {
    /// The vertex that entry `k` of the list at `u` leads to.
    pub closed spec fn succ(&self, u: int, k: int) -> int {
        let (i, fw) = self.g@[u]@[k];
        residual(self.es@, Seq::empty(), i as int, fw).0
    }

    /// Entry `k` at `u` can carry more flow and goes up exactly one level.
    pub closed spec fn adm(&self, flow: Seq<i64>, dist: Seq<usize>, u: int, k: int) -> bool {
        let (i, fw) = self.g@[u]@[k];
        let (v, r) = residual(self.es@, flow, i as int, fw);
        &&& 0 <= v < dist.len()
        &&& dist[v] == dist[u] + 1
        &&& r > 0
    }

    /// No more flow can go from `u` to `t` along entries that go up one level each:
    /// every such entry leads to a vertex that is blocked in turn.
    pub closed spec fn blocked(&self, flow: Seq<i64>, dist: Seq<usize>, u: int, t: int, fuel: nat) -> bool
        decreases fuel,
    {
        &&& u != t
        &&& forall|k: int|
            0 <= k < self.g@[u]@.len() && #[trigger] self.adm(flow, dist, u, k) ==> fuel > 0 && self.blocked(
                flow,
                dist,
                self.succ(u, k),
                t,
                (fuel - 1) as nat,
            )
    }

    /// Every entry that can carry flow up one level in the second state, from a vertex
    /// whose level is unchanged, could already in the first.
    closed spec fn shrinks(&self, f1: Seq<i64>, d1: Seq<usize>, f2: Seq<i64>, d2: Seq<usize>) -> bool {
        forall|x: int, k: int|
            0 <= x < self.g@.len() && 0 <= k < self.g@[x]@.len() && d2[x] == d1[x] && #[trigger] self.adm(
                f2,
                d2,
                x,
                k,
            ) ==> self.adm(f1, d1, x, k)
    }

    proof fn lemma_succ(&self, flow: Seq<i64>, u: int, k: int)
        ensures
            self.succ(u, k) == residual(self.es@, flow, self.g@[u]@[k].0 as int, self.g@[u]@[k].1).0,
    {
    }

    proof fn lemma_blocked_mono(
        &self,
        f1: Seq<i64>,
        d1: Seq<usize>,
        f2: Seq<i64>,
        d2: Seq<usize>,
        x: int,
        t: int,
        fuel: nat,
    )
        requires
            self.wf(),
            0 <= x < self.g@.len(),
            d1.len() == self.g@.len(),
            self.blocked(f1, d1, x, t, fuel),
            self.shrinks(f1, d1, f2, d2),
            resets_only(d1, d2),
            d2[x] == d1[x],
        ensures
            self.blocked(f2, d2, x, t, fuel),
        decreases fuel,
    {
        assert forall|k: int|
            0 <= k < self.g@[x]@.len() && #[trigger] self.adm(f2, d2, x, k) implies fuel > 0 && self.blocked(
                f2,
                d2,
                self.succ(x, k),
                t,
                (fuel - 1) as nat,
            ) by {
            assert(self.adm(f1, d1, x, k));
            let y = self.succ(x, k);
            self.lemma_succ(f2, x, k);
            self.lemma_succ(f1, x, k);
            assert(0 <= y < self.g@.len());
            assert(d2[y] == d2[x] + 1);
            assert(d2[y] == d1[y]);
            self.lemma_blocked_mono(f1, d1, f2, d2, y, t, (fuel - 1) as nat);
        }
    }

    proof fn lemma_shrinks_trans(
        &self,
        f1: Seq<i64>,
        d1: Seq<usize>,
        f2: Seq<i64>,
        d2: Seq<usize>,
        f3: Seq<i64>,
        d3: Seq<usize>,
    )
        requires
            self.shrinks(f1, d1, f2, d2),
            self.shrinks(f2, d2, f3, d3),
            resets_only(d1, d2),
            resets_only(d2, d3),
            d1.len() == self.g@.len(),
        ensures
            self.shrinks(f1, d1, f3, d3),
            resets_only(d1, d3),
    {
        assert forall|x: int, k: int|
            0 <= x < self.g@.len() && 0 <= k < self.g@[x]@.len() && d3[x] == d1[x] && #[trigger] self.adm(
                f3,
                d3,
                x,
                k,
            ) implies self.adm(f1, d1, x, k) by {
            assert(d2[x] == d1[x]);
            assert(self.adm(f2, d2, x, k));
        }
    }

    /// Sending `a > 0` more along entry `(i, fw)` from `u` up to the next level leaves
    /// no new entry that goes up one level.
    proof fn lemma_push_shrinks(&self, f1: Seq<i64>, d: Seq<usize>, f2: Seq<i64>, u: int, i: int, fw: bool)
        requires
            self.wf(),
            0 <= u < self.g@.len(),
            0 <= i < self.es@.len(),
            f1.len() == self.es@.len(),
            d.len() == self.g@.len(),
            fw ==> self.es@[i].0 == u && f2 == f1.update(i, (f2[i])) && f2[i] > f1[i],
            !fw ==> self.es@[i].1 == u && f2 == f1.update(i, (f2[i])) && f2[i] < f1[i],
            d[residual(self.es@, f1, i, fw).0] == d[u] + 1,
        ensures
            self.shrinks(f1, d, f2, d),
    {
        assert forall|x: int, k: int|
            0 <= x < self.g@.len() && 0 <= k < self.g@[x]@.len() && d[x] == d[x] && #[trigger] self.adm(
                f2,
                d,
                x,
                k,
            ) implies self.adm(f1, d, x, k) by {
            let (j, fw2) = self.g@[x]@[k];
            if j as int == i {
                if fw2 != fw {
                    if fw {
                        assert(x == self.es@[i].1);
                    } else {
                        assert(x == self.es@[i].0);
                    }
                    assert(false);
                }
            } else {
                assert(f2[j as int] == f1[j as int]);
            }
        }
    }

    /// Dropping the level of `v` to zero leaves no new entry that goes up one level.
    proof fn lemma_reset_shrinks(&self, f: Seq<i64>, d1: Seq<usize>, d2: Seq<usize>, v: int)
        requires
            self.wf(),
            0 <= v < d1.len(),
            d1.len() == self.g@.len(),
            d2 == d1.update(v, 0),
        ensures
            self.shrinks(f, d1, f, d2),
            resets_only(d1, d2),
    {
        assert forall|x: int, k: int|
            0 <= x < self.g@.len() && 0 <= k < self.g@[x]@.len() && d2[x] == d1[x] && #[trigger] self.adm(
                f,
                d2,
                x,
                k,
            ) implies self.adm(f, d1, x, k) by {
            let y = residual(self.es@, f, self.g@[x]@[k].0 as int, self.g@[x]@[k].1).0;
            assert(y != v);
        }
    }

    /// A vertex blocked after some levels dropped to zero was blocked before, when
    /// every vertex whose level dropped was.
    proof fn lemma_blocked_restore(
        &self,
        f: Seq<i64>,
        d0: Seq<usize>,
        dc: Seq<usize>,
        x: int,
        t: int,
        fuel: nat,
    )
        requires
            self.wf(),
            0 <= x < self.g@.len(),
            d0.len() == self.g@.len(),
            levels_ok(d0, self.g@.len() as int),
            self.g@.len() + 1 < usize::MAX,
            resets_only(d0, dc),
            dc[x] == d0[x],
            d0[x] <= self.g@.len(),
            fuel == self.g@.len() - d0[x],
            self.blocked(f, dc, x, t, fuel),
            forall|w: int|
                0 <= w < self.g@.len() && #[trigger] dc[w] != d0[w] ==> self.blocked(
                    f,
                    d0,
                    w,
                    t,
                    (self.g@.len() - d0[w]) as nat,
                ),
        ensures
            self.blocked(f, d0, x, t, fuel),
        decreases fuel,
    {
        assert forall|k: int|
            0 <= k < self.g@[x]@.len() && #[trigger] self.adm(f, d0, x, k) implies fuel > 0 && self.blocked(
                f,
                d0,
                self.succ(x, k),
                t,
                (fuel - 1) as nat,
            ) by {
            let y = self.succ(x, k);
            self.lemma_succ(f, x, k);
            self.lemma_succ(Seq::empty(), x, k);
            assert(0 <= y < self.g@.len());
            assert(d0[y] == d0[x] + 1);
            assert(d0[y] <= self.g@.len() || d0[y] == usize::MAX);
            if dc[y] != d0[y] {
            } else {
                assert(self.adm(f, dc, x, k));
                self.lemma_blocked_restore(f, d0, dc, y, t, (fuel - 1) as nat);
            }
        }
    }

    /// The bookkeeping of a search from `u` that has sent nothing yet, after its entry
    /// `k` led to `v`, the search from `v` sent nothing, and `v` was dropped to level 0.
    proof fn lemma_dead_step(
        &self,
        f0: Seq<i64>,
        d0: Seq<usize>,
        db: Seq<usize>,
        dc: Seq<usize>,
        dn: Seq<usize>,
        u: int,
        k: int,
        v: int,
        t: int,
    )
        requires
            self.wf(),
            self.g@.len() + 1 < usize::MAX,
            d0.len() == self.g@.len(),
            levels_ok(d0, self.g@.len() as int),
            0 <= u < self.g@.len(),
            0 <= k < self.g@[u]@.len(),
            0 <= v < self.g@.len(),
            self.succ(u, k) == v,
            d0[u] <= self.g@.len(),
            db[u] == d0[u],
            db[v] == d0[u] + 1,
            resets_only(d0, db),
            resets_only(db, dc),
            dn == dc.update(v, 0),
            forall|w: int| 0 <= w < self.g@.len() && #[trigger] db[w] != d0[w] ==> d0[w] != usize::MAX,
            forall|w: int|
                0 <= w < self.g@.len() && #[trigger] db[w] != d0[w] ==> self.blocked(
                    f0,
                    d0,
                    w,
                    t,
                    (self.g@.len() - d0[w]) as nat,
                ),
            self.blocked(f0, db, v, t, (self.g@.len() - db[v]) as nat),
            forall|w: int| 0 <= w < self.g@.len() && #[trigger] dc[w] != db[w] ==> db[w] != usize::MAX,
            forall|w: int|
                0 <= w < self.g@.len() && #[trigger] dc[w] != db[w] ==> self.blocked(
                    f0,
                    db,
                    w,
                    t,
                    (self.g@.len() - db[w]) as nat,
                ),
            forall|k2: int|
                0 <= k2 < k && #[trigger] self.adm(f0, d0, u, k2) ==> self.blocked(
                    f0,
                    d0,
                    self.succ(u, k2),
                    t,
                    (self.g@.len() - d0[u] - 1) as nat,
                ),
        ensures
            resets_only(d0, dn),
            forall|w: int| 0 <= w < self.g@.len() && #[trigger] dn[w] != d0[w] ==> d0[w] != usize::MAX,
            forall|w: int|
                0 <= w < self.g@.len() && #[trigger] dn[w] != d0[w] ==> self.blocked(
                    f0,
                    d0,
                    w,
                    t,
                    (self.g@.len() - d0[w]) as nat,
                ),
            forall|k2: int|
                0 <= k2 < k + 1 && #[trigger] self.adm(f0, d0, u, k2) ==> self.blocked(
                    f0,
                    d0,
                    self.succ(u, k2),
                    t,
                    (self.g@.len() - d0[u] - 1) as nat,
                ),
    {
        let n = self.g@.len();
        assert(db[v] == d0[v]) by {
            if db[v] != d0[v] {
                assert(db[v] == 0);
            }
        }
        assert(d0[v] <= n) by {
            assert(d0[v] <= n || d0[v] == usize::MAX);
        }
        self.lemma_blocked_restore(f0, d0, db, v, t, (n - d0[v]) as nat);
        assert forall|w: int|
            0 <= w < n && #[trigger] dn[w] != d0[w] implies d0[w] != usize::MAX && self.blocked(
                f0,
                d0,
                w,
                t,
                (n - d0[w]) as nat,
            ) by {
            if db[w] != d0[w] {
            } else if w != v {
                assert(dc[w] != db[w]);
                assert(db[w] != usize::MAX);
                assert(d0[w] <= n || d0[w] == usize::MAX);
                self.lemma_blocked_restore(f0, d0, db, w, t, (n - d0[w]) as nat);
            }
        }
        assert forall|k2: int|
            0 <= k2 < k + 1 && #[trigger] self.adm(f0, d0, u, k2) implies self.blocked(
                f0,
                d0,
                self.succ(u, k2),
                t,
                (n - d0[u] - 1) as nat,
            ) by {
            if k2 == k {
                assert(self.succ(u, k2) == v);
            }
        }
    }

    /// Every vertex the level search reached is blocked once the source is.
    proof fn lemma_blocked_forward(&self, f: Seq<i64>, d: Seq<usize>, s: int, t: int, y: int)
        requires
            self.wf(),
            d.len() == self.g@.len(),
            levels_ok(d, self.g@.len() as int),
            0 <= s < self.g@.len(),
            d[s] == 0,
            0 <= y < self.g@.len(),
            d[y] != usize::MAX,
            self.blocked(f, d, s, t, self.g@.len() as nat),
            forall|z: int|
                0 <= z < self.g@.len() && z != s && #[trigger] d[z] != usize::MAX ==> exists|x: int, k: int|
                    0 <= x < self.g@.len() && 0 <= k < self.g@[x]@.len() && d[x] != usize::MAX
                        && #[trigger] self.adm(f, d, x, k) && self.succ(x, k) == z,
        ensures
            d[y] <= self.g@.len(),
            self.blocked(f, d, y, t, (self.g@.len() - d[y]) as nat),
        decreases d[y],
    {
        assert(d[y] <= self.g@.len() || d[y] == usize::MAX);
        if y != s {
            let (x, k) = choose|x: int, k: int|
                0 <= x < self.g@.len() && 0 <= k < self.g@[x]@.len() && d[x] != usize::MAX
                    && #[trigger] self.adm(f, d, x, k) && self.succ(x, k) == y;
            self.lemma_succ(f, x, k);
            assert(d[y] == d[x] + 1);
            self.lemma_blocked_forward(f, d, s, t, x);
        }
    }

    proof fn lemma_shrinks_refl(&self, f: Seq<i64>, d: Seq<usize>)
        ensures
            self.shrinks(f, d, f, d),
            resets_only(d, d),
    {
    }
}

impl Dinic {
    /// Sends at most `cap` units from `u` to `t` along edges that go up one level each.
    #[verifier::spinoff_prover]
    #[verifier::rlimit(40)]
    fn dfs(&self, flow: &mut Vec<i64>, dist: &mut Vec<usize>, u: usize, t: usize, cap: i64, Ghost(level): Ghost<int>) -> (add: i64)
        requires
            self.wf(),
            u < self.len(),
            t < self.len(),
            self.len() + 1 < usize::MAX,
            cap >= 0,
            feasible(self.es@, old(flow)@),
            old(dist)@.len() == self.len(),
            levels_ok(old(dist)@, self.len() as int),
            old(dist)@[u as int] <= self.len(),
            level == old(dist)@[u as int],
        ensures
            0 <= add <= cap,
            feasible(self.es@, final(flow)@),
            levels_ok(final(dist)@, self.len() as int),
            levels_cleared(old(dist)@, final(dist)@, old(dist)@[u as int] as int),
            changed_above(self.es@, old(flow)@, final(flow)@, old(dist)@, old(dist)@[u as int] as int),
            self.shrinks(old(flow)@, old(dist)@, final(flow)@, final(dist)@),
            resets_only(old(dist)@, final(dist)@),
            add < cap ==> self.blocked(
                final(flow)@,
                final(dist)@,
                u as int,
                t as int,
                (self.len() - old(dist)@[u as int]) as nat,
            ),
            cap > 0 && add == 0 ==> final(flow)@ == old(flow)@,
            forall|w: int|
                0 <= w < self.len() && #[trigger] final(dist)@[w] != old(dist)@[w] ==> old(dist)@[w] != usize::MAX,
            cap > 0 && add == 0 ==> self.blocked(
                old(flow)@,
                old(dist)@,
                u as int,
                t as int,
                (self.len() - old(dist)@[u as int]) as nat,
            ),
            cap > 0 && add == 0 ==> forall|w: int|
                0 <= w < self.len() && #[trigger] final(dist)@[w] != old(dist)@[w] ==> self.blocked(
                    old(flow)@,
                    old(dist)@,
                    w,
                    t as int,
                    (self.len() - old(dist)@[w]) as nat,
                ),
            forall|w: int|
                #![trigger balance(self.es@, final(flow)@, w, self.es@.len() as int)]
                balance(self.es@, final(flow)@, w, self.es@.len() as int) == balance(
                    self.es@,
                    old(flow)@,
                    w,
                    self.es@.len() as int,
                ) + (if w == u {
                    add as int
                } else {
                    0int
                }) - (if w == t {
                    add as int
                } else {
                    0int
                }),
        decreases self.len() - level,
    {
        proof {
            self.lemma_shrinks_refl(flow@, dist@);
        }
        if u == t {
            return cap;
        }
        let ghost f0 = flow@;
        let ghost d0 = dist@;
        let ghost m = self.es@.len() as int;
        let n = self.g.len();
        let du = dist[u];
        let mut add: i64 = 0;
        let mut k: usize = 0;
        while k < self.g[u].len()
            invariant
                self.wf(),
                n == self.g@.len(),
                n + 1 < usize::MAX,
                u < n,
                t < n,
                u != t,
                m == self.es@.len(),
                d0.len() == n,
                du == d0[u as int],
                level == du as int,
                du <= n,
                0 <= add <= cap,
                feasible(self.es@, flow@),
                dist@.len() == n,
                levels_ok(dist@, n as int),
                levels_cleared(d0, dist@, du as int),
                changed_above(self.es@, f0, flow@, d0, du as int),
                self.shrinks(f0, d0, flow@, dist@),
                resets_only(d0, dist@),
                k <= self.g@[u as int]@.len(),
                levels_ok(d0, n as int),
                forall|w: int| 0 <= w < n && #[trigger] dist@[w] != d0[w] ==> d0[w] != usize::MAX,
                cap > 0 && add == 0 ==> flow@ == f0,
                cap > 0 && add == 0 ==> forall|w: int|
                    0 <= w < n && #[trigger] dist@[w] != d0[w] ==> self.blocked(f0, d0, w, t as int, (n - d0[w]) as nat),
                cap > 0 && add == 0 ==> forall|k2: int|
                    0 <= k2 < k && #[trigger] self.adm(f0, d0, u as int, k2) ==> self.blocked(
                        f0,
                        d0,
                        self.succ(u as int, k2),
                        t as int,
                        (n - du - 1) as nat,
                    ),
                add < cap ==> forall|k2: int|
                    0 <= k2 < k && #[trigger] self.adm(flow@, dist@, u as int, k2) ==> self.blocked(
                        flow@,
                        dist@,
                        self.succ(u as int, k2),
                        t as int,
                        (n - du - 1) as nat,
                    ),
                forall|w: int|
                    #![trigger balance(self.es@, flow@, w, m)]
                    balance(self.es@, flow@, w, m) == balance(self.es@, f0, w, m) + (if w == u {
                        add as int
                    } else {
                        0int
                    }) - (if w == t {
                        add as int
                    } else {
                        0int
                    }),
            decreases self.g@[u as int]@.len() - k,
        {
            let (i, fw) = self.g[u][k];
            proof {
                assert(self.g@[u as int]@[k as int] == (i, fw));
            }
            let (v, r) = self.edge(flow, i, fw);
            let ghost fS = flow@;
            let ghost dS = dist@;
            let ghost addS = add;
            proof {
                assert(dist@[u as int] == du) by {
                    assert(dist@[u as int] == d0[u as int] || d0[u as int] > du);
                }
                self.lemma_succ(flow@, u as int, k as int);
                assert(self.succ(u as int, k as int) == v);
                assert(self.adm(fS, dS, u as int, k as int) == (dist@[v as int] == du + 1 && r > 0));
            }
            if dist[v] == du + 1 && r > 0 {
                let ghost fb = flow@;
                let ghost db = dist@;
                let lim = if cap - add < r { cap - add } else { r };
                proof {
                    assert(v < n);
                    assert(dist@[v as int] <= n || dist@[v as int] == usize::MAX);
                    assert(dist@[v as int] <= n);
                }
                let a = self.dfs(flow, dist, v, t, lim, Ghost(dist@[v as int] as int));
                proof {
                    // the edge to `v` was not touched below `v`
                    assert(flow@[i as int] == fb[i as int]) by {
                        if flow@[i as int] != fb[i as int] {
                            assert(db[u as int] == du);
                        }
                    }
                }
                let ghost fc = flow@;
                let ghost dc = dist@;
                if a > 0 {
                    let ghost f1 = flow@;
                    if fw {
                        let x = flow[i] + a;
                        flow.set(i, x);
                    } else {
                        let x = flow[i] - a;
                        flow.set(i, x);
                    }
                    proof {
                        assert forall|w: int| #![trigger balance(self.es@, flow@, w, m)]
                            balance(self.es@, flow@, w, m) == balance(self.es@, f1, w, m) + (if w == u {
                                a as int
                            } else {
                                0int
                            }) - (if w == v {
                                a as int
                            } else {
                                0int
                            }) by {
                            lemma_balance_update(self.es@, f1, i as int, flow@[i as int], w, m);
                        }
                    }
                    proof {
                        assert(dc[v as int] == du + 1);
                        assert(residual(self.es@, fc, i as int, fw).0 == v);
                        self.lemma_push_shrinks(fc, dc, flow@, u as int, i as int, fw);
                    }
                    add = add + a;
                } else {
                    dist.set(v, 0);
                    proof {
                        self.lemma_reset_shrinks(fc, dc, dist@, v as int);
                        if cap > 0 && addS == 0 {
                            assert(lim > 0);
                            assert(fc == fb);
                            self.lemma_dead_step(f0, d0, db, dc, dist@, u as int, k as int, v as int, t as int);
                        }
                    }
                }
                proof {
                    // what the entries at `u` allow now
                    self.lemma_shrinks_trans(fS, dS, fc, dc, flow@, dist@);
                    assert(dist@[u as int] == du);
                    if add < cap {
                        assert forall|k2: int|
                            0 <= k2 < k + 1 && #[trigger] self.adm(flow@, dist@, u as int, k2) implies self.blocked(
                                flow@,
                                dist@,
                                self.succ(u as int, k2),
                                t as int,
                                (n - du - 1) as nat,
                            ) by {
                            let y = self.succ(u as int, k2);
                            self.lemma_succ(flow@, u as int, k2);
                            assert(self.adm(fS, dS, u as int, k2));
                            assert(dist@[y] == dS[y]);
                            if k2 < k {
                                assert(self.blocked(fS, dS, y, t as int, (n - du - 1) as nat));
                                self.lemma_blocked_mono(fS, dS, flow@, dist@, y, t as int, (n - du - 1) as nat);
                            } else {
                                assert(y == v);
                                assert(a > 0);
                                assert(a < lim);
                                assert(self.blocked(fc, dc, y, t as int, (n - du - 1) as nat));
                                self.lemma_blocked_mono(fc, dc, flow@, dist@, y, t as int, (n - du - 1) as nat);
                            }
                        }
                    }
                }
                proof {
                    assert forall|j: int| 0 <= j < m && #[trigger] flow@[j] != f0[j] implies d0[self.es@[j].0 as int]
                        >= du && d0[self.es@[j].1 as int] >= du by {
                        if fb[j] != f0[j] {
                        } else if flow@[j] != fb[j] && j != i as int {
                            assert(db[self.es@[j].0 as int] >= du + 1);
                            assert(db[self.es@[j].1 as int] >= du + 1);
                        }
                    }
                }
            }
            k += 1;
        }
        proof {
            if add < cap {
                assert forall|k2: int|
                    0 <= k2 < self.g@[u as int]@.len() && #[trigger] self.adm(flow@, dist@, u as int, k2) implies (n
                        - du) as nat > 0 && self.blocked(
                        flow@,
                        dist@,
                        self.succ(u as int, k2),
                        t as int,
                        ((n - du) as nat - 1) as nat,
                    ) by {
                    let y = self.succ(u as int, k2);
                    self.lemma_succ(flow@, u as int, k2);
                    assert(dist@[y] <= n || dist@[y] == usize::MAX);
                }
                assert(self.blocked(flow@, dist@, u as int, t as int, (n - du) as nat));
            }
        }
        add
    }
}

impl Dinic {
    /// Levels by breadth-first search from `s` over edges that can still carry flow,
    /// stopping once `t` is reached.
    fn levels(&self, flow: &Vec<i64>, s: usize, t: usize) -> (dist: Vec<usize>)
        requires
            self.wf(),
            s < self.len(),
            t < self.len(),
            self.len() + 1 < usize::MAX,
            feasible(self.es@, flow@),
        ensures
            dist@.len() == self.len(),
            levels_ok(dist@, self.len() as int),
            dist@[s as int] == 0,
            forall|y: int|
                0 <= y < self.len() && y != s && #[trigger] dist@[y] != usize::MAX ==> exists|x: int, k: int|
                    0 <= x < self.len() && 0 <= k < self.g@[x]@.len() && dist@[x] != usize::MAX
                        && #[trigger] self.adm(flow@, dist@, x, k) && self.succ(x, k) == y,
            dist@[t as int] == usize::MAX ==> forall|x: int, k: int|
                0 <= x < self.len() && 0 <= k < self.g@[x]@.len() && dist@[x] != usize::MAX && residual(
                    self.es@,
                    flow@,
                    self.g@[x]@[k].0 as int,
                    self.g@[x]@[k].1,
                ).1 > 0 ==> dist@[#[trigger] self.succ(x, k)] != usize::MAX,
    {
        let n = self.g.len();
        let mut dist: Vec<usize> = vec![usize::MAX; n];
        let mut seen: Vec<bool> = vec![false; n];
        proof {
            crate::graph::djikstra::lemma_count_true_none(seen@);
        }
        dist.set(s, 0);
        let ghost sb = seen@;
        seen.set(s, true);
        proof {
            crate::graph::djikstra::lemma_count_true_set(sb, s as int);
        }
        let mut que: Vec<usize> = Vec::new();
        que.push(s);
        let mut head: usize = 0;
        proof {
            assert forall|w: int| 0 <= w < n && #[trigger] seen@[w] implies exists|j: int| 0 <= j < que@.len() && que@[j] == w by {
                assert(w == s);
                assert(que@[0] == w);
            }
        }
        'bfs: while head < que.len()
            invariant_except_break
                forall|j: int, k: int|
                    0 <= j < head && 0 <= k < self.g@[que@[j] as int]@.len() && residual(
                        self.es@,
                        flow@,
                        self.g@[que@[j] as int]@[k].0 as int,
                        self.g@[que@[j] as int]@[k].1,
                    ).1 > 0 ==> seen@[#[trigger] self.succ(que@[j] as int, k)],
            invariant
                self.wf(),
                n == self.g@.len(),
                n + 1 < usize::MAX,
                s < n,
                t < n,
                feasible(self.es@, flow@),
                dist@.len() == n,
                seen@.len() == n,
                dist@[s as int] == 0,
                crate::graph::djikstra::count_true(seen@) == que@.len(),
                que@.len() <= n,
                head <= que@.len(),
                forall|j: int| 0 <= j < que@.len() ==> (#[trigger] que@[j]) < n && seen@[que@[j] as int],
                forall|w: int| 0 <= w < n ==> (#[trigger] seen@[w] <==> dist@[w] != usize::MAX),
                forall|w: int| 0 <= w < n && #[trigger] seen@[w] ==> dist@[w] < que@.len(),
                forall|y: int|
                    0 <= y < n && y != s && #[trigger] dist@[y] != usize::MAX ==> exists|x: int, k: int|
                        0 <= x < n && 0 <= k < self.g@[x]@.len() && dist@[x] != usize::MAX
                            && #[trigger] self.adm(flow@, dist@, x, k) && self.succ(x, k) == y,
                forall|w: int| 0 <= w < n && #[trigger] seen@[w] ==> exists|j: int| 0 <= j < que@.len() && que@[j] == w,
            ensures
                dist@.len() == n,
                seen@.len() == n,
                dist@[s as int] == 0,
                forall|w: int| 0 <= w < n ==> (#[trigger] seen@[w] <==> dist@[w] != usize::MAX),
                forall|w: int| 0 <= w < n && #[trigger] seen@[w] ==> dist@[w] < que@.len(),
                que@.len() <= n,
                forall|y: int|
                    0 <= y < n && y != s && #[trigger] dist@[y] != usize::MAX ==> exists|x: int, k: int|
                        0 <= x < n && 0 <= k < self.g@[x]@.len() && dist@[x] != usize::MAX
                            && #[trigger] self.adm(flow@, dist@, x, k) && self.succ(x, k) == y,
                forall|w: int| 0 <= w < n && #[trigger] seen@[w] ==> exists|j: int| 0 <= j < que@.len() && que@[j] == w,
                forall|j: int| 0 <= j < que@.len() ==> (#[trigger] que@[j]) < n && seen@[que@[j] as int],
                dist@[t as int] == usize::MAX ==> head == que@.len() && forall|j: int, k: int|
                    0 <= j < head && 0 <= k < self.g@[que@[j] as int]@.len() && residual(
                        self.es@,
                        flow@,
                        self.g@[que@[j] as int]@[k].0 as int,
                        self.g@[que@[j] as int]@[k].1,
                    ).1 > 0 ==> seen@[#[trigger] self.succ(que@[j] as int, k)],
            decreases n - head,
        {
            let u = que[head];
            head += 1;
            let mut k: usize = 0;
            while k < self.g[u].len()
                invariant
                    self.wf(),
                    n == self.g@.len(),
                    n + 1 < usize::MAX,
                    u < n,
                    s < n,
                    seen@[u as int],
                    feasible(self.es@, flow@),
                    dist@.len() == n,
                    seen@.len() == n,
                    dist@[s as int] == 0,
                    crate::graph::djikstra::count_true(seen@) == que@.len(),
                    que@.len() <= n,
                    head <= que@.len(),
                    forall|j: int| 0 <= j < que@.len() ==> (#[trigger] que@[j]) < n && seen@[que@[j] as int],
                    forall|w: int| 0 <= w < n ==> (#[trigger] seen@[w] <==> dist@[w] != usize::MAX),
                    forall|w: int| 0 <= w < n && #[trigger] seen@[w] ==> dist@[w] < que@.len(),
                    forall|y: int|
                        0 <= y < n && y != s && #[trigger] dist@[y] != usize::MAX ==> exists|x: int, k: int|
                            0 <= x < n && 0 <= k < self.g@[x]@.len() && dist@[x] != usize::MAX
                                && #[trigger] self.adm(flow@, dist@, x, k) && self.succ(x, k) == y,
                    forall|w: int| 0 <= w < n && #[trigger] seen@[w] ==> exists|j: int| 0 <= j < que@.len() && que@[j] == w,
                    head >= 1,
                    u == que@[head - 1],
                    forall|j: int, k2: int|
                        0 <= j < head - 1 && 0 <= k2 < self.g@[que@[j] as int]@.len() && residual(
                            self.es@,
                            flow@,
                            self.g@[que@[j] as int]@[k2].0 as int,
                            self.g@[que@[j] as int]@[k2].1,
                        ).1 > 0 ==> seen@[#[trigger] self.succ(que@[j] as int, k2)],
                    forall|k2: int|
                        0 <= k2 < k && residual(
                            self.es@,
                            flow@,
                            self.g@[u as int]@[k2].0 as int,
                            self.g@[u as int]@[k2].1,
                        ).1 > 0 ==> seen@[#[trigger] self.succ(u as int, k2)],
                    k <= self.g@[u as int]@.len(),
                decreases self.g@[u as int]@.len() - k,
            {
                let (i, fw) = self.g[u][k];
                proof {
                    assert(self.g@[u as int]@[k as int] == (i, fw));
                }
                let (v, r) = self.edge(flow, i, fw);
                proof {
                    self.lemma_succ(flow@, u as int, k as int);
                    assert(self.succ(u as int, k as int) == v);
                    assert(residual(self.es@, flow@, i as int, fw) == (v as int, r as int));
                }
                if dist[v] == usize::MAX && r > 0 {
                    let ghost sb = seen@;
                    let ghost db = dist@;
                    let ghost qb = que@;
                    proof {
                        crate::graph::djikstra::lemma_count_true_set(sb, v as int);
                        crate::graph::djikstra::lemma_count_true_bound(seen@.update(v as int, true));
                    }
                    dist.set(v, dist[u] + 1);
                    seen.set(v, true);
                    que.push(v);
                    proof {
                        assert(self.adm(flow@, dist@, u as int, k as int));
                        assert forall|y: int|
                            0 <= y < n && y != s && #[trigger] dist@[y] != usize::MAX implies exists|x: int, k3: int|
                                0 <= x < n && 0 <= k3 < self.g@[x]@.len() && dist@[x] != usize::MAX
                                    && #[trigger] self.adm(flow@, dist@, x, k3) && self.succ(x, k3) == y by {
                            if y == v as int {
                                assert(self.adm(flow@, dist@, u as int, k as int) && self.succ(u as int, k as int) == y);
                            } else {
                                assert(db[y] != usize::MAX);
                                let (x, k3) = choose|x: int, k3: int|
                                    0 <= x < n && 0 <= k3 < self.g@[x]@.len() && db[x] != usize::MAX
                                        && #[trigger] self.adm(flow@, db, x, k3) && self.succ(x, k3) == y;
                                self.lemma_succ(flow@, x, k3);
                                assert(self.adm(flow@, dist@, x, k3));
                            }
                        }
                        assert forall|w: int| 0 <= w < n && #[trigger] seen@[w] implies exists|j: int|
                            0 <= j < que@.len() && que@[j] == w by {
                            if w == v as int {
                                assert(que@[qb.len() as int] == w);
                            } else {
                                assert(sb[w]);
                                let j = choose|j: int| 0 <= j < qb.len() && qb[j] == w;
                                assert(que@[j] == w);
                            }
                        }
                        assert forall|j: int| 0 <= j < que@.len() implies (#[trigger] que@[j]) < n && seen@[que@[j] as int] by {
                            if j < qb.len() {
                                assert(que@[j] == qb[j]);
                            }
                        }
                    }
                    if v == t {
                        break 'bfs;
                    }
                }
                k += 1;
            }
        }
        proof {
            assert forall|w: int| 0 <= w < dist@.len() implies #[trigger] dist@[w] <= n || dist@[w] == usize::MAX by {
                if seen@[w] {
                }
            }
            if dist@[t as int] == usize::MAX {
                assert forall|x: int, k: int|
                    0 <= x < n && 0 <= k < self.g@[x]@.len() && dist@[x] != usize::MAX && residual(
                        self.es@,
                        flow@,
                        self.g@[x]@[k].0 as int,
                        self.g@[x]@[k].1,
                    ).1 > 0 implies dist@[#[trigger] self.succ(x, k)] != usize::MAX by {
                    assert(seen@[x]);
                    let j = choose|j: int| 0 <= j < que@.len() && que@[j] == x;
                    assert(seen@[self.succ(que@[j] as int, k)]);
                    self.lemma_succ(flow@, x, k);
                }
            }
        }
        dist
    }

    /// Once no flow gets from `s` to `t` along levels, the vertices the level search
    /// reached form a cut that no edge can carry more flow out of.
    proof fn lemma_cut_found(&self, f: Seq<i64>, d: Seq<usize>, s: int, t: int)
        requires
            self.wf(),
            feasible(self.es@, f),
            self.es@.len() <= usize::MAX,
            d.len() == self.g@.len(),
            levels_ok(d, self.g@.len() as int),
            0 <= s < self.g@.len(),
            0 <= t < self.g@.len(),
            d[s] == 0,
            self.blocked(f, d, s, t, self.g@.len() as nat),
            forall|z: int|
                0 <= z < self.g@.len() && z != s && #[trigger] d[z] != usize::MAX ==> exists|x: int, k: int|
                    0 <= x < self.g@.len() && 0 <= k < self.g@[x]@.len() && d[x] != usize::MAX
                        && #[trigger] self.adm(f, d, x, k) && self.succ(x, k) == z,
            d[t] == usize::MAX ==> forall|x: int, k: int|
                0 <= x < self.g@.len() && 0 <= k < self.g@[x]@.len() && d[x] != usize::MAX && residual(
                    self.es@,
                    f,
                    self.g@[x]@[k].0 as int,
                    self.g@[x]@[k].1,
                ).1 > 0 ==> d[#[trigger] self.succ(x, k)] != usize::MAX,
        ensures
            exists|reach: Seq<bool>|
                reach.len() == self.g@.len() && #[trigger] residual_cut(self.es@, f, reach, s, t),
    {
        if d[t] != usize::MAX {
            self.lemma_blocked_forward(f, d, s, t, t);
        }
        let reach = Seq::new(self.g@.len(), |w: int| d[w] != usize::MAX);
        let es = self.es@;
        assert forall|i: int|
            #![trigger es[i]]
            0 <= i < es.len() implies (reach[es[i].0 as int] && f[i] < es[i].2 ==> reach[es[i].1 as int]) && (
            reach[es[i].1 as int] && f[i] > 0 ==> reach[es[i].0 as int]) by {
            assert(self.listed(i));
            let a = es[i].0 as int;
            let b = es[i].1 as int;
            let ka = choose|k: int| 0 <= k < self.g@[a]@.len() && #[trigger] self.g@[a]@[k] == (i as usize, true);
            let kb = choose|k: int| 0 <= k < self.g@[b]@.len() && #[trigger] self.g@[b]@[k] == (i as usize, false);
            self.lemma_succ(f, a, ka);
            self.lemma_succ(f, b, kb);
            assert(self.succ(a, ka) == b);
            assert(self.succ(b, kb) == a);
            assert(self.g@[a]@[ka].0 as int == i && self.g@[a]@[ka].1);
            assert(self.g@[b]@[kb].0 as int == i && !self.g@[b]@[kb].1);
            if reach[a] && f[i] < es[i].2 {
                assert(residual(es, f, i, true).1 > 0);
                assert(d[self.succ(a, ka)] != usize::MAX);
            }
            if reach[b] && f[i] > 0 {
                assert(residual(es, f, i, false).1 > 0);
                assert(d[self.succ(b, kb)] != usize::MAX);
            }
        }
        assert(residual_cut(es, f, reach, s, t));
    }

    /// A maximum flow from `s` to `t`: its value and the flow on each edge. The flow
    /// leaves a residual cut, so by [`lemma_max_flow_min_cut`] no feasible flow carries
    /// more.
    ///
    /// The capacities leaving `s` must add up to an `i64`.
    pub fn run(&self, s: usize, t: usize) -> (res: (i64, Vec<i64>))
        requires
            self.wf(),
            s < self.len(),
            t < self.len(),
            s != t,
            self.len() + 1 < usize::MAX,
            out_capacity(self.edges(), s as int, self.edges().len() as int) <= i64::MAX,
        ensures
            feasible(self.edges(), res.1@),
            res.0 >= 0,
            carries(self.edges(), res.1@, self.len() as int, s as int, t as int, res.0 as int),
            forall|i: int|
                0 <= i < self.edges().len() ==> (#[trigger] self.edges()[i]).0 < self.len() && self.edges()[i].1
                    < self.len(),
            exists|reach: Seq<bool>|
                reach.len() == self.len() && #[trigger] residual_cut(self.edges(), res.1@, reach, s as int, t as int),
    {
        let m = self.es.len();
        let mut flow: Vec<i64> = vec![0; m];
        let mut sum: i64 = 0;
        let ghost es = self.es@;
        proof {
            assert forall|w: int| 0 <= w < self.len() implies #[trigger] balance(es, flow@, w, m as int) == 0 by {
                lemma_balance_zero(es, flow@, w, m as int);
            }
        }
        loop
            invariant
                self.wf(),
                es == self.es@,
                m == es.len(),
                s < self.len(),
                t < self.len(),
                s != t,
                self.len() + 1 < usize::MAX,
                out_capacity(es, s as int, m as int) <= i64::MAX,
                feasible(es, flow@),
                sum >= 0,
                forall|w: int|
                    0 <= w < self.len() ==> #[trigger] balance(es, flow@, w, m as int) == (if w == s {
                        sum as int
                    } else {
                        0int
                    }) - (if w == t {
                        sum as int
                    } else {
                        0int
                    }),
            ensures
                feasible(es, flow@),
                sum >= 0,
                forall|w: int|
                    0 <= w < self.len() ==> #[trigger] balance(es, flow@, w, m as int) == (if w == s {
                        sum as int
                    } else {
                        0int
                    }) - (if w == t {
                        sum as int
                    } else {
                        0int
                    }),
                exists|reach: Seq<bool>|
                    reach.len() == self.len() && #[trigger] residual_cut(es, flow@, reach, s as int, t as int),
            decreases out_capacity(es, s as int, m as int) - sum,
        {
            let ghost f0 = flow@;
            let mut dist = self.levels(&flow, s, t);
            let ghost d0 = dist@;
            let add = self.dfs(&mut flow, &mut dist, s, t, i64::MAX, Ghost(0));
            proof {
                lemma_balance_bound(es, flow@, s as int, m as int);
                assert(balance(es, flow@, s as int, m as int) == sum + add);
            }
            if add == 0 {
                proof {
                    self.lemma_cut_found(f0, d0, s as int, t as int);
                }
                break;
            }
            sum = sum + add;
        }
        proof {
            let reach = choose|reach: Seq<bool>|
                reach.len() == self.len() && #[trigger] residual_cut(es, flow@, reach, s as int, t as int);
            assert(residual_cut(self.edges(), flow@, reach, s as int, t as int));
        }
        (sum, flow)
    }
}

} // verus!
