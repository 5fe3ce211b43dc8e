use vstd::prelude::*;
use super::LabeledGraph;

verus! {

/// Nonnegative edge weights with a bounded range.
pub trait Weight: Copy {
    spec fn val(self) -> nat;

    spec fn max_val() -> nat;

    /// Values are told apart by their weights, which are at most the maximum.
    proof fn lemma_val_injective(a: Self, b: Self)
        ensures
            a.val() == b.val() ==> a == b,
            a.val() <= Self::max_val(),
    ;

    fn zero() -> (r: Self)
        ensures
            r.val() == 0,
    ;

    /// The sum, or `None` when it does not fit.
    fn checked_plus(a: Self, b: Self) -> (r: Option<Self>)
        ensures
            r is None <==> a.val() + b.val() > Self::max_val(),
            r matches Some(c) ==> c.val() == a.val() + b.val(),
    ;

    fn less(a: Self, b: Self) -> (r: bool)
        ensures
            r == (a.val() < b.val()),
    ;
}

impl Weight for u32 {
    open spec fn val(self) -> nat {
        self as nat
    }

    open spec fn max_val() -> nat {
        u32::MAX as nat
    }

    proof fn lemma_val_injective(a: Self, b: Self) {
    }

    fn zero() -> (r: Self) {
        0
    }

    fn checked_plus(a: Self, b: Self) -> (r: Option<Self>) {
        a.checked_add(b)
    }

    fn less(a: Self, b: Self) -> (r: bool) {
        a < b
    }
}

impl Weight for u64 {
    open spec fn val(self) -> nat {
        self as nat
    }

    open spec fn max_val() -> nat {
        u64::MAX as nat
    }

    proof fn lemma_val_injective(a: Self, b: Self) {
    }

    fn zero() -> (r: Self) {
        0
    }

    fn checked_plus(a: Self, b: Self) -> (r: Option<Self>) {
        a.checked_add(b)
    }

    fn less(a: Self, b: Self) -> (r: bool) {
        a < b
    }
}

/// The sum of the weights.
pub open spec fn walk_weight<T: Weight>(ws: Seq<T>) -> nat
    decreases ws.len(),
{
    if ws.len() == 0 {
        0
    } else {
        walk_weight(ws.drop_last()) + ws.last().val()
    }
}

/// `adj[u]` holds an edge to `v` of weight `w`.
pub open spec fn has_edge<T>(adj: Seq<Seq<(usize, T)>>, u: int, v: int, w: T) -> bool {
    0 <= u < adj.len() && 0 <= v < adj.len() && exists|k: int|
        0 <= k < adj[u].len() && #[trigger] adj[u][k] == (v as usize, w)
}

/// `vs` is a walk from `s` along edges of the weights `ws`.
pub open spec fn is_walk<T>(adj: Seq<Seq<(usize, T)>>, s: int, vs: Seq<int>, ws: Seq<T>) -> bool {
    &&& vs.len() == ws.len() + 1
    &&& vs[0] == s
    &&& forall|i: int| 0 <= i < ws.len() ==> has_edge(adj, #[trigger] vs[i], vs[i + 1], ws[i])
}

/// Every head lies among the vertices.
pub open spec fn heads_in_range<T>(adj: Seq<Seq<(usize, T)>>) -> bool {
    forall|u: int, k: int| 0 <= u < adj.len() && 0 <= k < adj[u].len() ==> (#[trigger] adj[u][k]).0 < adj.len()
}

/// No edge out of a reached vertex leads to a shorter distance, as far as sums fit.
pub open spec fn relaxed<T: Weight>(adj: Seq<Seq<(usize, T)>>, dist: Seq<Option<T>>) -> bool {
    forall|u: int, k: int|
        0 <= u < adj.len() && 0 <= k < adj[u].len() && #[trigger] dist[u] is Some
            && dist[u]->0.val() + (#[trigger] adj[u][k]).1.val() <= T::max_val() ==> ({
            let v = adj[u][k].0 as int;
            &&& dist[v] is Some
            &&& dist[v]->0.val() <= dist[u]->0.val() + adj[u][k].1.val()
        })
}

/// A distance no walk from `s` undercuts, as far as its prefix sums fit.
pub proof fn lemma_walk_not_shorter<T: Weight>(
    adj: Seq<Seq<(usize, T)>>,
    dist: Seq<Option<T>>,
    s: int,
    vs: Seq<int>,
    ws: Seq<T>,
)
    requires
        dist.len() == adj.len(),
        adj.len() <= usize::MAX,
        0 <= s < adj.len(),
        heads_in_range(adj),
        dist[s] is Some && dist[s]->0.val() == 0,
        relaxed(adj, dist),
        is_walk(adj, s, vs, ws),
        walk_weight(ws) <= T::max_val(),
    ensures
        dist[vs.last()] is Some,
        dist[vs.last()]->0.val() <= walk_weight(ws),
    decreases ws.len(),
{
    if ws.len() > 0 {
        let vs1 = vs.drop_last();
        let ws1 = ws.drop_last();
        assert forall|i: int| 0 <= i < ws1.len() implies has_edge(adj, #[trigger] vs1[i], vs1[i + 1], ws1[i]) by {
            assert(has_edge(adj, vs[i], vs[i + 1], ws[i]));
        }
        lemma_walk_not_shorter(adj, dist, s, vs1, ws1);
        let u = vs1.last();
        let n = ws.len() - 1;
        assert(vs[n] == u);
        assert(has_edge(adj, vs[n], vs[n + 1], ws[n]));
        let k = choose|k: int| 0 <= k < adj[u].len() && #[trigger] adj[u][k] == (vs[n + 1] as usize, ws[n]);
        assert(adj[u][k].0 < adj.len());
        assert(dist[u] is Some);
        assert(walk_weight(ws) == walk_weight(ws1) + ws[n].val());
        assert(adj[u][k].0 as int == vs.last());
    } else {
        assert(vs.last() == vs[0]);
    }
}

/// Shortest distances from `s` by Dijkstra's method: `dist[v]` is the least weight of a
/// walk from `s` to `v`, or `None` when no walk reaches `v` within the range of `T`.
#[verifier::rlimit(60)]
pub fn djikstra<T: Weight>(g: &LabeledGraph<T>, s: usize) -> (dist: Vec<Option<T>>)
    requires
        s < g.adj().len(),
        heads_in_range(g.adj()),
    ensures
        dist@.len() == g.adj().len(),
        dist@[s as int] is Some && dist@[s as int]->0.val() == 0,
        relaxed(g.adj(), dist@),
        forall|v: int|
            0 <= v < dist@.len() && #[trigger] dist@[v] is Some ==> exists|vs: Seq<int>, ws: Seq<T>|
                is_walk(g.adj(), s as int, vs, ws) && vs.last() == v && walk_weight(ws) == dist@[v]->0.val(),
{
    let n = g.len();
    let ghost adj = g.adj();
    let mut dist: Vec<Option<T>> = Vec::new();
    let mut i: usize = 0;
    while i < n
        invariant
            i <= n,
            dist@ == Seq::new(i as nat, |x: int| None::<T>),
        decreases n - i,
    {
        dist.push(None);
        i += 1;
        assert(dist@ =~= Seq::new(i as nat, |x: int| None::<T>));
    }
    let mut visited: Vec<bool> = vec![false; n];
    proof {
        lemma_count_true_none(visited@);
    }
    let z = T::zero();
    dist.set(s, Some(z));
    let ghost mut walks: Seq<(Seq<int>, Seq<T>)> = Seq::new(n as nat, |v: int| (seq![s as int], Seq::<T>::empty()));
    let mut que: Vec<(usize, T)> = Vec::new();
    que.push((s, z));
    assert(que@[0] == (s, dist@[s as int]->0));
    assert(walks[s as int] == (seq![s as int], Seq::<T>::empty()));
    assert(is_walk(adj, s as int, walks[s as int].0, walks[s as int].1));
    let ghost mut last: nat = 0;
    let ghost mut done: nat = 0;
    while que.len() > 0
        invariant
            n == adj.len(),
            adj == g.adj(),
            s < n,
            heads_in_range(adj),
            dist@.len() == n,
            visited@.len() == n,
            walks.len() == n,
            done <= n,
            count_true(visited@) == done,
            dist@[s as int] is Some && dist@[s as int]->0.val() == 0,
            forall|j: int| 0 <= j < que@.len() ==> (#[trigger] que@[j]).0 < n && que@[j].1.val() >= last,
            forall|j: int|
                0 <= j < que@.len() ==> dist@[(#[trigger] que@[j]).0 as int] is Some && dist@[que@[j].0 as int]->0.val()
                    <= que@[j].1.val(),
            forall|x: int|
                0 <= x < n && #[trigger] visited@[x] ==> dist@[x] is Some && dist@[x]->0.val() <= last,
            forall|x: int, k: int|
                0 <= x < n && 0 <= k < adj[x].len() && visited@[x] && dist@[x]->0.val() + (#[trigger] adj[x][k]).1.val()
                    <= T::max_val() ==> dist@[adj[x][k].0 as int] is Some && dist@[adj[x][k].0 as int]->0.val()
                    <= dist@[x]->0.val() + adj[x][k].1.val(),
            forall|x: int|
                0 <= x < n && #[trigger] dist@[x] is Some && !visited@[x] ==> exists|j: int|
                    0 <= j < que@.len() && #[trigger] que@[j] == (x as usize, dist@[x]->0),
            forall|v: int|
                0 <= v < n && #[trigger] dist@[v] is Some ==> is_walk(adj, s as int, walks[v].0, walks[v].1)
                    && walks[v].0.last() == v && walk_weight(walks[v].1) == dist@[v]->0.val(),
        decreases n - done, que@.len(),
    {
        // take out an entry of least distance
        let mut best: usize = 0;
        let mut j: usize = 1;
        while j < que.len()
            invariant
                1 <= j <= que@.len(),
                best < que@.len(),
                forall|q: int| 0 <= q < j ==> que@[best as int].1.val() <= (#[trigger] que@[q]).1.val(),
            decreases que@.len() - j,
        {
            if T::less(que[j].1, que[best].1) {
                best = j;
            }
            j += 1;
        }
        let ghost q0 = que@;
        let (x, d) = que.swap_remove(best);
        proof {
            assert forall|q: int| 0 <= q < que@.len() implies (#[trigger] que@[q]).1.val() >= d.val() by {
                if q == best as int {
                    assert(que@[q] == q0.last());
                } else {
                    assert(que@[q] == q0[q]);
                }
            }
            last = d.val();
            // entries other than the one taken out stay
            assert forall|y: int|
                0 <= y < n && #[trigger] dist@[y] is Some && !visited@[y] && (y != x || dist@[y]->0 != d)
                    implies exists|jj: int| 0 <= jj < que@.len() && #[trigger] que@[jj] == (y as usize, dist@[y]->0) by {
                let jj = choose|jj: int| 0 <= jj < q0.len() && #[trigger] q0[jj] == (y as usize, dist@[y]->0);
                if jj == q0.len() - 1 {
                    assert(que@[best as int] == q0[jj]);
                } else {
                    assert(que@[jj] == q0[jj]);
                }
            }
        }
        let stale = visited[x] || match dist[x] {
            Some(dx) => T::less(dx, d),
            None => true,
        };
        if !stale {
            let ghost wx = walks[x as int];
            let row = g.get(x);
            let mut k: usize = 0;
            while k < row.len()
                invariant
                    n == adj.len(),
                    adj == g.adj(),
                    s < n,
                    x < n,
                    row@ == adj[x as int],
                    heads_in_range(adj),
                    dist@.len() == n,
                    visited@.len() == n,
                    walks.len() == n,
                    !visited@[x as int],
                    dist@[x as int] is Some && dist@[x as int]->0.val() == d.val(),
                    last == d.val(),
                    wx == walks[x as int],
                    is_walk(adj, s as int, wx.0, wx.1) && wx.0.last() == x && walk_weight(wx.1) == d.val(),
                    k <= row@.len(),
                    dist@[s as int] is Some && dist@[s as int]->0.val() == 0,
                    forall|j: int| 0 <= j < que@.len() ==> (#[trigger] que@[j]).0 < n && que@[j].1.val() >= last,
                    forall|j: int|
                        0 <= j < que@.len() ==> dist@[(#[trigger] que@[j]).0 as int] is Some && dist@[que@[j].0 as int]->0.val()
                            <= que@[j].1.val(),
                    forall|y: int|
                        0 <= y < n && #[trigger] visited@[y] ==> dist@[y] is Some && dist@[y]->0.val() <= last,
                    forall|y: int, kk: int|
                        0 <= y < n && 0 <= kk < adj[y].len() && visited@[y] && dist@[y]->0.val() + (
                        #[trigger] adj[y][kk]).1.val() <= T::max_val() ==> dist@[adj[y][kk].0 as int] is Some
                            && dist@[adj[y][kk].0 as int]->0.val() <= dist@[y]->0.val() + adj[y][kk].1.val(),
                    forall|kk: int|
                        0 <= kk < k && d.val() + (#[trigger] adj[x as int][kk]).1.val() <= T::max_val()
                            ==> dist@[adj[x as int][kk].0 as int] is Some && dist@[adj[x as int][kk].0 as int]->0.val()
                            <= d.val() + adj[x as int][kk].1.val(),
                    forall|y: int|
                        0 <= y < n && #[trigger] dist@[y] is Some && !visited@[y] && y != x ==> exists|jj: int|
                            0 <= jj < que@.len() && #[trigger] que@[jj] == (y as usize, dist@[y]->0),
                    forall|v: int|
                        0 <= v < n && #[trigger] dist@[v] is Some ==> is_walk(adj, s as int, walks[v].0, walks[v].1)
                            && walks[v].0.last() == v && walk_weight(walks[v].1) == dist@[v]->0.val(),
                decreases row@.len() - k,
            {
                let (v, w) = row[k];
                assert(adj[x as int][k as int] == (v, w));
                assert(v < n);
                if let Some(nd) = T::checked_plus(d, w) {
                    let better = match dist[v] {
                        Some(dv) => T::less(nd, dv),
                        None => true,
                    };
                    if better {
                        let ghost q1 = que@;
                        dist.set(v, Some(nd));
                        que.push((v, nd));
                        proof {
                            let nvs = wx.0.push(v as int);
                            let nws = wx.1.push(w);
                            assert(has_edge(adj, x as int, v as int, w));
                            assert forall|i: int| 0 <= i < nws.len() implies has_edge(adj, #[trigger] nvs[i], nvs[i + 1], nws[i]) by {
                                if i < wx.1.len() {
                                    assert(nvs[i] == wx.0[i] && nvs[i + 1] == wx.0[i + 1] && nws[i] == wx.1[i]);
                                } else {
                                    assert(nvs[i] == x as int);
                                }
                            }
                            assert(nws.drop_last() =~= wx.1);
                            walks = walks.update(v as int, (nvs, nws));
                            assert forall|y: int|
                                0 <= y < n && #[trigger] dist@[y] is Some && !visited@[y] && y != x implies exists|jj: int|
                                    0 <= jj < que@.len() && #[trigger] que@[jj] == (y as usize, dist@[y]->0) by {
                                if y == v as int {
                                    assert(que@[q1.len() as int] == (y as usize, dist@[y]->0));
                                } else {
                                    let jj = choose|jj: int| 0 <= jj < q1.len() && #[trigger] q1[jj] == (y as usize, dist@[y]->0);
                                    assert(que@[jj] == q1[jj]);
                                }
                            }
                        }
                    }
                }
                k += 1;
            }
            let ghost vb = visited@;
            visited.set(x, true);
            proof {
                lemma_count_true_set(vb, x as int);
                done = done + 1;
            }
        }
    }
    proof {
        assert forall|v: int| 0 <= v < dist@.len() && #[trigger] dist@[v] is Some implies exists|vs: Seq<int>, ws: Seq<T>|
            is_walk(g.adj(), s as int, vs, ws) && vs.last() == v && walk_weight(ws) == dist@[v]->0.val() by {
            let (vs, ws) = walks[v];
            assert(is_walk(g.adj(), s as int, vs, ws));
        }
        assert forall|x: int| 0 <= x < n && #[trigger] dist@[x] is Some implies visited@[x] by {
            if !visited@[x] {
                let jj = choose|jj: int| 0 <= jj < que@.len() && #[trigger] que@[jj] == (x as usize, dist@[x]->0);
            }
        }
    }
    dist
}

/// The number of `true` entries.
pub open spec fn count_true(s: Seq<bool>) -> nat
    decreases s.len(),
{
    if s.len() == 0 {
        0
    } else {
        count_true(s.drop_last()) + if s.last() {
            1nat
        } else {
            0nat
        }
    }
}

pub(crate) proof fn lemma_count_true_none(s: Seq<bool>)
    requires
        forall|i: int| 0 <= i < s.len() ==> !s[i],
    ensures
        count_true(s) == 0,
    decreases s.len(),
{
    if s.len() > 0 {
        lemma_count_true_none(s.drop_last());
    }
}

pub(crate) proof fn lemma_count_true_bound(s: Seq<bool>)
    ensures
        count_true(s) <= s.len(),
    decreases s.len(),
{
    if s.len() > 0 {
        lemma_count_true_bound(s.drop_last());
    }
}

pub(crate) proof fn lemma_count_true_set(s: Seq<bool>, i: int)
    requires
        0 <= i < s.len(),
        !s[i],
    ensures
        count_true(s.update(i, true)) == count_true(s) + 1,
        count_true(s.update(i, true)) <= s.len(),
    decreases s.len(),
{
    let t = s.update(i, true);
    if i == s.len() - 1 {
        assert(t.drop_last() =~= s.drop_last());
    } else {
        lemma_count_true_set(s.drop_last(), i);
        assert(t.drop_last() =~= s.drop_last().update(i, true));
    }
    lemma_count_true_bound(t);
}

} // verus!
