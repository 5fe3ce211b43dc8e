pub mod wip;
pub mod graph;

use vstd::prelude::*;
use crate::graph::wip::{JaggedArray, Builder, rows_view, push_all, push_bi_all};
use crate::vec_util::reverse_vec;

verus! {

/// Each row reversed.
pub open spec fn reverse_rows<T>(rows: Seq<Seq<T>>) -> Seq<Seq<T>> {
    rows.map_values(|r: Seq<T>| r.reverse())
}

pub(crate) fn reverse_each<T>(rows: Vec<Vec<T>>) -> (res: Vec<Vec<T>>)
    ensures
        rows_view(res@) == reverse_rows(rows_view(rows@)),
{
    let n = rows.len();
    let ghost orig = rows@;
    let mut rrows = reverse_vec(rows);
    let mut res: Vec<Vec<T>> = Vec::new();
    while rrows.len() > 0
        invariant
            rrows@.len() + res@.len() == n,
            n == orig.len(),
            forall|k: int| 0 <= k < rrows@.len() ==> #[trigger] rrows@[k] == orig[n - 1 - k],
            forall|k: int| 0 <= k < res@.len() ==> (#[trigger] res@[k])@ == orig[k]@.reverse(),
        decreases rrows.len(),
    {
        let row = rrows.pop().unwrap();
        res.push(reverse_vec(row));
    }
    assert(rows_view(res@) =~= reverse_rows(rows_view(orig)));
    res
}

/// Rows after adding, for each `k`, with `es[k] == (u, v, l)`, the pair
/// `(v, cs[k])` to row `u` and then `(u, l)` to row `v`.
pub open spec fn push_bi_labeled<T>(
    rows: Seq<Seq<(usize, T)>>,
    es: Seq<(usize, usize, T)>,
    cs: Seq<T>,
) -> Seq<Seq<(usize, T)>>
    decreases es.len(),
{
    if es.len() == 0 {
        rows
    } else {
        let r = push_bi_labeled(rows, es.drop_last(), cs.drop_last());
        let (u, v, l) = es.last();
        let r1 = r.update(u as int, r[u as int].push((v, cs.last())));
        r1.update(v as int, r1[v as int].push((u, l)))
    }
}

/// A directed graph whose edges carry labels of type `T`.
pub struct LabeledGraph<T>(JaggedArray<(usize, T)>);

impl<T> LabeledGraph<T> {
    /// `adj()[u]` lists the pairs `(v, label)` of the edges out of `u`.
    pub closed spec fn adj(&self) -> Seq<Seq<(usize, T)>> {
        self.0.rows()
    }

    /// All edges in order of their tail, concatenated.
    pub closed spec fn flat(&self) -> Seq<(usize, T)> {
        self.0.flat()
    }

    /// Position in [`LabeledGraph::flat`] of the first edge out of `u`.
    pub closed spec fn start(&self, u: int) -> int {
        self.0.start(u)
    }

    fn layout(&self)
        ensures
            self.start(0) == 0,
            self.start(self.adj().len() as int) == self.flat().len(),
            forall|i: int, j: int|
                0 <= i <= j <= self.adj().len() ==> self.start(i) <= self.start(j),
            forall|i: int, j: int|
                0 <= i < self.adj().len() && 0 <= j < self.adj()[i].len() ==> #[trigger] self.adj()[i][j]
                    == self.flat()[self.start(i) + j],
    {
        self.0.layout();
    }

    /// A builder for `n` vertices and no edges.
    pub fn builder(n: usize) -> (b: LabeledGraphBuilder<T>)
        ensures
            b.added() == Seq::new(n as nat, |i: int| Seq::<(usize, T)>::empty()),
    {
        LabeledGraphBuilder(Builder::new(n))
    }

    /// Number of vertices.
    pub fn len(&self) -> (n: usize)
        ensures
            n == self.adj().len(),
    {
        self.0.len()
    }

    /// The edges out of `u`, as `(head, label)` pairs.
    pub fn get(&self, u: usize) -> (r: &[(usize, T)])
        requires
            u < self.adj().len(),
        ensures
            r@ == self.adj()[u as int],
    {
        self.0.row(u)
    }

    /// A cursor over all edges `(tail, head, &label)`, by tail, then as listed.
    pub fn edges(&self) -> (it: LabeledEdges<'_, T>)
        ensures
            it.graph() == self,
            it.pos() == 0,
            it.wf(),
    {
        self.layout();
        LabeledEdges { g: self, u: 0, i: 0 }
    }
}

/// A cursor over the edges of a [`LabeledGraph`].
pub struct LabeledEdges<'a, T> {
    g: &'a LabeledGraph<T>,
    u: usize,
    i: usize,
}

impl<'a, T> LabeledEdges<'a, T> {
    pub closed spec fn graph(&self) -> &'a LabeledGraph<T> {
        self.g
    }

    /// Number of edges handed out so far.
    pub closed spec fn pos(&self) -> nat {
        self.i as nat
    }

    pub closed spec fn wf(&self) -> bool {
        ||| self.g.adj().len() == 0 && self.u == 0 && self.i == 0
        ||| self.u < self.g.adj().len() && self.g.start(self.u as int) <= self.i <= self.g.start(
            self.u + 1,
        )
    }

    /// The next edge as `(tail, head, &label)`, or `None` after the last one.
    pub fn next(&mut self) -> (r: Option<(usize, usize, &'a T)>)
        requires
            old(self).wf(),
        ensures
            final(self).wf(),
            final(self).graph() == old(self).graph(),
            ({
                let g = old(self).graph();
                let p = old(self).pos() as int;
                if p < g.flat().len() {
                    &&& r matches Some((u, v, l)) && {
                        &&& u < g.adj().len()
                        &&& g.start(u as int) <= p < g.start(u + 1)
                        &&& (v, *l) == g.flat()[p]
                    }
                    &&& final(self).pos() == p + 1
                } else {
                    r is None && final(self).pos() == p
                }
            }),
    {
        self.g.layout();
        let n = self.g.0.len();
        if self.i < self.g.0.flat_len() {
            while self.g.0.start_exec(self.u + 1) == self.i
                invariant
                    n == self.g.adj().len(),
                    self.u < self.g.adj().len(),
                    self.i < self.g.flat().len(),
                    self.g.start(self.u as int) <= self.i <= self.g.start(self.u + 1),
                    self.g == old(self).g,
                    self.i == old(self).i,
                    self.g.start(self.g.adj().len() as int) == self.g.flat().len(),
                    forall|i: int, j: int|
                        0 <= i <= j <= self.g.adj().len() ==> self.g.start(i) <= self.g.start(j),
                decreases self.g.adj().len() - self.u,
            {
                self.u += 1;
            }
            let e = self.g.0.flat_at(self.i);
            let res = (self.u, e.0, &e.1);
            self.i += 1;
            Some(res)
        } else {
            None
        }
    }

    /// The total number of edges of the graph, as a lower and an upper bound.
    pub fn size_hint(&self) -> (r: (usize, Option<usize>))
        ensures
            r.0 == self.graph().flat().len(),
            r.1 == Some(r.0),
    {
        let len = self.g.0.flat_len();
        (len, Some(len))
    }
}

/// Collects the edges of a [`LabeledGraph`].
pub struct LabeledGraphBuilder<T>(Builder<(usize, T)>);

impl<T> LabeledGraphBuilder<T> {
    /// The edges added so far out of each vertex, in insertion order.
    pub closed spec fn added(&self) -> Seq<Seq<(usize, T)>> {
        self.0.rows()
    }

    /// A builder holding the same edges.
    pub fn copy(&self) -> (b: Self)
        where
            T: Copy,
        ensures
            b.added() == self.added(),
    {
        LabeledGraphBuilder(self.0.copy())
    }

    /// Adds the edge `u -> v` labelled `l`.
    pub fn edge(&mut self, u: usize, v: usize, l: T)
        requires
            u < old(self).added().len(),
        ensures
            final(self).added() == old(self).added().update(
                u as int,
                old(self).added()[u as int].push((v, l)),
            ),
    {
        self.0.push(u, (v, l));
    }

    /// Adds the edges `u -> v` and then `v -> u`, labelled with `l` and a clone of it.
    pub fn bi_edge(&mut self, u: usize, v: usize, l: T)
        where
            T: Clone,
        requires
            u < old(self).added().len(),
            v < old(self).added().len(),
        ensures
            exists|c: T|
                {
                    let a = old(self).added();
                    let a1 = a.update(u as int, a[u as int].push((v, c)));
                    &&& #[trigger] cloned(l, c)
                    &&& final(self).added() == a1.update(v as int, a1[v as int].push((u, l)))
                },
    {
        let l2 = l.clone();
        let ghost c = l2;
        self.edge(u, v, l2);
        self.edge(v, u, l);
        assert({
            let a = old(self).added();
            let a1 = a.update(u as int, a[u as int].push((v, c)));
            &&& cloned(l, c)
            &&& self.added() == a1.update(v as int, a1[v as int].push((u, l)))
        });
    }

    /// Adds each `(u, v, l)` of `es` in order as the edge `u -> v` labelled `l`.
    pub fn extend(&mut self, es: Vec<(usize, usize, T)>)
        requires
            forall|k: int| 0 <= k < es@.len() ==> (#[trigger] es@[k]).0 < old(self).added().len(),
        ensures
            final(self).added() == push_all(old(self).added(), es@.map_values(|e: (usize, usize, T)| (e.0, (e.1, e.2)))),
    {
        let mut items: Vec<(usize, (usize, T))> = Vec::new();
        let ghost orig = es@;
        let total = es.len();
        let mut es = reverse_vec(es);
        while es.len() > 0
            invariant
                es@.len() + items@.len() == total,
                orig.len() == total,
                forall|j: int| 0 <= j < es@.len() ==> #[trigger] es@[j] == orig[total - 1 - j],
                forall|j: int|
                    0 <= j < items@.len() ==> #[trigger] items@[j] == (orig[j].0, (orig[j].1, orig[j].2)),
            decreases es.len(),
        {
            let (u, v, l) = es.pop().unwrap();
            items.push((u, (v, l)));
        }
        assert(items@ =~= orig.map_values(|e: (usize, usize, T)| (e.0, (e.1, e.2))));
        self.0.extend(items);
    }

    /// Adds each `(u, v, l)` of `es` in order as the edges `u -> v` and `v -> u`,
    /// the first labelled with a clone of `l`, the second with `l`.
    pub fn extend_bi_edges(&mut self, es: Vec<(usize, usize, T)>)
        where
            T: Clone,
        requires
            forall|k: int|
                0 <= k < es@.len() ==> (#[trigger] es@[k]).0 < old(self).added().len() && es@[k].1
                    < old(self).added().len(),
        ensures
            exists|cs: Seq<T>|
                {
                    &&& cs.len() == es@.len()
                    &&& forall|k: int| 0 <= k < cs.len() ==> cloned(es@[k].2, #[trigger] cs[k])
                    &&& final(self).added() == #[trigger] push_bi_labeled(old(self).added(), es@, cs)
                },
    {
        let ghost orig = es@;
        let total = es.len();
        let mut es = reverse_vec(es);
        let ghost start = self.added();
        let ghost mut cs: Seq<T> = Seq::empty();
        let mut k: usize = 0;
        while es.len() > 0
            invariant
                k + es@.len() == orig.len(),
                orig.len() == total,
                cs.len() == k,
                forall|j: int| 0 <= j < k ==> cloned(orig[j].2, #[trigger] cs[j]),
                forall|j: int| 0 <= j < es@.len() ==> #[trigger] es@[j] == orig[orig.len() - 1 - j],
                forall|j: int|
                    0 <= j < orig.len() ==> (#[trigger] orig[j]).0 < start.len() && orig[j].1
                        < start.len(),
                self.added() == push_bi_labeled(start, orig.take(k as int), cs),
                self.added().len() == start.len(),
            decreases es.len(),
        {
            let (u, v, l) = es.pop().unwrap();
            let l2 = l.clone();
            proof {
                assert(orig.take(k as int + 1).drop_last() =~= orig.take(k as int));
                assert(orig.take(k as int + 1).last() == orig[k as int]);
                let cs2 = cs.push(l2);
                assert(cs2.drop_last() =~= cs);
                cs = cs2;
            }
            self.edge(u, v, l2);
            self.edge(v, u, l);
            k += 1;
        }
        assert(orig.take(k as int) =~= orig);
    }

    /// The graph with the edges added so far; the edges out of each vertex
    /// are listed from the last added to the first.
    pub fn build(self) -> (g: LabeledGraph<T>)
        ensures
            g.adj() == reverse_rows(self.added()),
    {
        let rows = reverse_each(self.0.into_rows());
        LabeledGraph(JaggedArray::from_rows(rows))
    }
}

} // verus!

verus! {

/// The heads of a row of labelled edges.
pub open spec fn heads_of<T>(row: Seq<(usize, T)>) -> Seq<usize> {
    row.map_values(|e: (usize, T)| e.0)
}

/// A directed graph without labels.
pub struct Graph(LabeledGraph<()>);

impl Graph {
    /// The same graph with every edge labelled `()`.
    pub closed spec fn labeled(&self) -> &LabeledGraph<()> {
        &self.0
    }

    /// `adj()[u]` lists the heads of the edges out of `u`.
    pub open spec fn adj(&self) -> Seq<Seq<usize>> {
        self.labeled().adj().map_values(|r: Seq<(usize, ())>| heads_of(r))
    }

    /// A builder for `n` vertices and no edges.
    pub fn builder(n: usize) -> (b: GraphBuilder)
        ensures
            b.added() == Seq::new(n as nat, |i: int| Seq::<usize>::empty()),
    {
        let b = GraphBuilder(LabeledGraph::builder(n));
        assert forall|i: int| 0 <= i < n implies #[trigger] b.added()[i] =~= Seq::<usize>::empty() by {
            assert(b.0.added()[i].len() == 0);
        }
        assert(b.added() =~= Seq::new(n as nat, |i: int| Seq::<usize>::empty()));
        b
    }

    /// Number of vertices.
    pub fn len(&self) -> (n: usize)
        ensures
            n == self.adj().len(),
    {
        self.0.len()
    }

    /// The heads of the edges out of `u`.
    pub fn get(&self, u: usize) -> (r: Vec<usize>)
        requires
            u < self.adj().len(),
        ensures
            r@ == self.adj()[u as int],
    {
        let row = self.0.get(u);
        let mut r: Vec<usize> = Vec::new();
        let mut i: usize = 0;
        while i < row.len()
            invariant
                i <= row@.len(),
                r@ == heads_of(row@.take(i as int)),
            decreases row@.len() - i,
        {
            r.push(row[i].0);
            i += 1;
            assert(heads_of(row@.take(i as int)) =~= heads_of(row@.take(i - 1)).push(row@[i - 1].0));
        }
        assert(row@.take(i as int) =~= row@);
        r
    }

    /// A cursor over all edges `(tail, head)`, by tail, then as listed.
    pub fn edges(&self) -> (it: Edges<'_>)
        ensures
            it.labeled_edges().graph() == self.labeled(),
            it.labeled_edges().pos() == 0,
            it.labeled_edges().wf(),
    {
        Edges(self.0.edges())
    }
}

/// A cursor over the edges of a [`Graph`].
pub struct Edges<'a>(LabeledEdges<'a, ()>);

impl<'a> Edges<'a> {
    /// The same cursor over the edges labelled `()`.
    pub closed spec fn labeled_edges(&self) -> LabeledEdges<'a, ()> {
        self.0
    }

    /// The next edge as `(tail, head)`, or `None` after the last one.
    pub fn next(&mut self) -> (r: Option<(usize, usize)>)
        requires
            old(self).labeled_edges().wf(),
        ensures
            final(self).labeled_edges().wf(),
            final(self).labeled_edges().graph() == old(self).labeled_edges().graph(),
            ({
                let g = old(self).labeled_edges().graph();
                let p = old(self).labeled_edges().pos() as int;
                if p < g.flat().len() {
                    &&& r matches Some((u, v)) && {
                        &&& u < g.adj().len()
                        &&& g.start(u as int) <= p < g.start(u + 1)
                        &&& v == g.flat()[p].0
                    }
                    &&& final(self).labeled_edges().pos() == p + 1
                } else {
                    r is None && final(self).labeled_edges().pos() == p
                }
            }),
    {
        match self.0.next() {
            Some((u, v, _)) => Some((u, v)),
            None => None,
        }
    }

    /// The total number of edges of the graph, as a lower and an upper bound.
    pub fn size_hint(&self) -> (r: (usize, Option<usize>))
        ensures
            r.0 == self.labeled_edges().graph().flat().len(),
            r.1 == Some(r.0),
    {
        self.0.size_hint()
    }
}

/// Collects the edges of a [`Graph`].
pub struct GraphBuilder(LabeledGraphBuilder<()>);

impl GraphBuilder {
    /// The heads of the edges added so far out of each vertex, in insertion order.
    pub closed spec fn added(&self) -> Seq<Seq<usize>> {
        self.0.added().map_values(|r: Seq<(usize, ())>| heads_of(r))
    }

    /// A builder holding the same edges.
    pub fn copy(&self) -> (b: Self)
        ensures
            b.added() == self.added(),
    {
        GraphBuilder(self.0.copy())
    }

    /// Adds the edge `u -> v`.
    pub fn edge(&mut self, u: usize, v: usize)
        requires
            u < old(self).added().len(),
        ensures
            final(self).added() == old(self).added().update(u as int, old(self).added()[u as int].push(v)),
    {
        self.0.edge(u, v, ());
        assert(self.added() =~= old(self).added().update(u as int, old(self).added()[u as int].push(v))) by {
            assert(heads_of(old(self).0.added()[u as int].push((v, ()))) =~= old(self).added()[u as int].push(v));
        }
    }

    /// Adds the edges `u -> v` and then `v -> u`.
    pub fn bi_edge(&mut self, u: usize, v: usize)
        requires
            u < old(self).added().len(),
            v < old(self).added().len(),
        ensures
            ({
                let a1 = old(self).added().update(u as int, old(self).added()[u as int].push(v));
                final(self).added() == a1.update(v as int, a1[v as int].push(u))
            }),
    {
        self.edge(u, v);
        self.edge(v, u);
    }

    /// Adds each `(u, v)` of `es` in order as the edge `u -> v`.
    pub fn extend(&mut self, es: Vec<(usize, usize)>)
        requires
            forall|k: int| 0 <= k < es@.len() ==> (#[trigger] es@[k]).0 < old(self).added().len(),
        ensures
            final(self).added() == push_all(old(self).added(), es@),
    {
        let ghost orig = es@;
        let total = es.len();
        let mut es = reverse_vec(es);
        let ghost start = self.added();
        let mut k: usize = 0;
        while es.len() > 0
            invariant
                k + es@.len() == orig.len(),
                orig.len() == total,
                forall|j: int| 0 <= j < es@.len() ==> #[trigger] es@[j] == orig[orig.len() - 1 - j],
                forall|j: int| 0 <= j < orig.len() ==> (#[trigger] orig[j]).0 < start.len(),
                self.added() == push_all(start, orig.take(k as int)),
                self.added().len() == start.len(),
            decreases es.len(),
        {
            let (u, v) = es.pop().unwrap();
            proof {
                assert(orig.take(k as int + 1).drop_last() =~= orig.take(k as int));
                assert(orig.take(k as int + 1).last() == orig[k as int]);
            }
            self.edge(u, v);
            k += 1;
        }
        assert(orig.take(k as int) =~= orig);
    }

    /// Adds each `(u, v)` of `es` in order as the edges `u -> v` and `v -> u`.
    pub fn extend_bi_edges(&mut self, es: Vec<(usize, usize)>)
        requires
            forall|k: int|
                0 <= k < es@.len() ==> (#[trigger] es@[k]).0 < old(self).added().len() && es@[k].1
                    < old(self).added().len(),
        ensures
            final(self).added() == push_bi_all(old(self).added(), es@),
    {
        let ghost orig = es@;
        let total = es.len();
        let mut es = reverse_vec(es);
        let ghost start = self.added();
        let mut k: usize = 0;
        while es.len() > 0
            invariant
                k + es@.len() == orig.len(),
                orig.len() == total,
                forall|j: int| 0 <= j < es@.len() ==> #[trigger] es@[j] == orig[orig.len() - 1 - j],
                forall|j: int|
                    0 <= j < orig.len() ==> (#[trigger] orig[j]).0 < start.len() && orig[j].1
                        < start.len(),
                self.added() == push_bi_all(start, orig.take(k as int)),
                self.added().len() == start.len(),
            decreases es.len(),
        {
            let (u, v) = es.pop().unwrap();
            proof {
                assert(orig.take(k as int + 1).drop_last() =~= orig.take(k as int));
                assert(orig.take(k as int + 1).last() == orig[k as int]);
            }
            self.bi_edge(u, v);
            k += 1;
        }
        assert(orig.take(k as int) =~= orig);
    }

    /// The graph with the edges added so far; the edges out of each vertex
    /// are listed from the last added to the first.
    pub fn build(self) -> (g: Graph)
        ensures
            g.adj() == reverse_rows(self.added()),
    {
        let g = Graph(self.0.build());
        proof {
            let a = g.0.adj();
            let b = self.0.added();
            assert(a == reverse_rows(b));
            assert forall|i: int| 0 <= i < b.len() implies heads_of(#[trigger] a[i]) =~= heads_of(b[i]).reverse() by {
                assert(a[i] == b[i].reverse());
            }
            assert(g.adj() =~= reverse_rows(self.added()));
        }
        g
    }
}

} // verus!
pub mod djikstra;
pub mod tsort;
pub mod min_cost_flow;
pub mod max_flow;
pub mod scc;
pub mod low_link;
pub mod hld;
