use vstd::prelude::*;

pub mod graph_ext;
pub mod tree;
use crate::graph::wip::{JaggedArray, Builder, Iter, push_all};

verus! {

/// Labelled adjacency lists, stored row after row.
pub struct AdjList<T>(JaggedArray<(usize, T)>);

/// Collects labelled edges for an [`AdjList`].
pub struct AdjListBuilder<T>(Builder<(usize, T)>);

/// The heads of a row.
pub open spec fn heads<T>(row: Seq<(usize, T)>) -> Seq<usize> {
    row.map_values(|e: (usize, T)| e.0)
}

/// The rows without their labels.
pub open spec fn unlabeled<T>(rows: Seq<Seq<(usize, T)>>) -> Seq<Seq<usize>> {
    rows.map_values(|r: Seq<(usize, T)>| heads(r))
}

/// A graph given by its labelled rows.
pub trait Graph<T> {
    spec fn rows(&self) -> Seq<Seq<(usize, T)>>;

    /// The edges out of `u`.
    fn adj(&self, u: usize) -> (r: &[(usize, T)])
        requires
            u < self.rows().len(),
        ensures
            r@ == self.rows()[u as int],
    ;

    /// The number of vertices.
    fn len(&self) -> (n: usize)
        ensures
            n == self.rows().len(),
    ;
}

impl<T> Graph<T> for AdjList<T> {
    open spec fn rows(&self) -> Seq<Seq<(usize, T)>> {
        self.table()
    }

    fn adj(&self, u: usize) -> (r: &[(usize, T)]) {
        self.0.row(u)
    }

    fn len(&self) -> (n: usize) {
        self.0.len()
    }
}

impl<T> AdjList<T> {
    /// The rows of edges.
    pub closed spec fn table(&self) -> Seq<Seq<(usize, T)>> {
        self.0.rows()
    }

    /// A builder for `n` vertices and no edges.
    pub fn builder(n: usize) -> (b: AdjListBuilder<T>)
        ensures
            b.rows() == Seq::new(n as nat, |i: int| Seq::<(usize, T)>::empty()),
    {
        AdjListBuilder(Builder::new(n))
    }

    /// The number of edges.
    pub fn edge_count(&self) -> (m: usize)
        ensures
            m == crate::graph::wip::total_len(self.rows()),
    {
        self.0.total()
    }

    /// A cursor over the rows, from vertex 0.
    pub fn iter(&self) -> (it: Iter<'_, (usize, T)>)
        ensures
            it.array().rows() == self.rows(),
            it.pos() == 0,
    {
        self.0.iter()
    }

    /// The graph with the edges `(u, v, label)`, each row in the order given.
    pub fn from_labeled_edges(n: usize, es: Vec<(usize, usize, T)>) -> (g: Self)
        requires
            forall|k: int| 0 <= k < es@.len() ==> (#[trigger] es@[k]).0 < n,
        ensures
            g.rows() == push_all(
                Seq::new(n as nat, |i: int| Seq::<(usize, T)>::empty()),
                es@.map_values(|e: (usize, usize, T)| (e.0, (e.1, e.2))),
            ),
    {
        let mut b = Self::builder(n);
        b.extend_labeled(es);
        b.build()
    }

    /// The graph with the edges `u -> v` and `v -> u` for each `(u, v, label)`.
    pub fn from_labeled_bi_edges(n: usize, es: Vec<(usize, usize, T)>) -> (g: Self)
        where
            T: Copy,
        requires
            forall|k: int| 0 <= k < es@.len() ==> (#[trigger] es@[k]).0 < n && es@[k].1 < n,
        ensures
            g.rows() == push_all(
                Seq::new(n as nat, |i: int| Seq::<(usize, T)>::empty()),
                bi_items(es@),
            ),
    {
        let mut b = Self::builder(n);
        b.extend_labeled_bi_edges(es);
        b.build()
    }
}

/// Each edge `(u, v, x)` as the row entries `(u, (v, x))` and `(v, (u, x))`.
pub open spec fn bi_items<T>(es: Seq<(usize, usize, T)>) -> Seq<(usize, (usize, T))>
    decreases es.len(),
{
    if es.len() == 0 {
        Seq::empty()
    } else {
        let e = es.last();
        bi_items(es.drop_last()).push((e.0, (e.1, e.2))).push((e.1, (e.0, e.2)))
    }
}

impl AdjList<()> {
    /// The graph with the edges `(u, v)`.
    pub fn from_edges(n: usize, es: Vec<(usize, usize)>) -> (g: Self)
        requires
            forall|k: int| 0 <= k < es@.len() ==> (#[trigger] es@[k]).0 < n,
        ensures
            g.rows() == push_all(
                Seq::new(n as nat, |i: int| Seq::<(usize, ())>::empty()),
                es@.map_values(|e: (usize, usize)| (e.0, (e.1, ()))),
            ),
    {
        let mut b = Self::builder(n);
        b.extend(es);
        b.build()
    }

    /// The graph with the edges `u -> v` and `v -> u` for each `(u, v)`.
    pub fn from_bi_edges(n: usize, es: Vec<(usize, usize)>) -> (g: Self)
        requires
            forall|k: int| 0 <= k < es@.len() ==> (#[trigger] es@[k]).0 < n && es@[k].1 < n,
        ensures
            g.rows() == push_all(
                Seq::new(n as nat, |i: int| Seq::<(usize, ())>::empty()),
                bi_items(es@.map_values(|e: (usize, usize)| (e.0, e.1, ()))),
            ),
    {
        let mut b = Self::builder(n);
        b.extend_bi_edges(es);
        b.build()
    }
}

impl<T> AdjListBuilder<T> {
    /// The edges added so far out of each vertex, in insertion order.
    pub closed spec fn rows(&self) -> Seq<Seq<(usize, T)>> {
        self.0.rows()
    }

    /// The graph, each row in insertion order.
    pub fn build(self) -> (g: AdjList<T>)
        ensures
            g.rows() == self.rows(),
    {
        AdjList(self.0.build())
    }

    /// Adds the edge `u -> v` labelled `x`.
    pub fn labeled_edge(&mut self, u: usize, v: usize, x: T)
        requires
            u < old(self).rows().len(),
        ensures
            final(self).rows() == old(self).rows().update(u as int, old(self).rows()[u as int].push((v, x))),
    {
        self.0.push(u, (v, x));
    }

    /// Adds the edges `u -> v` and `v -> u`, both labelled `x`.
    pub fn labeled_bi_edge(&mut self, u: usize, v: usize, x: T)
        where
            T: Copy,
        requires
            u < old(self).rows().len(),
            v < old(self).rows().len(),
        ensures
            final(self).rows() == push_all(old(self).rows(), seq![(u, (v, x)), (v, (u, x))]),
    {
        let ghost r0 = self.rows();
        self.labeled_edge(u, v, x);
        self.labeled_edge(v, u, x);
        proof {
            let items = seq![(u, (v, x)), (v, (u, x))];
            assert(items.drop_last() =~= seq![(u, (v, x))]);
            assert(seq![(u, (v, x))].drop_last() =~= Seq::<(usize, (usize, T))>::empty());
            assert(push_all(r0, Seq::<(usize, (usize, T))>::empty()) == r0);
            assert(push_all(r0, seq![(u, (v, x))]) == r0.update(u as int, r0[u as int].push((v, x))));
        }
    }

    /// Adds each edge `(u, v, x)` in order.
    pub fn extend_labeled(&mut self, es: Vec<(usize, usize, T)>)
        requires
            forall|k: int| 0 <= k < es@.len() ==> (#[trigger] es@[k]).0 < old(self).rows().len(),
        ensures
            final(self).rows() == push_all(old(self).rows(), es@.map_values(|e: (usize, usize, T)| (e.0, (e.1, e.2)))),
    {
        let ghost orig = es@;
        let mut items: Vec<(usize, (usize, T))> = Vec::new();
        let mut es = es;
        let mut rev: Vec<(usize, (usize, T))> = Vec::new();
        while es.len() > 0
            invariant
                forall|k: int| 0 <= k < orig.len() ==> (#[trigger] orig[k]).0 < old(self).rows().len(),
                es@ == orig.take(es@.len() as int),
                es@.len() <= orig.len(),
                rev@.len() + es@.len() == orig.len(),
                forall|j: int| 0 <= j < rev@.len() ==> #[trigger] rev@[j] == (orig[orig.len() - 1 - j].0, (orig[orig.len() - 1 - j].1, orig[orig.len() - 1 - j].2)),
            decreases es@.len(),
        {
            let (u, v, x) = es.pop().unwrap();
            rev.push((u, (v, x)));
            assert(es@ =~= orig.take(es@.len() as int));
        }
        while rev.len() > 0
            invariant
                forall|k: int| 0 <= k < orig.len() ==> (#[trigger] orig[k]).0 < old(self).rows().len(),
                items@.len() + rev@.len() == orig.len(),
                forall|j: int| 0 <= j < rev@.len() ==> #[trigger] rev@[j] == (orig[orig.len() - 1 - j].0, (orig[orig.len() - 1 - j].1, orig[orig.len() - 1 - j].2)),
                items@ == orig.take(items@.len() as int).map_values(|e: (usize, usize, T)| (e.0, (e.1, e.2))),
            decreases rev@.len(),
        {
            let it = rev.pop().unwrap();
            let ghost k = items@.len() as int;
            items.push(it);
            assert(items@ =~= orig.take(k + 1).map_values(|e: (usize, usize, T)| (e.0, (e.1, e.2))));
        }
        assert(orig.take(orig.len() as int) =~= orig);
        self.0.extend(items);
    }

    /// Adds `u -> v` and `v -> u` for each `(u, v, x)` in order.
    pub fn extend_labeled_bi_edges(&mut self, es: Vec<(usize, usize, T)>)
        where
            T: Copy,
        requires
            forall|k: int| 0 <= k < es@.len() ==> (#[trigger] es@[k]).0 < old(self).rows().len() && es@[k].1 < old(self).rows().len(),
        ensures
            final(self).rows() == push_all(old(self).rows(), bi_items(es@)),
    {
        let ghost orig = es@;
        let ghost start = self.rows();
        let mut k: usize = 0;
        while k < es.len()
            invariant
                forall|j: int| 0 <= j < orig.len() ==> (#[trigger] orig[j]).0 < start.len() && orig[j].1 < start.len(),
                es@ == orig,
                k <= orig.len(),
                self.rows() == push_all(start, bi_items(orig.take(k as int))),
                self.rows().len() == start.len(),
            decreases orig.len() - k,
        {
            let (u, v, x) = es[k];
            let ghost before = self.rows();
            self.labeled_bi_edge(u, v, x);
            proof {
                assert(orig.take(k as int + 1).drop_last() =~= orig.take(k as int));
                lemma_push_all_append(start, bi_items(orig.take(k as int)), seq![(u, (v, x)), (v, (u, x))]);
                assert(bi_items(orig.take(k as int + 1)) =~= bi_items(orig.take(k as int)) + seq![(u, (v, x)), (v, (u, x))]);
                lemma_bi_items_bounds(orig.take(k as int + 1), start.len());
                crate::graph::wip::lemma_push_all_len(start, bi_items(orig.take(k as int + 1)));
            }
            k += 1;
        }
        assert(orig.take(k as int) =~= orig);
    }
}

impl AdjListBuilder<()> {
    /// Adds the edge `u -> v`.
    pub fn edge(&mut self, u: usize, v: usize)
        requires
            u < old(self).rows().len(),
        ensures
            final(self).rows() == old(self).rows().update(u as int, old(self).rows()[u as int].push((v, ()))),
    {
        self.labeled_edge(u, v, ());
    }

    /// Adds the edges `u -> v` and `v -> u`.
    pub fn bi_edge(&mut self, u: usize, v: usize)
        requires
            u < old(self).rows().len(),
            v < old(self).rows().len(),
        ensures
            final(self).rows() == push_all(old(self).rows(), seq![(u, (v, ())), (v, (u, ()))]),
    {
        self.labeled_bi_edge(u, v, ());
    }

    /// Adds each edge `(u, v)` in order.
    pub fn extend(&mut self, es: Vec<(usize, usize)>)
        requires
            forall|k: int| 0 <= k < es@.len() ==> (#[trigger] es@[k]).0 < old(self).rows().len(),
        ensures
            final(self).rows() == push_all(old(self).rows(), es@.map_values(|e: (usize, usize)| (e.0, (e.1, ())))),
    {
        let mut labeled: Vec<(usize, usize, ())> = Vec::new();
        let mut k: usize = 0;
        while k < es.len()
            invariant
                k <= es@.len(),
                labeled@ == es@.take(k as int).map_values(|e: (usize, usize)| (e.0, e.1, ())),
            decreases es@.len() - k,
        {
            let (u, v) = es[k];
            labeled.push((u, v, ()));
            k += 1;
            assert(labeled@ =~= es@.take(k as int).map_values(|e: (usize, usize)| (e.0, e.1, ())));
        }
        assert(es@.take(k as int) =~= es@);
        self.extend_labeled(labeled);
        assert(labeled@.map_values(|e: (usize, usize, ())| (e.0, (e.1, e.2))) =~= es@.map_values(|e: (usize, usize)| (e.0, (e.1, ()))));
    }

    /// Adds `u -> v` and `v -> u` for each `(u, v)` in order.
    pub fn extend_bi_edges(&mut self, es: Vec<(usize, usize)>)
        requires
            forall|k: int| 0 <= k < es@.len() ==> (#[trigger] es@[k]).0 < old(self).rows().len() && es@[k].1 < old(self).rows().len(),
        ensures
            final(self).rows() == push_all(old(self).rows(), bi_items(es@.map_values(|e: (usize, usize)| (e.0, e.1, ())))),
    {
        let mut labeled: Vec<(usize, usize, ())> = Vec::new();
        let mut k: usize = 0;
        while k < es.len()
            invariant
                k <= es@.len(),
                labeled@ == es@.take(k as int).map_values(|e: (usize, usize)| (e.0, e.1, ())),
            decreases es@.len() - k,
        {
            let (u, v) = es[k];
            labeled.push((u, v, ()));
            k += 1;
            assert(labeled@ =~= es@.take(k as int).map_values(|e: (usize, usize)| (e.0, e.1, ())));
        }
        assert(es@.take(k as int) =~= es@);
        self.extend_labeled_bi_edges(labeled);
    }
}

proof fn lemma_bi_items_bounds<T>(es: Seq<(usize, usize, T)>, n: nat)
    requires
        forall|k: int| 0 <= k < es.len() ==> (#[trigger] es[k]).0 < n && es[k].1 < n,
    ensures
        forall|k: int| 0 <= k < bi_items(es).len() ==> (#[trigger] bi_items(es)[k]).0 < n,
        bi_items(es).len() == 2 * es.len(),
    decreases es.len(),
{
    if es.len() > 0 {
        lemma_bi_items_bounds(es.drop_last(), n);
        let e = es.last();
        let b0 = bi_items(es.drop_last());
        assert forall|k: int| 0 <= k < bi_items(es).len() implies (#[trigger] bi_items(es)[k]).0 < n by {
            if k < b0.len() {
                assert(bi_items(es)[k] == b0[k]);
            }
        }
    }
}

/// Pushing two lists of items one after the other is pushing their concatenation.
proof fn lemma_push_all_append<T>(rows: Seq<Seq<T>>, a: Seq<(usize, T)>, b: Seq<(usize, T)>)
    ensures
        push_all(push_all(rows, a), b) == push_all(rows, a + b),
    decreases b.len(),
{
    if b.len() > 0 {
        lemma_push_all_append(rows, a, b.drop_last());
        assert((a + b).drop_last() =~= a + b.drop_last());
        assert((a + b).last() == b.last());
    } else {
        assert(a + b =~= a);
    }
}

} // verus!
