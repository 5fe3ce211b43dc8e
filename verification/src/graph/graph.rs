use vstd::prelude::*;
use super::reverse_rows;

verus! {

/// A directed graph without labels whose builder can be built more than once.
pub struct Graph(super::Graph);

impl Graph {
    /// `adj()[u]` lists the heads of the edges out of `u`.
    pub closed spec fn adj(&self) -> Seq<Seq<usize>> {
        self.0.adj()
    }

    /// The same graph with every edge labelled `()`.
    pub closed spec fn labeled(&self) -> &super::LabeledGraph<()> {
        self.0.labeled()
    }

    /// A builder for `n` vertices and no edges.
    pub fn builder(n: usize) -> (b: GraphBuilder)
        ensures
            b.added() == Seq::new(n as nat, |i: int| Seq::<usize>::empty()),
    {
        GraphBuilder(super::Graph::builder(n))
    }

    /// Number of vertices.
    pub fn len(&self) -> (n: usize)
        ensures
            n == self.adj().len(),
    {
        self.0.len()
    }

    /// The heads of the edges out of `u`.
    pub fn get(&self, u: usize) -> (r: Vec<usize>)
        requires
            u < self.adj().len(),
        ensures
            r@ == self.adj()[u as int],
    {
        self.0.get(u)
    }

    /// A cursor over all edges `(tail, head)`, by tail, then as listed.
    pub fn edges(&self) -> (it: super::Edges<'_>)
        ensures
            it.labeled_edges().graph() == self.labeled(),
            it.labeled_edges().pos() == 0,
            it.labeled_edges().wf(),
    {
        self.0.edges()
    }
}

/// Collects the edges of a [`Graph`].
pub struct GraphBuilder(super::GraphBuilder);

impl GraphBuilder {
    /// The heads of the edges added so far out of each vertex, in insertion order.
    pub closed spec fn added(&self) -> Seq<Seq<usize>> {
        self.0.added()
    }

    /// Adds the edge `u -> v`.
    pub fn edge(&mut self, u: usize, v: usize)
        requires
            u < old(self).added().len(),
        ensures
            final(self).added() == old(self).added().update(u as int, old(self).added()[u as int].push(v)),
    {
        self.0.edge(u, v);
    }

    /// Adds the edges `u -> v` and then `v -> u`.
    pub fn bi_edge(&mut self, u: usize, v: usize)
        requires
            u < old(self).added().len(),
            v < old(self).added().len(),
        ensures
            ({
                let a1 = old(self).added().update(u as int, old(self).added()[u as int].push(v));
                final(self).added() == a1.update(v as int, a1[v as int].push(u))
            }),
    {
        self.0.bi_edge(u, v);
    }

    /// The graph with the edges added so far, each vertex listing its edges from the
    /// last added to the first; the builder stays as it was.
    pub fn build(&mut self) -> (g: Graph)
        ensures
            *final(self) == *old(self),
            g.adj() == reverse_rows(old(self).added()),
    {
        Graph(self.0.copy().build())
    }
}

/// A directed graph whose edges carry labels, with a builder that can be built more
/// than once.
pub struct LabeledGraph<T>(super::LabeledGraph<T>);

impl<T: Copy> LabeledGraph<T> {
    /// `adj()[u]` lists the pairs `(v, label)` of the edges out of `u`.
    pub closed spec fn adj(&self) -> Seq<Seq<(usize, T)>> {
        self.0.adj()
    }

    /// The same graph as one of [`super::LabeledGraph`].
    pub closed spec fn inner(&self) -> &super::LabeledGraph<T> {
        &self.0
    }

    /// A builder for `n` vertices and no edges.
    pub fn builder(n: usize) -> (b: LabeledGraphBuilder<T>)
        ensures
            b.added() == Seq::new(n as nat, |i: int| Seq::<(usize, T)>::empty()),
    {
        LabeledGraphBuilder(super::LabeledGraph::builder(n))
    }

    /// Number of vertices.
    pub fn len(&self) -> (n: usize)
        ensures
            n == self.adj().len(),
    {
        self.0.len()
    }

    /// The edges out of `u`, as `(head, label)` pairs.
    pub fn get(&self, u: usize) -> (r: &[(usize, T)])
        requires
            u < self.adj().len(),
        ensures
            r@ == self.adj()[u as int],
    {
        self.0.get(u)
    }

    /// A cursor over all edges `(tail, head, &label)`, by tail, then as listed.
    pub fn edges(&self) -> (it: super::LabeledEdges<'_, T>)
        ensures
            it.graph() == self.inner(),
            it.pos() == 0,
            it.wf(),
    {
        self.0.edges()
    }
}

/// Collects the edges of a [`LabeledGraph`].
pub struct LabeledGraphBuilder<T>(super::LabeledGraphBuilder<T>);

impl<T: Copy> LabeledGraphBuilder<T> {
    /// The edges added so far out of each vertex, in insertion order.
    pub closed spec fn added(&self) -> Seq<Seq<(usize, T)>> {
        self.0.added()
    }

    /// Adds the edge `u -> v` labelled `l`.
    pub fn edge(&mut self, u: usize, v: usize, l: T)
        requires
            u < old(self).added().len(),
        ensures
            final(self).added() == old(self).added().update(u as int, old(self).added()[u as int].push((v, l))),
    {
        self.0.edge(u, v, l);
    }

    /// Adds the edges `u -> v` and then `v -> u`, both labelled `l`.
    pub fn bi_edge(&mut self, u: usize, v: usize, l: T)
        requires
            u < old(self).added().len(),
            v < old(self).added().len(),
        ensures
            ({
                let a = old(self).added();
                let a1 = a.update(u as int, a[u as int].push((v, l)));
                final(self).added() == a1.update(v as int, a1[v as int].push((u, l)))
            }),
    {
        self.0.edge(u, v, l);
        self.0.edge(v, u, l);
    }

    /// The graph with the edges added so far, each vertex listing its edges from the
    /// last added to the first; the builder stays as it was.
    pub fn build(&mut self) -> (g: LabeledGraph<T>)
        ensures
            *final(self) == *old(self),
            g.adj() == reverse_rows(old(self).added()),
    {
        LabeledGraph(self.0.copy().build())
    }
}

} // verus!
