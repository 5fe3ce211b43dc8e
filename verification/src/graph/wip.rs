use vstd::prelude::*;
use crate::vec_util::reverse_vec;

verus! {

/// The rows of `rows`, each taken by its view.
pub open spec fn rows_view<T>(rows: Seq<Vec<T>>) -> Seq<Seq<T>> {
    rows.map_values(|r: Vec<T>| r@)
}

/// Total number of elements over all rows.
pub open spec fn total_len<T>(rows: Seq<Seq<T>>) -> nat
    decreases rows.len(),
{
    if rows.len() == 0 {
        0
    } else {
        total_len(rows.drop_last()) + rows.last().len()
    }
}

/// Concatenates `rows` into one buffer; `heads[i]..heads[i + 1]` is the range of row `i`.
pub(crate) fn flatten_rows<T>(rows: Vec<Vec<T>>) -> (res: (Vec<usize>, Vec<T>))
    ensures
        res.0@.len() == rows@.len() + 1,
        res.0@[0] == 0,
        res.0@[rows@.len() as int] == res.1@.len(),
        forall|i: int, j: int| 0 <= i <= j <= rows@.len() ==> res.0@[i] <= res.0@[j],
        forall|i: int|
            0 <= i < rows@.len() ==> #[trigger] res.1@.subrange(res.0@[i] as int, res.0@[i + 1] as int)
                == rows@[i]@,
{
    let n = rows.len();
    let ghost orig = rows@;
    let mut rrows = reverse_vec(rows);
    let mut heads: Vec<usize> = Vec::new();
    let mut buf: Vec<T> = Vec::new();
    let mut i: usize = 0;
    while i < n
        invariant
            i <= n,
            n == orig.len(),
            rrows@.len() == n - i,
            forall|k: int| 0 <= k < rrows@.len() ==> #[trigger] rrows@[k] == orig[n - 1 - k],
            heads@.len() == i,
            forall|a: int, b: int| 0 <= a <= b < i ==> heads@[a] <= heads@[b],
            forall|a: int| 0 <= a < i ==> heads@[a] <= buf@.len(),
            i > 0 ==> heads@[0] == 0,
            i == 0 ==> buf@.len() == 0,
            forall|k: int|
                0 <= k < i ==> buf@.subrange(
                    heads@[k] as int,
                    if k + 1 < i { heads@[k + 1] as int } else { buf@.len() as int },
                ) == (#[trigger] orig[k])@,
        decreases n - i,
    {
        let mut row = rrows.pop().unwrap();
        let ghost old_buf = buf@;
        heads.push(buf.len());
        buf.append(&mut row);
        proof {
            assert forall|k: int| 0 <= k < i + 1 implies buf@.subrange(
                heads@[k] as int,
                if k + 1 < i + 1 { heads@[k + 1] as int } else { buf@.len() as int },
            ) == (#[trigger] orig[k])@ by {
                if k < i {
                    let e = if k + 1 < i { heads@[k + 1] as int } else { old_buf.len() as int };
                    assert(old_buf.subrange(heads@[k] as int, e) == orig[k]@);
                    assert(buf@.subrange(heads@[k] as int, e) =~= old_buf.subrange(heads@[k] as int, e));
                } else {
                    assert(buf@.subrange(heads@[k] as int, buf@.len() as int) =~= orig[k]@);
                }
            }
        }
        i += 1;
    }
    heads.push(buf.len());
    (heads, buf)
}

/// Rows of elements stored contiguously.
pub struct JaggedArray<T> {
    heads: Vec<usize>,
    buf: Vec<T>,
}

impl<T> JaggedArray<T> {
    #[verifier::type_invariant]
    spec fn inv(&self) -> bool {
        &&& self.heads@.len() >= 1
        &&& self.heads@[0] == 0
        &&& self.heads@[self.heads@.len() - 1] == self.buf@.len()
        &&& forall|i: int, j: int|
            0 <= i <= j < self.heads@.len() ==> self.heads@[i] <= self.heads@[j]
    }

    /// The rows.
    pub closed spec fn rows(&self) -> Seq<Seq<T>> {
        Seq::new(
            (self.heads@.len() - 1) as nat,
            |i: int| self.buf@.subrange(self.heads@[i] as int, self.heads@[i + 1] as int),
        )
    }

    pub(crate) fn from_rows(rows: Vec<Vec<T>>) -> (a: Self)
        ensures
            a.rows() == rows_view(rows@),
    {
        let (heads, buf) = flatten_rows(rows);
        let a = JaggedArray { heads, buf };
        assert(a.rows() =~= rows_view(rows@));
        a
    }

    /// Start of row `i` in the concatenation of all rows.
    pub closed spec fn start(&self, i: int) -> int {
        self.heads@[i] as int
    }

    /// All rows, concatenated.
    pub closed spec fn flat(&self) -> Seq<T> {
        self.buf@
    }

    /// Makes the layout of the rows in [`JaggedArray::flat`] known to the caller.
    pub(crate) fn layout(&self)
        ensures
            self.start(0) == 0,
            self.start(self.rows().len() as int) == self.flat().len(),
            forall|i: int, j: int|
                0 <= i <= j <= self.rows().len() ==> self.start(i) <= self.start(j),
            forall|i: int, j: int|
                0 <= i < self.rows().len() && 0 <= j < self.rows()[i].len() ==> #[trigger] self.rows()[i][j]
                    == self.flat()[self.start(i) + j],
    {
        proof {
            use_type_invariant(self);
        }
    }

    pub(crate) fn start_exec(&self, i: usize) -> (s: usize)
        requires
            i <= self.rows().len(),
        ensures
            s == self.start(i as int),
    {
        proof {
            use_type_invariant(self);
        }
        self.heads[i]
    }

    /// The number of elements over all rows.
    pub fn total(&self) -> (s: usize)
        ensures
            s == total_len(self.rows()),
    {
        proof {
            use_type_invariant(self);
            self.lemma_total_prefix(self.rows().len() as int);
            assert(self.rows().take(self.rows().len() as int) =~= self.rows());
        }
        self.buf.len()
    }

    proof fn lemma_total_prefix(&self, k: int)
        requires
            self.inv(),
            0 <= k <= self.rows().len(),
        ensures
            total_len(self.rows().take(k)) == self.heads@[k],
        decreases k,
    {
        if k > 0 {
            self.lemma_total_prefix(k - 1);
            assert(self.rows().take(k).drop_last() =~= self.rows().take(k - 1));
            assert(self.heads@[k - 1] <= self.heads@[k]);
        }
    }

    pub(crate) fn flat_len(&self) -> (s: usize)
        ensures
            s == self.flat().len(),
    {
        self.buf.len()
    }

    pub(crate) fn flat_at(&self, i: usize) -> (x: &T)
        requires
            i < self.flat().len(),
        ensures
            *x == self.flat()[i as int],
    {
        &self.buf[i]
    }

    /// Number of rows.
    pub fn len(&self) -> (n: usize)
        ensures
            n == self.rows().len(),
    {
        proof {
            use_type_invariant(self);
        }
        self.heads.len() - 1
    }

    /// Whether the row index table is empty; it always holds at least one
    /// entry, so this is always `false`.
    pub fn is_empty(&self) -> (b: bool)
        ensures
            !b,
    {
        proof {
            use_type_invariant(self);
        }
        self.heads.len() == 0
    }

    /// Row `i`, or an empty slice when `i` is out of range.
    pub fn row(&self, i: usize) -> (r: &[T])
        ensures
            i < self.rows().len() ==> r@ == self.rows()[i as int],
            i >= self.rows().len() ==> r@.len() == 0,
    {
        proof {
            use_type_invariant(self);
        }
        if i < self.heads.len() - 1 {
            let l = self.heads[i];
            let r = self.heads[i + 1];
            &self.buf.as_slice()[l..r]
        } else {
            &[]
        }
    }

    /// A cursor over the rows, from the first.
    pub fn iter(&self) -> (it: Iter<'_, T>)
        ensures
            it.array() == self,
            it.pos() == 0,
    {
        Iter { a: self, i: 0 }
    }
}

/// A cursor over the rows of a [`JaggedArray`].
pub struct Iter<'a, T> {
    a: &'a JaggedArray<T>,
    i: usize,
}

impl<'a, T> Iter<'a, T> {
    pub closed spec fn array(&self) -> &'a JaggedArray<T> {
        self.a
    }

    pub closed spec fn pos(&self) -> nat {
        self.i as nat
    }

    /// The next row, or `None` once all rows were handed out.
    pub fn next(&mut self) -> (r: Option<&'a [T]>)
        ensures
            final(self).array() == old(self).array(),
            old(self).pos() < old(self).array().rows().len() ==> {
                &&& r is Some
                &&& r->Some_0@ == old(self).array().rows()[old(self).pos() as int]
                &&& final(self).pos() == old(self).pos() + 1
            },
            old(self).pos() >= old(self).array().rows().len() ==> r is None && final(self).pos()
                == old(self).pos(),
    {
        if self.i < self.a.len() {
            let res = self.a.row(self.i);
            self.i += 1;
            Some(res)
        } else {
            None
        }
    }

    /// The number of rows left, as a lower and an upper bound.
    pub fn size_hint(&self) -> (r: (usize, Option<usize>))
        requires
            self.pos() <= self.array().rows().len(),
        ensures
            r.0 == self.array().rows().len() - self.pos(),
            r.1 == Some(r.0),
    {
        let rest = self.a.len() - self.i;
        (rest, Some(rest))
    }
}

/// Collects elements row by row and builds a [`JaggedArray`].
pub struct Builder<T> {
    rows: Vec<Vec<T>>,
}

impl<T> Builder<T> {
    /// The rows collected so far, each in the order of insertion.
    pub closed spec fn rows(&self) -> Seq<Seq<T>> {
        rows_view(self.rows@)
    }

    /// A builder holding the same rows.
    pub fn copy(&self) -> (b: Self)
        where
            T: Copy,
        ensures
            b.rows() == self.rows(),
    {
        let mut rows: Vec<Vec<T>> = Vec::new();
        let mut i: usize = 0;
        while i < self.rows.len()
            invariant
                i <= self.rows@.len(),
                rows@.len() == i,
                forall|j: int| 0 <= j < i ==> (#[trigger] rows@[j])@ == self.rows@[j]@,
            decreases self.rows@.len() - i,
        {
            let src = &self.rows[i];
            let mut row: Vec<T> = Vec::new();
            let mut k: usize = 0;
            while k < src.len()
                invariant
                    k <= src@.len(),
                    row@ == src@.take(k as int),
                decreases src@.len() - k,
            {
                row.push(src[k]);
                k += 1;
                assert(row@ =~= src@.take(k as int));
            }
            assert(row@ =~= src@);
            rows.push(row);
            i += 1;
        }
        let b = Builder { rows };
        assert(b.rows() =~= self.rows());
        b
    }

    /// A builder with `n` empty rows.
    pub fn new(n: usize) -> (b: Self)
        ensures
            b.rows() == Seq::new(n as nat, |i: int| Seq::<T>::empty()),
    {
        Self::with_capacity(n, 0)
    }

    /// A builder with `n` empty rows; `cap` is a hint for the number of elements.
    pub fn with_capacity(n: usize, cap: usize) -> (b: Self)
        ensures
            b.rows() == Seq::new(n as nat, |i: int| Seq::<T>::empty()),
    {
        let mut rows: Vec<Vec<T>> = Vec::with_capacity(n);
        let mut i: usize = 0;
        while i < n
            invariant
                i <= n,
                rows@.len() == i,
                forall|j: int| 0 <= j < i ==> (#[trigger] rows@[j])@.len() == 0,
            decreases n - i,
        {
            rows.push(Vec::new());
            i += 1;
        }
        let b = Builder { rows };
        assert forall|j: int| 0 <= j < n implies b.rows()[j] =~= Seq::<T>::empty() by {
            assert(rows@[j]@.len() == 0);
        }
        assert(b.rows() =~= Seq::new(n as nat, |i: int| Seq::<T>::empty()));
        b
    }

    /// Appends `x` to row `i`.
    pub fn push(&mut self, i: usize, x: T)
        requires
            i < old(self).rows().len(),
        ensures
            final(self).rows() == old(self).rows().update(i as int, old(self).rows()[i as int].push(x)),
    {
        self.rows[i].push(x);
        assert(self.rows() =~= old(self).rows().update(i as int, old(self).rows()[i as int].push(x)));
    }

    /// Appends each `(i, x)` in order.
    pub fn extend(&mut self, items: Vec<(usize, T)>)
        requires
            forall|k: int| 0 <= k < items@.len() ==> (#[trigger] items@[k]).0 < old(self).rows().len(),
        ensures
            final(self).rows() == push_all(old(self).rows(), items@),
    {
        let ghost orig = items@;
        let total = items.len();
        let mut items = reverse_vec(items);
        let ghost start = self.rows();
        let mut k: usize = 0;
        while items.len() > 0
            invariant
                k + items@.len() == orig.len(),
                orig.len() == total,
                forall|j: int| 0 <= j < items@.len() ==> #[trigger] items@[j] == orig[orig.len() - 1 - j],
                forall|j: int| 0 <= j < orig.len() ==> (#[trigger] orig[j]).0 < start.len(),
                self.rows() == push_all(start, orig.take(k as int)),
                self.rows().len() == start.len(),
            decreases items.len(),
        {
            let (i, x) = items.pop().unwrap();
            proof {
                lemma_push_all_len(start, orig.take(k as int));
                assert(orig.take(k as int + 1).drop_last() =~= orig.take(k as int));
                assert(orig.take(k as int + 1).last() == orig[k as int]);
            }
            self.push(i, x);
            k += 1;
        }
        assert(orig.take(k as int) =~= orig);
    }

    pub(crate) fn into_rows(self) -> (rows: Vec<Vec<T>>)
        ensures
            rows_view(rows@) == self.rows(),
    {
        self.rows
    }

    /// The collected rows as a [`JaggedArray`], each row in insertion order.
    pub fn build(self) -> (a: JaggedArray<T>)
        ensures
            a.rows() == self.rows(),
    {
        JaggedArray::from_rows(self.rows)
    }
}

/// Rows after appending each `(i, x)` of `items`, in order, to row `i`.
pub open spec fn push_all<T>(rows: Seq<Seq<T>>, items: Seq<(usize, T)>) -> Seq<Seq<T>>
    decreases items.len(),
{
    if items.len() == 0 {
        rows
    } else {
        let r = push_all(rows, items.drop_last());
        let (i, x) = items.last();
        r.update(i as int, r[i as int].push(x))
    }
}

pub proof fn lemma_push_all_len<T>(rows: Seq<Seq<T>>, items: Seq<(usize, T)>)
    requires
        forall|k: int| 0 <= k < items.len() ==> (#[trigger] items[k]).0 < rows.len(),
    ensures
        push_all(rows, items).len() == rows.len(),
    decreases items.len(),
{
    if items.len() > 0 {
        lemma_push_all_len(rows, items.drop_last());
    }
}

} // verus!

verus! {

/// Rows after appending, for each `(u, v)` of `edges` in order, `v` to row `u`
/// and then `u` to row `v`.
pub open spec fn push_bi_all(rows: Seq<Seq<usize>>, edges: Seq<(usize, usize)>) -> Seq<Seq<usize>>
    decreases edges.len(),
{
    if edges.len() == 0 {
        rows
    } else {
        let r = push_bi_all(rows, edges.drop_last());
        let (u, v) = edges.last();
        let r1 = r.update(u as int, r[u as int].push(v));
        r1.update(v as int, r1[v as int].push(u))
    }
}

pub proof fn lemma_push_bi_all_len(rows: Seq<Seq<usize>>, edges: Seq<(usize, usize)>)
    requires
        forall|k: int|
            0 <= k < edges.len() ==> (#[trigger] edges[k]).0 < rows.len() && edges[k].1 < rows.len(),
    ensures
        push_bi_all(rows, edges).len() == rows.len(),
    decreases edges.len(),
{
    if edges.len() > 0 {
        lemma_push_bi_all_len(rows, edges.drop_last());
    }
}

/// Adjacency lists of a directed graph on the vertices `0..len()`.
pub struct AdjList(JaggedArray<usize>);

impl AdjList {
    /// `adj()[u]` lists the heads of the edges out of `u`, in insertion order.
    pub closed spec fn adj(&self) -> Seq<Seq<usize>> {
        self.0.rows()
    }

    /// Number of vertices.
    pub fn len(&self) -> (n: usize)
        ensures
            n == self.adj().len(),
    {
        self.0.len()
    }

    /// The neighbours of `u`, or an empty slice for a vertex out of range.
    pub fn neighbors(&self, u: usize) -> (r: &[usize])
        ensures
            u < self.adj().len() ==> r@ == self.adj()[u as int],
            u >= self.adj().len() ==> r@.len() == 0,
    {
        self.0.row(u)
    }

    /// A cursor over the adjacency lists, from vertex 0.
    pub fn iter(&self) -> (it: AdjListIter<'_>)
        ensures
            it.rows() == self.adj(),
            it.pos() == 0,
    {
        AdjListIter(self.0.iter())
    }
}

/// A cursor over the adjacency lists of an [`AdjList`].
pub struct AdjListIter<'a>(Iter<'a, usize>);

impl<'a> AdjListIter<'a> {
    pub closed spec fn rows(&self) -> Seq<Seq<usize>> {
        self.0.array().rows()
    }

    pub closed spec fn pos(&self) -> nat {
        self.0.pos()
    }

    /// The next adjacency list, or `None` after the last vertex.
    pub fn next(&mut self) -> (r: Option<&'a [usize]>)
        ensures
            final(self).rows() == old(self).rows(),
            old(self).pos() < old(self).rows().len() ==> {
                &&& r is Some
                &&& r->Some_0@ == old(self).rows()[old(self).pos() as int]
                &&& final(self).pos() == old(self).pos() + 1
            },
            old(self).pos() >= old(self).rows().len() ==> r is None && final(self).pos()
                == old(self).pos(),
    {
        self.0.next()
    }
}

/// Collects the edges of an [`AdjList`].
pub struct AdjListBuilder(Builder<usize>);

impl AdjListBuilder {
    pub closed spec fn adj(&self) -> Seq<Seq<usize>> {
        self.0.rows()
    }

    /// A builder for `n` vertices and no edges.
    pub fn new(n: usize) -> (b: Self)
        ensures
            b.adj() == Seq::new(n as nat, |i: int| Seq::<usize>::empty()),
    {
        Self(Builder::new(n))
    }

    /// As [`AdjListBuilder::new`]; `cap` is a hint for the number of edges.
    pub fn with_capacity(n: usize, cap: usize) -> (b: Self)
        ensures
            b.adj() == Seq::new(n as nat, |i: int| Seq::<usize>::empty()),
    {
        Self(Builder::with_capacity(n, cap))
    }

    /// Adds the edge `u -> v`.
    pub fn edge(&mut self, u: usize, v: usize)
        requires
            u < old(self).adj().len(),
        ensures
            final(self).adj() == old(self).adj().update(u as int, old(self).adj()[u as int].push(v)),
    {
        self.0.push(u, v);
    }

    /// Adds the edges `u -> v` and then `v -> u`.
    pub fn bi_edge(&mut self, u: usize, v: usize)
        requires
            u < old(self).adj().len(),
            v < old(self).adj().len(),
        ensures
            ({
                let a1 = old(self).adj().update(u as int, old(self).adj()[u as int].push(v));
                final(self).adj() == a1.update(v as int, a1[v as int].push(u))
            }),
    {
        self.edge(u, v);
        self.edge(v, u);
    }

    /// Adds each `(u, v)` of `es` in order as the edge `u -> v`.
    pub fn extend(&mut self, es: Vec<(usize, usize)>)
        requires
            forall|k: int| 0 <= k < es@.len() ==> (#[trigger] es@[k]).0 < old(self).adj().len(),
        ensures
            final(self).adj() == push_all(old(self).adj(), es@),
    {
        self.0.extend(es);
    }

    /// Adds each `(u, v)` of `es` in order as the edges `u -> v` and `v -> u`.
    pub fn extend_bi_edges(&mut self, es: Vec<(usize, usize)>)
        requires
            forall|k: int|
                0 <= k < es@.len() ==> (#[trigger] es@[k]).0 < old(self).adj().len() && es@[k].1
                    < old(self).adj().len(),
        ensures
            final(self).adj() == push_bi_all(old(self).adj(), es@),
    {
        let ghost orig = es@;
        let total = es.len();
        let mut es = reverse_vec(es);
        let ghost start = self.adj();
        let mut k: usize = 0;
        while es.len() > 0
            invariant
                k + es@.len() == orig.len(),
                orig.len() == total,
                forall|j: int| 0 <= j < es@.len() ==> #[trigger] es@[j] == orig[orig.len() - 1 - j],
                forall|j: int|
                    0 <= j < orig.len() ==> (#[trigger] orig[j]).0 < start.len() && orig[j].1
                        < start.len(),
                self.adj() == push_bi_all(start, orig.take(k as int)),
                self.adj().len() == start.len(),
            decreases es.len(),
        {
            let (u, v) = es.pop().unwrap();
            proof {
                assert(orig.take(k as int + 1).drop_last() =~= orig.take(k as int));
                assert(orig.take(k as int + 1).last() == orig[k as int]);
            }
            self.bi_edge(u, v);
            k += 1;
        }
        assert(orig.take(k as int) =~= orig);
    }

    /// The graph with the edges added so far.
    pub fn build(self) -> (g: AdjList)
        ensures
            g.adj() == self.adj(),
    {
        AdjList(self.0.build())
    }
}

} // verus!
