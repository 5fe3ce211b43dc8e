use vstd::prelude::*;

verus! {

/// Rows of a fixed width `m`, stored one after another.
pub struct RectArray<T> {
    buf: Vec<T>,
    n: usize,
    m: usize,
}

impl<T> RectArray<T> {
    pub closed spec fn wf(&self) -> bool {
        self.buf@.len() == self.n * self.m
    }

    /// All elements, row after row.
    pub closed spec fn elements(&self) -> Seq<T> {
        self.buf@
    }

    /// Number of rows.
    pub closed spec fn rows(&self) -> nat {
        self.n as nat
    }

    /// Row width.
    pub closed spec fn cols(&self) -> nat {
        self.m as nat
    }

    /// Row `i`.
    pub open spec fn row(&self, i: int) -> Seq<T> {
        self.elements().subrange(self.cols() * i, self.cols() * (i + 1))
    }

    /// No rows, of width `m`.
    pub fn new(m: usize) -> (a: Self)
        ensures
            a.wf(),
            a.rows() == 0,
            a.cols() == m,
            a.elements().len() == 0,
    {
        RectArray { buf: Vec::new(), n: 0, m }
    }

    pub fn len(&self) -> (n: usize)
        ensures
            n == self.rows(),
    {
        self.n
    }

    /// Whether there are no elements (no rows, or rows of width 0).
    pub fn is_empty(&self) -> (b: bool)
        ensures
            b == (self.elements().len() == 0),
    {
        self.buf.len() == 0
    }

    pub fn width(&self) -> (m: usize)
        ensures
            m == self.cols(),
    {
        self.m
    }

    pub fn elems(&self) -> (s: &[T])
        ensures
            s@ == self.elements(),
    {
        self.buf.as_slice()
    }

    pub fn elems_mut(&mut self) -> (s: &mut [T])
        ensures
            s@ == old(self).elements(),
            final(self).elements() == final(s)@,
            final(self).rows() == old(self).rows(),
            final(self).cols() == old(self).cols(),
    {
        self.buf.as_mut_slice()
    }

    /// Row `i`, or `None` when there is no such row.
    pub fn get(&self, i: usize) -> (r: Option<&[T]>)
        requires
            self.wf(),
            (i + 1) * self.cols() <= usize::MAX,
        ensures
            i < self.rows() ==> (r matches Some(s) && s@ == self.row(i as int)),
            i >= self.rows() && self.cols() > 0 ==> r is None,
    {
        proof {
            assert(self.m * i + self.m == (i + 1) * self.m) by (nonlinear_arith);
            assert(self.m * (i + 1) == (i + 1) * self.m) by (nonlinear_arith);
            assert(self.m * i <= (i + 1) * self.m) by (nonlinear_arith);
            assert(i < self.n ==> (i + 1) * self.m <= self.n * self.m) by (nonlinear_arith);
            assert(i >= self.n && self.m > 0 ==> (i + 1) * self.m > self.n * self.m) by (nonlinear_arith);
        }
        let lo = self.m * i;
        let hi = lo + self.m;
        if hi <= self.buf.len() {
            Some(&self.buf.as_slice()[lo..hi])
        } else {
            None
        }
    }

    /// The last row, or `None` when there is none.
    pub fn last(&self) -> (r: Option<&[T]>)
        requires
            self.wf(),
        ensures
            self.rows() > 0 ==> (r matches Some(s) && s@ == self.row(self.rows() - 1)),
            self.rows() == 0 ==> r is None,
    {
        if self.n == 0 {
            None
        } else {
            let l = self.buf.len();
            proof {
                assert((self.n - 1 + 1) * self.m == self.n * self.m);
            }
            self.get(self.n - 1)
        }
    }

    /// Appends a row made of the first `m` elements of `row`.
    pub fn push(&mut self, row: Vec<T>)
        requires
            old(self).wf(),
            row@.len() >= old(self).cols(),
            old(self).rows() < usize::MAX,
            (old(self).rows() + 1) * old(self).cols() <= usize::MAX,
        ensures
            final(self).wf(),
            final(self).rows() == old(self).rows() + 1,
            final(self).cols() == old(self).cols(),
            final(self).elements() == old(self).elements() + row@.take(old(self).cols() as int),
    {
        let mut row = row;
        row.truncate(self.m);
        self.buf.append(&mut row);
        proof {
            assert((self.n + 1) * self.m == self.n * self.m + self.m) by (nonlinear_arith);
        }
        self.n += 1;
    }

    /// Appends a clone of `row`, whose length must be the width.
    pub fn push_slice(&mut self, row: &[T])
        where
            T: Clone,
        requires
            old(self).wf(),
            row@.len() == old(self).cols(),
            old(self).rows() < usize::MAX,
            (old(self).rows() + 1) * old(self).cols() <= usize::MAX,
        ensures
            final(self).wf(),
            final(self).rows() == old(self).rows() + 1,
            final(self).cols() == old(self).cols(),
            final(self).elements().len() == old(self).elements().len() + row@.len(),
            final(self).elements().take(old(self).elements().len() as int) == old(self).elements(),
            forall|k: int|
                0 <= k < row@.len() ==> cloned(
                    row@[k],
                    #[trigger] final(self).elements()[old(self).elements().len() + k],
                ),
    {
        self.buf.extend_from_slice(row);
        proof {
            assert((self.n + 1) * self.m == self.n * self.m + self.m) by (nonlinear_arith);
            assert(self.buf@.take(old(self).buf@.len() as int) =~= old(self).buf@);
        }
        self.n += 1;
    }

    /// Row `i` for writing, or `None` when there is no such row.
    pub fn get_mut(&mut self, i: usize) -> (r: Option<&mut [T]>)
        requires
            old(self).wf(),
            (i + 1) * old(self).cols() <= usize::MAX,
        ensures
            final(self).rows() == old(self).rows(),
            final(self).cols() == old(self).cols(),
            i < old(self).rows() ==> (r matches Some(s) && s@ == old(self).row(i as int)
                && final(self).elements() == old(self).elements().take(i * old(self).cols()) + final(s)@
                + old(self).elements().skip((i + 1) * old(self).cols())),
            i >= old(self).rows() && old(self).cols() > 0 ==> r is None && final(self).elements() == old(
                self,
            ).elements(),
    {
        proof {
            assert(self.m * i + self.m == (i + 1) * self.m) by (nonlinear_arith);
            assert(self.m * (i + 1) == (i + 1) * self.m) by (nonlinear_arith);
            assert(self.m * i == i * self.m) by (nonlinear_arith);
            assert(i < self.n ==> (i + 1) * self.m <= self.n * self.m) by (nonlinear_arith);
            assert(i >= self.n && self.m > 0 ==> (i + 1) * self.m > self.n * self.m) by (nonlinear_arith);
        }
        let lo = self.m * i;
        let hi = lo + self.m;
        if hi <= self.buf.len() {
            let (_, rest) = self.buf.as_mut_slice().split_at_mut(lo);
            let (row, _) = rest.split_at_mut(hi - lo);
            Some(row)
        } else {
            None
        }
    }

    /// The last row for writing, or `None` when there is none.
    pub fn last_mut(&mut self) -> (r: Option<&mut [T]>)
        requires
            old(self).wf(),
        ensures
            final(self).rows() == old(self).rows(),
            final(self).cols() == old(self).cols(),
            old(self).rows() > 0 ==> (r matches Some(s) && s@ == old(self).row(old(self).rows() - 1)
                && final(self).elements() == old(self).elements().take(
                (old(self).rows() - 1) * old(self).cols(),
            ) + final(s)@),
            old(self).rows() == 0 ==> r is None && final(self).elements() == old(self).elements(),
    {
        if self.n == 0 {
            None
        } else {
            proof {
                assert((self.n - 1 + 1) * self.m == self.n * self.m);
                assert(self.buf@.skip(self.n * self.m) =~= Seq::<T>::empty());
            }
            proof {
                assert((self.n - 1 + 1) * self.m == self.n * self.m);
            }
            let len = self.buf.len();
            self.get_mut(self.n - 1)
        }
    }

    /// Exchanges rows `i` and `j`.
    pub fn swap(&mut self, i: usize, j: usize)
        requires
            old(self).wf(),
            i < old(self).rows(),
            j < old(self).rows(),
        ensures
            final(self).wf(),
            final(self).rows() == old(self).rows(),
            final(self).cols() == old(self).cols(),
            ({
                let e = old(self).elements();
                let m = old(self).cols() as int;
                let lo = if i < j { i as int } else { j as int };
                let hi = if i < j { j as int } else { i as int };
                &&& i == j ==> final(self).elements() == e
                &&& i != j ==> final(self).elements() == e.subrange(0, lo * m) + e.subrange(hi * m, hi * m + m)
                    + e.subrange(lo * m + m, hi * m) + e.subrange(lo * m, lo * m + m) + e.subrange(
                    hi * m + m,
                    e.len() as int,
                )
            }),
    {
        if i == j {
            return;
        }
        let lo = if i < j { i } else { j };
        let hi = if i < j { j } else { i };
        let m = self.m;
        let ghost e = self.buf@;
        let ghost n = self.n;
        let len = self.buf.len();
        proof {
            assert(n * m == len);
            assert(lo * m + m <= hi * m) by (nonlinear_arith)
                requires lo < hi;
            assert(hi * m + m <= n * m) by (nonlinear_arith)
                requires hi < n;
            assert(lo * m <= lo * m + m);
        }
        let mut rest = self.buf.split_off(hi * m + m);
        let mut row_hi = self.buf.split_off(hi * m);
        let mut mid = self.buf.split_off(lo * m + m);
        let mut row_lo = self.buf.split_off(lo * m);
        self.buf.append(&mut row_hi);
        self.buf.append(&mut mid);
        self.buf.append(&mut row_lo);
        self.buf.append(&mut rest);
        proof {
            assert(self.buf@.len() == e.len());
        }
    }

    /// Removes the last row and hands out its elements in order; the elements not
    /// taken are dropped with the returned row.
    pub fn pop(&mut self) -> (r: Option<Row<T>>)
        requires
            old(self).wf(),
        ensures
            final(self).wf(),
            final(self).cols() == old(self).cols(),
            old(self).rows() == 0 ==> r is None && final(self).rows() == 0 && final(self).elements()
                == old(self).elements(),
            old(self).rows() > 0 ==> (r matches Some(row) && row.rest() == old(self).row(
                old(self).rows() - 1,
            )) && final(self).rows() == old(self).rows() - 1 && final(self).elements() == old(
                self,
            ).elements().take((old(self).rows() - 1) * old(self).cols()),
    {
        if self.n == 0 {
            None
        } else {
            let len = self.buf.len();
            let k = self.n - 1;
            let m = self.m;
            proof {
                assert(k * m + m == self.n * m) by (nonlinear_arith)
                    requires k == self.n - 1;
                assert(k * m <= len);
            }
            self.n = k;
            let items = self.buf.split_off(k * m);
            proof {
                assert(self.m * (self.n + 1) == self.n * self.m + self.m) by (nonlinear_arith);
                assert(self.m * self.n == self.n * self.m) by (nonlinear_arith);
            }
            Some(Row { items })
        }
    }

    /// Inserts a clone of `row`, whose length must be the width, as row `i`.
    pub fn insert_slice(&mut self, i: usize, row: &[T])
        where
            T: Clone,
        requires
            old(self).wf(),
            i <= old(self).rows(),
            row@.len() == old(self).cols(),
            old(self).rows() < usize::MAX,
            (old(self).rows() + 1) * old(self).cols() <= usize::MAX,
        ensures
            final(self).wf(),
            final(self).rows() == old(self).rows() + 1,
            final(self).cols() == old(self).cols(),
            ({
                let e = old(self).elements();
                let m = old(self).cols() as int;
                let f = final(self).elements();
                &&& f.len() == e.len() + m
                &&& f.take(i * m) == e.take(i * m)
                &&& f.skip(i * m + m) == e.skip(i * m)
                &&& forall|k: int| 0 <= k < m ==> cloned(row@[k], #[trigger] f[i * m + k])
            }),
    {
        let m = self.m;
        let ghost e = self.buf@;
        proof {
            assert(i * m <= self.n * m) by (nonlinear_arith)
                requires i <= self.n;
            assert((self.n + 1) * m == self.n * m + m) by (nonlinear_arith);
        }
        let mut tail = self.buf.split_off(i * m);
        self.buf.extend_from_slice(row);
        self.buf.append(&mut tail);
        self.n += 1;
        proof {
            let f = self.buf@;
            assert(f.take(i * m) =~= e.take(i * m));
            assert(f.skip(i * m + m) =~= e.skip(i * m));
        }
    }
}

/// The elements of a row taken out of a [`RectArray`], handed out front to back.
pub struct Row<T> {
    items: Vec<T>,
}

impl<T> Row<T> {
    /// The elements not yet handed out, in order.
    pub closed spec fn rest(&self) -> Seq<T> {
        self.items@
    }

    /// The next element, or `None` when all have been handed out.
    pub fn next(&mut self) -> (r: Option<T>)
        ensures
            old(self).rest().len() == 0 ==> r is None && final(self).rest() == old(self).rest(),
            old(self).rest().len() > 0 ==> r == Some(old(self).rest()[0]) && final(self).rest() == old(
                self,
            ).rest().drop_first(),
    {
        if self.items.len() == 0 {
            None
        } else {
            Some(self.items.remove(0))
        }
    }

    /// The number of elements left, as a lower and an upper bound.
    pub fn size_hint(&self) -> (r: (usize, Option<usize>))
        ensures
            r.0 == self.rest().len(),
            r.1 == Some(r.0),
    {
        (self.items.len(), Some(self.items.len()))
    }
}

} // verus!
