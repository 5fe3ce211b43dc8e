use vstd::prelude::*;

verus! {

/// Sequence operations of the standard numeric library, over the elements of a vector.
pub trait IterExt: Sized {
    type Item;

    spec fn items(&self) -> Seq<Self::Item>;

    /// `add_fn(... add_fn(add_fn(init, mul_fn(a0, b0)), mul_fn(a1, b1)) ..., mul_fn(an, bn))`.
    fn inner_product<U, P, S, M: Fn(Self::Item, U) -> P, A: Fn(S, P) -> S>(
        self,
        other: Vec<U>,
        init: S,
        mul_fn: M,
        add_fn: A,
    ) -> (r: S)
        requires
            self.items().len() == other@.len(),
            forall|x: Self::Item, y: U| #[trigger] mul_fn.requires((x, y)),
            forall|s: S, p: P| #[trigger] add_fn.requires((s, p)),
        ensures
            exists|acc: Seq<S>, ps: Seq<P>|
                {
                    &&& acc.len() == self.items().len() + 1
                    &&& ps.len() == self.items().len()
                    &&& acc[0] == init
                    &&& acc.last() == r
                    &&& forall|k: int|
                        0 <= k < ps.len() ==> mul_fn.ensures((self.items()[k], other@[k]), #[trigger] ps[k])
                            && add_fn.ensures((acc[k], ps[k]), acc[k + 1])
                },
    ;

    /// The running results `init, f(init, a0), f(f(init, a0), a1), ...`.
    fn partial_sum<S, F: Fn(&S, Self::Item) -> S>(self, init: S, f: F) -> (p: PartialSum<Self::Item, S, F>)
        ensures
            p.rest() == self.items(),
            p.sum() == Some(init),
            p.func() == f,
    ;

    /// `f(a0, &a1), f(a1, &a2), ...`.
    fn adjacent_difference<U, F: Fn(Self::Item, &Self::Item) -> U>(self, f: F) -> (d: AdjacentDifference<
        Self::Item,
        F,
    >)
        ensures
            d.rest() == self.items(),
            d.func() == f,
    ;
}

impl<T> IterExt for Vec<T> {
    type Item = T;

    open spec fn items(&self) -> Seq<T> {
        self@
    }

    fn inner_product<U, P, S, M: Fn(T, U) -> P, A: Fn(S, P) -> S>(
        self,
        other: Vec<U>,
        init: S,
        mul_fn: M,
        add_fn: A,
    ) -> (r: S) {
        let ghost items = self@;
        let ghost others = other@;
        let mut a = crate::vec_util::reverse_vec(self);
        let mut b = crate::vec_util::reverse_vec(other);
        let mut res = init;
        let ghost mut acc: Seq<S> = seq![init];
        let ghost mut ps: Seq<P> = Seq::empty();
        while a.len() > 0
            invariant
                a@.len() == b@.len(),
                items.len() == others.len(),
                acc.len() == ps.len() + 1,
                ps.len() + a@.len() == items.len(),
                a@ == items.skip(ps.len() as int).reverse(),
                b@ == others.skip(ps.len() as int).reverse(),
                acc[0] == init,
                acc.last() == res,
                forall|x: T, y: U| #[trigger] mul_fn.requires((x, y)),
                forall|s: S, p: P| #[trigger] add_fn.requires((s, p)),
                forall|k: int|
                    0 <= k < ps.len() ==> mul_fn.ensures((items[k], others[k]), #[trigger] ps[k])
                        && add_fn.ensures((acc[k], ps[k]), acc[k + 1]),
            decreases a@.len(),
        {
            let ghost k = ps.len() as int;
            let x = a.pop().unwrap();
            let y = b.pop().unwrap();
            assert(x == items[k]);
            assert(y == others[k]);
            let p = mul_fn(x, y);
            res = add_fn(res, p);
            proof {
                ps = ps.push(p);
                acc = acc.push(res);
                assert(a@ =~= items.skip(ps.len() as int).reverse());
                assert(b@ =~= others.skip(ps.len() as int).reverse());
            }
        }
        res
    }

    fn partial_sum<S, F: Fn(&S, T) -> S>(self, init: S, f: F) -> (p: PartialSum<T, S, F>) {
        let rev = crate::vec_util::reverse_vec(self);
        let p = PartialSum { rev, f, sum: Some(init) };
        assert(p.rev@.reverse() =~= self@);
        p
    }

    fn adjacent_difference<U, F: Fn(T, &T) -> U>(self, f: F) -> (d: AdjacentDifference<T, F>) {
        let rev = crate::vec_util::reverse_vec(self);
        let d = AdjacentDifference { rev, prev: None, f };
        assert(d.rev@.reverse() =~= self@);
        d
    }
}

/// The running results of `f`, starting from the initial value.
pub struct PartialSum<T, S, F> {
    rev: Vec<T>,
    f: F,
    sum: Option<S>,
}

impl<T, S, F: Fn(&S, T) -> S> PartialSum<T, S, F> {
    /// The elements not folded in yet.
    pub closed spec fn rest(&self) -> Seq<T> {
        self.rev@.reverse()
    }

    /// The next result to hand out, `None` once all are out.
    pub closed spec fn sum(&self) -> Option<S> {
        self.sum
    }

    pub closed spec fn func(&self) -> F {
        self.f
    }

    /// The next running result.
    pub fn next(&mut self) -> (r: Option<S>)
        requires
            forall|s: &S, x: T| #[trigger] old(self).func().requires((s, x)),
        ensures
            final(self).func() == old(self).func(),
            r == old(self).sum(),
            old(self).sum() is Some && old(self).rest().len() > 0 ==> final(self).rest() == old(self).rest().drop_first()
                && final(self).sum() is Some && old(self).func().ensures(
                (&old(self).sum()->0, old(self).rest()[0]),
                final(self).sum()->0,
            ),
            old(self).sum() is None || old(self).rest().len() == 0 ==> final(self).sum() is None,
    {
        match self.sum.take() {
            Some(s) => {
                if self.rev.len() > 0 {
                    let ghost r0 = self.rev@;
                    let x = self.rev.pop().unwrap();
                    assert(self.rev@.reverse() =~= r0.reverse().drop_first());
                    assert(self.f == old(self).func());
                    let new = (self.f)(&s, x);
                    self.sum = Some(new);
                }
                Some(s)
            },
            None => None,
        }
    }

    /// The number of results still to come, exactly.
    pub fn size_hint(&self) -> (r: (usize, Option<usize>))
        ensures
            r.1 == Some(r.0),
            r.0 == if self.sum() is Some {
                self.rest().len() + 1
            } else {
                0
            } || (self.sum() is Some && self.rest().len() + 1 > usize::MAX && r.0 == usize::MAX),
    {
        if self.sum.is_some() {
            let n = self.rev.len().saturating_add(1);
            (n, Some(n))
        } else {
            (0, Some(0))
        }
    }
}

/// `f` applied to each element and the next one.
pub struct AdjacentDifference<T, F> {
    rev: Vec<T>,
    prev: Option<T>,
    f: F,
}

impl<T, U, F: Fn(T, &T) -> U> AdjacentDifference<T, F> {
    /// The elements not consumed yet, the one held back first.
    pub closed spec fn rest(&self) -> Seq<T> {
        match self.prev {
            Some(x) => seq![x] + self.rev@.reverse(),
            None => self.rev@.reverse(),
        }
    }

    pub closed spec fn func(&self) -> F {
        self.f
    }

    /// `f` of the first two elements left, keeping the second.
    pub fn next(&mut self) -> (r: Option<U>)
        requires
            forall|x: T, y: &T| #[trigger] old(self).func().requires((x, y)),
        ensures
            final(self).func() == old(self).func(),
            old(self).rest().len() >= 2 ==> (r matches Some(v) && old(self).func().ensures(
                (old(self).rest()[0], &old(self).rest()[1]),
                v,
            )) && final(self).rest() == old(self).rest().drop_first(),
            old(self).rest().len() < 2 ==> r is None,
    {
        let ghost rest0 = self.rest();
        let opt_x = match self.prev.take() {
            Some(x) => Some(x),
            None => self.rev.pop(),
        };
        let ghost r1 = self.rev@;
        let opt_y = self.rev.pop();
        match opt_x {
            Some(x) => match opt_y {
                Some(y) => {
                    assert(self.f == old(self).func());
                    let res = (self.f)(x, &y);
                    self.prev = Some(y);
                    assert(self.rest() =~= rest0.drop_first());
                    Some(res)
                },
                None => None,
            },
            None => None,
        }
    }

    /// The number of results still to come, exactly.
    pub fn size_hint(&self) -> (r: (usize, Option<usize>))
        ensures
            r.1 == Some(r.0),
            r.0 == if self.rest().len() >= 1 {
                self.rest().len() - 1
            } else {
                0
            },
    {
        let n = self.rev.len();
        if self.prev.is_none() {
            let m = n.saturating_sub(1);
            (m, Some(m))
        } else {
            (n, Some(n))
        }
    }
}

/// Every pair of an element of the first sequence and one of the second, in order.
pub struct CartesianProduct<T, U> {
    left: Vec<T>,
    right: Vec<U>,
    i: usize,
    j: usize,
}

/// The pairs of `left` and `right`, the second varying fastest.
pub fn cartesian_product<T: Copy, U: Copy>(left: Vec<T>, right: Vec<U>) -> (c: CartesianProduct<T, U>)
    requires
        left@.len() * right@.len() <= usize::MAX,
    ensures
        c.wf(),
        c.rest() == pairs(left@, right@),
{
    let c = CartesianProduct { left, right, i: 0, j: 0 };
    assert(0 * c.right@.len() + 0 == 0);
    assert(c.rest() =~= pairs(c.left@, c.right@));
    c
}

/// All pairs, the second component varying fastest.
pub open spec fn pairs<T, U>(a: Seq<T>, b: Seq<U>) -> Seq<(T, U)> {
    Seq::new(a.len() * b.len(), |k: int| (a[k / b.len() as int], b[k % b.len() as int]))
}

impl<T: Copy, U: Copy> CartesianProduct<T, U> {
    pub closed spec fn wf(&self) -> bool {
        &&& self.i <= self.left@.len()
        &&& self.j <= self.right@.len()
        &&& self.left@.len() * self.right@.len() <= usize::MAX
        &&& (self.i == self.left@.len() ==> self.j == 0)
    }

    /// The pairs still to come.
    pub closed spec fn rest(&self) -> Seq<(T, U)> {
        pairs(self.left@, self.right@).skip(self.i * self.right@.len() + self.j)
    }

    /// The number of pairs still to come, exactly.
    pub fn size_hint(&self) -> (r: (usize, Option<usize>))
        requires
            self.wf(),
        ensures
            r.0 == self.rest().len(),
            r.1 == Some(r.0),
    {
        let n = self.left.len();
        let m = self.right.len();
        assert(self.i * m + self.j <= n * m) by (nonlinear_arith)
            requires
                self.i <= n,
                self.j <= m,
                self.i == n ==> self.j == 0,
        ;
        assert(self.i * m <= n * m) by (nonlinear_arith)
            requires self.i <= n;
        let done = self.i * m + self.j;
        let left = n * m - done;
        (left, Some(left))
    }

    /// The next pair, or `None` after the last.
    pub fn next(&mut self) -> (r: Option<(T, U)>)
        requires
            old(self).wf(),
        ensures
            final(self).wf(),
            old(self).rest().len() > 0 ==> r == Some(old(self).rest()[0]) && final(self).rest() == old(
                self,
            ).rest().drop_first(),
            old(self).rest().len() == 0 ==> r is None && final(self).rest().len() == 0,
    {
        let n = self.left.len();
        let m = self.right.len();
        let ghost pos = self.i * m + self.j;
        if self.i < n && m > 0 {
            if self.j == m {
                let ghost i0 = self.i as int;
                self.i += 1;
                self.j = 0;
                assert(self.i * m + self.j == pos) by (nonlinear_arith)
                    requires self.i == i0 + 1, pos == i0 * m + m, self.j == 0;
                if self.i == n {
                    assert(pos == n * m);
                    return None;
                }
            }
            let x = self.left[self.i];
            let y = self.right[self.j];
            proof {
                let k = self.i * m + self.j;
                assert(k / (m as int) == self.i && k % (m as int) == self.j) by {
                    vstd::arithmetic::div_mod::lemma_fundamental_div_mod_converse(k, m as int, self.i as int, self.j as int);
                }
                assert(k < n * m) by (nonlinear_arith)
                    requires self.i < n, self.j < m, k == self.i * m + self.j;
            }
            self.j += 1;
            Some((x, y))
        } else {
            proof {
                if m == 0 {
                    assert(n * m == 0) by (nonlinear_arith)
                        requires m == 0;
                } else {
                    assert(self.i == n && self.j == 0);
                    assert(self.i * m + self.j == n * m);
                }
            }
            None
        }
    }
}

} // verus!
