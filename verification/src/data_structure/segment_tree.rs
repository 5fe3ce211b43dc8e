use vstd::prelude::*;
use crate::data_structure::monoid::{Monoid, fold, lemma_fold_concat, lemma_fold_single};
use crate::num_lemmas::lemma_usize_shl1;

verus! {

/// `2^h`.
pub open spec fn p2(h: nat) -> nat
    decreases h,
{
    if h == 0 {
        1
    } else {
        2 * p2((h - 1) as nat)
    }
}

proof fn lemma_p2_pos(h: nat)
    ensures
        p2(h) >= 1,
    decreases h,
{
    if h > 0 {
        lemma_p2_pos((h - 1) as nat);
    }
}

/// A segment tree over `n` leaves, stored as a heap of `2 n` nodes where the
/// leaves are `a[n..2 n]` and `a[i] == a[2 i].op(a[2 i + 1])` for `1 <= i < n`.
pub struct SegmentTree<T>(Vec<T>);

impl<T: Monoid> SegmentTree<T> {
    pub closed spec fn n(&self) -> nat {
        self.0@.len() / 2
    }

    /// The leaves.
    pub closed spec fn leaves(&self) -> Seq<T> {
        self.0@.subrange(self.n() as int, 2 * self.n() as int)
    }

    pub closed spec fn wf(&self) -> bool {
        &&& self.0@.len() % 2 == 0
        &&& self.0@.len() <= usize::MAX / 2
        &&& forall|i: int|
            1 <= i < self.n() ==> #[trigger] self.0@[i] == T::spec_op(self.0@[2 * i], self.0@[2 * i + 1])
    }

    /// Node `i` read at height `h` covers the heap positions `i 2^h .. (i + 1) 2^h`.
    proof fn lemma_cover(&self, i: int, h: nat)
        requires
            self.wf(),
            0 <= i,
            self.n() <= i * p2(h),
            (i + 1) * p2(h) <= 2 * self.n(),
        ensures
            self.0@[i] == fold(self.0@.subrange(i * p2(h), (i + 1) * p2(h))),
        decreases h,
    {
        let n = self.n() as int;
        assert(self.0@.len() == 2 * n);
        if h == 0 {
            assert(p2(0) == 1);
            assert(i * p2(h) == i && (i + 1) * p2(h) == i + 1) by (nonlinear_arith)
                requires p2(h) == 1;
            assert(self.0@.subrange(i, i + 1) =~= seq![self.0@[i]]);
            lemma_fold_single(self.0@[i]);
        } else {
            let q = p2((h - 1) as nat) as int;
            lemma_p2_pos((h - 1) as nat);
            assert(p2(h) == 2 * q);
            assert(i < n) by (nonlinear_arith)
                requires
                    (i + 1) * (2 * q) <= 2 * n,
                    q >= 1,
                    i >= 0,
            ;
            assert(i >= 1) by (nonlinear_arith)
                requires
                    n <= i * (2 * q),
                    (i + 1) * (2 * q) <= 2 * n,
                    q >= 1,
                    i >= 0,
            ;
            assert(n <= (2 * i) * q && (2 * i + 1) * q <= 2 * n && n <= (2 * i + 1) * q && (2 * i + 2)
                * q <= 2 * n && (2 * i) * q <= (2 * i + 1) * q) by (nonlinear_arith)
                requires
                    n <= i * (2 * q),
                    (i + 1) * (2 * q) <= 2 * n,
                    q >= 1,
                    i >= 0,
            ;
            self.lemma_cover(2 * i, (h - 1) as nat);
            self.lemma_cover(2 * i + 1, (h - 1) as nat);
            let lo = (2 * i) * q;
            let mid = (2 * i + 1) * q;
            let hi = (2 * i + 2) * q;
            assert(i * p2(h) == lo && (i + 1) * p2(h) == hi && 0 <= lo <= mid <= hi) by (nonlinear_arith)
                requires
                    p2(h) == 2 * q,
                    lo == (2 * i) * q,
                    mid == (2 * i + 1) * q,
                    hi == (2 * i + 2) * q,
                    i >= 0,
                    q >= 1,
            ;
            let a = self.0@.subrange(lo, mid);
            let b = self.0@.subrange(mid, hi);
            assert(self.0@.subrange(lo, hi) =~= a + b);
            lemma_fold_concat(a, b);
        }
    }

    /// A tree of `n` identity leaves.
    pub fn new(n: usize) -> (t: Self)
        requires
            n <= usize::MAX / 4,
        ensures
            t.wf(),
            t.leaves() == Seq::new(n as nat, |i: int| T::spec_id()),
    {
        let mut a: Vec<T> = Vec::new();
        let mut i: usize = 0;
        proof {
            lemma_usize_shl1(n);
        }
        while i < n << 1
            invariant
                n <= usize::MAX / 4,
                i <= 2 * n,
                a@.len() == i,
                n << 1 == 2 * n,
                forall|j: int| 0 <= j < i ==> #[trigger] a@[j] == T::spec_id(),
            decreases 2 * n - i,
        {
            a.push(T::id());
            i += 1;
        }
        proof {
            T::lemma_monoid_laws(T::spec_id(), T::spec_id(), T::spec_id());
        }
        let t = SegmentTree(a);
        assert(t.leaves() =~= Seq::new(n as nat, |i: int| T::spec_id()));
        t
    }

    /// Number of leaves.
    pub fn len(&self) -> (n: usize)
        ensures
            n == self.n(),
    {
        let l = self.0.len();
        assert(l >> 1 == l / 2) by (bit_vector);
        l >> 1
    }

    /// Leaf `i`.
    pub fn get(&self, i: usize) -> (x: &T)
        requires
            i < self.n(),
        ensures
            *x == self.leaves()[i as int],
    {
        let n = self.len();
        let l = self.0.len();
        assert(n + i < l);
        &self.0[n + i]
    }

    /// The product of the leaves `l..r`, from left to right.
    pub fn prod(&self, l: usize, r: usize) -> (p: T)
        requires
            self.wf(),
            l <= r <= self.n(),
        ensures
            p == fold(self.leaves().subrange(l as int, r as int)),
    {
        let ghost n = self.n() as int;
        let ghost d = self.0@;
        let ghost lo = self.n() + l;
        let ghost hi = self.n() + r;
        let mut l = self.len() + l;
        let mut r = self.len() + r;
        let mut x = T::id();
        let mut y = T::id();
        let ghost mut h: nat = 0;
        proof {
            assert(d.len() == 2 * n);
            assert(p2(0) == 1);
            assert(d.subrange(lo as int, lo as int) =~= Seq::<T>::empty());
        }
        while l < r
            invariant
                self.wf(),
                d == self.0@,
                n == self.n(),
                d.len() == 2 * n,
                n <= lo <= hi <= 2 * n,
                l <= r,
                p2(h) >= 1,
                lo <= l * p2(h) <= r * p2(h) <= hi,
                x == fold(d.subrange(lo as int, l * p2(h))),
                y == fold(d.subrange(r * p2(h), hi as int)),
            decreases r,
        {
            let ghost pw = p2(h) as int;
            let ghost l0 = l as int;
            let ghost r0 = r as int;
            assert((l & 1 == 1) == (l % 2 == 1)) by (bit_vector);
            assert((r & 1 == 1) == (r % 2 == 1)) by (bit_vector);
            if l & 1 == 1 {
                proof {
                    assert(n <= l * pw && (l + 1) * pw <= 2 * n && l * pw <= (l + 1) * pw && l < 2 * n) by (nonlinear_arith)
                        requires
                            lo <= l * pw,
                            n <= lo,
                            l + 1 <= r,
                            r * pw <= hi,
                            hi <= 2 * n,
                            pw >= 1,
                    ;
                    self.lemma_cover(l as int, h);
                    lemma_fold_concat(d.subrange(lo as int, l * pw), d.subrange(l * pw, (l + 1) * pw));
                    assert(d.subrange(lo as int, l * pw) + d.subrange(l * pw, (l + 1) * pw) =~= d.subrange(
                        lo as int,
                        (l + 1) * pw,
                    ));
                }
                x = x.op(&self.0[l]);
                l += 1;
            }
            if r & 1 == 1 {
                proof {
                    assert(l <= r - 1);
                    assert(n <= (r - 1) * pw && r * pw <= 2 * n && (r - 1) * pw <= r * pw && l * pw <= (r - 1) * pw && r <= 2 * n)
                        by (nonlinear_arith)
                        requires
                            lo <= l * pw,
                            n <= lo,
                            l <= r - 1,
                            r * pw <= hi,
                            hi <= 2 * n,
                            pw >= 1,
                    ;
                    self.lemma_cover(r - 1, h);
                    lemma_fold_concat(d.subrange((r - 1) * pw, r * pw), d.subrange(r * pw, hi as int));
                    assert(d.subrange((r - 1) * pw, r * pw) + d.subrange(r * pw, hi as int) =~= d.subrange(
                        (r - 1) * pw,
                        hi as int,
                    ));
                }
                r -= 1;
                y = self.0[r].op(&y);
            }
            proof {
                assert(lo <= l * pw <= r * pw <= hi) by (nonlinear_arith)
                    requires
                        l >= l0,
                        r <= r0,
                        lo <= l0 * pw,
                        r0 * pw <= hi,
                        l <= r,
                        pw >= 1,
                ;
                assert(l % 2 == 0 && r % 2 == 0);
                assert((l / 2) * (2 * pw) == l * pw && (r / 2) * (2 * pw) == r * pw) by (nonlinear_arith)
                    requires l % 2 == 0, r % 2 == 0;
                assert(l >> 1 == l / 2) by (bit_vector);
                assert(r >> 1 == r / 2) by (bit_vector);
                assert(p2(h + 1) == 2 * pw);
                h = h + 1;
            }
            l >>= 1;
            r >>= 1;
        }
        proof {
            lemma_fold_concat(d.subrange(lo as int, l * p2(h)), d.subrange(r * p2(h), hi as int));
            assert(d.subrange(lo as int, l * p2(h)) + d.subrange(r * p2(h), hi as int) =~= d.subrange(
                lo as int,
                hi as int,
            ));
            assert(d.subrange(lo as int, hi as int) =~= self.leaves().subrange(
                lo - n,
                hi - n,
            ));
        }
        x.op(&y)
    }

    /// Replaces leaf `i` by `x`.
    pub fn set(&mut self, i: usize, x: T)
        requires
            old(self).wf(),
            i < old(self).n(),
        ensures
            final(self).wf(),
            final(self).n() == old(self).n(),
            final(self).leaves() == old(self).leaves().update(i as int, x),
    {
        let n = self.len();
        let mut i = n + i;
        let ghost leaf = i as int;
        self.0[i] = x;
        while (i >> 1) > 0
            invariant
                self.0@.len() == old(self).0@.len(),
                n == self.n(),
                self.0@.len() % 2 == 0,
                self.0@.len() <= usize::MAX / 2,
                1 <= i <= leaf,
                n <= leaf < 2 * n,
                forall|k: int| n <= k < 2 * n && k != leaf ==> self.0@[k] == old(self).0@[k],
                self.0@[leaf] == x,
                forall|k: int|
                    1 <= k < n && !is_ancestor(k, i as int) ==> #[trigger] self.0@[k] == T::spec_op(
                        self.0@[2 * k],
                        self.0@[2 * k + 1],
                    ),
            decreases i,
        {
            let ghost prev = i as int;
            assert(i >> 1 == i / 2) by (bit_vector);
            i >>= 1;
            proof {
                lemma_usize_shl1(i);
            }
            let v = self.0[i << 1].op(&self.0[(i << 1) + 1]);
            self.0[i] = v;
            proof {
                assert forall|k: int| 1 <= k < n && !is_ancestor(k, i as int) implies #[trigger] self.0@[k]
                    == T::spec_op(self.0@[2 * k], self.0@[2 * k + 1]) by {
                    assert(is_ancestor(k, prev) == (k == prev / 2 || is_ancestor(k, prev / 2)));
                }
            }
        }
        proof {
            assert(i == 1) by (bit_vector)
                requires i >= 1, (i >> 1) == 0;
        }
        assert(self.leaves() =~= old(self).leaves().update((leaf - n) as int, x));
    }

    /// Replaces leaf `i` by `x.op(leaf i)` and returns the new leaf.
    pub fn update(&mut self, i: usize, x: &T) -> (r: &T)
        requires
            old(self).wf(),
            i < old(self).n(),
        ensures
            final(self).wf(),
            final(self).n() == old(self).n(),
            final(self).leaves() == old(self).leaves().update(
                i as int,
                T::spec_op(*x, old(self).leaves()[i as int]),
            ),
            *r == T::spec_op(*x, old(self).leaves()[i as int]),
    {
        let n = self.len();
        let l = self.0.len();
        assert(n + i < l);
        let j = n + i;
        let v = x.op(&self.0[j]);
        self.set(i, v);
        assert(self.0@[j as int] == self.leaves()[i as int]);
        &self.0[j]
    }

    /// A tree whose leaves are the elements of `a`.
    pub fn from_vec(a: Vec<T>) -> (t: Self)
        requires
            a@.len() <= usize::MAX / 4,
        ensures
            t.wf(),
            t.leaves() == a@,
    {
        let n = a.len();
        let mut b: Vec<T> = Vec::new();
        let mut k: usize = 0;
        while k < n
            invariant
                k <= n,
                b@.len() == k,
                forall|j: int| 0 <= j < k ==> #[trigger] b@[j] == T::spec_id(),
            decreases n - k,
        {
            b.push(T::id());
            k += 1;
        }
        let ghost orig = a@;
        let mut a = a;
        b.append(&mut a);
        let mut i: usize = n;
        while i > 1
            invariant
                i <= n,
                b@.len() == 2 * n,
                n <= usize::MAX / 4,
                b@.subrange(n as int, 2 * n as int) == orig,
                forall|k: int|
                    i <= k < n ==> #[trigger] b@[k] == T::spec_op(b@[2 * k], b@[2 * k + 1]),
            decreases i,
        {
            i -= 1;
            let v = b[2 * i].op(&b[2 * i + 1]);
            b[i] = v;
            proof {
                assert(b@.subrange(n as int, 2 * n as int) =~= orig);
            }
        }
        let t = SegmentTree(b);
        assert(t.leaves() =~= orig);
        t
    }
}

/// Whether heap node `k` lies strictly above node `i`.
pub open spec fn is_ancestor(k: int, i: int) -> bool
    decreases i,
{
    if i <= 1 {
        false
    } else {
        k == i / 2 || is_ancestor(k, i / 2)
    }
}

} // verus!
