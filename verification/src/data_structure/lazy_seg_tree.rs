use vstd::prelude::*;
pub use crate::data_structure::monoid::Monoid;

verus! {

/// A segment tree whose nodes also hold an operation still to be passed down to their
/// children; `map` applies an operation to a value.
pub struct LazySegTree<S, F, M> {
    ss: Vec<S>,
    fs: Vec<F>,
    map: M,
}

/// Shifting further right gives no more, and shifting by nothing keeps `x`.
proof fn lemma_shr_mono(x: u64, a: u64, b: u64)
    by (bit_vector)
    requires
        a <= b < 64,
    ensures
        (x >> b) <= (x >> a),
        (x >> 0u64) == x,
{
}

/// One more shift halves.
proof fn lemma_shr_step(x: u64, k: u64)
    by (bit_vector)
    requires
        k < 64,
    ensures
        (x >> k) / 2 == (x >> (k + 1)),
        (x >> 63u64) <= 1,
{
}

/// The number of binary digits of `i`: `i >> k` is nonzero exactly for `k < h`.
fn bit_length(i: usize) -> (h: u32)
    ensures
        h <= 64,
        i == 0 ==> h == 0,
        i > 0 ==> h >= 1,
        forall|k: u64| k < h ==> #[trigger] ((i as u64) >> k) >= 1,
        h < 64 ==> ((i as u64) >> (h as u64)) == 0,
{
    let mut v = i;
    let mut h: u32 = 0;
    let ghost x = i as u64;
    proof {
        lemma_shr_mono(x, 0, 0);
    }
    while v > 0 && h < 64
        invariant
            h <= 64,
            i > 0 && h == 0 ==> v == i,
            i == 0 ==> v == 0 && h == 0,
            x == i as u64,
            h < 64 ==> v as u64 == (x >> (h as u64)),
            forall|k: u64| k < h ==> #[trigger] (x >> k) >= 1,
        decreases v,
    {
        proof {
            lemma_shr_step(x, h as u64);
        }
        v = v / 2;
        h += 1;
    }
    h
}

/// `x` with its trailing zero bits removed.
fn strip_zeros(x: usize) -> (y: usize)
    requires
        x > 0,
    ensures
        1 <= y <= x,
        x % 2 == 0 ==> y <= x / 2,
{
    let mut y = x;
    while y % 2 == 0
        invariant
            1 <= y <= x,
            x % 2 == 0 ==> y <= x / 2 || y == x,
        decreases y,
    {
        y = y / 2;
    }
    y
}

impl<S: Monoid, F: Monoid, M: Fn(&F, &S) -> S> LazySegTree<S, F, M> {
    /// The number of leaves.
    pub closed spec fn len(&self) -> nat {
        self.ss@.len() / 2
    }

    /// The value stored at leaf `i`; operations pending above it are not yet applied.
    pub closed spec fn stored(&self, i: int) -> S {
        self.ss@[self.len() + i]
    }

    /// No operation is pending at any node above leaf `i`: the nodes
    /// `(len + i) >> k` for `k >= 1`, down from the root `1`.
    pub closed spec fn clear_above(&self, i: int) -> bool {
        forall|k: u64|
            1 <= k < 64 && #[trigger] (((self.len() + i) as u64) >> k) >= 1 ==> self.fs@[(((self.len() + i) as u64) >> k) as int] == F::spec_id()
    }

    /// Node `a` holds the product of its two children.
    pub closed spec fn sum_at(&self, a: int) -> bool {
        self.ss@[a] == S::spec_op(self.ss@[2 * a], self.ss@[2 * a + 1])
    }

    /// Every node above leaf `i` holds the product of its two children.
    pub closed spec fn sums_above(&self, i: int) -> bool {
        forall|k: u64|
            1 <= k < 64 && #[trigger] (((self.len() + i) as u64) >> k) >= 1 ==> self.sum_at((((self.len() + i) as u64) >> k) as int)
    }

    /// The values and the pending operations are laid out as heaps over the leaves, and
    /// `map` can be applied to any operation and value.
    pub closed spec fn wf(&self) -> bool {
        &&& self.ss@.len() % 2 == 0
        &&& self.fs@.len() >= self.ss@.len()
        &&& self.fs@.len() <= usize::MAX / 2
        &&& forall|f: &F, s: &S| #[trigger] self.map.requires((f, s))
    }

    /// The leaves padded to a power of two, all holding the identity.
    pub fn new(n: usize, map: M) -> (t: Self)
        requires
            n <= usize::MAX / 8,
            forall|f: &F, s: &S| #[trigger] map.requires((f, s)),
        ensures
            t.wf(),
            n <= t.len(),
            t.len() == 1 || t.len() < 2 * n,
    {
        let mut size: usize = 1;
        while size < n
            invariant
                1 <= size,
                n <= usize::MAX / 8,
                size == 1 || size < 2 * n,
            decreases 2 * n - size,
        {
            size = size * 2;
        }
        let len = 2 * size;
        let mut ss: Vec<S> = Vec::new();
        let mut fs: Vec<F> = Vec::new();
        let mut i: usize = 0;
        while i < len
            invariant
                i <= len,
                len == 2 * size,
                n <= size,
                size == 1 || size < 2 * n,
                ss@.len() == i,
                fs@.len() == i,
            decreases len - i,
        {
            ss.push(S::id());
            fs.push(F::id());
            i += 1;
        }
        LazySegTree { ss, fs, map }
    }

    /// Passes the pending operations on the path from the root down to node `i`.
    fn propagate(&mut self, i: usize)
        requires
            old(self).wf(),
            i < old(self).ss@.len(),
        ensures
            final(self).wf(),
            final(self).ss@.len() == old(self).ss@.len(),
            final(self).fs@.len() == old(self).fs@.len(),
            forall|k: u64| 1 <= k < 64 && #[trigger] ((i as u64) >> k) >= 1 ==> final(self).fs@[((i as u64) >> k) as int] == F::spec_id(),
    {
        let h = bit_length(i);
        let mut k = h;
        let ghost x = i as u64;
        while k > 1
            invariant
                self.wf(),
                self.ss@.len() == old(self).ss@.len(),
                self.fs@.len() == old(self).fs@.len(),
                i < self.ss@.len(),
                k <= h <= 64,
                x == i as u64,
                forall|kk: u64| kk < h ==> #[trigger] (x >> kk) >= 1,
                forall|kk: u64| k <= kk < h ==> self.fs@[#[trigger] (x >> kk) as int] == F::spec_id() && (x >> kk) <= (x >> (k as u64)),
            decreases k,
        {
            k -= 1;
            let iw = i as u64;
            let q = iw >> (k as u64);
            assert(q <= iw / 2) by (bit_vector)
                requires
                    q == iw >> (k as u64),
                    1 <= k < 64;
            let p = q as usize;
            let l = 2 * p;
            let r = 2 * p + 1;
            proof {
                assert(q == (x >> (k as u64)));
                assert(q >= 1);
                assert forall|kk: u64| k + 1 <= kk < h implies (x >> kk) <= q by {
                    lemma_shr_mono(x, (k + 1) as u64, kk);
                    lemma_shr_mono(x, k as u64, (k + 1) as u64);
                }
            }
            let sl = (self.map)(&self.fs[p], &self.ss[l]);
            self.ss.set(l, sl);
            let sr = (self.map)(&self.fs[p], &self.ss[r]);
            self.ss.set(r, sr);
            let fl = self.fs[p].op(&self.fs[l]);
            self.fs.set(l, fl);
            let fr = self.fs[p].op(&self.fs[r]);
            self.fs.set(r, fr);
            self.fs.set(p, F::id());
        }
        proof {
            assert forall|kk: u64| 1 <= kk < 64 && #[trigger] (x >> kk) >= 1 implies self.fs@[(x >> kk) as int] == F::spec_id() by {
                if kk >= h {
                    lemma_shr_mono(x, h as u64, kk);
                }
            }
        }
    }

    /// The product of the leaves `l..r`.
    pub fn prod(&mut self, l: usize, r: usize) -> (v: S)
        requires
            old(self).wf(),
            l <= r <= old(self).len(),
            old(self).len() > 0,
        ensures
            final(self).wf(),
            final(self).len() == old(self).len(),
    {
        let n = self.ss.len() / 2;
        let mut l = l + n;
        let mut r = r + n;
        self.propagate(strip_zeros(l));
        self.propagate(strip_zeros(r) - 1);
        let mut lv = S::id();
        let mut rv = S::id();
        while l < r
            invariant
                self.wf(),
                self.ss@.len() == 2 * n,
                r <= 2 * n,
                l <= r + 1,
            decreases r - l,
        {
            if l % 2 == 1 {
                lv = lv.op(&self.ss[l]);
                l += 1;
            }
            if r % 2 == 1 {
                r -= 1;
                rv = rv.op(&self.ss[r]);
            }
            l /= 2;
            r /= 2;
        }
        lv.op(&rv)
    }

    /// Replaces leaf `i` by `v`: the operations pending above the leaf are passed down
    /// first, so none is left above it and the leaf holds `v` itself; then every node
    /// above the leaf is recomputed as the product of its two children.
    pub fn set(&mut self, i: usize, v: S)
        requires
            old(self).wf(),
            i < old(self).len(),
        ensures
            final(self).wf(),
            final(self).len() == old(self).len(),
            final(self).stored(i as int) == v,
            final(self).clear_above(i as int),
            final(self).sums_above(i as int),
    {
        let n = self.ss.len() / 2;
        let i0 = i;
        let leaf = i + n;
        let mut i = i + n;
        self.propagate(i);
        self.ss.set(i, v);
        let ghost fs1 = self.fs@;
        let ghost xw = leaf as u64;
        let ghost mut kk: u64 = 0;
        proof {
            lemma_shr_mono(xw, 0, 0);
        }
        while i > 1
            invariant
                self.wf(),
                self.ss@.len() == 2 * n,
                i < 2 * n,
                i <= leaf,
                leaf < 2 * n,
                self.ss@[leaf as int] == v,
                self.fs@ == fs1,
                xw == leaf as u64,
                kk < 64,
                i as u64 == (xw >> kk),
                forall|k: u64| 1 <= k <= kk ==> #[trigger] self.sum_at((xw >> k) as int),
            decreases i,
        {
            proof {
                lemma_shr_step(xw, kk);
            }
            i /= 2;
            let x = self.ss[2 * i].op(&self.ss[2 * i + 1]);
            let ghost before = self.ss@;
            let ghost before_t = *self;
            self.ss.set(i, x);
            proof {
                lemma_shr_step(xw, 0);
                assert forall|k: u64| 1 <= k <= kk implies #[trigger] self.sum_at((xw >> k) as int) by {
                    lemma_shr_mono(xw, k, kk);
                    lemma_shr_mono(xw, 1, k);
                    let a = (xw >> k) as int;
                    assert(2 * a <= leaf);
                    assert(2 * a + 1 < 2 * n);
                    assert(a > i);
                    assert(before_t.sum_at(a));
                    assert(before[a] == self.ss@[a]);
                    assert(before[2 * a] == self.ss@[2 * a]);
                    assert(before[2 * a + 1] == self.ss@[2 * a + 1]);
                }
                kk = (kk + 1) as u64;
            }
        }
        proof {
            assert forall|k: u64| 1 <= k < 64 && #[trigger] (((self.len() + i0) as u64) >> k) >= 1 implies self.sum_at((((self.len() + i0) as u64) >> k) as int) by {
                if k > kk {
                    lemma_shr_mono(xw, (kk + 1) as u64, k);
                    lemma_shr_step(xw, kk);
                }
            }
        }
    }

    /// Applies `f` to each of the leaves `l..r`.
    pub fn apply(&mut self, l: usize, r: usize, f: &F)
        requires
            old(self).wf(),
            l <= r <= old(self).len(),
            old(self).len() > 0,
        ensures
            final(self).wf(),
            final(self).len() == old(self).len(),
    {
        let n = self.ss.len() / 2;
        let mut li = l + n;
        let mut ri = r + n;
        let ln = strip_zeros(li);
        let rn = strip_zeros(ri);
        self.propagate(ln);
        self.propagate(rn - 1);
        while li < ri
            invariant
                self.wf(),
                self.ss@.len() == 2 * n,
                ri <= 2 * n,
                li <= ri + 1,
                rn >= 1,
            decreases ri - li,
        {
            if li % 2 == 1 {
                let x = f.op(&self.fs[li]);
                self.fs.set(li, x);
                let y = (self.map)(f, &self.ss[li]);
                self.ss.set(li, y);
                li += 1;
            }
            if ri % 2 == 1 {
                ri -= 1;
                let x = f.op(&self.fs[ri]);
                self.fs.set(ri, x);
                let y = (self.map)(f, &self.ss[ri]);
                self.ss.set(ri, y);
            }
            li /= 2;
            ri /= 2;
        }
        let mut l = (l + n) / 2;
        let mut r = (r + n - 1) / 2;
        while l > 0
            invariant
                self.wf(),
                self.ss@.len() == 2 * n,
                l <= n,
                r < n,
                rn >= 1,
            decreases l,
        {
            if l < ln && 2 * l + 1 < self.ss.len() {
                let x = self.ss[2 * l].op(&self.ss[2 * l + 1]);
                self.ss.set(l, x);
            }
            if r < rn - 1 {
                let x = self.ss[2 * r].op(&self.ss[2 * r + 1]);
                self.ss.set(r, x);
            }
            l /= 2;
            r /= 2;
        }
    }
}

impl<S: Monoid + Clone, F: Monoid, M: Fn(&F, &S) -> S> LazySegTree<S, F, M> {
    /// The tree over the values of `a`.
    pub fn from_slice(a: &[S], map: M) -> (t: Self)
        requires
            a@.len() <= usize::MAX / 8,
            forall|f: &F, s: &S| #[trigger] map.requires((f, s)),
        ensures
            t.wf(),
            t.len() == a@.len(),
    {
        let n = a.len();
        let mut size: usize = 1;
        while size < n
            invariant
                1 <= size,
                n <= usize::MAX / 8,
                size == 1 || size < 2 * n,
            decreases 2 * n - size,
        {
            size = size * 2;
        }
        let len = 2 * size;
        let mut ss: Vec<S> = Vec::new();
        let mut i: usize = 0;
        while i < n
            invariant
                i <= n,
                ss@.len() == i,
            decreases n - i,
        {
            ss.push(S::id());
            i += 1;
        }
        let mut j: usize = 0;
        while j < n
            invariant
                j <= n,
                n == a@.len(),
                ss@.len() == n + j,
            decreases n - j,
        {
            ss.push(a[j].clone());
            j += 1;
        }
        let mut i = n;
        while i > 1
            invariant
                i <= n,
                n <= usize::MAX / 8,
                ss@.len() == 2 * n,
            decreases i,
        {
            i -= 1;
            let x = ss[2 * i].op(&ss[2 * i + 1]);
            ss.set(i, x);
        }
        let mut fs: Vec<F> = Vec::new();
        let mut k: usize = 0;
        while k < len
            invariant
                k <= len,
                fs@.len() == k,
            decreases len - k,
        {
            fs.push(F::id());
            k += 1;
        }
        LazySegTree { ss, fs, map }
    }
}

} // verus!
