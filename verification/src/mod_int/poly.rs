use vstd::prelude::*;
use crate::mod_int::{Mint, ModInt, Mod998244353};
use crate::legacy::dft::{dft, is_pow2, reduced, P};

verus! {

/// A polynomial over the integers modulo 998244353, by its coefficients from the
/// constant term up.
pub struct Poly(Vec<Mint>);

/// The residues of `a` as `i64` values.
fn to_i64(a: &[Mint], n: usize) -> (r: Vec<i64>)
    requires
        n <= a@.len(),
    ensures
        r@.len() == n,
        reduced(r@),
        forall|i: int| 0 <= i < n ==> #[trigger] r@[i] == a@[i].val(),
{
    let mut r: Vec<i64> = Vec::new();
    let mut i: usize = 0;
    while i < n
        invariant
            i <= n,
            n <= a@.len(),
            r@.len() == i,
            reduced(r@),
            forall|k: int| 0 <= k < i ==> #[trigger] r@[k] == a@[k].val(),
        decreases n - i,
    {
        a[i].range();
        r.push(a[i].get() as i64);
        i += 1;
    }
    r
}

/// `a` padded with zeros, or cut, to `len` entries.
fn resized(a: Vec<i64>, len: usize) -> (r: Vec<i64>)
    requires
        reduced(a@),
    ensures
        r@.len() == len,
        reduced(r@),
        forall|i: int| 0 <= i < len && i < a@.len() ==> #[trigger] r@[i] == a@[i],
        forall|i: int| a@.len() <= i < len ==> #[trigger] r@[i] == 0,
{
    let mut r: Vec<i64> = Vec::new();
    let mut i: usize = 0;
    while i < len
        invariant
            i <= len,
            reduced(a@),
            r@.len() == i,
            reduced(r@),
            forall|k: int| 0 <= k < i && k < a@.len() ==> #[trigger] r@[k] == a@[k],
            forall|k: int| a@.len() <= k < i ==> #[trigger] r@[k] == 0,
        decreases len - i,
    {
        if i < a.len() {
            r.push(a[i]);
        } else {
            r.push(0);
        }
        i += 1;
    }
    r
}

proof fn lemma_pow2_double(n: nat)
    requires
        is_pow2(n),
    ensures
        is_pow2(2 * n),
{
    assert((2 * n) / 2 == n);
}

impl Poly {
    /// The coefficients, as residues.
    pub closed spec fn coeffs(&self) -> Seq<nat> {
        self.0@.map_values(|x: Mint| x.val())
    }

    pub fn new() -> (p: Self)
        ensures
            p.coeffs() == Seq::<nat>::empty(),
    {
        let p = Poly(Vec::new());
        assert(p.coeffs() =~= Seq::<nat>::empty());
        p
    }

    /// The polynomial with coefficients `a`.
    pub fn from_vec(a: Vec<Mint>) -> (p: Self)
        ensures
            p.coeffs() == a@.map_values(|x: Mint| x.val()),
    {
        Poly(a)
    }

    /// The coefficients.
    pub fn as_slice(&self) -> (s: &[Mint])
        ensures
            s@.map_values(|x: Mint| x.val()) == self.coeffs(),
    {
        self.0.as_slice()
    }

    pub fn len(&self) -> (n: usize)
        ensures
            n == self.coeffs().len(),
    {
        self.0.len()
    }

    /// Keeps the first `n` coefficients.
    pub fn truncate(&mut self, n: usize)
        ensures
            final(self).coeffs() == old(self).coeffs().take(if n < old(self).coeffs().len() {
                n as int
            } else {
                old(self).coeffs().len() as int
            }),
    {
        let ghost c0 = self.coeffs();
        assert(self.coeffs() =~= c0.take(self.0@.len() as int));
        while self.0.len() > n
            invariant
                self.0@.len() <= c0.len(),
                self.0@.len() >= n || self.0@.len() == c0.len(),
                self.coeffs() == c0.take(self.0@.len() as int),
            decreases self.0@.len(),
        {
            self.0.pop();
            assert(self.coeffs() =~= c0.take(self.0@.len() as int));
        }
        assert(self.coeffs() =~= c0.take(if n < c0.len() {
            n as int
        } else {
            c0.len() as int
        }));
    }

    /// The first `n` coefficients of the inverse power series, by Newton's iteration
    /// `x <- 2 x - a x^2` with the products taken by number-theoretic transforms.
    pub fn inv(self, n: usize) -> (r: Self)
        requires
            self.coeffs().len() >= 1,
            n <= 0x20_0000,
        ensures
            r.coeffs().len() == n,
    {
        let a = to_i64(self.0.as_slice(), self.0.len());
        let x0 = self.0[0].inv();
        x0.range();
        let mut x: Vec<i64> = vec![x0.get() as i64];
        let mut len: usize = 1;
        while len < n
            invariant
                is_pow2(len as nat),
                1 <= len,
                len < 2 * n || len == 1,
                n <= 0x20_0000,
                x@.len() == len,
                reduced(x@),
                reduced(a@),
            decreases 2 * n - len,
        {
            proof {
                lemma_pow2_double(len as nat);
            }
            len = len * 2;
            let x_tmp = x.clone();
            let cut = if a.len() < len { a.len() } else { len };
            let b0 = to_i64_prefix(&a, cut);
            let mut b = resized(b0, 2 * len);
            let mut xx = resized(x, 2 * len);
            proof {
                lemma_pow2_double(len as nat);
            }
            dft(b.as_mut_slice(), false);
            dft(xx.as_mut_slice(), false);
            let mut i: usize = 0;
            while i < 2 * len
                invariant
                    b@.len() == 2 * len,
                    xx@.len() == 2 * len,
                    reduced(b@),
                    reduced(xx@),
                    len <= 0x40_0000,
                decreases 2 * len - i,
            {
                let xi = xx[i];
                let bi = b[i];
                assert(0 <= xi * xi < P * P) by (nonlinear_arith)
                    requires
                        0 <= xi < P,
                ;
                let sq = (xi * xi) % P;
                assert(0 <= bi * sq < P * P) by (nonlinear_arith)
                    requires
                        0 <= bi < P,
                        0 <= sq < P,
                ;
                b.set(i, (bi * sq) % P);
                i += 1;
            }
            dft(b.as_mut_slice(), true);
            x = resized(x_tmp, len);
            let mut i = len / 2;
            while i < len
                invariant
                    x@.len() == len,
                    b@.len() == 2 * len,
                    reduced(x@),
                    reduced(b@),
                decreases len - i,
            {
                let v = (x[i] + x[i] - b[i]) % P;
                let v = if v < 0 { v + P } else { v };
                x.set(i, v);
                i += 1;
            }
        }
        let mut out: Vec<Mint> = Vec::new();
        let mut i: usize = 0;
        while i < n && i < x.len()
            invariant
                out@.len() == i,
                i <= n,
                reduced(x@),
            decreases n - i,
        {
            out.push(ModInt::<Mod998244353>::new(x[i] as u32));
            i += 1;
        }
        Poly(out)
    }
}

/// The first `n` entries of `a`.
fn to_i64_prefix(a: &Vec<i64>, n: usize) -> (r: Vec<i64>)
    requires
        n <= a@.len(),
        reduced(a@),
    ensures
        r@ == a@.take(n as int),
        reduced(r@),
{
    let mut r: Vec<i64> = Vec::new();
    let mut i: usize = 0;
    while i < n
        invariant
            i <= n,
            n <= a@.len(),
            reduced(a@),
            r@ == a@.take(i as int),
        decreases n - i,
    {
        r.push(a[i]);
        i += 1;
        assert(r@ =~= a@.take(i as int));
    }
    r
}

impl std::ops::Neg for Poly {
    type Output = Poly;

    /// Each coefficient negated.
    fn neg(self) -> (r: Poly)
        ensures
            r.coeffs().len() == self.coeffs().len(),
            forall|i: int|
                0 <= i < self.coeffs().len() ==> #[trigger] r.coeffs()[i] == (998244353 - self.coeffs()[i]) % 998244353,
    {
        let mut a = self.0;
        let ghost a0 = a@;
        let mut i: usize = 0;
        while i < a.len()
            invariant
                a@.len() == a0.len(),
                i <= a@.len(),
                forall|k: int| 0 <= k < i ==> #[trigger] a@[k].val() == (998244353 - a0[k].val()) % 998244353,
                forall|k: int| i <= k < a@.len() ==> #[trigger] a@[k] == a0[k],
            decreases a@.len() - i,
        {
            let v = std::ops::Neg::neg(a[i]);
            a.set(i, v);
            i += 1;
        }
        Poly(a)
    }
}

impl vstd::std_specs::ops::NegSpecImpl for Poly {
    open spec fn obeys_neg_spec() -> bool {
        false
    }

    open spec fn neg_req(self) -> bool {
        true
    }

    open spec fn neg_spec(self) -> Poly {
        choose|r: Poly|
            r.coeffs().len() == self.coeffs().len() && forall|i: int|
                0 <= i < self.coeffs().len() ==> #[trigger] r.coeffs()[i] == (998244353 - self.coeffs()[i]) % 998244353
    }
}

} // verus!
