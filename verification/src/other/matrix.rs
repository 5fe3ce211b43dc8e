use vstd::prelude::*;
use crate::vec_util::vec_swap;
use crate::other::mat_algebra::{mul_sq, id_sq, pow_sq, all_canonical, ent, lemma_dot_is_sum, lemma_sum_ext, lemma_div_mod_index, lemma_mul_sq_assoc, lemma_mul_sq_id_left, lemma_mul_sq_id_right, lemma_pow_sq_canonical, lemma_pow_sq_square, lemma_mul_sq_canonical};
use crate::num_lemmas::{lemma_mod_near, lemma_residue_ring, lemma_residue_injective, lemma_residue_shift};
use vstd::arithmetic::div_mod::{lemma_add_mod_noop, lemma_mul_mod_noop, lemma_mod_twice, lemma_small_mod};

verus! {

/// Types with a zero element.
pub trait Zero: Sized {
    spec fn spec_zero() -> Self;

    fn zero() -> (r: Self)
        ensures
            r == Self::spec_zero(),
    ;
}

/// Types with a unit element.
pub trait One: Sized {
    spec fn spec_one() -> Self;

    fn one() -> (r: Self)
        ensures
            r == Self::spec_one(),
    ;
}

/// Entries with `+`, `-` and `*` and their units.
pub trait Ring: Copy + Zero + One {
    spec fn radd(a: Self, b: Self) -> Self;

    spec fn rsub(a: Self, b: Self) -> Self;

    spec fn rmul(a: Self, b: Self) -> Self;

    /// The values in normal form: all of them, or for residues those below the modulus.
    spec fn canonical(a: Self) -> bool;

    /// `+` and `*` make a commutative ring with units `zero` and `one` on the
    /// values in normal form, and the operations give values in normal form.
    proof fn lemma_ring_laws(a: Self, b: Self, c: Self)
        ensures
            Self::canonical(Self::radd(a, b)),
            Self::canonical(Self::rmul(a, b)),
            Self::canonical(Self::spec_zero()),
            Self::canonical(Self::spec_one()),
            Self::radd(a, b) == Self::radd(b, a),
            Self::radd(Self::radd(a, b), c) == Self::radd(a, Self::radd(b, c)),
            Self::canonical(a) ==> Self::radd(Self::spec_zero(), a) == a,
            Self::rmul(Self::rmul(a, b), c) == Self::rmul(a, Self::rmul(b, c)),
            Self::canonical(a) ==> Self::rmul(Self::spec_one(), a) == a,
            Self::canonical(a) ==> Self::rmul(a, Self::spec_one()) == a,
            Self::rmul(Self::spec_zero(), a) == Self::spec_zero(),
            Self::rmul(a, Self::spec_zero()) == Self::spec_zero(),
            Self::rmul(a, Self::radd(b, c)) == Self::radd(Self::rmul(a, b), Self::rmul(a, c)),
            Self::rmul(Self::radd(a, b), c) == Self::radd(Self::rmul(a, c), Self::rmul(b, c)),
    ;

    fn plus(a: Self, b: Self) -> (r: Self)
        ensures
            r == Self::radd(a, b),
    ;

    fn minus(a: Self, b: Self) -> (r: Self)
        ensures
            r == Self::rsub(a, b),
    ;

    fn times(a: Self, b: Self) -> (r: Self)
        ensures
            r == Self::rmul(a, b),
    ;

    fn is_zero(a: Self) -> (r: bool)
        ensures
            r == (a == Self::spec_zero()),
    ;
}

/// A [`Ring`] whose nonzero elements can be divided by.
pub trait Field: Ring {
    spec fn rdiv(a: Self, b: Self) -> Self;

    fn over(a: Self, b: Self) -> (r: Self)
        requires
            b != Self::spec_zero(),
        ensures
            r == Self::rdiv(a, b),
    ;
}

/// Entries with a bitwise exclusive or.
pub trait Xor: Copy {
    spec fn rxor(a: Self, b: Self) -> Self;

    fn xor(a: Self, b: Self) -> (r: Self)
        ensures
            r == Self::rxor(a, b),
    ;
}

impl Zero for i32 {
    open spec fn spec_zero() -> Self {
        0
    }

    fn zero() -> (r: Self) {
        0
    }
}

impl One for i32 {
    open spec fn spec_one() -> Self {
        1
    }

    fn one() -> (r: Self) {
        1
    }
}

/// Machine integers form the ring of residues modulo `2^bits`: the operations wrap.
impl Ring for i32 {
    open spec fn canonical(a: Self) -> bool {
        true
    }

    open spec fn radd(a: Self, b: Self) -> Self {
        a.wrapping_add(b)
    }

    open spec fn rsub(a: Self, b: Self) -> Self {
        a.wrapping_sub(b)
    }

    open spec fn rmul(a: Self, b: Self) -> Self {
        a.wrapping_mul(b)
    }

    proof fn lemma_ring_laws(a: Self, b: Self, c: Self) {
        let r: int = 0x1_0000_0000;
        assert forall|x: i32, y: i32| (#[trigger] x.wrapping_add(y) as int) % r == ((x as int) % r + (y as int) % r) % r by {
            lemma_add_mod_noop(x as int, y as int, r);
            lemma_residue_shift(x + y, r);
        }
        assert forall|x: i32, y: i32| (#[trigger] x.wrapping_mul(y) as int) % r == (((x as int) % r) * ((y as int) % r)) % r by {
            lemma_mul_mod_noop(x as int, y as int, r);
            lemma_mod_twice(x * y, r);
            lemma_residue_shift((x * y) % r, r);
        }
        lemma_small_mod(0, r as nat);
        lemma_small_mod(1, r as nat);
        lemma_residue_ring((a as int) % r, (b as int) % r, (c as int) % r, r);
        let lo: int = -0x8000_0000;
        lemma_residue_injective(Self::radd(a, b) as int, Self::radd(b, a) as int, lo, r);
        lemma_residue_injective(Self::radd(Self::radd(a, b), c) as int, Self::radd(a, Self::radd(b, c)) as int, lo, r);
        lemma_residue_injective(Self::radd(0, a) as int, a as int, lo, r);
        lemma_residue_injective(Self::rmul(Self::rmul(a, b), c) as int, Self::rmul(a, Self::rmul(b, c)) as int, lo, r);
        lemma_residue_injective(Self::rmul(1, a) as int, a as int, lo, r);
        lemma_residue_injective(Self::rmul(a, 1) as int, a as int, lo, r);
        lemma_residue_injective(Self::rmul(0, a) as int, 0, lo, r);
        lemma_residue_injective(Self::rmul(a, 0) as int, 0, lo, r);
        lemma_residue_injective(
            Self::rmul(a, Self::radd(b, c)) as int,
            Self::radd(Self::rmul(a, b), Self::rmul(a, c)) as int,
            lo,
            r,
        );
        lemma_residue_injective(
            Self::rmul(Self::radd(a, b), c) as int,
            Self::radd(Self::rmul(a, c), Self::rmul(b, c)) as int,
            lo,
            r,
        );
    }

    fn plus(a: Self, b: Self) -> (r: Self) {
        a.wrapping_add(b)
    }

    fn minus(a: Self, b: Self) -> (r: Self) {
        a.wrapping_sub(b)
    }

    fn times(a: Self, b: Self) -> (r: Self) {
        a.wrapping_mul(b)
    }

    fn is_zero(a: Self) -> (r: bool) {
        a == 0
    }
}

impl Xor for i32 {
    open spec fn rxor(a: Self, b: Self) -> Self {
        a ^ b
    }

    fn xor(a: Self, b: Self) -> (r: Self) {
        a ^ b
    }
}

impl Zero for i64 {
    open spec fn spec_zero() -> Self {
        0
    }

    fn zero() -> (r: Self) {
        0
    }
}

impl One for i64 {
    open spec fn spec_one() -> Self {
        1
    }

    fn one() -> (r: Self) {
        1
    }
}

/// Machine integers form the ring of residues modulo `2^bits`: the operations wrap.
impl Ring for i64 {
    open spec fn canonical(a: Self) -> bool {
        true
    }

    open spec fn radd(a: Self, b: Self) -> Self {
        a.wrapping_add(b)
    }

    open spec fn rsub(a: Self, b: Self) -> Self {
        a.wrapping_sub(b)
    }

    open spec fn rmul(a: Self, b: Self) -> Self {
        a.wrapping_mul(b)
    }

    proof fn lemma_ring_laws(a: Self, b: Self, c: Self) {
        let r: int = 0x1_0000_0000_0000_0000;
        assert forall|x: i64, y: i64| (#[trigger] x.wrapping_add(y) as int) % r == ((x as int) % r + (y as int) % r) % r by {
            lemma_add_mod_noop(x as int, y as int, r);
            lemma_residue_shift(x + y, r);
        }
        assert forall|x: i64, y: i64| (#[trigger] x.wrapping_mul(y) as int) % r == (((x as int) % r) * ((y as int) % r)) % r by {
            lemma_mul_mod_noop(x as int, y as int, r);
            lemma_mod_twice(x * y, r);
            lemma_residue_shift((x * y) % r, r);
        }
        lemma_small_mod(0, r as nat);
        lemma_small_mod(1, r as nat);
        lemma_residue_ring((a as int) % r, (b as int) % r, (c as int) % r, r);
        let lo: int = -0x8000_0000_0000_0000;
        lemma_residue_injective(Self::radd(a, b) as int, Self::radd(b, a) as int, lo, r);
        lemma_residue_injective(Self::radd(Self::radd(a, b), c) as int, Self::radd(a, Self::radd(b, c)) as int, lo, r);
        lemma_residue_injective(Self::radd(0, a) as int, a as int, lo, r);
        lemma_residue_injective(Self::rmul(Self::rmul(a, b), c) as int, Self::rmul(a, Self::rmul(b, c)) as int, lo, r);
        lemma_residue_injective(Self::rmul(1, a) as int, a as int, lo, r);
        lemma_residue_injective(Self::rmul(a, 1) as int, a as int, lo, r);
        lemma_residue_injective(Self::rmul(0, a) as int, 0, lo, r);
        lemma_residue_injective(Self::rmul(a, 0) as int, 0, lo, r);
        lemma_residue_injective(
            Self::rmul(a, Self::radd(b, c)) as int,
            Self::radd(Self::rmul(a, b), Self::rmul(a, c)) as int,
            lo,
            r,
        );
        lemma_residue_injective(
            Self::rmul(Self::radd(a, b), c) as int,
            Self::radd(Self::rmul(a, c), Self::rmul(b, c)) as int,
            lo,
            r,
        );
    }

    fn plus(a: Self, b: Self) -> (r: Self) {
        a.wrapping_add(b)
    }

    fn minus(a: Self, b: Self) -> (r: Self) {
        a.wrapping_sub(b)
    }

    fn times(a: Self, b: Self) -> (r: Self) {
        a.wrapping_mul(b)
    }

    fn is_zero(a: Self) -> (r: bool) {
        a == 0
    }
}

impl Xor for i64 {
    open spec fn rxor(a: Self, b: Self) -> Self {
        a ^ b
    }

    fn xor(a: Self, b: Self) -> (r: Self) {
        a ^ b
    }
}

impl Zero for u32 {
    open spec fn spec_zero() -> Self {
        0
    }

    fn zero() -> (r: Self) {
        0
    }
}

impl One for u32 {
    open spec fn spec_one() -> Self {
        1
    }

    fn one() -> (r: Self) {
        1
    }
}

/// Machine integers form the ring of residues modulo `2^bits`: the operations wrap.
impl Ring for u32 {
    open spec fn canonical(a: Self) -> bool {
        true
    }

    open spec fn radd(a: Self, b: Self) -> Self {
        a.wrapping_add(b)
    }

    open spec fn rsub(a: Self, b: Self) -> Self {
        a.wrapping_sub(b)
    }

    open spec fn rmul(a: Self, b: Self) -> Self {
        a.wrapping_mul(b)
    }

    proof fn lemma_ring_laws(a: Self, b: Self, c: Self) {
        let r: int = 0x1_0000_0000;
        assert forall|x: u32, y: u32| #[trigger] x.wrapping_add(y) as int == (x + y) % r by {
            lemma_mod_near(x + y, r);
        }
        assert forall|x: u32, y: u32| #[trigger] x.wrapping_mul(y) as int == (x * y) % r by {}
        lemma_residue_ring(a as int, b as int, c as int, r);
    }

    fn plus(a: Self, b: Self) -> (r: Self) {
        a.wrapping_add(b)
    }

    fn minus(a: Self, b: Self) -> (r: Self) {
        a.wrapping_sub(b)
    }

    fn times(a: Self, b: Self) -> (r: Self) {
        a.wrapping_mul(b)
    }

    fn is_zero(a: Self) -> (r: bool) {
        a == 0
    }
}

impl Xor for u32 {
    open spec fn rxor(a: Self, b: Self) -> Self {
        a ^ b
    }

    fn xor(a: Self, b: Self) -> (r: Self) {
        a ^ b
    }
}

impl Zero for u64 {
    open spec fn spec_zero() -> Self {
        0
    }

    fn zero() -> (r: Self) {
        0
    }
}

impl One for u64 {
    open spec fn spec_one() -> Self {
        1
    }

    fn one() -> (r: Self) {
        1
    }
}

/// Machine integers form the ring of residues modulo `2^bits`: the operations wrap.
impl Ring for u64 {
    open spec fn canonical(a: Self) -> bool {
        true
    }

    open spec fn radd(a: Self, b: Self) -> Self {
        a.wrapping_add(b)
    }

    open spec fn rsub(a: Self, b: Self) -> Self {
        a.wrapping_sub(b)
    }

    open spec fn rmul(a: Self, b: Self) -> Self {
        a.wrapping_mul(b)
    }

    proof fn lemma_ring_laws(a: Self, b: Self, c: Self) {
        let r: int = 0x1_0000_0000_0000_0000;
        assert forall|x: u64, y: u64| #[trigger] x.wrapping_add(y) as int == (x + y) % r by {
            lemma_mod_near(x + y, r);
        }
        assert forall|x: u64, y: u64| #[trigger] x.wrapping_mul(y) as int == (x * y) % r by {}
        lemma_residue_ring(a as int, b as int, c as int, r);
    }

    fn plus(a: Self, b: Self) -> (r: Self) {
        a.wrapping_add(b)
    }

    fn minus(a: Self, b: Self) -> (r: Self) {
        a.wrapping_sub(b)
    }

    fn times(a: Self, b: Self) -> (r: Self) {
        a.wrapping_mul(b)
    }

    fn is_zero(a: Self) -> (r: bool) {
        a == 0
    }
}

impl Xor for u64 {
    open spec fn rxor(a: Self, b: Self) -> Self {
        a ^ b
    }

    fn xor(a: Self, b: Self) -> (r: Self) {
        a ^ b
    }
}

/// An `n` by `m` matrix stored row after row.
#[derive(Clone, PartialEq, Eq, Debug, Hash)]
pub struct Matrix<T> {
    data: Vec<T>,
    n: usize,
    m: usize,
}

impl<T> Matrix<T> {
    /// The entries fill the `rows() * cols()` grid exactly.
    pub open spec fn wf(&self) -> bool {
        self.entries().len() == self.rows() * self.cols()
    }

    /// All entries, row after row.
    pub closed spec fn entries(&self) -> Seq<T> {
        self.data@
    }

    pub closed spec fn rows(&self) -> nat {
        self.n as nat
    }

    pub closed spec fn cols(&self) -> nat {
        self.m as nat
    }

    /// The entry in row `i`, column `j`.
    pub open spec fn at(&self, i: int, j: int) -> T {
        self.entries()[i * self.cols() + j]
    }

    /// Row `i`.
    pub open spec fn row(&self, i: int) -> Seq<T> {
        self.entries().subrange(self.cols() * i, self.cols() * (i + 1))
    }

    /// Every entry a clone of `x`.
    pub fn repeat(n: usize, m: usize, x: T) -> (a: Self)
        where
            T: Clone,
        requires
            n * m <= usize::MAX,
        ensures
            a.wf(),
            a.rows() == n,
            a.cols() == m,
            a.entries().len() == n * m,
            forall|k: int| 0 <= k < n * m ==> cloned(x, #[trigger] a.entries()[k]),
    {
        let data = vec![x; n * m];
        Matrix { data, n, m }
    }

    /// Every entry a result of a call of `f`, in order.
    pub fn repeat_with<F: Fn() -> T>(n: usize, m: usize, f: F) -> (a: Self)
        requires
            n * m <= usize::MAX,
            f.requires(()),
        ensures
            a.wf(),
            a.rows() == n,
            a.cols() == m,
            a.entries().len() == n * m,
            forall|k: int| 0 <= k < n * m ==> f.ensures((), #[trigger] a.entries()[k]),
    {
        let total = n * m;
        let mut data: Vec<T> = Vec::new();
        let mut k: usize = 0;
        while k < total
            invariant
                k <= total,
                data@.len() == k,
                f.requires(()),
                forall|j: int| 0 <= j < k ==> f.ensures((), #[trigger] data@[j]),
            decreases total - k,
        {
            data.push(f());
            k += 1;
        }
        Matrix { data, n, m }
    }

    /// The first `n * m` elements of `elems`, row after row.
    pub fn from_elems(n: usize, m: usize, elems: Vec<T>) -> (a: Self)
        requires
            n * m <= usize::MAX,
            elems@.len() >= n * m,
        ensures
            a.wf(),
            a.rows() == n,
            a.cols() == m,
            a.entries() == elems@.take(n * m),
    {
        let mut data = elems;
        data.truncate(n * m);
        Matrix { data, n, m }
    }

    /// The `n` by `m` zero matrix.
    pub fn zeros(n: usize, m: usize) -> (a: Self)
        where
            T: Zero,
        requires
            n * m <= usize::MAX,
        ensures
            a.wf(),
            a.rows() == n,
            a.cols() == m,
            a.entries() == Seq::new((n * m) as nat, |k: int| T::spec_zero()),
    {
        let total = n * m;
        let mut data: Vec<T> = Vec::new();
        let mut k: usize = 0;
        while k < total
            invariant
                k <= total,
                data@ == Seq::new(k as nat, |j: int| T::spec_zero()),
            decreases total - k,
        {
            data.push(T::zero());
            k += 1;
            assert(data@ =~= Seq::new(k as nat, |j: int| T::spec_zero()));
        }
        Matrix { data, n, m }
    }

    /// The `n` by `n` identity matrix.
    pub fn id(n: usize) -> (a: Self)
        where
            T: Zero + One,
        requires
            n * n <= usize::MAX,
        ensures
            a.wf(),
            a.rows() == n,
            a.cols() == n,
            a.entries().len() == n * n,
            forall|i: int, j: int|
                0 <= i < n && 0 <= j < n ==> #[trigger] a.at(i, j) == if i == j {
                    T::spec_one()
                } else {
                    T::spec_zero()
                },
    {
        let mut a = Self::zeros(n, n);
        proof {
            assert forall|p: int, q: int| 0 <= p < n && 0 <= q < n implies #[trigger] a.at(p, q)
                == T::spec_zero() by {
                lemma_index_in(n as int, n as int, p, q);
            }
        }
        let mut i: usize = 0;
        while i < n
            invariant
                i <= n,
                n * n <= usize::MAX,
                a.wf(),
                a.rows() == n,
                a.cols() == n,
                forall|p: int, q: int|
                    0 <= p < n && 0 <= q < n ==> #[trigger] a.at(p, q) == if p == q && p < i {
                        T::spec_one()
                    } else {
                        T::spec_zero()
                    },
            decreases n - i,
        {
            proof {
                lemma_index_in(n as int, n as int, i as int, i as int);
            }
            let ghost a0 = a;
            a.data.set(i * n + i, T::one());
            proof {
                assert forall|p: int, q: int| 0 <= p < n && 0 <= q < n implies #[trigger] a.at(p, q)
                    == if p == q && p < i + 1 {
                    T::spec_one()
                } else {
                    T::spec_zero()
                } by {
                    lemma_index_in(n as int, n as int, p, q);
                    if p != i || q != i {
                        lemma_index_ne(n as int, p, q, i as int, i as int);
                        assert(a.at(p, q) == a0.at(p, q));
                    }
                }
            }
            i += 1;
        }
        a
    }

    pub fn len(&self) -> (n: usize)
        ensures
            n == self.rows(),
    {
        self.n
    }

    pub fn dim(&self) -> (d: (usize, usize))
        ensures
            d == (self.rows() as usize, self.cols() as usize),
    {
        (self.n, self.m)
    }

    pub fn is_square(&self) -> (b: bool)
        ensures
            b == (self.rows() == self.cols()),
    {
        self.n == self.m
    }

    /// Row `i`, or `None` when there is no such row.
    pub fn get(&self, i: usize) -> (r: Option<&[T]>)
        requires
            self.wf(),
            (i + 1) * self.cols() <= usize::MAX,
        ensures
            i < self.rows() ==> (r matches Some(s) && s@ == self.row(i as int)),
            i >= self.rows() && self.cols() > 0 ==> r is None,
    {
        proof {
            
            assert(self.m * i + self.m == (i + 1) * self.m) by (nonlinear_arith);
            assert(self.m * (i + 1) == (i + 1) * self.m) by (nonlinear_arith);
            assert(i < self.n ==> (i + 1) * self.m <= self.n * self.m) by (nonlinear_arith);
            assert(i >= self.n && self.m > 0 ==> (i + 1) * self.m > self.n * self.m) by (nonlinear_arith);
        }
        let lo = self.m * i;
        let hi = lo + self.m;
        if hi <= self.data.len() {
            Some(&self.data.as_slice()[lo..hi])
        } else {
            None
        }
    }

    pub fn elems(&self) -> (s: &[T])
        ensures
            s@ == self.entries(),
    {
        self.data.as_slice()
    }

    pub fn elems_mut(&mut self) -> (s: &mut [T])
        ensures
            s@ == old(self).entries(),
            final(self).entries() == final(s)@,
            final(self).rows() == old(self).rows(),
            final(self).cols() == old(self).cols(),
    {
        self.data.as_mut_slice()
    }

    /// Row `i` for writing, or `None` when there is no such row.
    pub fn get_mut(&mut self, i: usize) -> (r: Option<&mut [T]>)
        requires
            old(self).wf(),
            (i + 1) * old(self).cols() <= usize::MAX,
        ensures
            final(self).rows() == old(self).rows(),
            final(self).cols() == old(self).cols(),
            i < old(self).rows() ==> (r matches Some(s) && s@ == old(self).row(i as int) && final(self).entries()
                == old(self).entries().take(i * old(self).cols()) + final(s)@ + old(self).entries().skip(
                (i + 1) * old(self).cols(),
            )),
            i >= old(self).rows() && old(self).cols() > 0 ==> r is None && final(self).entries() == old(
                self,
            ).entries(),
    {
        proof {
            assert(self.m * i + self.m == (i + 1) * self.m) by (nonlinear_arith);
            assert(self.m * (i + 1) == (i + 1) * self.m) by (nonlinear_arith);
            assert(self.m * i == i * self.m) by (nonlinear_arith);
            assert(i < self.n ==> (i + 1) * self.m <= self.n * self.m) by (nonlinear_arith);
            assert(i >= self.n && self.m > 0 ==> (i + 1) * self.m > self.n * self.m) by (nonlinear_arith);
        }
        let lo = self.m * i;
        let hi = lo + self.m;
        if hi <= self.data.len() {
            let (_, rest) = self.data.as_mut_slice().split_at_mut(lo);
            let (row, _) = rest.split_at_mut(hi - lo);
            Some(row)
        } else {
            None
        }
    }

    /// The transpose.
    pub fn transpose(self) -> (t: Self)
        where
            T: Copy,
        requires
            self.wf(),
        ensures
            t.wf(),
            t.rows() == self.cols(),
            t.cols() == self.rows(),
            forall|i: int, j: int| 0 <= i < t.rows() && 0 <= j < t.cols() ==> #[trigger] t.at(i, j) == self.at(j, i),
    {
        let n = self.n;
        let m = self.m;
        let total = self.data.len();
        let mut data: Vec<T> = Vec::new();
        let mut j: usize = 0;
        while j < m
            invariant
                self.wf(),
                n == self.rows(),
                m == self.cols(),
                total == self.entries().len(),
                j <= m,
                data@.len() == j * n,
                forall|p: int, q: int| 0 <= p < j && 0 <= q < n ==> #[trigger] data@[p * n + q] == self.at(q, p),
            decreases m - j,
        {
            let mut i: usize = 0;
            while i < n
                invariant
                    self.wf(),
                    n == self.rows(),
                    m == self.cols(),
                    total == self.entries().len(),
                    j < m,
                    i <= n,
                    data@.len() == j * n + i,
                    forall|p: int, q: int| 0 <= p < j && 0 <= q < n ==> #[trigger] data@[p * n + q] == self.at(q, p),
                    forall|q: int| 0 <= q < i ==> #[trigger] data@[j * n + q] == self.at(q, j as int),
                decreases n - i,
            {
                proof {
                    lemma_index_in(n as int, m as int, i as int, j as int);
                }
                let ghost before = data@;
                data.push(self.data[i * m + j]);
                proof {
                    assert forall|p: int, q: int| 0 <= p < j && 0 <= q < n implies #[trigger] data@[p * n + q]
                        == self.at(q, p) by {
                        lemma_index_in(j as int, n as int, p, q);
                        assert(data@[p * n + q] == before[p * n + q]);
                    }
                }
                i += 1;
            }
            proof {
                assert(j * n + n == (j + 1) * n) by (nonlinear_arith);
                assert forall|p: int, q: int| 0 <= p < j + 1 && 0 <= q < n implies #[trigger] data@[p * n + q]
                    == self.at(q, p) by {
                    if p == j {
                        assert(data@[j * n + q] == self.at(q, j as int));
                    }
                }
            }
            j += 1;
        }
        proof {
            assert(data@.len() == m * n) by (nonlinear_arith)
                requires data@.len() == j * n, j == m;
        }
        Matrix { data, n: m, m: n }
    }

    /// The entry at `(i, j)`.
    fn entry(&self, i: usize, j: usize) -> (x: T)
        where
            T: Copy,
        requires
            self.wf(),
            i < self.rows(),
            j < self.cols(),
        ensures
            x == self.at(i as int, j as int),
    {
        let total = self.data.len();
        proof {
            lemma_index_in(self.n as int, self.m as int, i as int, j as int);
        }
        self.data[i * self.m + j]
    }

    /// Overwrites the entry at `(i, j)`.
    fn set_entry(&mut self, i: usize, j: usize, x: T)
        requires
            old(self).wf(),
            i < old(self).rows(),
            j < old(self).cols(),
        ensures
            final(self).wf(),
            final(self).same_shape(old(self)),
            forall|p: int, q: int|
                0 <= p < old(self).rows() && 0 <= q < old(self).cols() ==> #[trigger] final(self).at(p, q)
                    == if p == i && q == j {
                    x
                } else {
                    old(self).at(p, q)
                },
    {
        let total = self.data.len();
        proof {
            lemma_index_in(self.n as int, self.m as int, i as int, j as int);
        }
        let ghost s0 = *self;
        self.data.set(i * self.m + j, x);
        proof {
            assert forall|p: int, q: int|
                0 <= p < s0.rows() && 0 <= q < s0.cols() implies #[trigger] self.at(p, q) == if p == i && q == j {
                x
            } else {
                s0.at(p, q)
            } by {
                lemma_index_in(s0.rows() as int, s0.cols() as int, p, q);
                if p != i || q != j {
                    lemma_index_ne(s0.cols() as int, p, q, i as int, j as int);
                }
            }
        }
    }

    /// Exchanges rows `i1` and `i2`.
    pub fn swap(&mut self, i1: usize, i2: usize)
        requires
            old(self).wf(),
            i1 < old(self).rows(),
            i2 < old(self).rows(),
        ensures
            final(self).wf(),
            final(self).rows() == old(self).rows(),
            final(self).cols() == old(self).cols(),
            forall|i: int, j: int|
                0 <= i < old(self).rows() && 0 <= j < old(self).cols() ==> #[trigger] final(self).at(i, j)
                    == old(self).at(if i == i1 { i2 as int } else if i == i2 { i1 as int } else { i }, j),
    {
        let ghost m = self.m as int;
        let total = self.data.len();
        assert(self.n * self.m <= usize::MAX);
        if i1 != i2 {
            let (lo, hi) = if i1 < i2 { (i1, i2) } else { (i2, i1) };
            let mut j: usize = 0;
            while j < self.m
                invariant
                    lo < hi < self.n,
                    lo == i1 || lo == i2,
                    hi == i1 || hi == i2,
                    self.n == old(self).n,
                    self.m == old(self).m,
                    m == self.m,
                    self.wf(),
                    old(self).wf(),
                    self.n * self.m <= usize::MAX,
                    j <= self.m,
                    forall|p: int, q: int|
                        0 <= p < self.n && 0 <= q < m ==> #[trigger] self.at(p, q) == old(self).at(
                            if q < j && p == lo { hi as int } else if q < j && p == hi { lo as int } else { p },
                            q,
                        ),
                decreases self.m - j,
            {
                proof {
                    lemma_index_in(self.n as int, m, lo as int, j as int);
                    lemma_index_in(self.n as int, m, hi as int, j as int);
                    lemma_index_ne(m, lo as int, j as int, hi as int, j as int);
                    assert(self.m * lo == lo * self.m && self.m * hi == hi * self.m) by (nonlinear_arith);
                    assert(lo * m + j < hi * m + j) by (nonlinear_arith)
                        requires lo < hi, 0 <= j < m;
                }
                let ghost s0 = *self;
                vec_swap(&mut self.data, self.m * lo + j, self.m * hi + j);
                proof {
                    assert forall|p: int, q: int| 0 <= p < self.n && 0 <= q < m implies #[trigger] self.at(p, q)
                        == old(self).at(
                        if q < j + 1 && p == lo { hi as int } else if q < j + 1 && p == hi { lo as int } else { p },
                        q,
                    ) by {
                        lemma_index_in(self.n as int, m, p, q);
                        if p != lo || q != j {
                            lemma_index_ne(m, p, q, lo as int, j as int);
                        }
                        if p != hi || q != j {
                            lemma_index_ne(m, p, q, hi as int, j as int);
                        }
                        assert(s0.at(p, q) == old(self).at(
                            if q < j && p == lo { hi as int } else if q < j && p == hi { lo as int } else { p },
                            q,
                        ));
                        assert(s0.at(lo as int, j as int) == old(self).at(lo as int, j as int));
                        assert(s0.at(hi as int, j as int) == old(self).at(hi as int, j as int));
                    }
                }
                j += 1;
            }
        }
    }

    /// A cursor over the rows, from the first.
    pub fn iter(&self) -> (it: Iter<'_, T>)
        ensures
            it.matrix() == self,
            it.pos() == 0,
    {
        Iter { mat: self, i: 0 }
    }
}

/// `sum_{k < len} a[k] * b[k]`, added from the front.
pub open spec fn dot<T: Ring>(a: Seq<T>, b: Seq<T>, len: nat) -> T
    decreases len,
{
    if len == 0 {
        T::spec_zero()
    } else {
        T::radd(dot(a, b, (len - 1) as nat), T::rmul(a[len - 1], b[len - 1]))
    }
}

/// How two entries at the same place combine.
#[derive(Clone, Copy, PartialEq, Eq, Structural, Debug)]
pub enum EntryOp {
    Plus,
    Minus,
}

pub open spec fn entry_op<T: Ring>(op: EntryOp, x: T, y: T) -> T {
    match op {
        EntryOp::Plus => T::radd(x, y),
        EntryOp::Minus => T::rsub(x, y),
    }
}

impl<T> Matrix<T> {
    /// Column `j`.
    pub open spec fn col(&self, j: int) -> Seq<T> {
        Seq::new(self.rows(), |k: int| self.at(k, j))
    }

    /// The same shape as `other`.
    pub open spec fn same_shape<U>(&self, other: &Matrix<U>) -> bool {
        self.rows() == other.rows() && self.cols() == other.cols()
    }
}

impl<T: Ring> Matrix<T> {
    /// Combines the entries of two matrices of one shape place by place.
    fn zip_entries(&self, rhs: &Self, op: EntryOp) -> (r: Self)
        requires
            self.wf(),
            rhs.wf(),
            self.same_shape(rhs),
        ensures
            r.wf(),
            r.same_shape(self),
            r.entries() == Seq::new(
                self.entries().len(),
                |k: int| entry_op(op, self.entries()[k], rhs.entries()[k]),
            ),
    {
        let len = self.data.len();
        let mut data: Vec<T> = Vec::new();
        let mut k: usize = 0;
        while k < len
            invariant
                k <= len,
                len == self.entries().len(),
                self.entries().len() == rhs.entries().len(),
                data@ == Seq::new(k as nat, |q: int| entry_op(op, self.entries()[q], rhs.entries()[q])),
            decreases len - k,
        {
            let x = self.data[k];
            let y = rhs.data[k];
            let z = match op {
                EntryOp::Plus => T::plus(x, y),
                EntryOp::Minus => T::minus(x, y),
            };
            data.push(z);
            k += 1;
            assert(data@ =~= Seq::new(k as nat, |q: int| entry_op(op, self.entries()[q], rhs.entries()[q])));
        }
        Matrix { data, n: self.n, m: self.m }
    }

    /// Every entry times `x`.
    pub fn scale(&self, x: T) -> (r: Self)
        requires
            self.wf(),
        ensures
            r.wf(),
            r.same_shape(self),
            r.entries() == Seq::new(self.entries().len(), |k: int| T::rmul(self.entries()[k], x)),
    {
        let len = self.data.len();
        let mut data: Vec<T> = Vec::new();
        let mut k: usize = 0;
        while k < len
            invariant
                k <= len,
                len == self.entries().len(),
                data@ == Seq::new(k as nat, |q: int| T::rmul(self.entries()[q], x)),
            decreases len - k,
        {
            data.push(T::times(self.data[k], x));
            k += 1;
            assert(data@ =~= Seq::new(k as nat, |q: int| T::rmul(self.entries()[q], x)));
        }
        Matrix { data, n: self.n, m: self.m }
    }

    /// Every entry subtracted from zero.
    pub fn negated(&self) -> (r: Self)
        requires
            self.wf(),
        ensures
            r.wf(),
            r.same_shape(self),
            r.entries() == Seq::new(
                self.entries().len(),
                |k: int| T::rsub(T::spec_zero(), self.entries()[k]),
            ),
    {
        let len = self.data.len();
        let mut data: Vec<T> = Vec::new();
        let mut k: usize = 0;
        while k < len
            invariant
                k <= len,
                len == self.entries().len(),
                data@ == Seq::new(k as nat, |q: int| T::rsub(T::spec_zero(), self.entries()[q])),
            decreases len - k,
        {
            data.push(T::minus(T::zero(), self.data[k]));
            k += 1;
            assert(data@ =~= Seq::new(k as nat, |q: int| T::rsub(T::spec_zero(), self.entries()[q])));
        }
        Matrix { data, n: self.n, m: self.m }
    }

    /// `sum_{k < len} self[i][k] * v[k]` for the row `i`.
    fn row_dot(&self, i: usize, v: &[T]) -> (r: T)
        requires
            self.wf(),
            i < self.rows(),
            v@.len() == self.cols(),
        ensures
            r == dot(self.row(i as int), v@, self.cols()),
    {
        let m = self.m;
        let total = self.data.len();
        proof {
            lemma_row_index(self.rows() as int, m as int, i as int);
        }
        let mut x = T::zero();
        let mut k: usize = 0;
        while k < m
            invariant
                self.wf(),
                i < self.rows(),
                m == self.cols(),
                total == self.entries().len(),
                m * i == i * m,
                m * (i + 1) == i * m + m,
                i * m + m <= total,
                v@.len() == m,
                k <= m,
                x == dot(self.row(i as int), v@, k as nat),
            decreases m - k,
        {
            proof {
                lemma_index_in(self.rows() as int, m as int, i as int, k as int);
            }
            let a = self.data[i * m + k];
            assert(a == self.row(i as int)[k as int]);
            x = T::plus(x, T::times(a, v[k]));
            k += 1;
        }
        x
    }

    /// The product `self * rhs`.
    pub(crate) fn product(&self, rhs: &Self) -> (r: Self)
        requires
            self.wf(),
            rhs.wf(),
            self.cols() == rhs.rows(),
            self.rows() * rhs.cols() <= usize::MAX,
        ensures
            r.wf(),
            r.rows() == self.rows(),
            r.cols() == rhs.cols(),
            forall|i: int, j: int|
                0 <= i < r.rows() && 0 <= j < r.cols() ==> #[trigger] r.at(i, j) == dot(
                    self.row(i),
                    rhs.col(j),
                    self.cols(),
                ),
    {
        let n = self.n;
        let h = self.m;
        let m = rhs.m;
        let mut data: Vec<T> = Vec::new();
        let mut i: usize = 0;
        while i < n
            invariant
                self.wf(),
                rhs.wf(),
                n == self.rows(),
                h == self.cols(),
                h == rhs.rows(),
                m == rhs.cols(),
                n * m <= usize::MAX,
                i <= n,
                data@.len() == i * m,
                forall|p: int, q: int|
                    0 <= p < i && 0 <= q < m ==> #[trigger] data@[p * m + q] == dot(
                        self.row(p),
                        rhs.col(q),
                        h as nat,
                    ),
            decreases n - i,
        {
            let col_start = data.len();
            let mut j: usize = 0;
            while j < m
                invariant
                    self.wf(),
                    rhs.wf(),
                    n == self.rows(),
                    h == self.cols(),
                    h == rhs.rows(),
                    m == rhs.cols(),
                    n * m <= usize::MAX,
                    i < n,
                    j <= m,
                    col_start == i * m,
                    data@.len() == i * m + j,
                    forall|p: int, q: int|
                        0 <= p < i && 0 <= q < m ==> #[trigger] data@[p * m + q] == dot(
                            self.row(p),
                            rhs.col(q),
                            h as nat,
                        ),
                    forall|q: int|
                        0 <= q < j ==> #[trigger] data@[i * m + q] == dot(self.row(i as int), rhs.col(q), h as nat),
                decreases m - j,
            {
                let column = rhs.column(j);
                let x = self.row_dot(i, column.as_slice());
                proof {
                    lemma_index_in(n as int, m as int, i as int, j as int);
                }
                let ghost before = data@;
                data.push(x);
                proof {
                    assert forall|p: int, q: int| 0 <= p < i && 0 <= q < m implies #[trigger] data@[p * m + q]
                        == dot(self.row(p), rhs.col(q), h as nat) by {
                        lemma_index_in(i as int, m as int, p, q);
                        assert(data@[p * m + q] == before[p * m + q]);
                    }
                }
                j += 1;
            }
            proof {
                assert(i * m + m == (i + 1) * m) by (nonlinear_arith);
                assert(i * m + m <= n * m) by (nonlinear_arith)
                    requires i < n, m >= 0;
                assert forall|p: int, q: int| 0 <= p < i + 1 && 0 <= q < m implies #[trigger] data@[p * m + q]
                    == dot(self.row(p), rhs.col(q), h as nat) by {
                    if p < i {
                    } else {
                        assert(data@[i * m + q] == dot(self.row(i as int), rhs.col(q), h as nat));
                    }
                }
            }
            i += 1;
        }
        proof {
            assert forall|p: int, q: int| 0 <= p < n && 0 <= q < m implies #[trigger] (Matrix { data, n, m }).at(p, q)
                == dot(self.row(p), rhs.col(q), h as nat) by {
                assert(data@[p * m + q] == dot(self.row(p), rhs.col(q), h as nat));
            }
        }
        Matrix { data, n, m }
    }

    /// Column `j` as a vector.
    fn column(&self, j: usize) -> (c: Vec<T>)
        requires
            self.wf(),
            j < self.cols(),
        ensures
            c@ == self.col(j as int),
    {
        let n = self.n;
        let m = self.m;
        let total = self.data.len();
        let mut c: Vec<T> = Vec::new();
        let mut k: usize = 0;
        while k < n
            invariant
                self.wf(),
                total == self.entries().len(),
                n == self.rows(),
                m == self.cols(),
                j < m,
                k <= n,
                c@ == self.col(j as int).take(k as int),
            decreases n - k,
        {
            proof {
                lemma_index_in(n as int, m as int, k as int, j as int);
            }
            c.push(self.data[k * m + j]);
            k += 1;
            assert(c@ =~= self.col(j as int).take(k as int));
        }
        assert(c@ =~= self.col(j as int));
        c
    }

    /// The product of `self` and the column vector `v`.
    pub fn mul_vec(&self, v: &[T]) -> (r: Vec<T>)
        requires
            self.wf(),
            v@.len() == self.cols(),
        ensures
            r@.len() == self.rows(),
            forall|i: int| 0 <= i < self.rows() ==> #[trigger] r@[i] == dot(self.row(i), v@, self.cols()),
    {
        let mut r: Vec<T> = Vec::new();
        let mut i: usize = 0;
        while i < self.n
            invariant
                self.wf(),
                v@.len() == self.cols(),
                i <= self.rows(),
                r@.len() == i,
                forall|p: int| 0 <= p < i ==> #[trigger] r@[p] == dot(self.row(p), v@, self.cols()),
            decreases self.rows() - i,
        {
            r.push(self.row_dot(i, v));
            i += 1;
        }
        r
    }
}

impl<T: Xor> Matrix<T> {
    /// Combines the entries of two matrices of one shape by exclusive or.
    fn xor_entries(&self, rhs: &Self) -> (r: Self)
        requires
            self.wf(),
            rhs.wf(),
            self.same_shape(rhs),
        ensures
            r.wf(),
            r.same_shape(self),
            r.entries() == Seq::new(self.entries().len(), |k: int| T::rxor(self.entries()[k], rhs.entries()[k])),
    {
        let len = self.data.len();
        let mut data: Vec<T> = Vec::new();
        let mut k: usize = 0;
        while k < len
            invariant
                k <= len,
                len == self.entries().len(),
                self.entries().len() == rhs.entries().len(),
                data@ == Seq::new(k as nat, |q: int| T::rxor(self.entries()[q], rhs.entries()[q])),
            decreases len - k,
        {
            data.push(T::xor(self.data[k], rhs.data[k]));
            k += 1;
            assert(data@ =~= Seq::new(k as nat, |q: int| T::rxor(self.entries()[q], rhs.entries()[q])));
        }
        Matrix { data, n: self.n, m: self.m }
    }
}

/// Entrywise sum of two matrices of one shape.
impl<'a, T: Ring> std::ops::Add for &'a Matrix<T> {
    type Output = Matrix<T>;

    fn add(self, rhs: Self) -> (r: Matrix<T>)
        ensures
            r.wf(),
            r.same_shape(&self),
            r.entries() == Seq::new(self.entries().len(), |k: int| T::radd(self.entries()[k], rhs.entries()[k])),
    {
        self.zip_entries(rhs, EntryOp::Plus)
    }
}

impl<'a, T: Ring> vstd::std_specs::ops::AddSpecImpl for &'a Matrix<T> {
    open spec fn obeys_add_spec() -> bool {
        false
    }

    open spec fn add_req(self, rhs: Self) -> bool {
        self.wf() && rhs.wf() && self.same_shape(&rhs)
    }

    open spec fn add_spec(self, rhs: Self) -> Matrix<T> {
        choose|r: Matrix<T>|
            r.wf() && r.same_shape(&self) && r.entries() == Seq::new(
                self.entries().len(),
                |k: int| T::radd(self.entries()[k], rhs.entries()[k]),
            )
    }
}

/// Entrywise sum of two matrices of one shape.
impl<'a, T: Ring> std::ops::Add for Matrix<T> {
    type Output = Matrix<T>;

    fn add(self, rhs: Self) -> (r: Matrix<T>)
        ensures
            r.wf(),
            r.same_shape(&self),
            r.entries() == Seq::new(self.entries().len(), |k: int| T::radd(self.entries()[k], rhs.entries()[k])),
    {
        (&self).zip_entries(&rhs, EntryOp::Plus)
    }
}

impl<'a, T: Ring> vstd::std_specs::ops::AddSpecImpl for Matrix<T> {
    open spec fn obeys_add_spec() -> bool {
        false
    }

    open spec fn add_req(self, rhs: Self) -> bool {
        self.wf() && rhs.wf() && self.same_shape(&rhs)
    }

    open spec fn add_spec(self, rhs: Self) -> Matrix<T> {
        choose|r: Matrix<T>|
            r.wf() && r.same_shape(&self) && r.entries() == Seq::new(
                self.entries().len(),
                |k: int| T::radd(self.entries()[k], rhs.entries()[k]),
            )
    }
}

/// Entrywise sum of two matrices of one shape.
impl<'a, T: Ring> std::ops::Add<&'a Matrix<T>> for Matrix<T> {
    type Output = Matrix<T>;

    fn add(self, rhs: &'a Matrix<T>) -> (r: Matrix<T>)
        ensures
            r.wf(),
            r.same_shape(&self),
            r.entries() == Seq::new(self.entries().len(), |k: int| T::radd(self.entries()[k], rhs.entries()[k])),
    {
        (&self).zip_entries(rhs, EntryOp::Plus)
    }
}

impl<'a, T: Ring> vstd::std_specs::ops::AddSpecImpl<&'a Matrix<T>> for Matrix<T> {
    open spec fn obeys_add_spec() -> bool {
        false
    }

    open spec fn add_req(self, rhs: &'a Matrix<T>) -> bool {
        self.wf() && rhs.wf() && self.same_shape(&rhs)
    }

    open spec fn add_spec(self, rhs: &'a Matrix<T>) -> Matrix<T> {
        choose|r: Matrix<T>|
            r.wf() && r.same_shape(&self) && r.entries() == Seq::new(
                self.entries().len(),
                |k: int| T::radd(self.entries()[k], rhs.entries()[k]),
            )
    }
}

/// Entrywise sum of two matrices of one shape.
impl<'a, T: Ring> std::ops::Add<Matrix<T>> for &'a Matrix<T> {
    type Output = Matrix<T>;

    fn add(self, rhs: Matrix<T>) -> (r: Matrix<T>)
        ensures
            r.wf(),
            r.same_shape(&self),
            r.entries() == Seq::new(self.entries().len(), |k: int| T::radd(self.entries()[k], rhs.entries()[k])),
    {
        self.zip_entries(&rhs, EntryOp::Plus)
    }
}

impl<'a, T: Ring> vstd::std_specs::ops::AddSpecImpl<Matrix<T>> for &'a Matrix<T> {
    open spec fn obeys_add_spec() -> bool {
        false
    }

    open spec fn add_req(self, rhs: Matrix<T>) -> bool {
        self.wf() && rhs.wf() && self.same_shape(&rhs)
    }

    open spec fn add_spec(self, rhs: Matrix<T>) -> Matrix<T> {
        choose|r: Matrix<T>|
            r.wf() && r.same_shape(&self) && r.entries() == Seq::new(
                self.entries().len(),
                |k: int| T::radd(self.entries()[k], rhs.entries()[k]),
            )
    }
}

/// Entrywise difference of two matrices of one shape.
impl<'a, T: Ring> std::ops::Sub for &'a Matrix<T> {
    type Output = Matrix<T>;

    fn sub(self, rhs: Self) -> (r: Matrix<T>)
        ensures
            r.wf(),
            r.same_shape(&self),
            r.entries() == Seq::new(self.entries().len(), |k: int| T::rsub(self.entries()[k], rhs.entries()[k])),
    {
        self.zip_entries(rhs, EntryOp::Minus)
    }
}

impl<'a, T: Ring> vstd::std_specs::ops::SubSpecImpl for &'a Matrix<T> {
    open spec fn obeys_sub_spec() -> bool {
        false
    }

    open spec fn sub_req(self, rhs: Self) -> bool {
        self.wf() && rhs.wf() && self.same_shape(&rhs)
    }

    open spec fn sub_spec(self, rhs: Self) -> Matrix<T> {
        choose|r: Matrix<T>|
            r.wf() && r.same_shape(&self) && r.entries() == Seq::new(
                self.entries().len(),
                |k: int| T::rsub(self.entries()[k], rhs.entries()[k]),
            )
    }
}

/// Entrywise difference of two matrices of one shape.
impl<'a, T: Ring> std::ops::Sub for Matrix<T> {
    type Output = Matrix<T>;

    fn sub(self, rhs: Self) -> (r: Matrix<T>)
        ensures
            r.wf(),
            r.same_shape(&self),
            r.entries() == Seq::new(self.entries().len(), |k: int| T::rsub(self.entries()[k], rhs.entries()[k])),
    {
        (&self).zip_entries(&rhs, EntryOp::Minus)
    }
}

impl<'a, T: Ring> vstd::std_specs::ops::SubSpecImpl for Matrix<T> {
    open spec fn obeys_sub_spec() -> bool {
        false
    }

    open spec fn sub_req(self, rhs: Self) -> bool {
        self.wf() && rhs.wf() && self.same_shape(&rhs)
    }

    open spec fn sub_spec(self, rhs: Self) -> Matrix<T> {
        choose|r: Matrix<T>|
            r.wf() && r.same_shape(&self) && r.entries() == Seq::new(
                self.entries().len(),
                |k: int| T::rsub(self.entries()[k], rhs.entries()[k]),
            )
    }
}

/// Entrywise difference of two matrices of one shape.
impl<'a, T: Ring> std::ops::Sub<&'a Matrix<T>> for Matrix<T> {
    type Output = Matrix<T>;

    fn sub(self, rhs: &'a Matrix<T>) -> (r: Matrix<T>)
        ensures
            r.wf(),
            r.same_shape(&self),
            r.entries() == Seq::new(self.entries().len(), |k: int| T::rsub(self.entries()[k], rhs.entries()[k])),
    {
        (&self).zip_entries(rhs, EntryOp::Minus)
    }
}

impl<'a, T: Ring> vstd::std_specs::ops::SubSpecImpl<&'a Matrix<T>> for Matrix<T> {
    open spec fn obeys_sub_spec() -> bool {
        false
    }

    open spec fn sub_req(self, rhs: &'a Matrix<T>) -> bool {
        self.wf() && rhs.wf() && self.same_shape(&rhs)
    }

    open spec fn sub_spec(self, rhs: &'a Matrix<T>) -> Matrix<T> {
        choose|r: Matrix<T>|
            r.wf() && r.same_shape(&self) && r.entries() == Seq::new(
                self.entries().len(),
                |k: int| T::rsub(self.entries()[k], rhs.entries()[k]),
            )
    }
}

/// Entrywise difference of two matrices of one shape.
impl<'a, T: Ring> std::ops::Sub<Matrix<T>> for &'a Matrix<T> {
    type Output = Matrix<T>;

    fn sub(self, rhs: Matrix<T>) -> (r: Matrix<T>)
        ensures
            r.wf(),
            r.same_shape(&self),
            r.entries() == Seq::new(self.entries().len(), |k: int| T::rsub(self.entries()[k], rhs.entries()[k])),
    {
        self.zip_entries(&rhs, EntryOp::Minus)
    }
}

impl<'a, T: Ring> vstd::std_specs::ops::SubSpecImpl<Matrix<T>> for &'a Matrix<T> {
    open spec fn obeys_sub_spec() -> bool {
        false
    }

    open spec fn sub_req(self, rhs: Matrix<T>) -> bool {
        self.wf() && rhs.wf() && self.same_shape(&rhs)
    }

    open spec fn sub_spec(self, rhs: Matrix<T>) -> Matrix<T> {
        choose|r: Matrix<T>|
            r.wf() && r.same_shape(&self) && r.entries() == Seq::new(
                self.entries().len(),
                |k: int| T::rsub(self.entries()[k], rhs.entries()[k]),
            )
    }
}

/// Entrywise exclusive or of two matrices of one shape.
impl<'a, T: Xor> std::ops::BitXor for &'a Matrix<T> {
    type Output = Matrix<T>;

    fn bitxor(self, rhs: Self) -> (r: Matrix<T>)
        ensures
            r.wf(),
            r.same_shape(&self),
            r.entries() == Seq::new(self.entries().len(), |k: int| T::rxor(self.entries()[k], rhs.entries()[k])),
    {
        self.xor_entries(rhs)
    }
}

impl<'a, T: Xor> vstd::std_specs::ops::BitXorSpecImpl for &'a Matrix<T> {
    open spec fn obeys_bitxor_spec() -> bool {
        false
    }

    open spec fn bitxor_req(self, rhs: Self) -> bool {
        self.wf() && rhs.wf() && self.same_shape(&rhs)
    }

    open spec fn bitxor_spec(self, rhs: Self) -> Matrix<T> {
        choose|r: Matrix<T>|
            r.wf() && r.same_shape(&self) && r.entries() == Seq::new(
                self.entries().len(),
                |k: int| T::rxor(self.entries()[k], rhs.entries()[k]),
            )
    }
}

/// Entrywise exclusive or of two matrices of one shape.
impl<'a, T: Xor> std::ops::BitXor for Matrix<T> {
    type Output = Matrix<T>;

    fn bitxor(self, rhs: Self) -> (r: Matrix<T>)
        ensures
            r.wf(),
            r.same_shape(&self),
            r.entries() == Seq::new(self.entries().len(), |k: int| T::rxor(self.entries()[k], rhs.entries()[k])),
    {
        (&self).xor_entries(&rhs)
    }
}

impl<'a, T: Xor> vstd::std_specs::ops::BitXorSpecImpl for Matrix<T> {
    open spec fn obeys_bitxor_spec() -> bool {
        false
    }

    open spec fn bitxor_req(self, rhs: Self) -> bool {
        self.wf() && rhs.wf() && self.same_shape(&rhs)
    }

    open spec fn bitxor_spec(self, rhs: Self) -> Matrix<T> {
        choose|r: Matrix<T>|
            r.wf() && r.same_shape(&self) && r.entries() == Seq::new(
                self.entries().len(),
                |k: int| T::rxor(self.entries()[k], rhs.entries()[k]),
            )
    }
}

/// Entrywise exclusive or of two matrices of one shape.
impl<'a, T: Xor> std::ops::BitXor<&'a Matrix<T>> for Matrix<T> {
    type Output = Matrix<T>;

    fn bitxor(self, rhs: &'a Matrix<T>) -> (r: Matrix<T>)
        ensures
            r.wf(),
            r.same_shape(&self),
            r.entries() == Seq::new(self.entries().len(), |k: int| T::rxor(self.entries()[k], rhs.entries()[k])),
    {
        (&self).xor_entries(rhs)
    }
}

impl<'a, T: Xor> vstd::std_specs::ops::BitXorSpecImpl<&'a Matrix<T>> for Matrix<T> {
    open spec fn obeys_bitxor_spec() -> bool {
        false
    }

    open spec fn bitxor_req(self, rhs: &'a Matrix<T>) -> bool {
        self.wf() && rhs.wf() && self.same_shape(&rhs)
    }

    open spec fn bitxor_spec(self, rhs: &'a Matrix<T>) -> Matrix<T> {
        choose|r: Matrix<T>|
            r.wf() && r.same_shape(&self) && r.entries() == Seq::new(
                self.entries().len(),
                |k: int| T::rxor(self.entries()[k], rhs.entries()[k]),
            )
    }
}

/// Entrywise exclusive or of two matrices of one shape.
impl<'a, T: Xor> std::ops::BitXor<Matrix<T>> for &'a Matrix<T> {
    type Output = Matrix<T>;

    fn bitxor(self, rhs: Matrix<T>) -> (r: Matrix<T>)
        ensures
            r.wf(),
            r.same_shape(&self),
            r.entries() == Seq::new(self.entries().len(), |k: int| T::rxor(self.entries()[k], rhs.entries()[k])),
    {
        self.xor_entries(&rhs)
    }
}

impl<'a, T: Xor> vstd::std_specs::ops::BitXorSpecImpl<Matrix<T>> for &'a Matrix<T> {
    open spec fn obeys_bitxor_spec() -> bool {
        false
    }

    open spec fn bitxor_req(self, rhs: Matrix<T>) -> bool {
        self.wf() && rhs.wf() && self.same_shape(&rhs)
    }

    open spec fn bitxor_spec(self, rhs: Matrix<T>) -> Matrix<T> {
        choose|r: Matrix<T>|
            r.wf() && r.same_shape(&self) && r.entries() == Seq::new(
                self.entries().len(),
                |k: int| T::rxor(self.entries()[k], rhs.entries()[k]),
            )
    }
}

/// Every entry subtracted from zero.
impl<T: Ring> std::ops::Neg for Matrix<T> {
    type Output = Matrix<T>;

    fn neg(self) -> (r: Matrix<T>)
        ensures
            r.wf(),
            r.same_shape(&self),
            r.entries() == Seq::new(self.entries().len(), |k: int| T::rsub(T::spec_zero(), self.entries()[k])),
    {
        self.negated()
    }
}

impl<T: Ring> vstd::std_specs::ops::NegSpecImpl for Matrix<T> {
    open spec fn obeys_neg_spec() -> bool {
        false
    }

    open spec fn neg_req(self) -> bool {
        self.wf()
    }

    open spec fn neg_spec(self) -> Matrix<T> {
        choose|r: Matrix<T>|
            r.wf() && r.same_shape(&self) && r.entries() == Seq::new(
                self.entries().len(),
                |k: int| T::rsub(T::spec_zero(), self.entries()[k]),
            )
    }
}

/// The matrix product.
impl<'a, T: Ring> std::ops::Mul for &'a Matrix<T> {
    type Output = Matrix<T>;

    fn mul(self, rhs: Self) -> (r: Matrix<T>)
        ensures
            r.wf(),
            r.rows() == self.rows(),
            r.cols() == rhs.cols(),
            forall|i: int, j: int|
                0 <= i < r.rows() && 0 <= j < r.cols() ==> #[trigger] r.at(i, j) == dot(
                    self.row(i),
                    rhs.col(j),
                    self.cols(),
                ),
    {
        self.product(rhs)
    }
}

impl<'a, T: Ring> vstd::std_specs::ops::MulSpecImpl for &'a Matrix<T> {
    open spec fn obeys_mul_spec() -> bool {
        false
    }

    open spec fn mul_req(self, rhs: Self) -> bool {
        &&& self.wf()
        &&& rhs.wf()
        &&& self.cols() == rhs.rows()
        &&& self.rows() * rhs.cols() <= usize::MAX
    }

    open spec fn mul_spec(self, rhs: Self) -> Matrix<T> {
        choose|r: Matrix<T>|
            r.wf() && r.rows() == self.rows() && r.cols() == rhs.cols() && forall|i: int, j: int|
                0 <= i < r.rows() && 0 <= j < r.cols() ==> #[trigger] r.at(i, j) == dot(
                    self.row(i),
                    rhs.col(j),
                    self.cols(),
                )
    }
}

/// The product with a column vector.
impl<'a, T: Ring> std::ops::Mul<&'a [T]> for &'a Matrix<T> {
    type Output = Vec<T>;

    fn mul(self, rhs: &'a [T]) -> (r: Vec<T>)
        ensures
            r@.len() == self.rows(),
            forall|i: int| 0 <= i < self.rows() ==> #[trigger] r@[i] == dot(self.row(i), rhs@, self.cols()),
    {
        self.mul_vec(rhs)
    }
}

impl<'a, T: Ring> vstd::std_specs::ops::MulSpecImpl<&'a [T]> for &'a Matrix<T> {
    open spec fn obeys_mul_spec() -> bool {
        false
    }

    open spec fn mul_req(self, rhs: &'a [T]) -> bool {
        self.wf() && rhs@.len() == self.cols()
    }

    open spec fn mul_spec(self, rhs: &'a [T]) -> Vec<T> {
        choose|r: Vec<T>|
            r@.len() == self.rows() && forall|i: int|
                0 <= i < self.rows() ==> #[trigger] r@[i] == dot(self.row(i), rhs@, self.cols())
    }
}

/// Every entry times a scalar.
impl<T: Ring> std::ops::Mul<T> for Matrix<T> {
    type Output = Matrix<T>;

    fn mul(self, x: T) -> (r: Matrix<T>)
        ensures
            r.wf(),
            r.same_shape(&self),
            r.entries() == Seq::new(self.entries().len(), |k: int| T::rmul(self.entries()[k], x)),
    {
        self.scale(x)
    }
}

impl<T: Ring> vstd::std_specs::ops::MulSpecImpl<T> for Matrix<T> {
    open spec fn obeys_mul_spec() -> bool {
        false
    }

    open spec fn mul_req(self, x: T) -> bool {
        self.wf()
    }

    open spec fn mul_spec(self, x: T) -> Matrix<T> {
        choose|r: Matrix<T>|
            r.wf() && r.same_shape(&self) && r.entries() == Seq::new(
                self.entries().len(),
                |k: int| T::rmul(self.entries()[k], x),
            )
    }
}

/// The first `r` diagonal entries are nonzero and everything below them is zero.
pub open spec fn echelon_prefix<T: Zero>(a: &Matrix<T>, r: int) -> bool {
    &&& forall|k: int| 0 <= k < r ==> #[trigger] a.at(k, k) != T::spec_zero()
    &&& forall|k: int, i: int| 0 <= k < r && k < i < a.rows() ==> #[trigger] a.at(i, k) == T::spec_zero()
}

impl<T: Field> Matrix<T> {
    /// The first row at or after `from` with a nonzero entry in column `j`, or `rows()`.
    fn find_pivot(&self, from: usize, j: usize) -> (r: usize)
        requires
            self.wf(),
            from <= self.rows(),
            j < self.cols(),
        ensures
            from <= r <= self.rows(),
            r < self.rows() ==> self.at(r as int, j as int) != T::spec_zero(),
            forall|i: int| from <= i < r ==> #[trigger] self.at(i, j as int) == T::spec_zero(),
    {
        let mut i = from;
        while i < self.n
            invariant
                self.wf(),
                from <= i <= self.rows(),
                j < self.cols(),
                forall|p: int| from <= p < i ==> #[trigger] self.at(p, j as int) == T::spec_zero(),
            decreases self.rows() - i,
        {
            if !T::is_zero(self.entry(i, j)) {
                return i;
            }
            i += 1;
        }
        i
    }

    /// Subtracts from each row below `pi` the multiple of row `pi` that clears column `pj`.
    fn eliminate_below(&mut self, pi: usize, pj: usize)
        requires
            old(self).wf(),
            pi < old(self).rows(),
            pj < old(self).cols(),
            old(self).at(pi as int, pj as int) != T::spec_zero(),
        ensures
            final(self).wf(),
            final(self).same_shape(old(self)),
            forall|p: int, q: int|
                0 <= p <= pi && 0 <= q < old(self).cols() ==> #[trigger] final(self).at(p, q) == old(self).at(p, q),
            forall|p: int, q: int|
                pi < p < old(self).rows() && 0 <= q < pj ==> #[trigger] final(self).at(p, q) == old(self).at(p, q),
            forall|p: int| pi < p < old(self).rows() ==> #[trigger] final(self).at(p, pj as int) == T::spec_zero(),
            forall|p: int, q: int|
                pi < p < old(self).rows() && pj < q < old(self).cols() ==> #[trigger] final(self).at(p, q) == if old(
                    self,
                ).at(p, pj as int) == T::spec_zero() {
                    old(self).at(p, q)
                } else {
                    T::rsub(
                        old(self).at(p, q),
                        T::rmul(T::rdiv(old(self).at(p, pj as int), old(self).at(pi as int, pj as int)), old(self).at(pi as int, q)),
                    )
                },
    {
        let n = self.n;
        let m = self.m;
        let ghost s0 = *self;
        let pivot = self.entry(pi, pj);
        let mut i = pi + 1;
        while i < n
            invariant
                self.wf(),
                s0.wf(),
                self.same_shape(&s0),
                n == s0.rows(),
                m == s0.cols(),
                pi < i <= n,
                pj < m,
                pivot == s0.at(pi as int, pj as int),
                pivot != T::spec_zero(),
                forall|p: int, q: int| 0 <= p < n && 0 <= q < m && !(pi < p < i) ==> #[trigger] self.at(p, q) == s0.at(p, q),
                forall|p: int, q: int| pi < p < i && 0 <= q < pj ==> #[trigger] self.at(p, q) == s0.at(p, q),
                forall|p: int| pi < p < i ==> #[trigger] self.at(p, pj as int) == T::spec_zero(),
                forall|p: int, q: int|
                    pi < p < i && pj < q < m ==> #[trigger] self.at(p, q) == if s0.at(p, pj as int) == T::spec_zero() {
                        s0.at(p, q)
                    } else {
                        T::rsub(s0.at(p, q), T::rmul(T::rdiv(s0.at(p, pj as int), pivot), s0.at(pi as int, q)))
                    },
            decreases n - i,
        {
            let lead = self.entry(i, pj);
            if !T::is_zero(lead) {
                let x = T::over(lead, pivot);
                self.set_entry(i, pj, T::zero());
                let mut j = pj + 1;
                while j < m
                    invariant
                        self.wf(),
                        s0.wf(),
                        self.same_shape(&s0),
                        n == s0.rows(),
                        m == s0.cols(),
                        pi < i < n,
                        pj < j <= m,
                        pivot == s0.at(pi as int, pj as int),
                        lead == s0.at(i as int, pj as int),
                        lead != T::spec_zero(),
                        x == T::rdiv(lead, pivot),
                        forall|p: int, q: int|
                            0 <= p < n && 0 <= q < m && !(pi < p <= i) ==> #[trigger] self.at(p, q) == s0.at(p, q),
                        forall|p: int, q: int| pi < p <= i && 0 <= q < pj ==> #[trigger] self.at(p, q) == s0.at(p, q),
                        forall|p: int| pi < p <= i ==> #[trigger] self.at(p, pj as int) == T::spec_zero(),
                        forall|p: int, q: int|
                            pi < p < i && pj < q < m ==> #[trigger] self.at(p, q) == if s0.at(p, pj as int)
                                == T::spec_zero() {
                                s0.at(p, q)
                            } else {
                                T::rsub(s0.at(p, q), T::rmul(T::rdiv(s0.at(p, pj as int), pivot), s0.at(pi as int, q)))
                            },
                        forall|q: int| pj < q < m ==> #[trigger] self.at(i as int, q) == if q < j {
                            T::rsub(s0.at(i as int, q), T::rmul(x, s0.at(pi as int, q)))
                        } else {
                            s0.at(i as int, q)
                        },
                    decreases m - j,
                {
                    let a = self.entry(i, j);
                    let b = self.entry(pi, j);
                    self.set_entry(i, j, T::minus(a, T::times(x, b)));
                    j += 1;
                }
            }
            i += 1;
        }
    }

    /// Brings the matrix to row echelon form by Gaussian elimination and returns the
    /// number of pivots found; the elimination stops at the first column without one.
    pub fn gaussian_elimination(&mut self) -> (r: usize)
        requires
            old(self).wf(),
        ensures
            final(self).wf(),
            final(self).same_shape(old(self)),
            r <= old(self).rows(),
            r <= old(self).cols(),
            echelon_prefix(final(self), r as int),
            r < old(self).rows() && r < old(self).cols() ==> forall|i: int|
                r <= i < old(self).rows() ==> #[trigger] final(self).at(i, r as int) == T::spec_zero(),
    {
        let n = self.n;
        let m = self.m;
        let mut pj: usize = 0;
        let mut pi: usize = 0;
        while pi < n
            invariant
                self.wf(),
                self.rows() == n,
                self.cols() == m,
                old(self).rows() == n,
                old(self).cols() == m,
                pj <= pi <= n,
                pj <= m,
                echelon_prefix(self, pj as int),
                pj < pi && pj < m ==> forall|i: int| pj <= i < n ==> #[trigger] self.at(i, pj as int) == T::spec_zero(),
            decreases n - pi,
        {
            if pj < m {
                let i = self.find_pivot(pi, pj);
                if i < n {
                    assert(pj == pi);
                    let ghost s0 = *self;
                    self.swap(i, pi);
                    let ghost s1 = *self;
                    proof {
                        assert forall|k: int, p: int| 0 <= k < pj && k < p < n implies #[trigger] s1.at(p, k)
                            == T::spec_zero() by {
                            assert(s1.at(p, k) == s0.at(if p == i { pi as int } else if p == pi { i as int } else { p }, k));
                        }
                        assert forall|k: int| 0 <= k < pj implies #[trigger] s1.at(k, k) != T::spec_zero() by {
                            assert(s1.at(k, k) == s0.at(k, k));
                        }
                        assert(s1.at(pi as int, pj as int) == s0.at(i as int, pj as int));
                    }
                    self.eliminate_below(pi, pj);
                    proof {
                        assert forall|k: int| 0 <= k < pj + 1 implies #[trigger] self.at(k, k) != T::spec_zero() by {
                            assert(self.at(k, k) == s1.at(k, k));
                        }
                        assert forall|k: int, p: int| 0 <= k < pj + 1 && k < p < n implies #[trigger] self.at(p, k)
                            == T::spec_zero() by {
                            if k < pj {
                                assert(self.at(p, k) == s1.at(p, k));
                            }
                        }
                    }
                    pj += 1;
                    if pj >= n {
                        return n;
                    }
                }
            }
            pi += 1;
        }
        pj
    }
}

/// A square product given entry by entry is [`mul_sq`] of the entries.
proof fn lemma_product_entries<T: Ring>(a: &Matrix<T>, b: &Matrix<T>, r: &Matrix<T>)
    requires
        a.wf(),
        b.wf(),
        r.wf(),
        a.rows() == a.cols(),
        b.rows() == a.rows(),
        b.cols() == a.rows(),
        r.rows() == a.rows(),
        r.cols() == a.rows(),
        forall|i: int, j: int|
            0 <= i < r.rows() && 0 <= j < r.cols() ==> #[trigger] r.at(i, j) == dot(a.row(i), b.col(j), a.cols()),
    ensures
        r.entries() == mul_sq(a.entries(), b.entries(), a.rows()),
{
    let n = a.rows();
    let p = mul_sq(a.entries(), b.entries(), n);
    assert forall|k: int| 0 <= k < n * n implies #[trigger] r.entries()[k] == p[k] by {
        assert(n > 0) by (nonlinear_arith)
            requires 0 <= k < n * n;
        lemma_div_mod_index(k, n as int);
        let (i, j) = (k / (n as int), k % (n as int));
        assert(r.at(i, j) == r.entries()[k]);
        lemma_dot_is_sum(a.row(i), b.col(j), n);
        lemma_row_index(n as int, n as int, i);
        let f = |l: int| T::rmul(a.row(i)[l], b.col(j)[l]);
        let g = |l: int| T::rmul(ent(a.entries(), n, i, l), ent(b.entries(), n, l, j));
        assert forall|l: int| 0 <= l < n implies #[trigger] f(l) == g(l) by {
            lemma_index_in(n as int, n as int, l, j);
        }
        lemma_sum_ext(f, g, n);
    }
    assert(r.entries() =~= p);
}

/// The identity given entry by entry is [`id_sq`].
proof fn lemma_id_entries<T: Ring>(r: &Matrix<T>)
    requires
        r.wf(),
        r.rows() == r.cols(),
        forall|i: int, j: int|
            0 <= i < r.rows() && 0 <= j < r.rows() ==> #[trigger] r.at(i, j) == if i == j {
                T::spec_one()
            } else {
                T::spec_zero()
            },
    ensures
        r.entries() == id_sq::<T>(r.rows()),
{
    let n = r.rows();
    assert forall|k: int| 0 <= k < n * n implies #[trigger] r.entries()[k] == id_sq::<T>(n)[k] by {
        assert(n > 0) by (nonlinear_arith)
            requires 0 <= k < n * n;
        lemma_div_mod_index(k, n as int);
        let (i, j) = (k / (n as int), k % (n as int));
        assert(r.at(i, j) == r.entries()[k]);
    }
    assert(r.entries() =~= id_sq::<T>(n));
}

impl<T: Ring> Matrix<T> {
    /// `self` to the power `exp`, by square-and-multiply.
    pub fn pow(self, exp: u64) -> (r: Self)
        requires
            self.wf(),
            self.rows() == self.cols(),
        ensures
            r.wf(),
            r.rows() == self.rows(),
            r.cols() == self.cols(),
            r.entries() == pow_sq(self.entries(), self.rows(), exp as nat),
    {
        let n = self.n;
        let total = self.data.len();
        let ghost a0 = self.entries();
        let mut res = Self::id(n);
        proof {
            lemma_id_entries(&res);
            lemma_pow_sq_canonical(a0, n as nat, exp as nat);
            lemma_mul_sq_id_right(pow_sq(a0, n as nat, exp as nat), n as nat);
            T::lemma_ring_laws(T::spec_zero(), T::spec_zero(), T::spec_zero());
        }
        let mut base = self;
        let mut e = exp;
        while e > 0
            invariant
                n * n <= usize::MAX,
                base.wf(),
                res.wf(),
                base.rows() == n,
                base.cols() == n,
                res.rows() == n,
                res.cols() == n,
                all_canonical(res.entries()),
                mul_sq(pow_sq(base.entries(), n as nat, e as nat), res.entries(), n as nat) == pow_sq(
                    a0,
                    n as nat,
                    exp as nat,
                ),
            decreases e,
        {
            let ghost b = base.entries();
            let ghost rr = res.entries();
            let ghost h = (e / 2) as nat;
            if e % 2 == 1 {
                let next = base.product(&res);
                proof {
                    lemma_product_entries(&base, &res, &next);
                    assert((e as nat - 1) as nat == 2 * h);
                    lemma_mul_sq_assoc(pow_sq(b, n as nat, 2 * h), b, rr, n as nat);
                    lemma_mul_sq_canonical(b, rr, n as nat);
                }
                res = next;
            } else {
                assert(e as nat == 2 * h);
            }
            e = e / 2;
            let sq = base.product(&base);
            proof {
                lemma_product_entries(&base, &base, &sq);
                lemma_pow_sq_square(b, n as nat, h);
            }
            base = sq;
        }
        proof {
            lemma_mul_sq_id_left(res.entries(), n as nat);
        }
        res
    }
}

/// Row `i` of an `n` by `m` grid lies at `i * m .. i * m + m`.
proof fn lemma_row_index(n: int, m: int, i: int)
    requires
        0 <= i < n,
        m >= 0,
    ensures
        i * m + m <= n * m,
        m * i == i * m,
        m * (i + 1) == i * m + m,
{
    assert(i * m + m <= n * m) by (nonlinear_arith)
        requires 0 <= i < n, m >= 0;
    assert(m * i == i * m) by (nonlinear_arith);
    assert(m * (i + 1) == i * m + m) by (nonlinear_arith);
}

/// `i * m + j` lies in `[0, n * m)` for `i < n` and `j < m`.
pub proof fn lemma_index_in(n: int, m: int, i: int, j: int)
    requires
        0 <= i < n,
        0 <= j < m,
    ensures
        0 <= i * m + j < n * m,
{
    assert(0 <= i * m + j < n * m) by (nonlinear_arith)
        requires 0 <= i < n, 0 <= j < m;
}

/// Distinct positions `(i1, j1)` and `(i2, j2)` with `j1, j2 < m` have distinct indices.
pub proof fn lemma_index_ne(m: int, i1: int, j1: int, i2: int, j2: int)
    requires
        0 <= j1 < m,
        0 <= j2 < m,
        i1 != i2 || j1 != j2,
    ensures
        i1 * m + j1 != i2 * m + j2,
{
    if i1 * m + j1 == i2 * m + j2 {
        assert((i1 - i2) * m == j2 - j1) by (nonlinear_arith)
            requires i1 * m + j1 == i2 * m + j2;
        if i1 > i2 {
            assert((i1 - i2) * m >= m) by (nonlinear_arith)
                requires i1 > i2, m >= 0;
        } else if i1 < i2 {
            assert((i2 - i1) * m >= m) by (nonlinear_arith)
                requires i2 > i1, m >= 0;
            assert((i1 - i2) * m == -((i2 - i1) * m)) by (nonlinear_arith);
        }
    }
}

/// A cursor over the rows of a [`Matrix`].
pub struct Iter<'a, T> {
    mat: &'a Matrix<T>,
    i: usize,
}

impl<'a, T> Iter<'a, T> {
    pub closed spec fn matrix(&self) -> &'a Matrix<T> {
        self.mat
    }

    pub closed spec fn pos(&self) -> nat {
        self.i as nat
    }

    /// The next row, or `None` after the last one.
    pub fn next(&mut self) -> (r: Option<&'a [T]>)
        requires
            old(self).matrix().wf(),
            (old(self).pos() + 1) * old(self).matrix().cols() <= usize::MAX,
        ensures
            final(self).matrix() == old(self).matrix(),
            old(self).pos() < old(self).matrix().rows() ==> (r matches Some(s) && s@ == old(self).matrix().row(
                old(self).pos() as int,
            )) && final(self).pos() == old(self).pos() + 1,
            old(self).pos() >= old(self).matrix().rows() ==> r is None || old(self).matrix().cols() == 0,
    {
        if self.i < self.mat.len() {
            let r = self.mat.get(self.i);
            self.i += 1;
            r
        } else {
            self.mat.get(self.i)
        }
    }
}

} // verus!
