use vstd::prelude::*;
use crate::other::matrix::{Matrix, Ring, dot};
use crate::other::mat_algebra::{id_sq, pow_sq};

verus! {

/// Side length of a [`SquareMat`].
pub const N: usize = 3;

/// An `N` by `N` matrix.
pub struct SquareMat<T>(Matrix<T>);

/// `x0` followed by the products `row[k] * v[k]` for `k < len`, added from the front.
pub open spec fn acc_from<T: Ring>(x0: T, row: Seq<T>, v: Seq<T>, len: nat) -> T
    decreases len,
{
    if len == 0 {
        x0
    } else {
        T::radd(acc_from(x0, row, v, (len - 1) as nat), T::rmul(row[len - 1], v[len - 1]))
    }
}

impl<T> SquareMat<T> {
    /// The entries, row after row.
    pub closed spec fn entries(&self) -> Seq<T> {
        self.0.entries()
    }

    /// The matrix is `N` by `N`.
    #[verifier::type_invariant]
    closed spec fn wf(&self) -> bool {
        &&& self.0.wf()
        &&& self.0.rows() == N
        &&& self.0.cols() == N
    }

    /// The entry in row `i`, column `j`.
    pub open spec fn at(&self, i: int, j: int) -> T {
        self.entries()[i * N + j]
    }

    /// Row `i`.
    pub open spec fn row(&self, i: int) -> Seq<T> {
        self.entries().subrange(i * N, i * N + N)
    }

    /// Column `j`.
    pub open spec fn col(&self, j: int) -> Seq<T> {
        Seq::new(N as nat, |k: int| self.at(k, j))
    }

    proof fn lemma_shape(&self)
        requires
            self.wf(),
        ensures
            self.entries().len() == N * N,
            forall|i: int, j: int| 0 <= i < N && 0 <= j < N ==> #[trigger] self.at(i, j) == self.0.at(i, j),
            forall|i: int| 0 <= i < N ==> #[trigger] self.row(i) == self.0.row(i),
            forall|j: int| 0 <= j < N ==> #[trigger] self.col(j) == self.0.col(j),
    {
        assert forall|i: int| 0 <= i < N implies #[trigger] self.row(i) == self.0.row(i) by {
            assert(self.0.cols() * i == i * N);
            assert(self.0.cols() * (i + 1) == i * N + N);
        }
        assert forall|j: int| 0 <= j < N implies #[trigger] self.col(j) == self.0.col(j) by {
            assert(self.col(j) =~= self.0.col(j));
        }
    }

    /// The matrix with rows `a[0]`, `a[1]`, ...
    pub fn from_rows(a: [[T; N]; N]) -> (m: Self)
        where
            T: Copy,
        ensures
            forall|i: int, j: int| 0 <= i < N && 0 <= j < N ==> #[trigger] m.at(i, j) == a@[i]@[j],
    {
        let mut data: Vec<T> = Vec::new();
        let mut i: usize = 0;
        while i < N
            invariant
                i <= N,
                data@.len() == i * N,
                forall|p: int, q: int| 0 <= p < i && 0 <= q < N ==> #[trigger] data@[p * N + q] == a@[p]@[q],
            decreases N - i,
        {
            let row = a[i];
            let mut j: usize = 0;
            while j < N
                invariant
                    i < N,
                    j <= N,
                    row == a@[i as int],
                    data@.len() == i * N + j,
                    forall|p: int, q: int|
                        0 <= p < i && 0 <= q < N ==> #[trigger] data@[p * N + q] == a@[p]@[q],
                    forall|q: int| 0 <= q < j ==> #[trigger] data@[i * N + q] == a@[i as int]@[q],
                decreases N - j,
            {
                data.push(row[j]);
                j += 1;
            }
            proof {
                assert forall|p: int, q: int| 0 <= p < i + 1 && 0 <= q < N implies #[trigger] data@[p * N + q]
                    == a@[p]@[q] by {
                    if p == i {
                        assert(data@[i * N + q] == a@[i as int]@[q]);
                    }
                }
            }
            i += 1;
        }
        let m = Matrix::from_elems(N, N, data);
        proof {
            assert(data@.take(9) =~= data@);
        }
        SquareMat(m)
    }

    /// The entry in row `i`, column `j`.
    pub fn get(&self, i: usize, j: usize) -> (x: T)
        where
            T: Copy,
        requires
            i < N,
            j < N,
        ensures
            x == self.at(i as int, j as int),
    {
        proof {
            use_type_invariant(self);
            self.lemma_shape();
        }
        self.0.get(i).unwrap()[j]
    }

    /// The transpose.
    pub fn transpose(self) -> (t: Self)
        where
            T: Copy,
        ensures
            forall|i: int, j: int| 0 <= i < N && 0 <= j < N ==> #[trigger] t.at(i, j) == self.at(j, i),
    {
        proof {
            use_type_invariant(&self);
            self.lemma_shape();
        }
        let t = SquareMat(self.0.transpose());
        proof {
            t.lemma_shape();
        }
        t
    }

    /// `f` applied to every entry.
    pub fn map<U, F: Fn(T) -> U>(self, f: F) -> (r: SquareMat<U>)
        where
            T: Copy,
        requires
            forall|k: int| 0 <= k < N * N ==> #[trigger] f.requires((self.entries()[k],)),
        ensures
            forall|k: int| 0 <= k < N * N ==> f.ensures((self.entries()[k],), #[trigger] r.entries()[k]),
    {
        proof {
            use_type_invariant(&self);
            self.lemma_shape();
        }
        let elems = self.0.elems();
        let mut data: Vec<U> = Vec::new();
        let mut k: usize = 0;
        while k < elems.len()
            invariant
                elems@ == self.entries(),
                elems@.len() == N * N,
                k <= elems@.len(),
                data@.len() == k,
                forall|q: int| 0 <= q < N * N ==> #[trigger] f.requires((self.entries()[q],)),
                forall|q: int| 0 <= q < k ==> f.ensures((self.entries()[q],), #[trigger] data@[q]),
            decreases elems@.len() - k,
        {
            data.push(f(elems[k]));
            k += 1;
        }
        let m = Matrix::from_elems(N, N, data);
        proof {
            assert(data@.take(9) =~= data@);
        }
        SquareMat(m)
    }
}

impl<T: Ring> SquareMat<T> {
    /// All entries zero.
    pub fn zero() -> (a: Self)
        ensures
            a.entries() == Seq::new((N * N) as nat, |k: int| T::spec_zero()),
    {
        SquareMat(Matrix::zeros(N, N))
    }

    /// The identity.
    pub fn id() -> (a: Self)
        ensures
            a.entries() == id_sq::<T>(N as nat),
    {
        let a = Matrix::id(N);
        proof {
            assert forall|k: int| 0 <= k < N * N implies #[trigger] a.entries()[k] == id_sq::<T>(
                N as nat,
            )[k] by {
                let i = k / 3;
                let j = k % 3;
                assert(k == i * 3 + j);
                assert(a.at(i, j) == a.entries()[k]);
            }
            assert(a.entries() =~= id_sq::<T>(N as nat));
        }
        SquareMat(a)
    }

    /// `self` to the power `n`.
    pub fn pow(self, n: u64) -> (r: Self)
        ensures
            r.entries() == pow_sq(self.entries(), N as nat, n as nat),
    {
        proof {
            use_type_invariant(&self);
        }
        SquareMat(self.0.pow(n))
    }
}

/// Every entry subtracted from zero.
impl<T: Ring> std::ops::Neg for SquareMat<T> {
    type Output = SquareMat<T>;

    fn neg(self) -> (r: SquareMat<T>)
        ensures
            r.entries() == Seq::new((N * N) as nat,
                |k: int| T::rsub(T::spec_zero(), self.entries()[k]),
            ),
    {
        proof {
            use_type_invariant(&self);
        }
        SquareMat(self.0.negated())
    }
}

impl<T: Ring> vstd::std_specs::ops::NegSpecImpl for SquareMat<T> {
    open spec fn obeys_neg_spec() -> bool {
        false
    }

    open spec fn neg_req(self) -> bool {
        true
    }

    open spec fn neg_spec(self) -> SquareMat<T> {
        choose|r: SquareMat<T>|
            r.entries() == Seq::new((N * N) as nat, |k: int| T::rsub(T::spec_zero(), self.entries()[k]))
    }
}

/// Entrywise sum.
impl<T: Ring> std::ops::Add for SquareMat<T> {
    type Output = SquareMat<T>;

    fn add(self, rhs: Self) -> (r: SquareMat<T>)
        ensures
            r.entries() == Seq::new((N * N) as nat,
                |k: int| T::radd(self.entries()[k], rhs.entries()[k]),
            ),
    {
        proof {
            use_type_invariant(&self);
            use_type_invariant(&rhs);
        }
        SquareMat(&self.0 + &rhs.0)
    }
}

impl<T: Ring> vstd::std_specs::ops::AddSpecImpl for SquareMat<T> {
    open spec fn obeys_add_spec() -> bool {
        false
    }

    open spec fn add_req(self, rhs: Self) -> bool {
        true
    }

    open spec fn add_spec(self, rhs: Self) -> SquareMat<T> {
        choose|r: SquareMat<T>|
            r.entries() == Seq::new((N * N) as nat, |k: int| T::radd(self.entries()[k], rhs.entries()[k]))
    }
}

/// Entrywise difference.
impl<T: Ring> std::ops::Sub for SquareMat<T> {
    type Output = SquareMat<T>;

    fn sub(self, rhs: Self) -> (r: SquareMat<T>)
        ensures
            r.entries() == Seq::new((N * N) as nat,
                |k: int| T::rsub(self.entries()[k], rhs.entries()[k]),
            ),
    {
        proof {
            use_type_invariant(&self);
            use_type_invariant(&rhs);
        }
        SquareMat(&self.0 - &rhs.0)
    }
}

impl<T: Ring> vstd::std_specs::ops::SubSpecImpl for SquareMat<T> {
    open spec fn obeys_sub_spec() -> bool {
        false
    }

    open spec fn sub_req(self, rhs: Self) -> bool {
        true
    }

    open spec fn sub_spec(self, rhs: Self) -> SquareMat<T> {
        choose|r: SquareMat<T>|
            r.entries() == Seq::new((N * N) as nat, |k: int| T::rsub(self.entries()[k], rhs.entries()[k]))
    }
}

/// The matrix product.
impl<T: Ring> std::ops::Mul for SquareMat<T> {
    type Output = SquareMat<T>;

    fn mul(self, rhs: Self) -> (r: SquareMat<T>)
        ensures
            forall|i: int, j: int|
                0 <= i < N && 0 <= j < N ==> #[trigger] r.at(i, j) == dot(self.row(i), rhs.col(j), N as nat),
    {
        proof {
            use_type_invariant(&self);
            use_type_invariant(&rhs);
            self.lemma_shape();
            rhs.lemma_shape();
        }
        let r = SquareMat(self.0.product(&rhs.0));
        proof {
            r.lemma_shape();
        }
        r
    }
}

impl<T: Ring> vstd::std_specs::ops::MulSpecImpl for SquareMat<T> {
    open spec fn obeys_mul_spec() -> bool {
        false
    }

    open spec fn mul_req(self, rhs: Self) -> bool {
        true
    }

    open spec fn mul_spec(self, rhs: Self) -> SquareMat<T> {
        choose|r: SquareMat<T>|
            #![trigger r.entries()]
            forall|i: int, j: int|
                0 <= i < N && 0 <= j < N ==> #[trigger] r.at(i, j) == dot(self.row(i), rhs.col(j), N as nat)
    }
}

/// The product with a column vector; the term of the first column is counted twice.
impl<T: Ring> std::ops::Mul<[T; N]> for SquareMat<T> {
    type Output = [T; N];

    fn mul(self, rhs: [T; N]) -> (r: [T; N])
        ensures
            forall|i: int|
                0 <= i < N ==> #[trigger] r@[i] == acc_from(
                    T::rmul(self.at(i, 0), rhs@[0]),
                    self.row(i),
                    rhs@,
                    N as nat,
                ),
    {
        proof {
            use_type_invariant(&self);
            self.lemma_shape();
        }
        let mut out: Vec<T> = Vec::new();
        let mut i: usize = 0;
        while i < N
            invariant
                self.wf(),
                i <= N,
                out@.len() == i,
                forall|p: int|
                    0 <= p < i ==> #[trigger] out@[p] == acc_from(
                        T::rmul(self.at(p, 0), rhs@[0]),
                        self.row(p),
                        rhs@,
                        N as nat,
                    ),
            decreases N - i,
        {
            let row = self.0.get(i).unwrap();
            proof {
                self.lemma_shape();
                assert(row@ == self.row(i as int));
            }
            let x0 = T::times(row[0], rhs[0]);
            let mut x = x0;
            let mut j: usize = 0;
            while j < N
                invariant
                    j <= N,
                    row@.len() == N,
                    x == acc_from(x0, row@, rhs@, j as nat),
                decreases N - j,
            {
                x = T::plus(x, T::times(row[j], rhs[j]));
                j += 1;
            }
            out.push(x);
            i += 1;
        }
        [out[0], out[1], out[2]]
    }
}

impl<T: Ring> vstd::std_specs::ops::MulSpecImpl<[T; N]> for SquareMat<T> {
    open spec fn obeys_mul_spec() -> bool {
        false
    }

    open spec fn mul_req(self, rhs: [T; N]) -> bool {
        true
    }

    open spec fn mul_spec(self, rhs: [T; N]) -> [T; N] {
        choose|r: [T; N]|
            #![trigger r@]
            forall|i: int|
                0 <= i < N ==> #[trigger] r@[i] == acc_from(
                    T::rmul(self.at(i, 0), rhs@[0]),
                    self.row(i),
                    rhs@,
                    N as nat,
                )
    }
}

/// The matrix with the given rows.
impl<T: Copy> From<[[T; N]; N]> for SquareMat<T> {
    fn from(a: [[T; N]; N]) -> (m: SquareMat<T>)
        ensures
            forall|i: int, j: int| 0 <= i < N && 0 <= j < N ==> #[trigger] m.at(i, j) == a@[i]@[j],
    {
        SquareMat::from_rows(a)
    }
}

impl<T: Copy> vstd::std_specs::convert::FromSpecImpl<[[T; N]; N]> for SquareMat<T> {
    open spec fn obeys_from_spec() -> bool {
        false
    }

    open spec fn from_spec(a: [[T; N]; N]) -> SquareMat<T> {
        choose|m: SquareMat<T>|
            #![trigger m.entries()]
            forall|i: int, j: int| 0 <= i < N && 0 <= j < N ==> #[trigger] m.at(i, j) == a@[i]@[j]
    }
}

} // verus!
