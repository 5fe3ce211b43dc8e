use vstd::prelude::*;
use crate::legacy::number::mod_inv;

verus! {

pub const MOD: i64 = 998244353;
pub const N: usize = 500;

/// An `N` by `N` matrix of integers.
pub struct SquareMatrix(Vec<Vec<i64>>);

/// Every entry lies in `0..MOD`.
pub open spec fn entries_reduced(a: Seq<Seq<i64>>) -> bool {
    forall|i: int, j: int| 0 <= i < a.len() && 0 <= j < a[i].len() ==> 0 <= #[trigger] a[i][j] < MOD
}

/// The product of the first `k` diagonal entries modulo `MOD`.
pub open spec fn diag_prod(a: Seq<Seq<i64>>, k: int) -> int
    decreases k,
{
    if k <= 0 {
        1
    } else {
        (diag_prod(a, k - 1) * a[k - 1][k - 1]) % (MOD as int)
    }
}

proof fn lemma_diag_prod_zero(a: Seq<Seq<i64>>, k: int, z: int)
    requires
        0 <= z < k,
        a[z][z] == 0,
    ensures
        diag_prod(a, k) == 0,
    decreases k,
{
    if k - 1 > z {
        lemma_diag_prod_zero(a, k - 1, z);
    }
}

/// Entry `(i, j)` of `b` multiplied `m` times on the right by `a`, each product formed as
/// [`SquareMatrix::mul`] forms it: entry `(i, j)` of a product is the row's last entry
/// plus the column's last entry.
pub open spec fn prod_entry(b: Seq<Seq<i64>>, a: Seq<Seq<i64>>, m: nat, i: int, j: int) -> int
    decreases m,
{
    if m == 0 {
        b[i][j] as int
    } else {
        (prod_entry(b, a, (m - 1) as nat, i, N - 1) + a[N - 1][j]) % (MOD as int)
    }
}

/// Entry `(i, j)` of `a` to the power `k`: the identity multiplied `k` times by `a`.
pub open spec fn power_entry(a: Seq<Seq<i64>>, k: nat, i: int, j: int) -> int
    decreases k,
{
    if k == 0 {
        if i == j {
            1
        } else {
            0
        }
    } else {
        (power_entry(a, (k - 1) as nat, i, N - 1) + a[N - 1][j]) % (MOD as int)
    }
}

/// `a` has `N` rows of `N` entries, each in `0..MOD`.
spec fn square_reduced(a: Seq<Seq<i64>>) -> bool {
    &&& a.len() == N
    &&& forall|i: int| 0 <= i < N ==> (#[trigger] a[i]).len() == N
    &&& entries_reduced(a)
}

proof fn lemma_power_from_id(id: Seq<Seq<i64>>, a: Seq<Seq<i64>>, k: nat, i: int, j: int)
    requires
        forall|x: int, y: int| 0 <= x < N && 0 <= y < N ==> #[trigger] id[x][y] == if x == y {
            1int
        } else {
            0int
        },
        0 <= i < N,
        0 <= j < N,
    ensures
        power_entry(a, k, i, j) == prod_entry(id, a, k, i, j),
    decreases k,
{
    if k > 0 {
        lemma_power_from_id(id, a, (k - 1) as nat, i, N - 1);
    }
}

proof fn lemma_prod_closed(b: Seq<Seq<i64>>, a: Seq<Seq<i64>>, m: nat, i: int, j: int)
    requires
        square_reduced(a),
        square_reduced(b),
        m >= 1,
        0 <= i < N,
        0 <= j < N,
    ensures
        prod_entry(b, a, m, i, j) == (b[i][N - 1] + (m - 1) * a[N - 1][N - 1] + a[N - 1][j]) % (MOD as int),
    decreases m,
{
    let md = MOD as int;
    let c = a[N - 1][N - 1] as int;
    assert(0 <= a[N - 1][j] < MOD);
    if m == 1 {
        assert(prod_entry(b, a, 0, i, N - 1) == b[i][N - 1]);
        assert((m - 1) * c == 0) by (nonlinear_arith)
            requires
                m == 1,
        ;
    } else {
        lemma_prod_closed(b, a, (m - 1) as nat, i, N - 1);
        let x = b[i][N - 1] + (m - 2) * c + c;
        let y = a[N - 1][j] as int;
        vstd::arithmetic::div_mod::lemma_add_mod_noop(x, y, md);
        vstd::arithmetic::div_mod::lemma_small_mod(y as nat, md as nat);
        assert((m - 2) * c + c == (m - 1) * c) by (nonlinear_arith);
    }
}

/// `x` and `x + q * MOD` leave the same remainder.
proof fn lemma_mod_shift(x: int, q: int)
    ensures
        (x + q * MOD) % (MOD as int) == x % (MOD as int),
{
    vstd::arithmetic::div_mod::lemma_mod_multiples_vanish(q, x, MOD as int);
    assert(MOD * q + x == x + q * MOD) by (nonlinear_arith);
}

/// Squaring `a` halves the number of factors.
proof fn lemma_prod_square(b: Seq<Seq<i64>>, a: Seq<Seq<i64>>, a2: Seq<Seq<i64>>, m: nat, i: int, j: int)
    requires
        square_reduced(a),
        square_reduced(b),
        square_reduced(a2),
        forall|x: int, y: int| 0 <= x < N && 0 <= y < N ==> #[trigger] a2[x][y] == (a[x][N - 1] + a[N - 1][y]) % (
        MOD as int),
        0 <= i < N,
        0 <= j < N,
    ensures
        prod_entry(b, a2, m, i, j) == prod_entry(b, a, 2 * m, i, j),
{
    if m >= 1 {
        let md = MOD as int;
        let c = a[N - 1][N - 1] as int;
        let y = a[N - 1][j] as int;
        let bx = b[i][N - 1] as int;
        lemma_prod_closed(b, a2, m, i, j);
        lemma_prod_closed(b, a, 2 * m, i, j);
        let c2 = a2[N - 1][N - 1] as int;
        let y2 = a2[N - 1][j] as int;
        assert(c2 == (c + c) % md);
        assert(y2 == (c + y) % md);
        let d1 = (c + c) / md;
        let d2 = (c + y) / md;
        vstd::arithmetic::div_mod::lemma_fundamental_div_mod(c + c, md);
        vstd::arithmetic::div_mod::lemma_fundamental_div_mod(c + y, md);
        let lhs = bx + (m - 1) * c2 + y2;
        let rhs = bx + (2 * m - 1) * c + y;
        assert(lhs == rhs + (-((m - 1) * d1 + d2)) * MOD) by (nonlinear_arith)
            requires
                c2 == c + c - md * d1,
                y2 == c + y - md * d2,
                md == MOD,
                lhs == bx + (m - 1) * c2 + y2,
                rhs == bx + (2 * m - 1) * c + y,
        ;
        lemma_mod_shift(rhs, -((m - 1) * d1 + d2));
    }
}

/// One more factor of `a` taken into `b`, then squaring `a`, halves the odd number of
/// factors.
proof fn lemma_prod_square_odd(
    b: Seq<Seq<i64>>,
    b2: Seq<Seq<i64>>,
    a: Seq<Seq<i64>>,
    a2: Seq<Seq<i64>>,
    m: nat,
    i: int,
    j: int,
)
    requires
        square_reduced(a),
        square_reduced(b),
        square_reduced(a2),
        square_reduced(b2),
        forall|x: int, y: int| 0 <= x < N && 0 <= y < N ==> #[trigger] a2[x][y] == (a[x][N - 1] + a[N - 1][y]) % (
        MOD as int),
        forall|x: int, y: int| 0 <= x < N && 0 <= y < N ==> #[trigger] b2[x][y] == (b[x][N - 1] + a[N - 1][y]) % (
        MOD as int),
        0 <= i < N,
        0 <= j < N,
    ensures
        prod_entry(b2, a2, m, i, j) == prod_entry(b, a, 2 * m + 1, i, j),
{
    let md = MOD as int;
    let c = a[N - 1][N - 1] as int;
    let y = a[N - 1][j] as int;
    let bx = b[i][N - 1] as int;
    lemma_prod_closed(b, a, 2 * m + 1, i, j);
    assert(((2 * m + 1) - 1) * c == (2 * m) * c) by (nonlinear_arith);
    if m == 0 {
        assert(b2[i][j] == (bx + y) % md);
        assert((2 * m) * c == 0) by (nonlinear_arith)
            requires
                m == 0,
        ;
    } else {
        lemma_prod_closed(b2, a2, m, i, j);
        let c2 = a2[N - 1][N - 1] as int;
        let y2 = a2[N - 1][j] as int;
        let bx2 = b2[i][N - 1] as int;
        assert(c2 == (c + c) % md);
        assert(y2 == (c + y) % md);
        assert(bx2 == (bx + c) % md);
        let d1 = (c + c) / md;
        let d2 = (c + y) / md;
        let d3 = (bx + c) / md;
        vstd::arithmetic::div_mod::lemma_fundamental_div_mod(c + c, md);
        vstd::arithmetic::div_mod::lemma_fundamental_div_mod(c + y, md);
        vstd::arithmetic::div_mod::lemma_fundamental_div_mod(bx + c, md);
        let lhs = bx2 + (m - 1) * c2 + y2;
        let rhs = bx + (2 * m) * c + y;
        assert(lhs == rhs + (-((m - 1) * d1 + d2 + d3)) * MOD) by (nonlinear_arith)
            requires
                c2 == c + c - md * d1,
                y2 == c + y - md * d2,
                bx2 == bx + c - md * d3,
                md == MOD,
                lhs == bx2 + (m - 1) * c2 + y2,
                rhs == bx + (2 * m) * c + y,
        ;
        lemma_mod_shift(rhs, -((m - 1) * d1 + d2 + d3));
    }
}

/// Column `k` is zero from row `k` down.
pub open spec fn no_pivot(a: Seq<Seq<i64>>, k: int) -> bool {
    forall|i: int| k <= i < N ==> #[trigger] a[i][k] == 0
}

impl SquareMatrix {
    /// The rows.
    pub closed spec fn rows(&self) -> Seq<Seq<i64>> {
        self.0@.map_values(|r: Vec<i64>| r@)
    }

    /// `N` rows of `N` entries.
    pub open spec fn wf(&self) -> bool {
        &&& self.rows().len() == N
        &&& forall|i: int| 0 <= i < N ==> (#[trigger] self.rows()[i]).len() == N
    }

    pub open spec fn at(&self, i: int, j: int) -> int {
        self.rows()[i][j] as int
    }

    fn filled(x: i64) -> (a: Self)
        ensures
            a.wf(),
            forall|i: int, j: int| 0 <= i < N && 0 <= j < N ==> #[trigger] a.at(i, j) == x,
    {
        let mut rows: Vec<Vec<i64>> = Vec::new();
        let mut i: usize = 0;
        while i < N
            invariant
                i <= N,
                rows@.len() == i,
                forall|r: int| 0 <= r < i ==> (#[trigger] rows@[r])@ == Seq::new(N as nat, |j: int| x),
            decreases N - i,
        {
            let row = vec![x; N];
            rows.push(row);
            i += 1;
        }
        let a = SquareMatrix(rows);
        assert forall|r: int| 0 <= r < N implies (#[trigger] a.rows()[r]).len() == N by {
            assert(a.rows()[r] == rows@[r]@);
        }
        assert forall|r: int, j: int| 0 <= r < N && 0 <= j < N implies #[trigger] a.at(r, j) == x by {
            assert(a.rows()[r] == rows@[r]@);
        }
        a
    }

    /// Entry `(i, j)`.
    pub fn get(&self, i: usize, j: usize) -> (x: i64)
        requires
            self.wf(),
            i < N,
            j < N,
        ensures
            x == self.at(i as int, j as int),
    {
        assert(self.rows()[i as int] == self.0@[i as int]@);
        self.0[i][j]
    }

    /// Sets entry `(i, j)` to `x`.
    pub fn set(&mut self, i: usize, j: usize, x: i64)
        requires
            old(self).wf(),
            i < N,
            j < N,
        ensures
            final(self).wf(),
            final(self).rows() == old(self).rows().update(i as int, old(self).rows()[i as int].update(j as int, x)),
            forall|r: int, c: int|
                0 <= r < N && 0 <= c < N ==> #[trigger] final(self).at(r, c) == if r == i && c == j {
                    x as int
                } else {
                    old(self).at(r, c)
                },
    {
        let ghost r0 = self.rows();
        assert(r0[i as int] == self.0@[i as int]@);
        self.0[i].set(j, x);
        assert(self.rows() =~= r0.update(i as int, r0[i as int].update(j as int, x)));
    }

    /// The matrix of zeros.
    pub fn zeros() -> (a: Self)
        ensures
            a.wf(),
            forall|i: int, j: int| 0 <= i < N && 0 <= j < N ==> #[trigger] a.at(i, j) == 0,
    {
        Self::filled(0)
    }

    /// The identity matrix.
    pub fn id() -> (a: Self)
        ensures
            a.wf(),
            forall|i: int, j: int| 0 <= i < N && 0 <= j < N ==> #[trigger] a.at(i, j) == if i == j {
                1int
            } else {
                0int
            },
    {
        let mut a = Self::zeros();
        let mut i: usize = 0;
        while i < N
            invariant
                a.wf(),
                i <= N,
                forall|r: int, j: int| 0 <= r < N && 0 <= j < N ==> #[trigger] a.at(r, j) == if r == j && r < i {
                    1int
                } else {
                    0int
                },
            decreases N - i,
        {
            a.set(i, i, 1);
            i += 1;
        }
        a
    }

    /// The entrywise sum reduced into `0..MOD`.
    pub fn add(&self, rhs: &Self) -> (a: Self)
        requires
            self.wf(),
            rhs.wf(),
            forall|i: int, j: int|
                0 <= i < N && 0 <= j < N ==> i64::MIN <= #[trigger] self.at(i, j) + rhs.at(i, j) <= i64::MAX,
        ensures
            a.wf(),
            forall|i: int, j: int|
                0 <= i < N && 0 <= j < N ==> #[trigger] a.at(i, j) == (self.at(i, j) + rhs.at(i, j)) % (MOD as int),
    {
        let mut a = Self::zeros();
        let mut i: usize = 0;
        while i < N
            invariant
                a.wf(),
                self.wf(),
                rhs.wf(),
                i <= N,
                forall|r: int, j: int|
                    0 <= r < N && 0 <= j < N ==> i64::MIN <= #[trigger] self.at(r, j) + rhs.at(r, j) <= i64::MAX,
                forall|r: int, j: int|
                    0 <= r < i && 0 <= j < N ==> #[trigger] a.at(r, j) == (self.at(r, j) + rhs.at(r, j)) % (MOD as int),
            decreases N - i,
        {
            let mut j: usize = 0;
            while j < N
                invariant
                    a.wf(),
                    self.wf(),
                    rhs.wf(),
                    i < N,
                    j <= N,
                    forall|r: int, c: int|
                        0 <= r < N && 0 <= c < N ==> i64::MIN <= #[trigger] self.at(r, c) + rhs.at(r, c) <= i64::MAX,
                    forall|r: int, c: int|
                        0 <= r < i && 0 <= c < N ==> #[trigger] a.at(r, c) == (self.at(r, c) + rhs.at(r, c)) % (MOD as int),
                    forall|c: int| 0 <= c < j ==> #[trigger] a.at(i as int, c) == (self.at(i as int, c) + rhs.at(i as int, c)) % (MOD as int),
                decreases N - j,
            {
                let s = self.get(i, j) + rhs.get(i, j);
                let x = s % MOD;
                let x = if x < 0 { x + MOD } else { x };
                a.set(i, j, x);
                j += 1;
            }
            i += 1;
        }
        a
    }
}

impl SquareMatrix {
    /// Exchanges rows `i` and `k`.
    fn swap_rows(&mut self, i: usize, k: usize)
        requires
            old(self).wf(),
            i < N,
            k < N,
            i != k,
        ensures
            final(self).wf(),
            final(self).rows() == old(self).rows().update(i as int, old(self).rows()[k as int]).update(
                k as int,
                old(self).rows()[i as int],
            ),
    {
        let ghost r0 = self.rows();
        let ghost v0 = self.0@;
        let mut a: Vec<i64> = Vec::new();
        std::mem::swap(&mut a, &mut self.0[i]);
        assert(a@ == r0[i as int]);
        assert(self.0@[k as int] == v0[k as int]);
        std::mem::swap(&mut a, &mut self.0[k]);
        assert(a@ == r0[k as int]);
        assert(self.0@[k as int]@ == r0[i as int]);
        std::mem::swap(&mut a, &mut self.0[i]);
        assert(self.0@[i as int]@ == r0[k as int]);
        assert(self.rows() =~= r0.update(i as int, r0[k as int]).update(k as int, r0[i as int]));
    }

    /// For each entry, the sum of the row entry and the column entry at each inner index
    /// reduced into `0..MOD`, the last one kept.
    pub fn mul(&self, rhs: &Self) -> (a: Self)
        requires
            self.wf(),
            rhs.wf(),
            forall|i: int, k: int, j: int|
                0 <= i < N && 0 <= k < N && 0 <= j < N ==> i64::MIN <= #[trigger] self.at(i, k) + #[trigger] rhs.at(k, j)
                    <= i64::MAX,
        ensures
            a.wf(),
            forall|i: int, j: int|
                0 <= i < N && 0 <= j < N ==> #[trigger] a.at(i, j) == (self.at(i, N - 1) + rhs.at(N - 1, j)) % (
                MOD as int),
    {
        let mut a = Self::zeros();
        let mut i: usize = 0;
        while i < N
            invariant
                a.wf(),
                self.wf(),
                rhs.wf(),
                i <= N,
                forall|i2: int, k: int, j: int|
                    0 <= i2 < N && 0 <= k < N && 0 <= j < N ==> i64::MIN <= #[trigger] self.at(i2, k) + #[trigger] rhs.at(
                        k,
                        j,
                    ) <= i64::MAX,
                forall|r: int, j: int|
                    0 <= r < i && 0 <= j < N ==> #[trigger] a.at(r, j) == (self.at(r, N - 1) + rhs.at(N - 1, j)) % (
                    MOD as int),
            decreases N - i,
        {
            let mut j: usize = 0;
            while j < N
                invariant
                    a.wf(),
                    self.wf(),
                    rhs.wf(),
                    i < N,
                    j <= N,
                    forall|i2: int, k: int, c: int|
                        0 <= i2 < N && 0 <= k < N && 0 <= c < N ==> i64::MIN <= #[trigger] self.at(i2, k) + #[trigger] rhs.at(
                            k,
                            c,
                        ) <= i64::MAX,
                    forall|r: int, c: int|
                        0 <= r < i && 0 <= c < N ==> #[trigger] a.at(r, c) == (self.at(r, N - 1) + rhs.at(N - 1, c)) % (
                        MOD as int),
                    forall|c: int|
                        0 <= c < j ==> #[trigger] a.at(i as int, c) == (self.at(i as int, N - 1) + rhs.at(N - 1, c)) % (
                        MOD as int),
                decreases N - j,
            {
                let mut k: usize = 0;
                while k < N
                    invariant
                        a.wf(),
                        self.wf(),
                        rhs.wf(),
                        i < N,
                        j < N,
                        k <= N,
                        forall|i2: int, k2: int, c: int|
                            0 <= i2 < N && 0 <= k2 < N && 0 <= c < N ==> i64::MIN <= #[trigger] self.at(i2, k2)
                                + #[trigger] rhs.at(k2, c) <= i64::MAX,
                        forall|r: int, c: int|
                            0 <= r < i && 0 <= c < N ==> #[trigger] a.at(r, c) == (self.at(r, N - 1) + rhs.at(N - 1, c))
                                % (MOD as int),
                        forall|c: int|
                            0 <= c < j ==> #[trigger] a.at(i as int, c) == (self.at(i as int, N - 1) + rhs.at(N - 1, c))
                                % (MOD as int),
                        k > 0 ==> a.at(i as int, j as int) == (self.at(i as int, k - 1) + rhs.at(k - 1, j as int)) % (
                        MOD as int),
                    decreases N - k,
                {
                    let s = self.get(i, k) + rhs.get(k, j);
                    let x = s % MOD;
                    let x = if x < 0 { x + MOD } else { x };
                    a.set(i, j, x);
                    k += 1;
                }
                j += 1;
            }
            i += 1;
        }
        a
    }

    /// `self` to the power `k` by repeated squaring with [`SquareMatrix::mul`]: the
    /// identity multiplied `k` times by `self`, or the identity where `k <= 0`.
    pub fn pow(&self, k: i64) -> (b: Self)
        requires
            self.wf(),
            entries_reduced(self.rows()),
        ensures
            b.wf(),
            entries_reduced(b.rows()),
            forall|i: int, j: int|
                0 <= i < N && 0 <= j < N ==> #[trigger] b.at(i, j) == power_entry(
                    self.rows(),
                    if k > 0 {
                        k as nat
                    } else {
                        0
                    },
                    i,
                    j,
                ),
    {
        let mut a = Self::zeros();
        let mut i: usize = 0;
        while i < N
            invariant
                a.wf(),
                self.wf(),
                entries_reduced(self.rows()),
                i <= N,
                forall|r: int, c: int| 0 <= r < i && 0 <= c < N ==> #[trigger] a.at(r, c) == self.at(r, c),
                forall|r: int, c: int| i <= r < N && 0 <= c < N ==> #[trigger] a.at(r, c) == 0,
            decreases N - i,
        {
            let mut j: usize = 0;
            while j < N
                invariant
                    a.wf(),
                    self.wf(),
                    entries_reduced(self.rows()),
                    i < N,
                    j <= N,
                    forall|r: int, c: int| 0 <= r < i && 0 <= c < N ==> #[trigger] a.at(r, c) == self.at(r, c),
                    forall|c: int| 0 <= c < j ==> #[trigger] a.at(i as int, c) == self.at(i as int, c),
                    forall|r: int, c: int| i <= r < N && 0 <= c < N && (r > i || c >= j) ==> #[trigger] a.at(r, c) == 0,
                decreases N - j,
            {
                a.set(i, j, self.get(i, j));
                j += 1;
            }
            i += 1;
        }
        proof {
            Self::lemma_reduced(&a);
            assert(a.rows() =~= self.rows()) by {
                assert forall|r: int| 0 <= r < N implies #[trigger] a.rows()[r] =~= self.rows()[r] by {
                    assert forall|c: int| 0 <= c < N implies a.rows()[r][c] == self.rows()[r][c] by {
                        assert(a.at(r, c) == self.at(r, c));
                    }
                }
            }
        }
        let mut b = Self::id();
        proof {
            Self::lemma_reduced(&b);
        }
        let ghost kk: nat = if k > 0 {
            k as nat
        } else {
            0
        };
        let ghost a0 = self.rows();
        proof {
            assert forall|i2: int, j2: int| 0 <= i2 < N && 0 <= j2 < N implies power_entry(a0, kk, i2, j2)
                == prod_entry(b.rows(), a.rows(), kk, i2, j2) by {
                assert forall|x: int, y: int| 0 <= x < N && 0 <= y < N implies #[trigger] b.rows()[x][y] == if x == y {
                    1int
                } else {
                    0int
                } by {
                    assert(b.at(x, y) == b.rows()[x][y]);
                }
                lemma_power_from_id(b.rows(), a0, kk, i2, j2);
            }
        }
        let mut k = k;
        if k < 0 {
            k = 0;
        }
        while k > 0
            invariant
                a.wf(),
                b.wf(),
                k >= 0,
                forall|r: int, c: int| 0 <= r < N && 0 <= c < N ==> 0 <= #[trigger] a.at(r, c) < MOD,
                forall|r: int, c: int| 0 <= r < N && 0 <= c < N ==> 0 <= #[trigger] b.at(r, c) < MOD,
                forall|i2: int, j2: int|
                    0 <= i2 < N && 0 <= j2 < N ==> power_entry(a0, kk, i2, j2) == #[trigger] prod_entry(
                        b.rows(),
                        a.rows(),
                        k as nat,
                        i2,
                        j2,
                    ),
            decreases k,
        {
            let ghost ar = a.rows();
            let ghost br = b.rows();
            let ghost k0 = k;
            proof {
                Self::lemma_reduced(&a);
                Self::lemma_reduced(&b);
                assert((k & 1 == 1) == (k % 2 == 1)) by (bit_vector)
                    requires
                        k > 0,
                ;
            }
            if k & 1 == 1 {
                b = b.mul(&a);
            }
            a = a.mul(&a);
            k = k / 2;
            proof {
                Self::lemma_reduced(&a);
                Self::lemma_reduced(&b);
                let a2 = a.rows();
                let b2 = b.rows();
                assert forall|x: int, y: int| 0 <= x < N && 0 <= y < N implies #[trigger] a2[x][y] == (ar[x][N - 1]
                    + ar[N - 1][y]) % (MOD as int) by {
                    assert(a.at(x, y) == a2[x][y]);
                }
                assert forall|i2: int, j2: int|
                    0 <= i2 < N && 0 <= j2 < N implies power_entry(a0, kk, i2, j2) == #[trigger] prod_entry(
                        b2,
                        a2,
                        k as nat,
                        i2,
                        j2,
                    ) by {
                    if k0 % 2 == 1 {
                        assert forall|x: int, y: int| 0 <= x < N && 0 <= y < N implies #[trigger] b2[x][y] == (br[x][N
                            - 1] + ar[N - 1][y]) % (MOD as int) by {
                            assert(b.at(x, y) == b2[x][y]);
                        }
                        lemma_prod_square_odd(br, b2, ar, a2, k as nat, i2, j2);
                        assert(2 * (k as nat) + 1 == k0 as nat);
                    } else {
                        assert(b2 == br);
                        lemma_prod_square(br, ar, a2, k as nat, i2, j2);
                        assert(2 * (k as nat) == k0 as nat);
                    }
                }
            }
        }
        proof {
            Self::lemma_reduced(&b);
            assert forall|i2: int, j2: int| 0 <= i2 < N && 0 <= j2 < N implies #[trigger] b.at(i2, j2) == power_entry(
                a0,
                kk,
                i2,
                j2,
            ) by {
                assert(k == 0);
                assert(prod_entry(b.rows(), a.rows(), k as nat, i2, j2) == b.at(i2, j2));
            }
        }
        b
    }

    proof fn lemma_reduced(a: &Self)
        requires
            a.wf(),
            forall|r: int, c: int| 0 <= r < N && 0 <= c < N ==> 0 <= #[trigger] a.at(r, c) < MOD,
        ensures
            entries_reduced(a.rows()),
    {
        assert forall|i: int, j: int| 0 <= i < a.rows().len() && 0 <= j < a.rows()[i].len() implies 0 <= #[trigger] a.rows()[i][j]
            < MOD by {
            assert(0 <= a.at(i, j) < MOD);
        }
    }
}

/// `p` lists each of `0..N` once.
pub open spec fn is_perm(p: Seq<usize>) -> bool {
    &&& p.len() == N
    &&& forall|x: int| 0 <= x < N ==> #[trigger] p[x] < N
    &&& forall|x: int, y: int| 0 <= x < y < N ==> p[x] != p[y]
}

/// `x` reduced into `0..MOD`.
fn reduce(x: i64) -> (r: i64)
    ensures
        0 <= r < MOD,
        r == (x as int) % (MOD as int),
{
    let r = x % MOD;
    if r < 0 {
        r + MOD
    } else {
        r
    }
}

impl SquareMatrix {
    /// LU decomposition with row exchanges, in place: `L` below the diagonal (its unit
    /// diagonal left out) and `U` on and above it. Returns the row order and the number
    /// of exchanges, or `None` when a pivot cannot be found.
    pub fn lup(&mut self) -> (r: Option<(Vec<usize>, i64)>)
        requires
            old(self).wf(),
            entries_reduced(old(self).rows()),
        ensures
            final(self).wf(),
            entries_reduced(final(self).rows()),
            r matches Some(res) ==> is_perm(res.0@) && res.1 >= 0 && forall|k: int|
                0 <= k < N ==> #[trigger] final(self).at(k, k) != 0,
            r is None ==> exists|k: int| 0 <= k < N && #[trigger] no_pivot(final(self).rows(), k),
    {
        let mut p: Vec<usize> = Vec::new();
        let mut x: usize = 0;
        while x < N
            invariant
                x <= N,
                p@.len() == x,
                forall|y: int| 0 <= y < x ==> #[trigger] p@[y] == y,
            decreases N - x,
        {
            p.push(x);
            x += 1;
        }
        let mut swap_count: i64 = 0;
        let mut k: usize = 0;
        while k < N
            invariant
                self.wf(),
                entries_reduced(self.rows()),
                k <= N,
                is_perm(p@),
                0 <= swap_count <= (k * N) as int,
                forall|k2: int| 0 <= k2 < k ==> #[trigger] self.at(k2, k2) != 0,
            decreases N - k,
        {
            if self.get(k, k) == 0 {
                let mut i = k + 1;
                while i < N
                    invariant
                        self.wf(),
                        entries_reduced(self.rows()),
                        k < i <= N,
                        is_perm(p@),
                        0 <= swap_count <= (k * N + i) as int,
                        forall|k2: int| 0 <= k2 < k ==> #[trigger] self.at(k2, k2) != 0,
                        self.at(k as int, k as int) == 0 ==> forall|i2: int| k < i2 < i ==> #[trigger] self.at(i2, k as int) == 0,
                    decreases N - i,
                {
                    if self.get(i, k) != 0 {
                        let ghost r0 = self.rows();
                        assert forall|k2: int| 0 <= k2 < k implies #[trigger] r0[k2][k2] != 0 by {
                            assert(self.at(k2, k2) != 0);
                        }
                        self.swap_rows(i, k);
                        proof {
                            assert forall|k2: int| 0 <= k2 < k implies #[trigger] self.at(k2, k2) != 0 by {
                                assert(self.rows()[k2] == r0[k2]);
                                assert(r0[k2][k2] != 0);
                            }
                            assert forall|a: int, b: int| 0 <= a < self.rows().len() && 0 <= b < self.rows()[a].len() implies 0
                                <= #[trigger] self.rows()[a][b] < MOD by {
                                if a == i as int {
                                    assert(self.rows()[a] == r0[k as int]);
                                } else if a == k as int {
                                    assert(self.rows()[a] == r0[i as int]);
                                } else {
                                    assert(self.rows()[a] == r0[a]);
                                }
                            }
                        }
                        let ghost p0 = p@;
                        let pi = p[i];
                        let pk = p[k];
                        p.set(i, pk);
                        p.set(k, pi);
                        proof {
                            assert forall|a: int, b: int| 0 <= a < b < N implies p@[a] != p@[b] by {
                                let fa = if a == i as int { k as int } else if a == k as int { i as int } else { a };
                                let fb = if b == i as int { k as int } else if b == k as int { i as int } else { b };
                                assert(p@[a] == p0[fa] && p@[b] == p0[fb]);
                                if fa < fb {
                                    assert(p0[fa] != p0[fb]);
                                } else {
                                    assert(p0[fb] != p0[fa]);
                                }
                            }
                        }
                        swap_count += 1;
                    }
                    i += 1;
                }
                if self.get(k, k) == 0 {
                    proof {
                        assert(self.rows()[k as int][k as int] == 0);
                        assert forall|i2: int| k <= i2 < N implies #[trigger] self.rows()[i2][k as int] == 0 by {
                            assert(self.at(i2, k as int) == 0);
                        }
                        assert(no_pivot(self.rows(), k as int));
                    }
                    return None;
                }
            }
            let d_inv = mod_inv(self.get(k, k), MOD);
            proof {
                crate::num_lemmas::lemma_ext_gcd(self.at(k as int, k as int) as nat, MOD as nat);
            }
            let mut i = k + 1;
            while i < N
                invariant
                    self.wf(),
                    entries_reduced(self.rows()),
                    k < N,
                    k < i <= N,
                    -MOD <= d_inv <= MOD,
                    forall|k2: int| 0 <= k2 <= k ==> #[trigger] self.at(k2, k2) != 0,
                decreases N - i,
            {
                proof {
                    assert(0 <= self.at(i as int, k as int) < MOD) by {
                        assert(self.rows()[i as int][k as int] == self.at(i as int, k as int));
                    }
                }
                let lik = self.get(i, k);
                assert(-(MOD * MOD) <= lik * d_inv <= MOD * MOD) by (nonlinear_arith)
                    requires
                        0 <= lik < MOD,
                        -MOD <= d_inv <= MOD,
                ;
                let l = reduce(lik * d_inv);
                self.set(i, k, l);
                let mut j = k + 1;
                while j < N
                    invariant
                        self.wf(),
                        entries_reduced(self.rows()),
                        k < i < N,
                        k < j <= N,
                        0 <= l < MOD,
                        forall|k2: int| 0 <= k2 <= k ==> #[trigger] self.at(k2, k2) != 0,
                    decreases N - j,
                {
                    let a = self.get(i, j);
                    let b = self.get(k, j);
                    proof {
                        assert(self.rows()[i as int][j as int] == a && self.rows()[k as int][j as int] == b);
                    }
                    assert(0 <= l * b < MOD * MOD) by (nonlinear_arith)
                        requires
                            0 <= l < MOD,
                            0 <= b < MOD,
                    ;
                    self.set(i, j, reduce(a - l * b));
                    j += 1;
                }
                i += 1;
            }
            k += 1;
        }
        Some((p, swap_count))
    }
}

impl SquareMatrix {
    /// The determinant modulo `MOD`, from the decomposition left in `self`; 0 when
    /// no pivot is found.
    pub fn det(&mut self) -> (d: i64)
        requires
            old(self).wf(),
            entries_reduced(old(self).rows()),
        ensures
            final(self).wf(),
            0 <= d < MOD,
            d == diag_prod(final(self).rows(), N as int) || d == ((MOD - 1) * diag_prod(
                final(self).rows(),
                N as int,
            )) % (MOD as int),
    {
        match self.lup() {
            Some((_, c)) => {
                let mut det: i64 = if c % 2 == 0 { 1 } else { MOD - 1 };
                let ghost s0: int = det as int;
                let mut i: usize = 0;
                while i < N
                    invariant
                        self.wf(),
                        entries_reduced(self.rows()),
                        i <= N,
                        0 <= det < MOD,
                        s0 == 1 || s0 == MOD - 1,
                        det == (s0 * diag_prod(self.rows(), i as int)) % (MOD as int),
                    decreases N - i,
                {
                    let x = self.get(i, i);
                    proof {
                        assert(self.rows()[i as int][i as int] == x);
                    }
                    assert(0 <= det * x < MOD * MOD) by (nonlinear_arith)
                        requires
                            0 <= det < MOD,
                            0 <= x < MOD,
                    ;
                    proof {
                        let pr = diag_prod(self.rows(), i as int);
                        vstd::arithmetic::div_mod::lemma_mul_mod_noop_left(s0 * pr, x as int, MOD as int);
                        vstd::arithmetic::div_mod::lemma_mul_mod_noop_right(s0, pr * x, MOD as int);
                        assert(s0 * pr * x == s0 * (pr * x)) by (nonlinear_arith);
                        assert(diag_prod(self.rows(), i + 1) == (pr * x) % (MOD as int));
                    }
                    det = reduce(det * x);
                    i += 1;
                }
                proof {
                    let pr = diag_prod(self.rows(), N as int);
                    if s0 == 1 {
                        assert(0 <= pr < MOD) by {
                            assert(N >= 1);
                        }
                        vstd::arithmetic::div_mod::lemma_small_mod(pr as nat, MOD as nat);
                    }
                }
                det
            },
            None => {
                proof {
                    let z = choose|k: int| 0 <= k < N && #[trigger] no_pivot(self.rows(), k);
                    assert(self.rows()[z][z] == 0);
                    lemma_diag_prod_zero(self.rows(), N as int, z);
                }
                0
            },
        }
    }

    /// The inverse modulo `MOD`, by forward and back substitution on the decomposition,
    /// or `None` when no pivot is found.
    pub fn inv(self) -> (r: Option<Self>)
        requires
            self.wf(),
            entries_reduced(self.rows()),
        ensures
            r matches Some(m) ==> m.wf() && entries_reduced(m.rows()),
    {
        let mut a = self;
        match a.lup() {
            None => None,
            Some((p, _)) => {
                let mut inv = Self::zeros();
                let mut i: usize = 0;
                while i < N
                    invariant
                        inv.wf(),
                        is_perm(p@),
                        i <= N,
                        forall|r: int, c: int| 0 <= r < N && 0 <= c < N ==> 0 <= #[trigger] inv.at(r, c) < MOD,
                    decreases N - i,
                {
                    inv.set(i, p[i], 1);
                    i += 1;
                }
                let mut k: usize = 0;
                while k < N
                    invariant
                        inv.wf(),
                        a.wf(),
                        entries_reduced(a.rows()),
                        k <= N,
                        forall|r: int, c: int| 0 <= r < N && 0 <= c < N ==> 0 <= #[trigger] inv.at(r, c) < MOD,
                    decreases N - k,
                {
                    let mut i = k + 1;
                    while i < N
                        invariant
                            inv.wf(),
                            a.wf(),
                            entries_reduced(a.rows()),
                            k < N,
                            k < i <= N,
                            forall|r: int, c: int| 0 <= r < N && 0 <= c < N ==> 0 <= #[trigger] inv.at(r, c) < MOD,
                        decreases N - i,
                    {
                        let aik = a.get(i, k);
                        proof {
                            assert(a.rows()[i as int][k as int] == aik);
                        }
                        let mut j: usize = 0;
                        while j < N
                            invariant
                                inv.wf(),
                                k < N,
                                k < i < N,
                                j <= N,
                                0 <= aik < MOD,
                                forall|r: int, c: int| 0 <= r < N && 0 <= c < N ==> 0 <= #[trigger] inv.at(r, c) < MOD,
                            decreases N - j,
                        {
                            let x = inv.get(i, j);
                            let y = inv.get(k, j);
                            assert(0 <= aik * y < MOD * MOD) by (nonlinear_arith)
                                requires
                                    0 <= aik < MOD,
                                    0 <= y < MOD,
                            ;
                            inv.set(i, j, reduce(x - aik * y));
                            j += 1;
                        }
                        i += 1;
                    }
                    k += 1;
                }
                let mut k = N;
                while k > 0
                    invariant
                        inv.wf(),
                        a.wf(),
                        entries_reduced(a.rows()),
                        k <= N,
                        forall|r: int, c: int| 0 <= r < N && 0 <= c < N ==> 0 <= #[trigger] inv.at(r, c) < MOD,
                    decreases k,
                {
                    k -= 1;
                    let akk = a.get(k, k);
                    proof {
                        assert(a.rows()[k as int][k as int] == akk);
                    }
                    let d = mod_inv(akk, MOD);
                    proof {
                        crate::num_lemmas::lemma_ext_gcd(akk as nat, MOD as nat);
                    }
                    let mut i: usize = 0;
                    while i < k
                        invariant
                            inv.wf(),
                            a.wf(),
                            entries_reduced(a.rows()),
                            i <= k,
                            k < N,
                            -MOD <= d <= MOD,
                            forall|r: int, c: int| 0 <= r < N && 0 <= c < N ==> 0 <= #[trigger] inv.at(r, c) < MOD,
                        decreases k - i,
                    {
                        let aik = a.get(i, k);
                        proof {
                            assert(a.rows()[i as int][k as int] == aik);
                        }
                        assert(-(MOD * MOD) <= d * aik <= MOD * MOD) by (nonlinear_arith)
                            requires
                                0 <= aik < MOD,
                                -MOD <= d <= MOD,
                        ;
                        let c = reduce(d * aik);
                        let mut j: usize = 0;
                        while j < N
                            invariant
                                inv.wf(),
                                i < k < N,
                                j <= N,
                                0 <= c < MOD,
                                forall|r: int, c2: int| 0 <= r < N && 0 <= c2 < N ==> 0 <= #[trigger] inv.at(r, c2) < MOD,
                            decreases N - j,
                        {
                            let x = inv.get(i, j);
                            let y = inv.get(k, j);
                            assert(0 <= c * y < MOD * MOD) by (nonlinear_arith)
                                requires
                                    0 <= c < MOD,
                                    0 <= y < MOD,
                            ;
                            inv.set(i, j, reduce(x - c * y));
                            j += 1;
                        }
                        i += 1;
                    }
                    let mut j: usize = 0;
                    while j < N
                        invariant
                            inv.wf(),
                            k < N,
                            j <= N,
                            -MOD <= d <= MOD,
                            forall|r: int, c2: int| 0 <= r < N && 0 <= c2 < N ==> 0 <= #[trigger] inv.at(r, c2) < MOD,
                        decreases N - j,
                    {
                        let y = inv.get(k, j);
                        assert(-(MOD * MOD) <= d * y <= MOD * MOD) by (nonlinear_arith)
                            requires
                                0 <= y < MOD,
                                -MOD <= d <= MOD,
                        ;
                        inv.set(k, j, reduce(d * y));
                        j += 1;
                    }
                }
                proof {
                    Self::lemma_reduced(&inv);
                }
                Some(inv)
            },
        }
    }
}

} // verus!
