use vstd::prelude::*;
use crate::other::matrix::{Ring, Zero, One, dot};

verus! {

/// `f(0) + f(1) + ... + f(len - 1)`, added from the front.
pub open spec fn sum<T: Ring>(f: spec_fn(int) -> T, len: nat) -> T
    decreases len,
{
    if len == 0 {
        T::spec_zero()
    } else {
        T::radd(sum(f, (len - 1) as nat), f(len - 1))
    }
}

/// A dot product is the sum of the products of corresponding entries.
pub proof fn lemma_dot_is_sum<T: Ring>(a: Seq<T>, b: Seq<T>, len: nat)
    ensures
        dot(a, b, len) == sum(|k: int| T::rmul(a[k], b[k]), len),
    decreases len,
{
    if len > 0 {
        lemma_dot_is_sum(a, b, (len - 1) as nat);
    }
}

/// Sums of pointwise equal terms are equal.
pub proof fn lemma_sum_ext<T: Ring>(f: spec_fn(int) -> T, g: spec_fn(int) -> T, len: nat)
    requires
        forall|k: int| 0 <= k < len ==> #[trigger] f(k) == g(k),
    ensures
        sum(f, len) == sum(g, len),
    decreases len,
{
    if len > 0 {
        lemma_sum_ext(f, g, (len - 1) as nat);
    }
}

/// Sums are in normal form.
pub proof fn lemma_sum_canonical<T: Ring>(f: spec_fn(int) -> T, len: nat)
    ensures
        T::canonical(sum(f, len)),
{
    T::lemma_ring_laws(T::spec_zero(), T::spec_zero(), T::spec_zero());
    if len > 0 {
        T::lemma_ring_laws(sum(f, (len - 1) as nat), f(len - 1), T::spec_zero());
    }
}

/// A sum of pointwise sums is the sum of the two sums.
pub proof fn lemma_sum_add<T: Ring>(f: spec_fn(int) -> T, g: spec_fn(int) -> T, len: nat)
    ensures
        sum(|k: int| T::radd(f(k), g(k)), len) == T::radd(sum(f, len), sum(g, len)),
    decreases len,
{
    let h = |k: int| T::radd(f(k), g(k));
    T::lemma_ring_laws(T::spec_zero(), T::spec_zero(), T::spec_zero());
    if len > 0 {
        let n1 = (len - 1) as nat;
        lemma_sum_add(f, g, n1);
        let (sf, sg) = (sum(f, n1), sum(g, n1));
        let (a, b) = (f(n1 as int), g(n1 as int));
        // (sf + sg) + (a + b) == (sf + a) + (sg + b)
        T::lemma_ring_laws(sf, sg, T::radd(a, b));
        T::lemma_ring_laws(sg, a, b);
        T::lemma_ring_laws(a, sg, b);
        T::lemma_ring_laws(sf, a, T::radd(sg, b));
        T::lemma_ring_laws(sg, a, T::spec_zero());
        assert(T::radd(sg, T::radd(a, b)) == T::radd(a, T::radd(sg, b))) by {
            assert(T::radd(sg, T::radd(a, b)) == T::radd(T::radd(sg, a), b));
            assert(T::radd(sg, a) == T::radd(a, sg));
        }
    } else {
        lemma_sum_canonical(f, 0);
    }
}

/// A sum times `c` is the sum of the terms times `c`.
pub proof fn lemma_sum_mul_right<T: Ring>(f: spec_fn(int) -> T, c: T, len: nat)
    ensures
        T::rmul(sum(f, len), c) == sum(|k: int| T::rmul(f(k), c), len),
    decreases len,
{
    T::lemma_ring_laws(c, c, c);
    if len > 0 {
        let n1 = (len - 1) as nat;
        lemma_sum_mul_right(f, c, n1);
        T::lemma_ring_laws(sum(f, n1), f(n1 as int), c);
    }
}

/// `c` times a sum is the sum of `c` times the terms.
pub proof fn lemma_sum_mul_left<T: Ring>(c: T, f: spec_fn(int) -> T, len: nat)
    ensures
        T::rmul(c, sum(f, len)) == sum(|k: int| T::rmul(c, f(k)), len),
    decreases len,
{
    T::lemma_ring_laws(c, c, c);
    if len > 0 {
        let n1 = (len - 1) as nat;
        lemma_sum_mul_left(c, f, n1);
        T::lemma_ring_laws(c, sum(f, n1), f(n1 as int));
    }
}

/// A double sum may be taken in either order.
pub proof fn lemma_sum_swap<T: Ring>(g: spec_fn(int, int) -> T, n: nat, m: nat)
    ensures
        sum(|i: int| sum(|j: int| g(i, j), m), n) == sum(|j: int| sum(|i: int| g(i, j), n), m),
    decreases n,
{
    if n == 0 {
        let f1 = |j: int| sum(|i: int| g(i, j), 0);
        let f2 = |j: int| T::spec_zero();
        assert forall|j: int| 0 <= j < m implies #[trigger] f1(j) == f2(j) by {}
        lemma_sum_ext(f1, f2, m);
        lemma_sum_zero::<T>(m);
    } else {
        let n1 = (n - 1) as nat;
        lemma_sum_swap(g, n1, m);
        // sum_j sum_{i < n} g(i, j) == sum_j (sum_{i < n1} g(i, j) + g(n1, j))
        let lhs_inner = |j: int| sum(|i: int| g(i, j), n);
        let a = |j: int| sum(|i: int| g(i, j), n1);
        let b = |j: int| g(n1 as int, j);
        let ab = |j: int| T::radd(a(j), b(j));
        assert forall|j: int| 0 <= j < m implies #[trigger] lhs_inner(j) == ab(j) by {}
        lemma_sum_ext(lhs_inner, ab, m);
        lemma_sum_add(a, b, m);
    }
}

/// A sum of zeros is zero.
pub proof fn lemma_sum_zero<T: Ring>(len: nat)
    ensures
        sum(|k: int| T::spec_zero(), len) == T::spec_zero(),
    decreases len,
{
    T::lemma_ring_laws(T::spec_zero(), T::spec_zero(), T::spec_zero());
    if len > 0 {
        lemma_sum_zero::<T>((len - 1) as nat);
    }
}

/// A sum whose only possibly nonzero term is at `p` equals that term, if in normal form.
pub proof fn lemma_sum_single<T: Ring>(f: spec_fn(int) -> T, p: int, len: nat)
    requires
        0 <= p < len,
        T::canonical(f(p)),
        forall|k: int| 0 <= k < len && k != p ==> #[trigger] f(k) == T::spec_zero(),
    ensures
        sum(f, len) == f(p),
    decreases len,
{
    T::lemma_ring_laws(f(p), T::spec_zero(), T::spec_zero());
    T::lemma_ring_laws(T::spec_zero(), f(p), T::spec_zero());
    if len - 1 == p {
        let z = |k: int| T::spec_zero();
        assert forall|k: int| 0 <= k < p implies #[trigger] f(k) == z(k) by {}
        lemma_sum_ext(f, z, p as nat);
        lemma_sum_zero::<T>(p as nat);
    } else {
        lemma_sum_single(f, p, (len - 1) as nat);
    }
}

/// The `n` by `n` matrices, held row after row as sequences of length `n * n`.
/// Entry `(i, j)` of `x`.
pub open spec fn ent<T>(x: Seq<T>, n: nat, i: int, j: int) -> T {
    x[i * n + j]
}

/// The product of two `n` by `n` matrices.
pub open spec fn mul_sq<T: Ring>(x: Seq<T>, y: Seq<T>, n: nat) -> Seq<T> {
    Seq::new(n * n, |k: int| sum(|l: int| T::rmul(ent(x, n, k / (n as int), l), ent(y, n, l, k % (n as int))), n))
}

/// The `n` by `n` identity matrix.
pub open spec fn id_sq<T: Ring>(n: nat) -> Seq<T> {
    Seq::new(n * n, |k: int| if k / (n as int) == k % (n as int) { T::spec_one() } else { T::spec_zero() })
}

/// `x` to the power `e`: the identity multiplied by `x`, `e` times.
pub open spec fn pow_sq<T: Ring>(x: Seq<T>, n: nat, e: nat) -> Seq<T>
    decreases e,
{
    if e == 0 {
        id_sq(n)
    } else {
        mul_sq(pow_sq(x, n, (e - 1) as nat), x, n)
    }
}

/// Every entry is in normal form.
pub open spec fn all_canonical<T: Ring>(x: Seq<T>) -> bool {
    forall|k: int| 0 <= k < x.len() ==> T::canonical(#[trigger] x[k])
}

/// `k` is the index of `(k / n, k % n)`.
pub proof fn lemma_div_mod_index(k: int, n: int)
    requires
        n > 0,
        0 <= k < n * n,
    ensures
        0 <= k / (n as int) < n,
        0 <= k % (n as int) < n,
        (k / (n as int)) * n + k % (n as int) == k,
{
    vstd::arithmetic::div_mod::lemma_fundamental_div_mod(k, n);
    assert(k / (n as int) * n == n * (k / (n as int))) by (nonlinear_arith);
    assert(0 <= k / (n as int) < n) by (nonlinear_arith)
        requires 0 <= k < n * n, n > 0, k == n * (k / (n as int)) + k % (n as int), 0 <= k % (n as int) < n;
}

/// `(i * n + j) / n == i` and `(i * n + j) % n == j`.
pub proof fn lemma_index_div_mod(i: int, j: int, n: int)
    requires
        n > 0,
        0 <= i < n,
        0 <= j < n,
    ensures
        (i * n + j) / n == i,
        (i * n + j) % n == j,
        0 <= i * n + j < n * n,
{
    vstd::arithmetic::div_mod::lemma_fundamental_div_mod_converse(i * n + j, n, i, j);
    assert(i * n == n * i) by (nonlinear_arith);
    assert(0 <= i * n + j < n * n) by (nonlinear_arith)
        requires 0 <= i < n, 0 <= j < n;
}

/// Entry `(i, j)` of a product.
pub proof fn lemma_mul_sq_ent<T: Ring>(x: Seq<T>, y: Seq<T>, n: nat, i: int, j: int)
    requires
        n > 0,
        0 <= i < n,
        0 <= j < n,
    ensures
        ent(mul_sq(x, y, n), n, i, j) == sum(|l: int| T::rmul(ent(x, n, i, l), ent(y, n, l, j)), n),
{
    lemma_index_div_mod(i, j, n as int);
}

/// Products are in normal form.
pub proof fn lemma_mul_sq_canonical<T: Ring>(x: Seq<T>, y: Seq<T>, n: nat)
    ensures
        mul_sq(x, y, n).len() == n * n,
        all_canonical(mul_sq(x, y, n)),
{
    let p = mul_sq(x, y, n);
    assert forall|k: int| 0 <= k < p.len() implies T::canonical(#[trigger] p[k]) by {
        lemma_sum_canonical(|l: int| T::rmul(ent(x, n, k / (n as int), l), ent(y, n, l, k % (n as int))), n);
    }
}

/// Matrix multiplication is associative.
pub proof fn lemma_mul_sq_assoc<T: Ring>(x: Seq<T>, y: Seq<T>, z: Seq<T>, n: nat)
    ensures
        mul_sq(mul_sq(x, y, n), z, n) == mul_sq(x, mul_sq(y, z, n), n),
{
    let lhs = mul_sq(mul_sq(x, y, n), z, n);
    let rhs = mul_sq(x, mul_sq(y, z, n), n);
    assert forall|k: int| 0 <= k < n * n implies #[trigger] lhs[k] == rhs[k] by {
        assert(n > 0) by (nonlinear_arith)
            requires 0 <= k < n * n;
        lemma_div_mod_index(k, n as int);
        let (i, j) = (k / (n as int), k % (n as int));
        let g = |l: int, q: int| T::rmul(T::rmul(ent(x, n, i, l), ent(y, n, l, q)), ent(z, n, q, j));
        let xy = mul_sq(x, y, n);
        let yz = mul_sq(y, z, n);
        // lhs[k] == sum_q (sum_l x_il y_lq) z_qj == sum_q sum_l g(l, q)
        let lt = |q: int| T::rmul(ent(xy, n, i, q), ent(z, n, q, j));
        let lt2 = |q: int| sum(|l: int| g(l, q), n);
        assert forall|q: int| 0 <= q < n implies #[trigger] lt(q) == lt2(q) by {
            lemma_mul_sq_ent(x, y, n, i, q);
            let inner = |l: int| T::rmul(ent(x, n, i, l), ent(y, n, l, q));
            lemma_sum_mul_right(inner, ent(z, n, q, j), n);
            let scaled = |l: int| T::rmul(inner(l), ent(z, n, q, j));
            let gq = |l: int| g(l, q);
            assert forall|l: int| 0 <= l < n implies #[trigger] scaled(l) == gq(l) by {}
            lemma_sum_ext(scaled, gq, n);
        }
        lemma_sum_ext(lt, lt2, n);
        // rhs[k] == sum_l x_il (sum_q y_lq z_qj) == sum_l sum_q g(l, q)
        let rt = |l: int| T::rmul(ent(x, n, i, l), ent(yz, n, l, j));
        let rt2 = |l: int| sum(|q: int| g(l, q), n);
        assert forall|l: int| 0 <= l < n implies #[trigger] rt(l) == rt2(l) by {
            lemma_mul_sq_ent(y, z, n, l, j);
            let inner = |q: int| T::rmul(ent(y, n, l, q), ent(z, n, q, j));
            lemma_sum_mul_left(ent(x, n, i, l), inner, n);
            let scaled = |q: int| T::rmul(ent(x, n, i, l), inner(q));
            let gl = |q: int| g(l, q);
            assert forall|q: int| 0 <= q < n implies #[trigger] scaled(q) == gl(q) by {
                T::lemma_ring_laws(ent(x, n, i, l), ent(y, n, l, q), ent(z, n, q, j));
            }
            lemma_sum_ext(scaled, gl, n);
        }
        lemma_sum_ext(rt, rt2, n);
        lemma_sum_swap(g, n, n);
    }
    assert(lhs =~= rhs);
}

/// The identity is a right unit for matrices in normal form.
pub proof fn lemma_mul_sq_id_right<T: Ring>(x: Seq<T>, n: nat)
    requires
        x.len() == n * n,
        all_canonical(x),
    ensures
        mul_sq(x, id_sq(n), n) == x,
{
    let p = mul_sq(x, id_sq::<T>(n), n);
    assert forall|k: int| 0 <= k < n * n implies #[trigger] p[k] == x[k] by {
        assert(n > 0) by (nonlinear_arith)
            requires 0 <= k < n * n;
        lemma_div_mod_index(k, n as int);
        let (i, j) = (k / (n as int), k % (n as int));
        let f = |l: int| T::rmul(ent(x, n, i, l), ent(id_sq::<T>(n), n, l, j));
        assert forall|l: int| 0 <= l < n && l != j implies #[trigger] f(l) == T::spec_zero() by {
            lemma_index_div_mod(l, j, n as int);
            T::lemma_ring_laws(ent(x, n, i, l), T::spec_zero(), T::spec_zero());
        }
        lemma_index_div_mod(j, j, n as int);
        T::lemma_ring_laws(x[k], T::spec_zero(), T::spec_zero());
        lemma_sum_single(f, j, n);
    }
    assert(p =~= x);
}

/// The identity is a left unit for matrices in normal form.
pub proof fn lemma_mul_sq_id_left<T: Ring>(x: Seq<T>, n: nat)
    requires
        x.len() == n * n,
        all_canonical(x),
    ensures
        mul_sq(id_sq(n), x, n) == x,
{
    let p = mul_sq(id_sq::<T>(n), x, n);
    assert forall|k: int| 0 <= k < n * n implies #[trigger] p[k] == x[k] by {
        assert(n > 0) by (nonlinear_arith)
            requires 0 <= k < n * n;
        lemma_div_mod_index(k, n as int);
        let (i, j) = (k / (n as int), k % (n as int));
        let f = |l: int| T::rmul(ent(id_sq::<T>(n), n, i, l), ent(x, n, l, j));
        assert forall|l: int| 0 <= l < n && l != i implies #[trigger] f(l) == T::spec_zero() by {
            lemma_index_div_mod(i, l, n as int);
            T::lemma_ring_laws(ent(x, n, l, j), T::spec_zero(), T::spec_zero());
        }
        lemma_index_div_mod(i, i, n as int);
        T::lemma_ring_laws(x[k], T::spec_zero(), T::spec_zero());
        lemma_sum_single(f, i, n);
    }
    assert(p =~= x);
}

/// Powers are in normal form.
pub proof fn lemma_pow_sq_canonical<T: Ring>(x: Seq<T>, n: nat, e: nat)
    ensures
        pow_sq(x, n, e).len() == n * n,
        all_canonical(pow_sq(x, n, e)),
{
    if e == 0 {
        T::lemma_ring_laws(T::spec_zero(), T::spec_zero(), T::spec_zero());
    } else {
        lemma_mul_sq_canonical(pow_sq(x, n, (e - 1) as nat), x, n);
    }
}

/// `x^(a + b) == x^a * x^b`.
pub proof fn lemma_pow_sq_add<T: Ring>(x: Seq<T>, n: nat, a: nat, b: nat)
    ensures
        pow_sq(x, n, a + b) == mul_sq(pow_sq(x, n, a), pow_sq(x, n, b), n),
    decreases b,
{
    if b == 0 {
        lemma_pow_sq_canonical(x, n, a);
        lemma_mul_sq_id_right(pow_sq(x, n, a), n);
    } else {
        lemma_pow_sq_add(x, n, a, (b - 1) as nat);
        lemma_mul_sq_assoc(pow_sq(x, n, a), pow_sq(x, n, (b - 1) as nat), x, n);
        assert((a + b - 1) as nat == a + (b - 1) as nat);
    }
}

/// `x^(2k) == (x * x)^k`.
pub proof fn lemma_pow_sq_square<T: Ring>(x: Seq<T>, n: nat, k: nat)
    ensures
        pow_sq(x, n, 2 * k) == pow_sq(mul_sq(x, x, n), n, k),
    decreases k,
{
    if k > 0 {
        let k1 = (k - 1) as nat;
        lemma_pow_sq_square(x, n, k1);
        lemma_pow_sq_add(x, n, 2 * k1, 2);
        assert(2 * k == 2 * k1 + 2);
        // pow(x, 2) == id * x * x == x * x
        lemma_pow_sq_add(x, n, 0, 1);
        reveal_with_fuel(pow_sq, 3);
        lemma_mul_sq_assoc(id_sq(n), x, x, n);
        lemma_mul_sq_assoc(pow_sq(x, n, 0), x, x, n);
        lemma_mul_sq_canonical(x, x, n);
        lemma_mul_sq_id_left(mul_sq(x, x, n), n);
    }
}

} // verus!
