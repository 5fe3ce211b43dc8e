use vstd::prelude::*;
use crate::number_theory::number_theory::{divides, is_prime, lemma_euclid, lemma_prime_divisor};

verus! {

/// The product of the primes up to `m` that divide `j`.
pub open spec fn prime_product(j: int, m: int) -> int
    decreases m,
{
    if m < 2 {
        1
    } else {
        prime_product(j, m - 1) * if is_prime(m) && j % m == 0 { m } else { 1 }
    }
}

/// The product of `p - 1` over the primes `p` up to `m` that divide `j`.
pub open spec fn prime_product_less_one(j: int, m: int) -> int
    decreases m,
{
    if m < 2 {
        1
    } else {
        prime_product_less_one(j, m - 1) * if is_prime(m) && j % m == 0 { m - 1 } else { 1 }
    }
}

/// The bound reached for `a` while passing the prime `i`: `i` once the multiple `a`
/// below `j` has been handled, `i - 1` before.
pub open spec fn stage(a: int, i: int, j: int) -> int {
    if a % i == 0 && i <= a < j { i } else { i - 1 }
}

/// Euler's totient by its product formula: `t * (product of the primes dividing j)` is
/// `j * (product of those primes less one)`.
pub open spec fn is_totient(t: int, j: int) -> bool {
    t * prime_product(j, j) == j * prime_product_less_one(j, j)
}

/// Both products are positive, the second is at most the first, and strictly less once
/// a prime up to `m` divides `j`.
proof fn lemma_products(j: int, m: int)
    ensures
        prime_product(j, m) >= 1,
        1 <= prime_product_less_one(j, m) <= prime_product(j, m),
        (exists|q: int| 2 <= q <= m && is_prime(q) && #[trigger] divides(q, j)) ==> prime_product_less_one(j, m)
            < prime_product(j, m),
        (forall|q: int| 2 <= q <= m && is_prime(q) ==> !#[trigger] divides(q, j)) ==> prime_product(j, m) == 1
            && prime_product_less_one(j, m) == 1,
    decreases m,
{
    if m >= 2 {
        lemma_products(j, m - 1);
        let a = prime_product(j, m - 1);
        let b = prime_product_less_one(j, m - 1);
        if is_prime(m) && j % m == 0 {
            assert(1 <= b * (m - 1) <= a * (m - 1) < a * m) by (nonlinear_arith)
                requires 1 <= b <= a, m >= 2;
            assert(a * m >= 1) by (nonlinear_arith)
                requires a >= 1, m >= 2;
            assert(divides(m, j));
        } else {
            if exists|q: int| 2 <= q <= m && is_prime(q) && #[trigger] divides(q, j) {
                let q = choose|q: int| 2 <= q <= m && is_prime(q) && #[trigger] divides(q, j);
                assert(q != m);
            }
        }
    }
}

/// A prime `i` divides no product of primes below it.
proof fn lemma_product_coprime(i: int, j: int, m: int)
    requires
        is_prime(i),
        m < i,
    ensures
        prime_product(j, m) % i != 0,
    decreases m,
{
    lemma_products(j, m);
    if m >= 2 {
        lemma_product_coprime(i, j, m - 1);
        lemma_products(j, m - 1);
        let a = prime_product(j, m - 1);
        let x: int = if is_prime(m) && j % m == 0 { m } else { 1 };
        if (a * x) % i == 0 {
            lemma_euclid(i, a, x);
            if x == m {
                vstd::arithmetic::div_mod::lemma_small_mod(m as nat, i as nat);
            } else {
                vstd::arithmetic::div_mod::lemma_small_mod(1, i as nat);
            }
        }
    } else {
        vstd::arithmetic::div_mod::lemma_small_mod(1, i as nat);
    }
}

/// Primes above `j >= 1` do not divide it, so the products stop growing at `j`.
proof fn lemma_products_settle(j: int, m: int)
    requires
        1 <= j <= m,
    ensures
        prime_product(j, m) == prime_product(j, j),
        prime_product_less_one(j, m) == prime_product_less_one(j, j),
    decreases m - j,
{
    if m > j {
        lemma_products_settle(j, m - 1);
        vstd::arithmetic::div_mod::lemma_small_mod(j as nat, m as nat);
    }
}

/// Passing a prime `i` that divides `j` turns a totient so far into the next one: it
/// is a multiple of `i`, and taking away its `i`-th part accounts for `i`.
proof fn lemma_totient_step(t: int, j: int, i: int)
    requires
        is_prime(i),
        j >= 0,
        j % i == 0,
        t * prime_product(j, i - 1) == j * prime_product_less_one(j, i - 1),
        t >= 0,
    ensures
        t % i == 0,
        (t - t / i) * prime_product(j, i) == j * prime_product_less_one(j, i),
{
    let p = prime_product(j, i - 1);
    let q = prime_product_less_one(j, i - 1);
    lemma_products(j, i - 1);
    lemma_product_coprime(i, j, i - 1);
    crate::num_lemmas::lemma_multiple(j, i, 0);
    let k = j / i;
    assert(t * p == i * (k * q)) by (nonlinear_arith)
        requires t * p == j * q, j == i * k;
    crate::num_lemmas::lemma_multiple(0, i, k * q);
    assert((t * p) % i == 0);
    lemma_euclid(i, t, p);
    crate::num_lemmas::lemma_multiple(t, i, 0);
    let c = t / i;
    assert(t - c == c * (i - 1)) by (nonlinear_arith)
        requires t == i * c;
    assert((t - c) * (p * i) == j * (q * (i - 1))) by (nonlinear_arith)
        requires t == i * c, t * p == j * q, t - c == c * (i - 1);
}

/// The totients of `0..=n` by a sieve: each prime `i`, found as an entry still equal
/// to its index, takes the `i`-th part away from every multiple of `i`.
pub fn totient_table(n: usize) -> (t: Vec<usize>)
    requires
        n < usize::MAX,
    ensures
        t@.len() == n + 1,
        forall|j: int| 0 <= j <= n ==> is_totient(#[trigger] t@[j] as int, j),
{
    let mut t: Vec<usize> = Vec::new();
    let mut k: usize = 0;
    while k <= n
        invariant
            k <= n + 1,
            n < usize::MAX,
            t@.len() == k,
            forall|j: int| 0 <= j < k ==> #[trigger] t@[j] == j,
        decreases n + 1 - k,
    {
        t.push(k);
        k += 1;
    }
    proof {
        assert forall|j: int| 0 <= j <= n implies #[trigger] t@[j] * prime_product(j, 1) == j
            * prime_product_less_one(j, 1) by {}
    }
    let mut i: usize = 2;
    while i <= n
        invariant
            2 <= i,
            i <= n + 1 || i == 2,
            n < usize::MAX,
            t@.len() == n + 1,
            forall|j: int| 0 <= j <= n ==> #[trigger] t@[j] * prime_product(j, i - 1) == j
                * prime_product_less_one(j, i - 1),
            forall|j: int| 1 <= j <= n ==> #[trigger] t@[j] >= 1,
            t@[0] == 0,
        decreases n + 1 - i,
    {
        proof {
            lemma_products(i as int, i - 1);
            if is_prime(i as int) {
                assert forall|q: int| 2 <= q <= i - 1 && is_prime(q) implies !#[trigger] divides(q, i as int) by {}
                assert(prime_product(i as int, i - 1) == 1 && prime_product_less_one(i as int, i - 1) == 1);
                assert(t@[i as int] * prime_product(i as int, i - 1) == i * prime_product_less_one(i as int, i - 1));
                assert(t@[i as int] == i);
            } else {
                let q = lemma_prime_divisor(i as int);
                assert(q != i);
                assert(divides(q, i as int));
                assert(t@[i as int] * prime_product(i as int, i - 1) < i * prime_product(i as int, i - 1)) by (
                nonlinear_arith)
                    requires
                        t@[i as int] * prime_product(i as int, i - 1) == i * prime_product_less_one(i as int, i - 1),
                        prime_product_less_one(i as int, i - 1) < prime_product(i as int, i - 1),
                        i >= 2,
                ;
                assert(t@[i as int] < i) by (nonlinear_arith)
                    requires
                        t@[i as int] * prime_product(i as int, i - 1) < i * prime_product(i as int, i - 1),
                        prime_product(i as int, i - 1) >= 1,
                ;
            }
        }
        if t[i] == i {
            let mut j: usize = i;
            while j <= n
                invariant_except_break
                    forall|a: int| 0 <= a <= n ==> #[trigger] t@[a] * prime_product(a, stage(a, i as int, j as int))
                        == a * prime_product_less_one(a, stage(a, i as int, j as int)),
                invariant
                    2 <= i <= n,
                    is_prime(i as int),
                    n < usize::MAX,
                    t@.len() == n + 1,
                    i <= j,
                    j % i == 0,
                    forall|a: int| 1 <= a <= n ==> #[trigger] t@[a] >= 1,
                    t@[0] == 0,
                ensures
                    t@.len() == n + 1,
                    forall|a: int| 1 <= a <= n ==> #[trigger] t@[a] >= 1,
                    t@[0] == 0,
                    forall|a: int| 0 <= a <= n ==> #[trigger] t@[a] * prime_product(a, stage(a, i as int, n + 1))
                        == a * prime_product_less_one(a, stage(a, i as int, n + 1)),
                decreases n + 1 - j,
            {
                let tj = t[j];
                let ghost t0 = t@;
                proof {
                    assert(stage(j as int, i as int, j as int) == i - 1);
                    lemma_totient_step(tj as int, j as int, i as int);
                    lemma_products(j as int, i as int);
                    crate::num_lemmas::lemma_multiple(tj as int, i as int, 0);
                    assert(tj - tj / i >= 1) by (nonlinear_arith)
                        requires
                            (tj - tj / i) * prime_product(j as int, i as int) == j * prime_product_less_one(j as int, i as int),
                            prime_product_less_one(j as int, i as int) >= 1,
                            prime_product(j as int, i as int) >= 1,
                            j >= 1,
                            tj - tj / i >= 0,
                    ;
                }
                t.set(j, tj - tj / i);
                proof {
                    assert forall|a: int| 0 <= a <= n implies #[trigger] t@[a] * prime_product(a, stage(a, i as int, j + i))
                        == a * prime_product_less_one(a, stage(a, i as int, j + i)) by {
                        if a != j {
                            assert(t@[a] == t0[a]);
                            if a % (i as int) == 0 && j < a < j + i {
                                crate::num_lemmas::lemma_multiple(j as int, i as int, 0);
                                crate::num_lemmas::lemma_multiple(a, i as int, 0);
                                let x = (j as int) / (i as int);
                                let y = a / (i as int);
                                assert(false) by (nonlinear_arith)
                                    requires j == i * x, a == i * y, j < a, a < j + i, i >= 2;
                            }
                            assert(stage(a, i as int, j + i) == stage(a, i as int, j as int));
                        }
                    }
                    if n - j < i {
                        assert forall|a: int| 0 <= a <= n implies #[trigger] t@[a] * prime_product(a, stage(a, i as int, n + 1))
                            == a * prime_product_less_one(a, stage(a, i as int, n + 1)) by {
                            assert(stage(a, i as int, n + 1) == stage(a, i as int, j + i));
                        }
                    }
                }
                if n - j < i {
                    break;
                }
                proof {
                    crate::num_lemmas::lemma_multiple(j as int, i as int, 0);
                    assert(j + i == i * (j / i + 1)) by (nonlinear_arith)
                        requires j == i * (j / i);
                    crate::num_lemmas::lemma_multiple(0, i as int, j / i + 1);
                }
                j += i;
            }
            proof {
                assert forall|a: int| 0 <= a <= n implies #[trigger] t@[a] * prime_product(a, i as int) == a
                    * prime_product_less_one(a, i as int) by {
                    if a % (i as int) == 0 && i <= a {
                        assert(stage(a, i as int, n + 1) == i);
                    } else if a == 0 {
                        assert(t@[a] == 0);
                        assert(0 * prime_product(a, i as int) == 0 * prime_product_less_one(a, i as int));
                    } else {
                        assert(stage(a, i as int, n + 1) == i - 1);
                        assert(a % (i as int) != 0) by {
                            if a % (i as int) == 0 {
                                vstd::arithmetic::div_mod::lemma_small_mod(a as nat, i as nat);
                            }
                        }
                        assert(prime_product(a, i as int) == prime_product(a, i - 1));
                        assert(prime_product_less_one(a, i as int) == prime_product_less_one(a, i - 1));
                    }
                }
            }
        }
        proof {
            if !is_prime(i as int) {
                assert forall|a: int| 0 <= a <= n implies #[trigger] t@[a] * prime_product(a, i as int) == a
                    * prime_product_less_one(a, i as int) by {
                    assert(prime_product(a, i as int) == prime_product(a, i - 1));
                    assert(prime_product_less_one(a, i as int) == prime_product_less_one(a, i - 1));
                }
            }
            assert(i + 1 - 1 == i);
        }
        i += 1;
    }
    proof {
        assert forall|j: int| 0 <= j <= n implies is_totient(#[trigger] t@[j] as int, j) by {
            if j >= 1 {
                lemma_products_settle(j, i - 1);
            }
        }
    }
    t
}

} // verus!
