use vstd::prelude::*;
use vstd::arithmetic::power::pow;
use vstd::arithmetic::power2::pow2;
use crate::num_lemmas::lemma_pow_step;
pub use crate::number_theory::lucy::prime_count;
pub use crate::number_theory::totient::totient_table;

verus! {

/// The largest `m` for which products of two residues modulo `m` fit in `i64`.
pub const MUL_SAFE_MAX: i64 = 3037000499;

/// `a^b mod m` by square-and-multiply; 1 when `b <= 0`.
pub fn mod_pow(a: i64, b: i64, m: i64) -> (r: i64)
    requires
        0 <= a <= MUL_SAFE_MAX,
        1 <= m <= MUL_SAFE_MAX,
    ensures
        r == if b <= 0 {
            1
        } else {
            pow(a as int, b as nat) % (m as int)
        },
        b > 0 ==> 0 <= r < m,
{
    let ghost a0 = a;
    let ghost b0 = b;
    let mut a = a;
    let mut b = b;
    let mut y: i64 = 1;
    if b <= 0 {
        return 1;
    }
    while b > 0
        invariant
            0 <= a <= MUL_SAFE_MAX,
            1 <= m <= MUL_SAFE_MAX,
            b0 > 0,
            0 <= b <= b0,
            y < m || (y == 1 && b > 0),
            0 <= y <= MUL_SAFE_MAX,
            (y * pow(a as int, b as nat)) % (m as int) == pow(a0 as int, b0 as nat) % (m as int),
        decreases b,
    {
        proof {
            assert(y * a <= MUL_SAFE_MAX * MUL_SAFE_MAX) by (nonlinear_arith)
                requires 0 <= y <= MUL_SAFE_MAX, 0 <= a <= MUL_SAFE_MAX;
            assert(a * a <= MUL_SAFE_MAX * MUL_SAFE_MAX) by (nonlinear_arith)
                requires 0 <= a <= MUL_SAFE_MAX;
            lemma_pow_step(y as int, a as int, b as nat, m as int);
            assert((b & 1) == (b % 2)) by (bit_vector)
                requires b >= 0;
            assert(b >> 1 == b / 2) by (bit_vector)
                requires b >= 0;
        }
        if b & 1 == 1 {
            y = y * a % m;
        }
        a = a * a % m;
        b >>= 1;
    }
    proof {
        vstd::arithmetic::power::lemma_pow0(a as int);
        vstd::arithmetic::div_mod::lemma_small_mod(y as nat, m as nat);
    }
    y
}

} // verus!

verus! {

/// `n^((p - 1) / 2) mod p`: for a prime `p`, 1, `p - 1` or 0 as `n` is a
/// nonzero quadratic residue, a non-residue, or a multiple of `p`.
fn legendre_symbol(n: i64, p: i64) -> (r: i64)
    requires
        0 <= n <= MUL_SAFE_MAX,
        2 <= p <= MUL_SAFE_MAX,
    ensures
        r == if (p - 1) / 2 <= 0 {
            1
        } else {
            pow(n as int, ((p - 1) / 2) as nat) % (p as int)
        },
        0 <= r < p,
{
    mod_pow(n, (p - 1) / 2, p)
}

/// A square root of `n` modulo the prime `p`, or `None` when there is none.
///
/// For `p == 2` or `n == 0` the answer is `n`; for `p % 4 == 3` the candidate
/// `n^((p + 1) / 4)` is checked; otherwise Tonelli–Shanks is used.
pub fn mod_sqrt(n: i64, p: i64) -> (r: Option<i64>)
    requires
        0 <= n < p,
        2 <= p <= MUL_SAFE_MAX,
    ensures
        (p == 2 || n == 0) ==> r == Some(n),
        p != 2 && n != 0 && p % 4 == 3 ==> (r matches Some(x) ==> x * x % (p as int) == n) && (r is None
            ==> pow(n as int, ((p + 1) / 4) as nat) % (p as int) * (pow(n as int, ((p + 1) / 4) as nat)
            % (p as int)) % (p as int) != n),
        p != 2 && n != 0 && p % 4 != 3 && is_prime(p as int) ==> (r matches Some(x) ==> x * x % (p as int)
            == n),
        p != 2 && n != 0 && p % 4 != 3 && pow(n as int, ((p - 1) / 2) as nat) % (p as int) != 1 ==> r is None,
        p != 2 && n != 0 && p % 4 != 3 && is_prime(p as int) && pow(n as int, ((p - 1) / 2) as nat) % (p as int)
            == 1 && (exists|k: nat|
            k <= p && pow(#[trigger] candidate(k, p as int), ((p - 1) / 2) as nat) % (p as int) == p - 1)
            ==> r is Some,
        r matches Some(x) ==> 0 <= x < p,
        is_prime(p as int) && (p == 2 || n == 0 || p % 4 == 3 || pow(n as int, ((p - 1) / 2) as nat) % (p as int)
            != 1 || exists|k: nat|
            k <= p && pow(#[trigger] candidate(k, p as int), ((p - 1) / 2) as nat) % (p as int) == p - 1) ==> (r is None
            <==> !has_sqrt(n as int, p as int)),
{
    proof {
        if is_prime(p as int) && p != 2 && n != 0 && has_sqrt(n as int, p as int) {
            lemma_square_euler(n as int, p as int);
            if p % 4 == 3 {
                lemma_candidate_root(n as int, p as int);
            }
        }
        if p == 2 {
            assert(n * n == n) by (nonlinear_arith)
                requires 0 <= n < 2;
            vstd::arithmetic::div_mod::lemma_small_mod(n as nat, p as nat);
            assert((n * n) % (p as int) == n);
        }
        if n == 0 {
            vstd::arithmetic::div_mod::lemma_small_mod(0, p as nat);
            assert((n * n) % (p as int) == n);
        }
    }
    if p == 2 || n == 0 {
        Some(n)
    } else if p % 4 == 3 {
        let r = mod_pow(n, (p + 1) / 4, p);
        assert(r * r <= MUL_SAFE_MAX * MUL_SAFE_MAX) by (nonlinear_arith)
            requires 0 <= r < p, p <= MUL_SAFE_MAX;
        if r * r % p == n {
            Some(r)
        } else {
            None
        }
    } else if legendre_symbol(n, p) != 1 {
        None
    } else {
        tonelli_shanks(n, p)
    }
}

/// `d` divides `a`.
pub open spec fn divides(d: int, a: int) -> bool {
    a % d == 0
}

/// `p` is a prime.
pub open spec fn is_prime(p: int) -> bool {
    p >= 2 && forall|d: int| 2 <= d < p ==> !#[trigger] divides(d, p)
}

/// `x` squared `k` times over, modulo `p`.
pub open spec fn sq(x: int, k: nat, p: int) -> int
    decreases k,
{
    if k == 0 {
        x % p
    } else {
        (sq(x, (k - 1) as nat, p) * sq(x, (k - 1) as nat, p)) % p
    }
}

/// A prime dividing a product divides one of the factors.
pub(crate) proof fn lemma_euclid(p: int, a: int, b: int)
    requires
        is_prime(p),
        a >= 0,
        b >= 0,
        (a * b) % p == 0,
    ensures
        a % p == 0 || b % p == 0,
{
    let g = crate::num_lemmas::gcd(p as nat, a as nat);
    crate::num_lemmas::lemma_gcd_divides(p as nat, a as nat);
    crate::num_lemmas::lemma_multiple(p, g as int, 0);
    let k = p / (g as int);
    assert(g <= p) by (nonlinear_arith)
        requires
            p == g * k,
            p > 0,
            g > 0,
    ;
    if 2 <= g < p {
        assert(divides(g as int, p));
    }
    if g == p {
    } else {
        assert(g == 1);
        crate::num_lemmas::lemma_ext_gcd(p as nat, a as nat);
        let (x, y) = crate::num_lemmas::ext_gcd(p as nat, a as nat);
        crate::num_lemmas::lemma_multiple(a * b, p, 0);
        let q = (a * b) / p;
        assert(b == p * (b * x + q * y)) by (nonlinear_arith)
            requires
                p * x + a * y == 1,
                a * b == p * q,
        ;
        crate::num_lemmas::lemma_multiple(0, p, b * x + q * y);
    }
}

/// Modulo a prime, the only square roots of 1 are 1 and -1.
proof fn lemma_sqrt_one(p: int, x: int)
    requires
        is_prime(p),
        0 <= x < p,
        (x * x) % p == 1,
    ensures
        x == 1 || x == p - 1,
{
    if x == 0 {
        assert(0int % p == 0);
    } else {
        vstd::arithmetic::div_mod::lemma_fundamental_div_mod(x * x, p);
        let q = (x * x) / p;
        assert((x - 1) * (x + 1) == p * q) by (nonlinear_arith)
            requires
                x * x == p * q + 1,
        ;
        crate::num_lemmas::lemma_multiple(0, p, q);
        lemma_euclid(p, x - 1, x + 1);
        if (x - 1) % p == 0 {
            vstd::arithmetic::div_mod::lemma_small_mod((x - 1) as nat, p as nat);
        } else {
            if x + 1 < p {
                vstd::arithmetic::div_mod::lemma_small_mod((x + 1) as nat, p as nat);
            }
        }
    }
}

/// The binomial coefficient `n` choose `k`, by Pascal's rule.
pub open spec fn binom(n: nat, k: nat) -> nat
    decreases n,
{
    if k == 0 {
        1
    } else if n == 0 {
        0
    } else {
        binom((n - 1) as nat, (k - 1) as nat) + binom((n - 1) as nat, k)
    }
}

proof fn lemma_binom_beyond(n: nat, k: nat)
    requires
        k > n,
    ensures
        binom(n, k) == 0,
    decreases n,
{
    if n > 0 {
        lemma_binom_beyond((n - 1) as nat, (k - 1) as nat);
        lemma_binom_beyond((n - 1) as nat, k);
    }
}

proof fn lemma_binom_all(n: nat)
    ensures
        binom(n, n) == 1,
    decreases n,
{
    if n > 0 {
        lemma_binom_all((n - 1) as nat);
        lemma_binom_beyond((n - 1) as nat, n);
    }
}

/// `k * C(n, k) == n * C(n - 1, k - 1)`.
proof fn lemma_binom_absorb(n: nat, k: nat)
    requires
        n >= 1,
        k >= 1,
    ensures
        k * binom(n, k) == n * binom((n - 1) as nat, (k - 1) as nat),
    decreases n,
{
    if n == 1 {
        assert(binom(0, 0) == 1);
        if k >= 2 {
            assert(binom(0, (k - 1) as nat) == 0);
            assert(binom(0, k) == 0);
            assert(binom(1, k) == 0);
            assert(k * 0 == 0);
        } else {
            assert(binom(0, 1) == 0);
            assert(binom(1, 1) == 1);
        }
    } else {
        let n1 = (n - 1) as nat;
        let n2 = (n - 2) as nat;
        lemma_binom_absorb(n1, k);
        let a = binom(n1, (k - 1) as nat);
        let b = binom(n1, k);
        assert(binom(n, k) == a + b);
        assert(k * b == n1 * binom(n2, (k - 1) as nat));
        if k == 1 {
            assert(a == 1);
            assert(binom(n2, 0) == 1);
            assert(k * (a + b) == n * a) by (nonlinear_arith)
                requires
                    k == 1,
                    a == 1,
                    k * b == n1 * 1,
                    n1 == n - 1,
            ;
        } else {
            lemma_binom_absorb(n1, (k - 1) as nat);
            let c = binom(n2, (k - 2) as nat);
            let d = binom(n2, (k - 1) as nat);
            assert(a == c + d);
            assert((k - 1) * a == n1 * c);
            assert(k * (a + b) == n * a) by (nonlinear_arith)
                requires
                    (k - 1) * a == n1 * c,
                    k * b == n1 * d,
                    a == c + d,
                    n1 == n - 1,
            ;
        }
    }
}

/// A prime divides `C(p, k)` for `0 < k < p`.
proof fn lemma_binom_prime(p: int, k: nat)
    requires
        is_prime(p),
        0 < k < p,
    ensures
        (binom(p as nat, k) as int) % p == 0,
{
    lemma_binom_absorb(p as nat, k);
    let c = binom((p - 1) as nat, (k - 1) as nat) as int;
    crate::num_lemmas::lemma_multiple(0, p, c);
    assert(((k * binom(p as nat, k)) as int) % p == 0);
    lemma_euclid(p, k as int, binom(p as nat, k) as int);
    vstd::arithmetic::div_mod::lemma_small_mod(k, p as nat);
}

/// `C(n, 0) x^0 + ... + C(n, m - 1) x^(m - 1)`.
spec fn binom_sum(x: int, n: nat, m: nat) -> int
    decreases m,
{
    if m == 0 {
        0
    } else {
        binom_sum(x, n, (m - 1) as nat) + binom(n, (m - 1) as nat) * pow(x, (m - 1) as nat)
    }
}

proof fn lemma_binom_sum_step(x: int, n: nat, m: nat)
    requires
        m >= 1,
    ensures
        binom_sum(x, n + 1, m) == x * binom_sum(x, n, (m - 1) as nat) + binom_sum(x, n, m),
    decreases m,
{
    reveal(pow);
    vstd::arithmetic::power::lemma_pow0(x);
    if m == 1 {
        assert(binom_sum(x, n + 1, 0) == 0 && binom_sum(x, n, 0) == 0);
        assert(binom_sum(x, n + 1, 1) == 1);
        assert(binom_sum(x, n, 1) == 1);
    } else {
        let m1 = (m - 1) as nat;
        let m2 = (m - 2) as nat;
        lemma_binom_sum_step(x, n, m1);
        assert(binom((n + 1) as nat, m1) == binom(n, m2) + binom(n, m1));
        assert(pow(x, m1) == x * pow(x, m2));
        let s = binom_sum(x, n, m2);
        let t = binom_sum(x, n, m1);
        assert(binom_sum(x, n + 1, m) == x * s + t + (binom(n, m2) + binom(n, m1)) * pow(x, m1));
        assert(x * s + t + (binom(n, m2) + binom(n, m1)) * (x * pow(x, m2)) == x * (s + binom(n, m2) * pow(
            x,
            m2,
        )) + (t + binom(n, m1) * (x * pow(x, m2)))) by (nonlinear_arith);
    }
}

/// The binomial theorem for `(x + 1)^n`.
proof fn lemma_binomial(x: int, n: nat)
    ensures
        pow(x + 1, n) == binom_sum(x, n, n + 1),
    decreases n,
{
    reveal(pow);
    if n == 0 {
        vstd::arithmetic::power::lemma_pow0(x + 1);
        vstd::arithmetic::power::lemma_pow0(x);
        assert(binom_sum(x, 0, 0) == 0);
    } else {
        let n1 = (n - 1) as nat;
        lemma_binomial(x, n1);
        lemma_binom_sum_step(x, n1, n + 1);
        lemma_binom_beyond(n1, n);
        assert(binom_sum(x, n1, n + 1) == binom_sum(x, n1, n));
        let b = binom_sum(x, n1, n);
        assert(pow(x + 1, n) == (x + 1) * b);
        assert((x + 1) * b == x * b + b) by (nonlinear_arith);
    }
}

/// The middle binomial terms vanish modulo a prime.
proof fn lemma_binom_sum_prime(x: int, p: int, m: nat)
    requires
        is_prime(p),
        1 <= m <= p,
    ensures
        binom_sum(x, p as nat, m) % p == 1,
    decreases m,
{
    vstd::arithmetic::power::lemma_pow0(x);
    if m == 1 {
        assert(binom_sum(x, p as nat, 0) == 0);
        vstd::arithmetic::div_mod::lemma_small_mod(1, p as nat);
    } else {
        let m1 = (m - 1) as nat;
        lemma_binom_sum_prime(x, p, m1);
        lemma_binom_prime(p, m1);
        let c = binom(p as nat, m1) as int;
        let q = c / p;
        vstd::arithmetic::div_mod::lemma_fundamental_div_mod(c, p);
        let t = c * pow(x, m1);
        assert(t == p * (q * pow(x, m1))) by (nonlinear_arith)
            requires
                c == p * q + 0,
                t == c * pow(x, m1),
        ;
        vstd::arithmetic::div_mod::lemma_mod_multiples_vanish(q * pow(x, m1), binom_sum(x, p as nat, m1), p);
        assert(binom_sum(x, p as nat, m) == p * (q * pow(x, m1)) + binom_sum(x, p as nat, m1));
    }
}

/// `(x + 1)^p == x^p + 1` modulo a prime `p`.
proof fn lemma_freshman(x: int, p: int)
    requires
        is_prime(p),
    ensures
        pow(x + 1, p as nat) % p == (pow(x, p as nat) + 1) % p,
{
    lemma_binomial(x, p as nat);
    assert(pow(x + 1, p as nat) == binom_sum(x, p as nat, (p as nat) + 1));
    lemma_binom_all(p as nat);
    lemma_binom_sum_prime(x, p, p as nat);
    let s = binom_sum(x, p as nat, p as nat);
    let m = (p + 1) as nat;
    assert((m - 1) as nat == p as nat);
    assert(binom_sum(x, p as nat, m) == binom_sum(x, p as nat, (m - 1) as nat) + binom(p as nat, (m - 1) as nat)
        * pow(x, (m - 1) as nat));
    assert(binom(p as nat, (m - 1) as nat) == 1);
    assert(binom_sum(x, p as nat, (m - 1) as nat) == s);
    let y = pow(x, p as nat);
    assert(pow(x, (m - 1) as nat) == y);
    assert(binom_sum(x, p as nat, m) == s + 1 * y);
    assert(m == (p as nat) + 1);
    assert(pow(x + 1, p as nat) == s + y);
    vstd::arithmetic::div_mod::lemma_add_mod_noop(s, pow(x, p as nat), p);
    vstd::arithmetic::div_mod::lemma_add_mod_noop(1, pow(x, p as nat), p);
    vstd::arithmetic::div_mod::lemma_small_mod(1, p as nat);
}

/// `a^p == a` modulo a prime `p`.
proof fn lemma_pow_prime(a: nat, p: int)
    requires
        is_prime(p),
    ensures
        pow(a as int, p as nat) % p == (a as int) % p,
    decreases a,
{
    if a == 0 {
        vstd::arithmetic::power::lemma0_pow(p as nat);
    } else {
        let a1 = (a - 1) as nat;
        lemma_pow_prime(a1, p);
        lemma_freshman(a1 as int, p);
        vstd::arithmetic::div_mod::lemma_add_mod_noop(pow(a1 as int, p as nat), 1, p);
        vstd::arithmetic::div_mod::lemma_add_mod_noop(a1 as int, 1, p);
    }
}

/// Fermat's little theorem: `a^(p - 1) == 1` modulo a prime `p` not dividing `a`.
pub proof fn lemma_fermat(a: nat, p: int)
    requires
        is_prime(p),
        (a as int) % p != 0,
    ensures
        pow(a as int, (p - 1) as nat) % p == 1,
{
    reveal(pow);
    lemma_pow_prime(a, p);
    assert(a > 0) by {
        if a == 0 {
            assert((0int) % p == 0);
        }
    }
    let e = pow(a as int, (p - 1) as nat);
    assert(pow(a as int, p as nat) == a * e);
    vstd::arithmetic::power::lemma_pow_positive(a as int, (p - 1) as nat);
    let d = e - 1;
    vstd::arithmetic::div_mod::lemma_fundamental_div_mod(a * e, p);
    vstd::arithmetic::div_mod::lemma_fundamental_div_mod(a as int, p);
    let q1 = (a * e) / p;
    let q2 = (a as int) / p;
    assert(a * d == p * (q1 - q2)) by (nonlinear_arith)
        requires
            a * e == p * q1 + (a * e) % p,
            a == p * q2 + (a as int) % p,
            (a * e) % p == (a as int) % p,
            d == e - 1,
    ;
    assert(a * d >= 0) by (nonlinear_arith)
        requires a >= 0, d >= 0;
    crate::num_lemmas::lemma_multiple(0, p, q1 - q2);
    lemma_euclid(p, a as int, d);
    vstd::arithmetic::div_mod::lemma_fundamental_div_mod(d, p);
    vstd::arithmetic::div_mod::lemma_fundamental_div_mod_converse(e, p, d / p, 1);
}

/// `n` has a square root modulo `p`.
pub open spec fn has_sqrt(n: int, p: int) -> bool {
    exists|x: int| 0 <= x < p && #[trigger] (x * x) % p == n
}

/// A prime other than 2 is odd.
proof fn lemma_prime_odd(p: int)
    requires
        is_prime(p),
        p != 2,
    ensures
        p % 2 == 1,
{
    if p % 2 == 0 {
        assert(divides(2, p));
    }
}

/// Euler's criterion, one way: a nonzero square modulo an odd prime `p` has
/// `n^((p - 1) / 2) == 1`.
pub proof fn lemma_square_euler(n: int, p: int)
    requires
        is_prime(p),
        p != 2,
        0 < n < p,
        has_sqrt(n, p),
    ensures
        pow(n, ((p - 1) / 2) as nat) % p == 1,
{
    let x = choose|x: int| 0 <= x < p && #[trigger] (x * x) % p == n;
    lemma_prime_odd(p);
    let h = ((p - 1) / 2) as nat;
    assert(x != 0) by {
        if x == 0 {
            vstd::arithmetic::div_mod::lemma_small_mod(0, p as nat);
            assert((x * x) % p == 0);
        }
    }
    vstd::arithmetic::div_mod::lemma_small_mod(x as nat, p as nat);
    lemma_fermat(x as nat, p);
    vstd::arithmetic::power::lemma_pow_mod_noop(x * x, h, p);
    vstd::arithmetic::power::lemma_square_is_pow2(x);
    vstd::arithmetic::power::lemma_pow_multiplies(x, 2, h);
    assert(2 * h == (p - 1) as nat);
}

/// For `p % 4 == 3`, the candidate `n^((p + 1) / 4)` squares to `n` when `n` is a
/// nonzero square.
proof fn lemma_candidate_root(n: int, p: int)
    requires
        is_prime(p),
        p % 4 == 3,
        0 < n < p,
        has_sqrt(n, p),
    ensures
        ((pow(n, ((p + 1) / 4) as nat) % p) * (pow(n, ((p + 1) / 4) as nat) % p)) % p == n,
{
    lemma_square_euler(n, p);
    let e = ((p + 1) / 4) as nat;
    let h = ((p - 1) / 2) as nat;
    let a = pow(n, e);
    lemma_mod_mul(a, a, p);
    vstd::arithmetic::power::lemma_pow_adds(n, e, e);
    assert(e + e == h + 1);
    vstd::arithmetic::power::lemma_pow_adds(n, h, 1);
    vstd::arithmetic::power::lemma_pow1(n);
    assert(pow(n, h + 1) == pow(n, h) * n) by {
        vstd::arithmetic::mul::lemma_mul_is_commutative(pow(n, h), pow(n, 1));
    }
    lemma_mod_mul(pow(n, h), n, p);
    vstd::arithmetic::div_mod::lemma_small_mod(n as nat, p as nat);
    assert(a * a == pow(n, (e + e) as nat));
}

proof fn lemma_mod_mul(a: int, b: int, p: int)
    requires
        p > 0,
    ensures
        ((a % p) * (b % p)) % p == (a * b) % p,
        ((a % p) * b) % p == (a * b) % p,
        (a * (b % p)) % p == (a * b) % p,
{
    vstd::arithmetic::div_mod::lemma_mul_mod_noop(a, b, p);
    vstd::arithmetic::div_mod::lemma_mul_mod_noop_left(a, b, p);
    vstd::arithmetic::div_mod::lemma_mul_mod_noop_right(a, b, p);
}

proof fn lemma_sq_range(x: int, k: nat, p: int)
    requires
        p > 0,
    ensures
        0 <= sq(x, k, p) < p,
{
}

/// Squaring `a` times and then `b` times is squaring `a + b` times.
proof fn lemma_sq_add(x: int, a: nat, b: nat, p: int)
    requires
        p > 0,
    ensures
        sq(x, a + b, p) == sq(sq(x, a, p), b, p),
    decreases b,
{
    if b == 0 {
        lemma_sq_range(x, a, p);
        vstd::arithmetic::div_mod::lemma_small_mod(sq(x, a, p) as nat, p as nat);
    } else {
        lemma_sq_add(x, a, (b - 1) as nat, p);
        assert(sq(x, a + b, p) == (sq(x, (a + b - 1) as nat, p) * sq(x, (a + b - 1) as nat, p)) % p);
    }
}

/// Repeated squaring respects products.
proof fn lemma_sq_mul(x: int, y: int, k: nat, p: int)
    requires
        p > 0,
    ensures
        sq((x * y) % p, k, p) == (sq(x, k, p) * sq(y, k, p)) % p,
    decreases k,
{
    if k == 0 {
        vstd::arithmetic::div_mod::lemma_mod_twice(x * y, p);
        lemma_mod_mul(x, y, p);
    } else {
        let k1 = (k - 1) as nat;
        lemma_sq_mul(x, y, k1, p);
        let a = sq(x, k1, p);
        let b = sq(y, k1, p);
        let c = (a * b) % p;
        assert(sq((x * y) % p, k, p) == (c * c) % p);
        lemma_mod_mul(a * b, a * b, p);
        assert((a * b) * (a * b) == (a * a) * (b * b)) by (nonlinear_arith);
        lemma_mod_mul(a * a, b * b, p);
    }
}

proof fn lemma_sq_one(k: nat, p: int)
    requires
        p >= 2,
    ensures
        sq(1, k, p) == 1,
    decreases k,
{
    vstd::arithmetic::div_mod::lemma_small_mod(1, p as nat);
    if k > 0 {
        lemma_sq_one((k - 1) as nat, p);
    }
}

proof fn lemma_minus_one_squared(p: int)
    requires
        p >= 2,
    ensures
        ((p - 1) * (p - 1)) % p == 1,
{
    assert((p - 1) * (p - 1) == (p - 2) * p + 1) by (nonlinear_arith);
    vstd::arithmetic::div_mod::lemma_fundamental_div_mod_converse((p - 1) * (p - 1), p, p - 2, 1);
}

/// Squaring a power `k` times multiplies its exponent by `2^k`.
proof fn lemma_sq_pow(z: int, q: nat, k: nat, p: int)
    requires
        p > 0,
    ensures
        sq(pow(z, q) % p, k, p) == pow(z, q * pow2(k)) % p,
    decreases k,
{
    if k == 0 {
        vstd::arithmetic::power2::lemma2_to64();
        vstd::arithmetic::div_mod::lemma_mod_twice(pow(z, q), p);
        assert(q * pow2(0) == q);
    } else {
        let k1 = (k - 1) as nat;
        lemma_sq_pow(z, q, k1, p);
        vstd::arithmetic::power2::lemma_pow2_unfold(k);
        let e = q * pow2(k1);
        assert(e >= 0) by (nonlinear_arith)
            requires q >= 0, pow2(k1) >= 0;
        lemma_mod_mul(pow(z, e as nat), pow(z, e as nat), p);
        vstd::arithmetic::power::lemma_pow_adds(z, e as nat, e as nat);
        assert(q * pow2(k) == e + e) by (nonlinear_arith)
            requires
                pow2(k) == 2 * pow2(k1),
                e == q * pow2(k1),
        ;
    }
}

/// The candidates tried as non-residues: 2, then `z * z - 1` modulo `p` in turn.
pub open spec fn candidate(k: nat, p: int) -> int
    decreases k,
{
    if k == 0 {
        2
    } else {
        let z = candidate((k - 1) as nat, p);
        (z * z - 1) % p
    }
}

/// Tonelli–Shanks square root of `n` modulo `p`. The search for a
/// non-residue and the search for the order of `t` each stop after `p` and
/// `m` steps with `None`. For a prime `p` of which `n` is a quadratic residue
/// (`n^((p - 1) / 2) == 1`), what it returns is a square root of `n`.
fn tonelli_shanks(n: i64, p: i64) -> (r: Option<i64>)
    requires
        0 < n < p,
        3 <= p <= MUL_SAFE_MAX,
    ensures
        r matches Some(x) ==> 0 <= x < p,
        is_prime(p as int) && pow(n as int, ((p - 1) / 2) as nat) % (p as int) == 1 ==> (r matches Some(x)
            ==> (x * x) % (p as int) == n),
        is_prime(p as int) && pow(n as int, ((p - 1) / 2) as nat) % (p as int) == 1 && (exists|k: nat|
            k <= p && pow(#[trigger] candidate(k, p as int), ((p - 1) / 2) as nat) % (p as int) == p - 1)
            ==> r is Some,
{
    let ghost good = is_prime(p as int) && pow(n as int, ((p - 1) / 2) as nat) % (p as int) == 1;
    let mut z: i64 = 2;
    let mut tries: i64 = 0;
    while legendre_symbol(z, p) != p - 1
        invariant
            0 <= z < p || z == 2,
            3 <= p <= MUL_SAFE_MAX,
            0 <= tries <= p,
            z == candidate(tries as nat, p as int),
            forall|j: nat| j < tries ==> pow(#[trigger] candidate(j, p as int), ((p - 1) / 2) as nat) % (p as int) != p - 1,
        decreases p - tries,
    {
        proof {
            assert(pow(candidate(tries as nat, p as int), ((p - 1) / 2) as nat) % (p as int) != p - 1);
        }
        if tries == p {
            proof {
                assert forall|k: nat| k <= p implies pow(#[trigger] candidate(k, p as int), ((p - 1) / 2) as nat)
                    % (p as int) != p - 1 by {
                    if k < tries {
                    }
                }
            }
            return None;
        }
        tries += 1;
        assert(z * z <= MUL_SAFE_MAX * MUL_SAFE_MAX) by (nonlinear_arith)
            requires 0 <= z <= MUL_SAFE_MAX;
        let w = z * z + (p - 1);
        proof {
            assert(candidate(tries as nat, p as int) == (z * z - 1) % (p as int));
            assert((z * z - 1) % (p as int) == (w as int) % (p as int)) by {
                vstd::arithmetic::div_mod::lemma_mod_add_multiples_vanish(z * z - 1, p as int);
            }
        }
        z = w % p;
    }
    // p - 1 == q * 2^s
    let mut s: u32 = 0;
    let mut q = p - 1;
    let ghost mut pw: int = 1;
    proof {
        vstd::arithmetic::power2::lemma2_to64();
    }
    while q % 2 == 0
        invariant
            1 <= q <= p - 1,
            q * pw == p - 1,
            pw >= s + 1,
            pw == pow2(s as nat),
            3 <= p <= MUL_SAFE_MAX,
        decreases q,
    {
        proof {
            assert(pw <= p - 1) by (nonlinear_arith)
                requires q * pw == p - 1, q >= 1, pw >= 1;
            assert((q / 2) * (2 * pw) == p - 1) by (nonlinear_arith)
                requires q * pw == p - 1, q % 2 == 0;
            assert(q / 2 >= 1) by (nonlinear_arith)
                requires q % 2 == 0, q >= 1;
            vstd::arithmetic::power2::lemma_pow2_unfold((s + 1) as nat);
            pw = 2 * pw;
        }
        q = q / 2;
        s += 1;
    }
    let mut m = s;
    let mut t = mod_pow(n, q, p);
    let mut c = mod_pow(z, q, p);
    let mut r = mod_pow(n, (q + 1) / 2, p);
    let ghost pp = p as int;
    proof {
        if good {
            // p is odd, so p - 1 holds a factor 2 and s >= 1
            assert(!divides(2, pp));
            assert(s >= 1) by {
                if s == 0 {
                    vstd::arithmetic::power2::lemma2_to64();
                    assert(pw == 1);
                    assert(q == p - 1) by (nonlinear_arith)
                        requires q * pw == p - 1, pw == 1;
                }
            }
            vstd::arithmetic::power2::lemma_pow2_unfold(s as nat);
            let h = ((p - 1) / 2) as nat;
            assert(q * pow2((s - 1) as nat) == h) by (nonlinear_arith)
                requires
                    q * pw == p - 1,
                    pw == 2 * pow2((s - 1) as nat),
                    h == (p - 1) / 2,
            ;
            lemma_sq_pow(n as int, q as nat, (s - 1) as nat, pp);
            lemma_sq_pow(z as int, q as nat, (s - 1) as nat, pp);
            // r^2 == n^(q + 1) == n * t
            let e = ((q + 1) / 2) as nat;
            assert(e + e == q + 1) by (nonlinear_arith)
                requires q % 2 == 1, e == (q + 1) / 2, q >= 1;
            vstd::arithmetic::power::lemma_pow_adds(n as int, e, e);
            vstd::arithmetic::power::lemma_pow_adds(n as int, q as nat, 1);
            vstd::arithmetic::power::lemma_pow1(n as int);
            lemma_mod_mul(pow(n as int, e), pow(n as int, e), pp);
            lemma_mod_mul(n as int, pow(n as int, q as nat), pp);
            assert(pow(n as int, (q + 1) as nat) == n * pow(n as int, q as nat)) by {
                assert(pow(n as int, q as nat) * pow(n as int, 1) == n * pow(n as int, q as nat)) by (nonlinear_arith)
                    requires pow(n as int, 1) == n;
            }
        }
    }
    while m > 0
        invariant
            0 <= t < p,
            0 <= c < p,
            0 <= r < p,
            3 <= p <= MUL_SAFE_MAX,
            pp == p,
            good == (is_prime(p as int) && pow(n as int, ((p - 1) / 2) as nat) % (p as int) == 1),
            good ==> is_prime(pp),
            good ==> (r * r) % pp == (n * t) % pp,
            good && m >= 1 ==> sq(c as int, (m - 1) as nat, pp) == pp - 1,
            good && m >= 1 ==> sq(t as int, (m - 1) as nat, pp) == 1,
            good && m == 0 ==> t == 1,
        decreases m,
    {
        let mut st = t;
        let mut i: u32 = 0;
        proof {
            vstd::arithmetic::div_mod::lemma_small_mod(t as nat, p as nat);
        }
        while st != 1 && i < m
            invariant
                0 <= st < p,
                i <= m,
                3 <= p <= MUL_SAFE_MAX,
                pp == p,
                0 <= t < p,
                st == sq(t as int, i as nat, pp),
                forall|j: nat| j < i ==> #[trigger] sq(t as int, j, pp) != 1,
                good && m >= 1 ==> sq(t as int, (m - 1) as nat, pp) == 1,
            decreases m - i,
        {
            assert(st * st <= MUL_SAFE_MAX * MUL_SAFE_MAX) by (nonlinear_arith)
                requires 0 <= st < p, p <= MUL_SAFE_MAX;
            st = st * st % p;
            i += 1;
        }
        if i == m {
            proof {
                if good {
                    assert(sq(t as int, (m - 1) as nat, pp) != 1);
                    assert(false);
                }
            }
            return None;
        }
        let ghost c0 = c;
        let mut k: u32 = 0;
        proof {
            vstd::arithmetic::div_mod::lemma_small_mod(c as nat, p as nat);
        }
        while k < m - i - 1
            invariant
                0 <= c < p,
                3 <= p <= MUL_SAFE_MAX,
                pp == p,
                i < m,
                0 <= c0 < p,
                k <= m - i - 1,
                c == sq(c0 as int, k as nat, pp),
            decreases m - i - 1 - k,
        {
            assert(c * c <= MUL_SAFE_MAX * MUL_SAFE_MAX) by (nonlinear_arith)
                requires 0 <= c < p, p <= MUL_SAFE_MAX;
            c = c * c % p;
            k += 1;
        }
        let ghost b = c;
        let ghost m0 = m;
        let ghost t0 = t;
        let ghost r0 = r;
        m = i;
        assert(r * c <= MUL_SAFE_MAX * MUL_SAFE_MAX) by (nonlinear_arith)
            requires 0 <= r < p, 0 <= c < p, p <= MUL_SAFE_MAX;
        r = r * c % p;
        assert(c * c <= MUL_SAFE_MAX * MUL_SAFE_MAX) by (nonlinear_arith)
            requires 0 <= c < p, p <= MUL_SAFE_MAX;
        c = c * c % p;
        assert(t * c <= MUL_SAFE_MAX * MUL_SAFE_MAX) by (nonlinear_arith)
            requires 0 <= t < p, 0 <= c < p, p <= MUL_SAFE_MAX;
        t = t * c % p;
        proof {
            if good {
                let bb = b as int;
                // c == b^2 == c0 squared m0 - i times
                assert(c == sq(c0 as int, (m0 - i) as nat, pp));
                // r^2 == n * t still
                let cc = c as int;
                let nn = n as int;
                let tt = t0 as int;
                assert(cc == (bb * bb) % pp);
                assert((r * r) % pp == ((r0 * bb) * (r0 * bb)) % pp) by {
                    lemma_mod_mul(r0 * bb, r0 * bb, pp);
                }
                assert((r0 * bb) * (r0 * bb) == (r0 * r0) * (bb * bb)) by (nonlinear_arith);
                assert(((r0 * r0) * (bb * bb)) % pp == ((nn * tt) * (bb * bb)) % pp) by {
                    lemma_mod_mul(r0 * r0, bb * bb, pp);
                    lemma_mod_mul(nn * tt, bb * bb, pp);
                }
                assert((n * t) % pp == (nn * (tt * cc)) % pp) by {
                    lemma_mod_mul(nn, tt * cc, pp);
                }
                assert(nn * (tt * cc) == (nn * tt) * cc) by (nonlinear_arith);
                assert(((nn * tt) * cc) % pp == ((nn * tt) * (bb * bb)) % pp) by {
                    lemma_mod_mul(nn * tt, bb * bb, pp);
                }
                assert((r * r) % pp == (n * t) % pp);
                if i == 0 {
                    assert(t0 == 1);
                    lemma_sq_add(c0 as int, (m0 - 1) as nat, 0, pp);
                    assert(bb == pp - 1);
                    lemma_minus_one_squared(pp);
                    assert(c == 1);
                    assert(t == 1);
                } else {
                    // c squared i - 1 times is c0 squared m0 - 1 times: -1
                    lemma_sq_add(c0 as int, (m0 - i) as nat, (i - 1) as nat, pp);
                    assert(sq(c as int, (i - 1) as nat, pp) == pp - 1);
                    // t0 squared i - 1 times is a square root of 1 other than 1: -1
                    let y = sq(t0 as int, (i - 1) as nat, pp);
                    assert(y != 1);
                    assert(sq(t0 as int, i as nat, pp) == (y * y) % pp);
                    lemma_sq_range(t0 as int, (i - 1) as nat, pp);
                    lemma_sqrt_one(pp, y);
                    lemma_sq_mul(t0 as int, c as int, (i - 1) as nat, pp);
                    lemma_minus_one_squared(pp);
                    assert(sq(t as int, (i - 1) as nat, pp) == 1);
                }
            }
        }
    }
    proof {
        if good {
            vstd::arithmetic::div_mod::lemma_small_mod(n as nat, p as nat);
        }
    }
    Some(r)
}

/// Gaps between consecutive numbers coprime to 30, from 1.
spec fn skip_at(k: int) -> int {
    if k == 0 {
        6
    } else if k == 1 {
        4
    } else if k == 2 {
        2
    } else if k == 3 {
        4
    } else if k == 4 {
        2
    } else if k == 5 {
        4
    } else if k == 6 {
        6
    } else {
        2
    }
}

/// The residues coprime to 30, in increasing order.
spec fn wheel_at(k: int) -> int {
    if k == 0 {
        1
    } else if k == 1 {
        7
    } else if k == 2 {
        11
    } else if k == 3 {
        13
    } else if k == 4 {
        17
    } else if k == 5 {
        19
    } else if k == 6 {
        23
    } else {
        29
    }
}

/// `m` has none of 2, 3 and 5 as a factor.
pub open spec fn coprime30(m: int) -> bool {
    m % 2 != 0 && m % 3 != 0 && m % 5 != 0
}

/// The `k`-th number coprime to 30, counting 1 as the zeroth.
spec fn wheel(k: int) -> int {
    30 * (k / 8) + wheel_at(k % 8)
}

/// The position of a residue coprime to 30 among them.
spec fn slot_in(r: int) -> int {
    if r == 1 {
        0
    } else if r == 7 {
        1
    } else if r == 11 {
        2
    } else if r == 13 {
        3
    } else if r == 17 {
        4
    } else if r == 19 {
        5
    } else if r == 23 {
        6
    } else {
        7
    }
}

/// The position of `m` among the numbers coprime to 30.
spec fn slot(m: int) -> int {
    8 * (m / 30) + slot_in(m % 30)
}

/// The table that maps `(m / 2) % 15` to the position of `m % 30`.
spec fn xtoi_at(t: int) -> int {
    if t == 3 {
        1
    } else if t == 5 {
        2
    } else if t == 6 {
        3
    } else if t == 8 {
        4
    } else if t == 9 {
        5
    } else if t == 11 {
        6
    } else if t == 14 {
        7
    } else {
        0
    }
}

/// `q * w`.
spec fn times(q: int, w: int) -> int {
    q * w
}

/// `m` is a product `q * w` of a prime `q` with `7 <= q < x` and a number `w >= q`
/// coprime to 30: it was crossed out by the primes below `x`.
spec fn sieved(m: int, x: int) -> bool {
    exists|q: int, w: int| is_prime(q) && 7 <= q < x && q <= w && coprime30(w) && #[trigger] times(q, w) == m
}

proof fn lemma_wheel(k: int)
    requires
        k >= 0,
    ensures
        coprime30(wheel(k)),
        wheel(k) >= 1,
        wheel(k + 1) == wheel(k) + skip_at(k % 8),
        slot(wheel(k)) == k,
        k >= 1 ==> wheel(k) >= 7,
{
    let a = k / 8;
    let r = k % 8;
    assert((30 * a + wheel_at(r)) / 30 == a && (30 * a + wheel_at(r)) % 30 == wheel_at(r));
    assert((k + 1) / 8 == if r == 7 { a + 1 } else { a });
    assert((k + 1) % 8 == if r == 7 { 0 } else { r + 1 });
}

proof fn lemma_slot(m: int)
    requires
        m >= 1,
        coprime30(m),
    ensures
        slot(m) >= 0,
        wheel(slot(m)) == m,
        slot(m) / 8 == m / 30,
        slot(m) % 8 == xtoi_at((m / 2) % 15),
{
    let a = m / 30;
    let r = m % 30;
    assert(m == 30 * a + r);
    assert(r % 2 != 0 && r % 3 != 0 && r % 5 != 0);
    assert(r == 1 || r == 7 || r == 11 || r == 13 || r == 17 || r == 19 || r == 23 || r == 29);
    assert((m / 2) % 15 == (r - 1) / 2);
    let sl = slot(m);
    assert(sl / 8 == a && sl % 8 == slot_in(r));
}

proof fn lemma_wheel_mono(a: int, b: int)
    requires
        0 <= a < b,
    ensures
        wheel(a) < wheel(b),
    decreases b - a,
{
    lemma_wheel(b - 1);
    if a < b - 1 {
        lemma_wheel_mono(a, b - 1);
    }
}

/// No number coprime to 30 lies strictly between two consecutive ones.
proof fn lemma_wheel_next(j: int, w: int)
    requires
        j >= 0,
        coprime30(w),
        w > wheel(j),
    ensures
        w >= wheel(j + 1),
{
    lemma_slot(w);
    lemma_wheel(j);
    if slot(w) <= j {
        if slot(w) < j {
            lemma_wheel_mono(slot(w), j);
        }
    } else if slot(w) > j + 1 {
        lemma_wheel_mono(j + 1, slot(w));
    }
}

proof fn lemma_small_primes()
    ensures
        is_prime(2),
        is_prime(3),
        is_prime(5),
        !is_prime(4),
        !is_prime(6),
{
    assert(divides(2, 4));
    assert(divides(2, 6));
    assert forall|d: int| 2 <= d < 5 implies !#[trigger] divides(d, 5) by {
        assert(d == 2 || d == 3 || d == 4);
    }
    assert forall|d: int| 2 <= d < 3 implies !#[trigger] divides(d, 3) by {
        assert(d == 2);
    }
}

/// A number that is not coprime to 30 and exceeds 5 is not a prime.
proof fn lemma_not_coprime_not_prime(q: int)
    requires
        q > 5,
        !coprime30(q),
    ensures
        !is_prime(q),
{
    if q % 2 == 0 {
        assert(divides(2, q));
    } else if q % 3 == 0 {
        assert(divides(3, q));
    } else {
        assert(divides(5, q));
    }
}

/// A prime with a multiple coprime to 30 is at least 7 and coprime to 30 itself.
proof fn lemma_prime_factor_coprime(q: int, w: int, m: int)
    requires
        is_prime(q),
        w >= 1,
        q * w == m,
        coprime30(m),
    ensures
        q >= 7,
        coprime30(q),
        coprime30(w),
{
    lemma_small_primes();
    assert(q != 2 && q != 3 && q != 5) by {
        vstd::arithmetic::div_mod::lemma_mod_multiples_basic(w, q);
        assert((w * q) % q == 0);
        assert(w * q == m) by (nonlinear_arith)
            requires q * w == m;
    }
    assert(q != 4 && q != 6);
    assert(coprime30(w)) by {
        if w % 2 == 0 {
            crate::num_lemmas::lemma_multiple(w, 2, q * (w / 2));
            assert(m == 2 * (q * (w / 2))) by (nonlinear_arith)
                requires m == q * w, w == 2 * (w / 2);
        } else if w % 3 == 0 {
            crate::num_lemmas::lemma_multiple(w, 3, q * (w / 3));
            assert(m == 3 * (q * (w / 3))) by (nonlinear_arith)
                requires m == q * w, w == 3 * (w / 3);
        } else if w % 5 == 0 {
            crate::num_lemmas::lemma_multiple(w, 5, q * (w / 5));
            assert(m == 5 * (q * (w / 5))) by (nonlinear_arith)
                requires m == q * w, w == 5 * (w / 5);
        }
    }
    if !coprime30(q) {
        lemma_not_coprime_not_prime(q);
    }
}

/// Every number from 2 up has a prime factor.
pub(crate) proof fn lemma_prime_divisor(m: int) -> (q: int)
    requires
        m >= 2,
    ensures
        is_prime(q),
        2 <= q <= m,
        m % q == 0,
    decreases m,
{
    if is_prime(m) {
        vstd::arithmetic::div_mod::lemma_mod_self_0(m);
        m
    } else {
        let d = choose|d: int| 2 <= d < m && #[trigger] divides(d, m);
        let q = lemma_prime_divisor(d);
        crate::num_lemmas::lemma_multiple(d, q, 0);
        crate::num_lemmas::lemma_multiple(m, d, 0);
        let a = d / q;
        let b = m / d;
        assert(m == q * (a * b)) by (nonlinear_arith)
            requires d == q * a, m == d * b;
        crate::num_lemmas::lemma_multiple(0, q, a * b);
        q
    }
}

/// A composite number coprime to 30 is crossed out by its smallest kind of factor.
proof fn lemma_composite_sieved(m: int)
    requires
        m >= 2,
        coprime30(m),
        !is_prime(m),
    ensures
        sieved(m, m),
{
    let d = choose|d: int| 2 <= d < m && #[trigger] divides(d, m);
    crate::num_lemmas::lemma_multiple(m, d, 0);
    let e0 = m / d;
    assert(e0 >= 2) by (nonlinear_arith)
        requires m == d * e0, d < m, d >= 2;
    let e = if d <= e0 { d } else { e0 };
    let f = if d <= e0 { e0 } else { d };
    assert(m == e * f && e <= f && e >= 2) by (nonlinear_arith)
        requires
            m == d * e0,
            e0 >= 2,
            d >= 2,
            e == if d <= e0 { d } else { e0 },
            f == if d <= e0 { e0 } else { d },
    ;
    let q = lemma_prime_divisor(e);
    crate::num_lemmas::lemma_multiple(e, q, 0);
    let c = e / q;
    let w = c * f;
    assert(m == q * w) by (nonlinear_arith)
        requires m == e * f, e == q * c, w == c * f;
    assert(w >= q) by (nonlinear_arith)
        requires e == q * c, c >= 1, f >= e, w == c * f, q >= 1;
    assert(c >= 1) by (nonlinear_arith)
        requires e == q * c, e >= 2, q >= 2;
    assert(w >= 1) by (nonlinear_arith)
        requires c >= 1, f >= 2, w == c * f;
    lemma_prime_factor_coprime(q, w, m);
    assert(q < m) by (nonlinear_arith)
        requires m == q * w, w >= q, q >= 7;
    assert(times(q, w) == m);
}

/// A crossed-out number is not a prime.
proof fn lemma_sieved_not_prime(m: int, x: int)
    requires
        sieved(m, x),
    ensures
        !is_prime(m),
{
    let (q, w) = choose|q: int, w: int| is_prime(q) && 7 <= q < x && q <= w && coprime30(w) && #[trigger] times(q, w) == m;
    assert(q < m) by (nonlinear_arith)
        requires m == q * w, w >= q, q >= 7;
    vstd::arithmetic::div_mod::lemma_mod_multiples_basic(w, q);
    assert(w * q == m) by (nonlinear_arith)
        requires m == q * w;
    assert(divides(q, m));
}

/// Going from one number coprime to 30 to the next adds to the crossing out only the
/// multiples of that number, if it is a prime.
proof fn lemma_sieved_next(m: int, i: int)
    requires
        i >= 1,
    ensures
        sieved(m, wheel(i + 1)) == (sieved(m, wheel(i)) || (is_prime(wheel(i)) && exists|w: int|
            wheel(i) <= w && coprime30(w) && #[trigger] times(wheel(i), w) == m)),
{
    lemma_wheel(i);
    let x = wheel(i);
    let x2 = wheel(i + 1);
    if sieved(m, x2) {
        let (q, w) = choose|q: int, w: int| is_prime(q) && 7 <= q < x2 && q <= w && coprime30(w) && #[trigger] times(q, w) == m;
        if q >= x {
            if q > x {
                if coprime30(q) {
                    lemma_wheel_next(i, q);
                }
                lemma_not_coprime_not_prime(q);
            }
        } else {
            assert(sieved(m, x));
        }
    }
    if sieved(m, x) {
        let (q, w) = choose|q: int, w: int| is_prime(q) && 7 <= q < x && q <= w && coprime30(w) && #[trigger] times(q, w) == m;
        assert(sieved(m, x2));
    }
    if is_prime(x) && exists|w: int| x <= w && coprime30(w) && #[trigger] times(x, w) == m {
        let w = choose|w: int| x <= w && coprime30(w) && #[trigger] times(x, w) == m;
        assert(sieved(m, x2));
    }
}

/// Bit `k % 8` of byte `k / 8`: the number at position `k` of the wheel is crossed out.
spec fn marked(sv: Seq<u8>, k: int) -> bool {
    ((sv[k / 8] >> ((k % 8) as u8)) & 1u8) == 1u8
}

/// Testing, setting and clearing bits of a byte.
proof fn lemma_byte_bits(w: u8, b: u8, c: u8)
    requires
        b < 8,
        c < 8,
    ensures
        ((w & (1u8 << b)) == 0) == (((w >> b) & 1u8) != 1u8),
        (((w | (1u8 << b)) >> c) & 1u8 == 1u8) == (c == b || ((w >> c) & 1u8) == 1u8),
        ((0u8 >> c) & 1u8) != 1u8,
{
    assert(((w & (1u8 << b)) == 0) == (((w >> b) & 1u8) != 1u8) && ((((w | (1u8 << b)) >> c) & 1u8 == 1u8) == (c
        == b || ((w >> c) & 1u8) == 1u8)) && ((0u8 >> c) & 1u8) != 1u8) by (bit_vector)
        requires
            b < 8,
            c < 8,
    ;
}

/// Numbers coprime to 30 multiply to one.
proof fn lemma_coprime_mul(a: int, b: int)
    requires
        a >= 1,
        b >= 1,
        coprime30(a),
        coprime30(b),
    ensures
        coprime30(a * b),
        a * b >= 1,
{
    lemma_small_primes();
    assert(a * b >= 1) by (nonlinear_arith)
        requires a >= 1, b >= 1;
    if (a * b) % 2 == 0 {
        lemma_euclid(2, a, b);
    }
    if (a * b) % 3 == 0 {
        lemma_euclid(3, a, b);
    }
    if (a * b) % 5 == 0 {
        lemma_euclid(5, a, b);
    }
}

/// The primes up to `n`, in increasing order, by a sieve over the numbers coprime to 30.
pub fn primes(n: usize) -> (ps: Vec<usize>)
    requires
        n <= 0xffff_ff00,
    ensures
        forall|a: int, b: int| 0 <= a < b < ps@.len() ==> ps@[a] < ps@[b],
        forall|a: int| 0 <= a < ps@.len() ==> 2 <= #[trigger] ps@[a] <= n && is_prime(ps@[a] as int),
        forall|q: int| #[trigger] is_prime(q) && q <= n ==> exists|a: int| 0 <= a < ps@.len() && ps@[a] == q,
        n >= 2 ==> ps@.len() >= 1 && ps@[0] == 2,
        n >= 3 ==> ps@.len() >= 2 && ps@[1] == 3,
        n >= 5 ==> ps@.len() >= 3 && ps@[2] == 5,
        n < 2 ==> ps@.len() == 0,
{
    let skip: [u8; 8] = [6, 4, 2, 4, 2, 4, 6, 2];
    let xtoi: [u8; 15] = [0, 0, 0, 1, 0, 2, 3, 0, 4, 5, 0, 6, 0, 0, 7];
    let mut sieve: Vec<u8> = vec![0u8; n / 30 + 1];
    let mut ps: Vec<usize> = vec![2, 3, 5];
    proof {
        lemma_small_primes();
        assert forall|q: int| #[trigger] is_prime(q) && q < 7 implies q == 2 || q == 3 || q == 5 by {
            assert(q != 4 && q != 6);
        }
    }
    if n <= 4 {
        let keep: usize = if n <= 1 { 0 } else if n == 2 { 1 } else { 2 };
        while ps.len() > keep
            invariant
                keep <= 2,
                ps@.len() <= 3,
                ps@.len() >= keep,
                forall|a: int| 0 <= a < ps@.len() ==> #[trigger] ps@[a] == seq![2usize, 3, 5][a],
            decreases ps@.len(),
        {
            ps.pop();
        }
        proof {
            assert forall|q: int| #[trigger] is_prime(q) && q <= n implies exists|a: int| 0 <= a < ps@.len()
                && ps@[a] == q by {
                if q == 2 {
                    assert(ps@[0] == 2);
                } else {
                    assert(q == 3);
                    assert(ps@[1] == 3);
                }
            }
        }
        return ps;
    }
    let mut x: usize = 7;
    let mut i: usize = 1;
    assert forall|k: int| 0 <= k < 8 implies 2 <= #[trigger] skip@[k] <= 6 && skip@[k] == skip_at(k) by {
        assert(skip@[0] == 6 && skip@[1] == 4 && skip@[2] == 2 && skip@[3] == 4);
        assert(skip@[4] == 2 && skip@[5] == 4 && skip@[6] == 6 && skip@[7] == 2);
    }
    assert forall|t: int| 0 <= t < 15 implies #[trigger] xtoi@[t] == xtoi_at(t) by {
        assert(xtoi@ == seq![0u8, 0, 0, 1, 0, 2, 3, 0, 4, 5, 0, 6, 0, 0, 7]);
    }
    proof {
        assert forall|k: int| 0 <= k < 8 * sieve@.len() implies (#[trigger] marked(sieve@, k) <==> (wheel(k)
            <= n && sieved(wheel(k), x as int))) by {
            assert(sieve@[k / 8] == 0u8);
            lemma_byte_bits(0, 0, (k % 8) as u8);
        }
        assert forall|q: int| #[trigger] is_prime(q) && q < x implies exists|a: int| 0 <= a < ps@.len()
            && ps@[a] == q by {
            if q == 2 {
                assert(ps@[0] == 2);
            } else if q == 3 {
                assert(ps@[1] == 3);
            } else {
                assert(ps@[2] == 5);
            }
        }
    }
    while x <= n
        invariant
            forall|k: int| 0 <= k < 8 ==> 2 <= #[trigger] skip@[k] <= 6 && skip@[k] == skip_at(k),
            forall|t: int| 0 <= t < 15 ==> #[trigger] xtoi@[t] == xtoi_at(t),
            5 <= n <= 0xffff_ff00,
            sieve@.len() == n / 30 + 1,
            i >= 1,
            x == wheel(i as int),
            7 <= x <= n + 6,
            ps@.len() >= 3,
            ps@[0] == 2 && ps@[1] == 3 && ps@[2] == 5,
            forall|a: int, b: int| 0 <= a < b < ps@.len() ==> ps@[a] < ps@[b],
            forall|a: int| 0 <= a < ps@.len() ==> 2 <= #[trigger] ps@[a] < x && ps@[a] <= n && is_prime(ps@[a] as int),
            forall|q: int| #[trigger] is_prime(q) && q < x ==> exists|a: int| 0 <= a < ps@.len() && ps@[a] == q,
            forall|k: int|
                0 <= k < 8 * sieve@.len() ==> (#[trigger] marked(sieve@, k) <==> (wheel(k) <= n && sieved(
                    wheel(k),
                    x as int,
                ))),
        decreases n + 8 - x,
    {
        let bi = i / 8;
        proof {
            lemma_wheel(i as int);
        }
        assert(bi <= n / 30) by {
            assert(30 * (i / 8) <= x);
        }
        let ghost s0 = sieve@;
        let ghost ps0 = ps@;
        let bsh = (i % 8) as u8;
        proof {
            lemma_byte_bits(sieve@[bi as int], bsh, bsh);
            assert(0 <= i < 8 * sieve@.len());
            assert(marked(sieve@, i as int) == sieved(x as int, x as int));
            if sieved(x as int, x as int) {
                lemma_sieved_not_prime(x as int, x as int);
            } else if !is_prime(x as int) {
                lemma_composite_sieved(x as int);
            }
        }
        if sieve[bi] & (1u8 << bsh) == 0 {
            ps.push(x);
            let mut j = i;
            let xw = x as u64;
            assert(xw * xw <= 0xffff_ff00 * 0xffff_ff00) by (nonlinear_arith)
                requires
                    xw <= 0xffff_ff00,
            ;
            let mut y: u64 = xw * xw;
            proof {
                assert forall|k: int| 0 <= k < 8 * sieve@.len() implies (#[trigger] marked(sieve@, k) <==> (wheel(k)
                    <= n && (sieved(wheel(k), x as int) || exists|w: int| x <= w < wheel(j as int) && coprime30(w)
                    && #[trigger] times(x as int, w) == wheel(k)))) by {}
            }
            while y <= n as u64
                invariant
                    5 <= n <= 0xffff_ff00,
                    sieve@.len() == n / 30 + 1,
                    forall|k: int| 0 <= k < 8 ==> 2 <= #[trigger] skip@[k] <= 6 && skip@[k] == skip_at(k),
                    forall|t: int| 0 <= t < 15 ==> #[trigger] xtoi@[t] == xtoi_at(t),
                    xw == x,
                    xw <= n,
                    xw >= 7,
                    i >= 1,
                    x == wheel(i as int),
                    is_prime(x as int),
                    j >= i,
                    y == xw * wheel(j as int),
                    y <= n + 6 * xw || y == xw * xw,
                    xw * xw <= 0xffff_ff00 * 0xffff_ff00,
                    forall|k: int|
                        0 <= k < 8 * sieve@.len() ==> (#[trigger] marked(sieve@, k) <==> (wheel(k) <= n && (sieved(
                            wheel(k),
                            x as int,
                        ) || exists|w: int| x <= w < wheel(j as int) && coprime30(w) && #[trigger] times(x as int, w)
                            == wheel(k)))),
                decreases n + 6 * xw + 1 - y,
            {
                let ghost sb = sieve@;
                proof {
                    lemma_wheel(j as int);
                    lemma_wheel(i as int);
                    assert(wheel(j as int) >= j) by {
                        let a = j / 8;
                        assert(j == 8 * a + j % 8);
                    }
                    assert(j <= y) by (nonlinear_arith)
                        requires y == xw * wheel(j as int), xw >= 7, wheel(j as int) >= j;
                    lemma_coprime_mul(x as int, wheel(j as int));
                    lemma_slot(y as int);
                }
                let idx = (y / 2 % 15) as usize;
                let bit = xtoi[idx];
                let yi = (y / 30) as usize;
                proof {
                    assert(bit as int == slot(y as int) % 8);
                    assert(yi as int == slot(y as int) / 8);
                    assert(yi <= n / 30);
                }
                let w = sieve[yi] | (1u8 << bit);
                sieve.set(yi, w);
                proof {
                    let sl = slot(y as int);
                    assert forall|k: int| 0 <= k < 8 * sieve@.len() implies (#[trigger] marked(sieve@, k) <==> (wheel(k)
                        <= n && (sieved(wheel(k), x as int) || exists|w2: int| x <= w2 < wheel(j + 1) && coprime30(w2)
                        && #[trigger] times(x as int, w2) == wheel(k)))) by {
                        lemma_byte_bits(sb[yi as int], bit, (k % 8) as u8);
                        assert(marked(sb, k) <==> (wheel(k) <= n && (sieved(wheel(k), x as int) || exists|w2: int|
                            x <= w2 < wheel(j as int) && coprime30(w2) && #[trigger] times(x as int, w2) == wheel(k))));
                        lemma_wheel(k);
                        if k == sl {
                            assert(times(x as int, wheel(j as int)) == wheel(k));
                        } else {
                            if exists|w2: int| x <= w2 < wheel(j + 1) && coprime30(w2) && #[trigger] times(x as int, w2)
                                == wheel(k) {
                                let w2 = choose|w2: int| x <= w2 < wheel(j + 1) && coprime30(w2) && #[trigger] times(
                                    x as int,
                                    w2,
                                ) == wheel(k);
                                if w2 >= wheel(j as int) {
                                    if w2 > wheel(j as int) {
                                        lemma_wheel_next(j as int, w2);
                                    }
                                    assert(wheel(k) == y);
                                }
                            }
                        }
                    }
                }
                let sk = skip[j % 8];
                let skw = sk as u64;
                assert(2 * xw <= xw * skw <= 6 * xw) by (nonlinear_arith)
                    requires
                        2 <= skw <= 6,
                        xw >= 0,
                ;
                assert(y + xw * skw == xw * wheel(j + 1)) by (nonlinear_arith)
                    requires
                        y == xw * wheel(j as int),
                        wheel(j + 1) == wheel(j as int) + skw,
                ;
                y = y + xw * skw;
                j = j + 1;
            }
            proof {
                assert forall|k: int| 0 <= k < 8 * sieve@.len() implies (#[trigger] marked(sieve@, k) <==> (wheel(k)
                    <= n && sieved(wheel(k), wheel(i + 1)))) by {
                    lemma_sieved_next(wheel(k), i as int);
                    if wheel(k) <= n && exists|w2: int| x <= w2 && coprime30(w2) && #[trigger] times(x as int, w2)
                        == wheel(k) {
                        let w2 = choose|w2: int| x <= w2 && coprime30(w2) && #[trigger] times(x as int, w2) == wheel(k);
                        if w2 >= wheel(j as int) {
                            assert(xw * w2 >= xw * wheel(j as int)) by (nonlinear_arith)
                                requires w2 >= wheel(j as int), xw >= 0;
                        }
                    }
                }
            }
        } else {
            proof {
                assert forall|k: int| 0 <= k < 8 * sieve@.len() implies (#[trigger] marked(sieve@, k) <==> (wheel(k)
                    <= n && sieved(wheel(k), wheel(i + 1)))) by {
                    lemma_sieved_next(wheel(k), i as int);
                }
            }
        }
        proof {
            let x2 = wheel(i + 1);
            assert forall|q: int| #[trigger] is_prime(q) && q < x2 implies exists|a: int| 0 <= a < ps@.len()
                && ps@[a] == q by {
                if q < x {
                    let a = choose|a: int| 0 <= a < ps0.len() && ps0[a] == q;
                    assert(ps@[a] == q);
                } else if q == x {
                    assert(ps@[ps0.len() as int] == q);
                } else {
                    if coprime30(q) {
                        lemma_wheel_next(i as int, q);
                    }
                    lemma_not_coprime_not_prime(q);
                }
            }
        }
        x = x + skip[i % 8] as usize;
        i += 1;
    }
    ps
}

} // verus!
