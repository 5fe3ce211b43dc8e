use vstd::prelude::*;
use crate::number_theory::number_theory::{divides, is_prime, lemma_euclid, lemma_prime_divisor, primes};

verus! {

/// The number of `x` in `1..=v` with `f(x)`.
pub open spec fn count(v: int, f: spec_fn(int) -> bool) -> nat
    decreases v,
{
    if v <= 0 {
        0
    } else {
        count(v - 1, f) + if f(v) { 1nat } else { 0nat }
    }
}

/// The number of primes up to `v`.
pub open spec fn prime_pi(v: int) -> nat {
    count(v, |x: int| is_prime(x))
}

/// `x` is at least 2 and no number from 2 to `m` below `x` divides it.
pub open spec fn rough(x: int, m: int) -> bool {
    x >= 2 && forall|d: int| 2 <= d <= m && d < x ==> !#[trigger] divides(d, x)
}

/// The number of `x` up to `v` that are rough for `m`.
pub open spec fn rough_count(v: int, m: int) -> nat {
    count(v, |x: int| rough(x, m))
}

proof fn lemma_count_ext(v: int, f: spec_fn(int) -> bool, g: spec_fn(int) -> bool)
    requires
        forall|x: int| 1 <= x <= v ==> #[trigger] f(x) == g(x),
    ensures
        count(v, f) == count(v, g),
    decreases v,
{
    if v > 0 {
        lemma_count_ext(v - 1, f, g);
    }
}

proof fn lemma_count_split(v: int, f: spec_fn(int) -> bool, g: spec_fn(int) -> bool, h: spec_fn(int) -> bool)
    requires
        forall|x: int| 1 <= x <= v ==> #[trigger] f(x) == (g(x) || h(x)),
        forall|x: int| 1 <= x <= v ==> !(#[trigger] g(x) && h(x)),
    ensures
        count(v, f) == count(v, g) + count(v, h),
    decreases v,
{
    if v > 0 {
        lemma_count_split(v - 1, f, g, h);
    }
}

proof fn lemma_count_mono(a: int, b: int, f: spec_fn(int) -> bool)
    requires
        a <= b,
    ensures
        count(a, f) <= count(b, f),
    decreases b - a,
{
    if a < b {
        lemma_count_mono(a, b - 1, f);
    }
}

proof fn lemma_count_tail(a: int, v: int, f: spec_fn(int) -> bool)
    requires
        0 <= a <= v,
    ensures
        count(v, |x: int| f(x) && x > a) + count(a, f) == count(v, f),
    decreases v - a,
{
    let g = |x: int| f(x) && x > a;
    if v == a {
        lemma_count_zero(a, g);
    } else {
        lemma_count_tail(a, v - 1, f);
    }
}

proof fn lemma_count_zero(v: int, f: spec_fn(int) -> bool)
    requires
        forall|x: int| 1 <= x <= v ==> !#[trigger] f(x),
    ensures
        count(v, f) == 0,
    decreases v,
{
    if v > 0 {
        lemma_count_zero(v - 1, f);
    }
}

proof fn lemma_count_multiples(v: int, p: int, q: spec_fn(int) -> bool)
    requires
        v >= 0,
        p >= 1,
    ensures
        count(v, |x: int| x % p == 0 && q(x / p)) == count(v / p, q),
    decreases v,
{
    let h = |x: int| x % p == 0 && q(x / p);
    if v > 0 {
        lemma_count_multiples(v - 1, p, q);
        vstd::arithmetic::div_mod::lemma_fundamental_div_mod(v, p);
        vstd::arithmetic::div_mod::lemma_fundamental_div_mod(v - 1, p);
        let a = v / p;
        let b = (v - 1) / p;
        assert(v % p == 0 ==> a == b + 1 && (v - 1) % p == p - 1) by (nonlinear_arith)
            requires
                v == p * a + v % p,
                v - 1 == p * b + (v - 1) % p,
                0 <= v % p < p,
                0 <= (v - 1) % p < p,
        ;
        assert(v % p != 0 ==> a == b) by (nonlinear_arith)
            requires
                v == p * a + v % p,
                v - 1 == p * b + (v - 1) % p,
                0 <= v % p < p,
                0 <= (v - 1) % p < p,
        ;
        assert(a >= 0) by (nonlinear_arith)
            requires v == p * a + v % p, v % p < p, v > 0, p >= 1;
    }
}

proof fn lemma_divides_trans(a: int, b: int, c: int)
    requires
        b > 0,
        c > 0,
        a % b == 0,
        b % c == 0,
    ensures
        a % c == 0,
{
    crate::num_lemmas::lemma_multiple(a, b, 0);
    crate::num_lemmas::lemma_multiple(b, c, 0);
    let s = a / b;
    let t = b / c;
    assert(a == c * (t * s)) by (nonlinear_arith)
        requires a == b * s, b == c * t;
    crate::num_lemmas::lemma_multiple(0, c, t * s);
}

/// Below `m + 2`, being rough for `m` is being prime.
proof fn lemma_rough_small(x: int, m: int)
    requires
        1 <= x <= m + 1,
    ensures
        rough(x, m) == is_prime(x),
{
    if is_prime(x) {
        assert forall|d: int| 2 <= d <= m && d < x implies !#[trigger] divides(d, x) by {}
    }
    if rough(x, m) {
        assert forall|d: int| 2 <= d < x implies !#[trigger] divides(d, x) by {}
    }
}

/// Below `(m + 1)^2`, being rough for `m` is being prime.
proof fn lemma_rough_sqrt(x: int, m: int)
    requires
        m >= 1,
        1 <= x < (m + 1) * (m + 1),
    ensures
        rough(x, m) == is_prime(x),
{
    if is_prime(x) {
        assert forall|d: int| 2 <= d <= m && d < x implies !#[trigger] divides(d, x) by {}
    }
    if rough(x, m) && !is_prime(x) {
        let d = choose|d: int| 2 <= d < x && #[trigger] divides(d, x);
        crate::num_lemmas::lemma_multiple(x, d, 0);
        let e = x / d;
        assert(e >= 2) by (nonlinear_arith)
            requires x == d * e, d < x, d >= 2;
        assert(e < x) by (nonlinear_arith)
            requires x == d * e, d >= 2, e >= 2;
        crate::num_lemmas::lemma_multiple(0, e, d);
        assert(x % e == 0) by {
            assert(x == e * d) by (nonlinear_arith)
                requires x == d * e;
        }
        if d > m && e > m {
            assert(d * e >= (m + 1) * (m + 1)) by (nonlinear_arith)
                requires d >= m + 1, e >= m + 1, m >= 1;
        }
        if d <= m {
            assert(divides(d, x));
        } else {
            assert(divides(e, x));
        }
    }
}

/// A composite bound adds nothing to roughness.
proof fn lemma_rough_composite(x: int, m: int)
    requires
        m >= 2,
        !is_prime(m),
    ensures
        rough(x, m) == rough(x, m - 1),
{
    if rough(x, m - 1) && !rough(x, m) {
        let d = choose|d: int| 2 <= d <= m && d < x && #[trigger] divides(d, x);
        assert(d == m);
        let q = lemma_prime_divisor(m);
        assert(q != m);
        lemma_divides_trans(x, m, q);
        assert(divides(q, x));
    }
}

/// Passing a prime `p`: the numbers rough for `p - 1` are those rough for `p` and the
/// multiples `p * y` with `y >= p` rough for `p - 1`.
proof fn lemma_rough_step(x: int, p: int)
    requires
        is_prime(p),
        x >= 1,
    ensures
        rough(x, p - 1) == (rough(x, p) || (x % p == 0 && x / p >= p && rough(x / p, p - 1))),
        !(rough(x, p) && (x % p == 0 && x / p >= p && rough(x / p, p - 1))),
{
    crate::num_lemmas::lemma_multiple(x, p, 0);
    let y = x / p;
    if x % p == 0 && y >= p && rough(y, p - 1) {
        assert(x == p * y);
        assert(x > p) by (nonlinear_arith)
            requires x == p * y, y >= p, p >= 2;
        assert(divides(p, x));
        assert forall|d: int| 2 <= d <= p - 1 && d < x implies !#[trigger] divides(d, x) by {
            if divides(d, x) {
                let q = lemma_prime_divisor(d);
                lemma_divides_trans(x, d, q);
                assert((p * y) % q == 0);
                lemma_euclid(q, p, y);
                if p % q == 0 {
                    assert(divides(q, p));
                } else {
                    assert(divides(q, y));
                }
            }
        }
    }
    if rough(x, p - 1) && !rough(x, p) {
        let d = choose|d: int| 2 <= d <= p && d < x && #[trigger] divides(d, x);
        assert(d == p);
        assert(x == p * y);
        assert(y >= 2) by (nonlinear_arith)
            requires x == p * y, p < x, p >= 2;
        assert(y < x) by (nonlinear_arith)
            requires x == p * y, y >= 2, p >= 2;
        crate::num_lemmas::lemma_multiple(0, y, p);
        assert(x % y == 0) by {
            assert(x == y * p) by (nonlinear_arith)
                requires x == p * y;
        }
        if y < p {
            assert(divides(y, x));
        }
        assert forall|e: int| 2 <= e <= p - 1 && e < y implies !#[trigger] divides(e, y) by {
            if divides(e, y) {
                lemma_divides_trans(x, y, e);
                assert(divides(e, x));
            }
        }
    }
}

/// One round of the sieve: passing a prime `p` removes the multiples `p * y` with `y`
/// at least `p` and rough for `p - 1`.
proof fn lemma_count_step(v: int, p: int)
    requires
        is_prime(p),
        v >= 0,
    ensures
        v / p >= p ==> rough_count(v / p, p - 1) >= rough_count(p - 1, p - 1),
        rough_count(v, p - 1) == rough_count(v, p) + if v / p >= p {
            rough_count(v / p, p - 1) - rough_count(p - 1, p - 1)
        } else {
            0
        },
{
    let f = |x: int| rough(x, p - 1);
    let g = |x: int| rough(x, p);
    let q = |y: int| f(y) && y > p - 1;
    let h = |x: int| x % p == 0 && q(x / p);
    assert forall|x: int| 1 <= x <= v implies #[trigger] f(x) == (g(x) || h(x)) by {
        lemma_rough_step(x, p);
    }
    assert forall|x: int| 1 <= x <= v implies !(#[trigger] g(x) && h(x)) by {
        lemma_rough_step(x, p);
    }
    lemma_count_split(v, f, g, h);
    lemma_count_multiples(v, p, q);
    let w = v / p;
    vstd::arithmetic::div_mod::lemma_div_pos_is_pos(v, p);
    if w >= p - 1 {
        lemma_count_tail(p - 1, w, f);
        assert(count(w, |x: int| f(x) && x > p - 1) == count(w, q)) by {
            lemma_count_ext(w, |x: int| f(x) && x > p - 1, q);
        }
    } else {
        lemma_count_zero(w, q);
    }
    if w >= p {
        lemma_count_mono(p - 1, w, f);
    }
}

/// Bounds that pass no prime give the same counts.
proof fn lemma_count_skip(v: int, a: int, b: int)
    requires
        1 <= a <= b,
        forall|x: int| a < x <= b ==> !#[trigger] is_prime(x),
    ensures
        rough_count(v, b) == rough_count(v, a),
    decreases b - a,
{
    if a < b {
        lemma_count_skip(v, a, b - 1);
        assert(!is_prime(b));
        assert forall|x: int| 1 <= x <= v implies #[trigger] rough(x, b) == rough(x, b - 1) by {
            lemma_rough_composite(x, b);
        }
        lemma_count_ext(v, |x: int| rough(x, b), |x: int| rough(x, b - 1));
    }
}

/// Up to `(m + 1)^2`, the numbers rough for `m` are the primes.
proof fn lemma_count_primes(v: int, m: int)
    requires
        m >= 1,
        v < (m + 1) * (m + 1),
    ensures
        rough_count(v, m) == prime_pi(v),
{
    assert forall|x: int| 1 <= x <= v implies #[trigger] rough(x, m) == is_prime(x) by {
        lemma_rough_sqrt(x, m);
    }
    lemma_count_ext(v, |x: int| rough(x, m), |x: int| is_prime(x));
}

/// Up to `a`, the numbers rough for `a` are the primes.
proof fn lemma_count_primes_small(a: int)
    requires
        a >= 0,
    ensures
        rough_count(a, a) == prime_pi(a),
{
    assert forall|x: int| 1 <= x <= a implies #[trigger] rough(x, a) == is_prime(x) by {
        lemma_rough_small(x, a);
    }
    lemma_count_ext(a, |x: int| rough(x, a), |x: int| is_prime(x));
}

proof fn lemma_pi_gap(a: int, b: int)
    requires
        0 <= a <= b,
        forall|x: int| a < x <= b ==> !#[trigger] is_prime(x),
    ensures
        prime_pi(b) == prime_pi(a),
    decreases b - a,
{
    if a < b {
        lemma_pi_gap(a, b - 1);
        assert(!is_prime(b));
    }
}

/// The increasing list of all primes up to `bound`.
pub open spec fn prime_list(qs: Seq<usize>, bound: int) -> bool {
    &&& forall|a: int, b: int| 0 <= a < b < qs.len() ==> qs[a] < qs[b]
    &&& forall|a: int| 0 <= a < qs.len() ==> #[trigger] qs[a] <= bound && is_prime(qs[a] as int)
    &&& forall|x: int| #[trigger] is_prime(x) && x <= bound ==> exists|a: int| 0 <= a < qs.len() && qs[a] == x
}

/// The bound reached after the first `t` primes of the list: 1 before any.
pub open spec fn passed(qs: Seq<usize>, t: int) -> int {
    if t <= 0 { 1 } else { qs[t - 1] as int }
}

/// No prime lies between the `t`-th entry of the list and the one before it; past the
/// last entry, none lies up to the bound.
proof fn lemma_list_gap(qs: Seq<usize>, bound: int, t: int)
    requires
        prime_list(qs, bound),
        0 <= t <= qs.len(),
    ensures
        forall|x: int| passed(qs, t) < x && (t == qs.len() ==> x <= bound) && (t < qs.len() ==> x < qs[t])
            ==> !#[trigger] is_prime(x),
        t < qs.len() ==> passed(qs, t) < qs[t] && is_prime(qs[t] as int) && qs[t] <= bound,
{
    if t < qs.len() {
        assert(qs[t] <= bound && is_prime(qs[t] as int));
    }
    if t > 0 {
        assert(qs[t - 1] <= bound && is_prime(qs[t - 1] as int));
    }
    assert forall|x: int| passed(qs, t) < x && (t == qs.len() ==> x <= bound) && (t < qs.len() ==> x < qs[t])
        implies !#[trigger] is_prime(x) by {
        if is_prime(x) {
            if t < qs.len() {
                assert(x <= bound);
            }
            let a = choose|a: int| 0 <= a < qs.len() && qs[a] == x;
            if a < t {
                if a < t - 1 {
                    assert(qs[a] < qs[t - 1]);
                }
            } else if a > t {
                assert(qs[t] < qs[a]);
            }
        }
    }
}

/// In the increasing list of all primes up to a bound, the prime at index `t` has `t`
/// primes below it.
proof fn lemma_pi_list(qs: Seq<usize>, bound: int, t: int)
    requires
        prime_list(qs, bound),
        0 <= t < qs.len(),
    ensures
        prime_pi(qs[t] - 1) == t,
    decreases t,
{
    lemma_list_gap(qs, bound, t);
    let lo: int = if t == 0 { 0 } else { qs[t - 1] as int };
    assert forall|x: int| lo < x <= qs[t] - 1 implies !#[trigger] is_prime(x) by {
        if t == 0 && x == 1 {
        } else {
            assert(passed(qs, t) < x);
        }
    }
    lemma_pi_gap(lo, qs[t] - 1);
    if t > 0 {
        lemma_pi_list(qs, bound, t - 1);
        assert(is_prime(qs[t - 1] as int)) by {
            lemma_list_gap(qs, bound, t - 1);
        }
    }
}

proof fn lemma_count_le(v: int, f: spec_fn(int) -> bool)
    requires
        v >= 0,
    ensures
        count(v, f) <= v,
    decreases v,
{
    if v > 0 {
        lemma_count_le(v - 1, f);
    }
}

/// Every number from 2 on is rough for 1.
proof fn lemma_count_start(v: int)
    requires
        v >= 0,
    ensures
        rough_count(v, 1) == if v >= 1 { v - 1 } else { 0 },
    decreases v,
{
    if v > 0 {
        lemma_count_start(v - 1);
    }
}

/// Dividing by `j` and then by `p` lands on a value `k` with `n / (n / k) == k`.
proof fn lemma_floor_index(n: int, j: int, p: int)
    requires
        n >= 0,
        j >= 1,
        p >= 1,
        (n / j) / p >= 1,
    ensures
        n / (n / ((n / j) / p)) == (n / j) / p,
        n / ((n / j) / p) >= j * p,
{
    let k = (n / j) / p;
    vstd::arithmetic::div_mod::lemma_div_denominator(n, j, p);
    let m = j * p;
    assert(m >= 1) by (nonlinear_arith)
        requires j >= 1, p >= 1, m == j * p;
    assert(k == n / m);
    vstd::arithmetic::div_mod::lemma_fundamental_div_mod(n, m);
    vstd::arithmetic::div_mod::lemma_fundamental_div_mod(n, k);
    let t = n / k;
    assert(t >= m) by (nonlinear_arith)
        requires
            n == m * k + n % m,
            n == k * t + n % k,
            0 <= n % m < m,
            0 <= n % k < k,
            k >= 1,
            m >= 1,
    ;
    vstd::arithmetic::div_mod::lemma_fundamental_div_mod(n, t);
    let u = n / t;
    assert(u == k) by (nonlinear_arith)
        requires
            n == m * k + n % m,
            n == k * t + n % k,
            n == t * u + n % t,
            0 <= n % m < m,
            0 <= n % k < k,
            0 <= n % t < t,
            k >= 1,
            m >= 1,
            t >= m,
    {
        assert(u >= k) by (nonlinear_arith)
            requires n == k * t + n % k, n == t * u + n % t, 0 <= n % k, n % t < t, t >= 1, k >= 1;
        vstd::arithmetic::div_mod::lemma_div_is_ordered_by_denominator(n, m, t);
    }
}

/// `v` is at least `p * p` exactly when `v / p` is at least `p`.
proof fn lemma_square_div(v: int, p: int)
    requires
        v >= 0,
        p >= 1,
    ensures
        (v >= p * p) == (v / p >= p),
{
    vstd::arithmetic::div_mod::lemma_fundamental_div_mod(v, p);
    let q = v / p;
    assert((v >= p * p) == (q >= p)) by (nonlinear_arith)
        requires v == p * q + v % p, 0 <= v % p < p, p >= 1;
}

/// The largest `s` with `s * s <= n`.
fn isqrt(n: usize) -> (s: usize)
    ensures
        s * s <= n < (s + 1) * (s + 1),
{
    let mut lo: usize = 0;
    let mut hi: usize = n / 2 + 2;
    assert(n < hi * hi) by (nonlinear_arith)
        requires hi == n / 2 + 2, n >= 0;
    while hi - lo > 1
        invariant
            lo < hi,
            hi <= n / 2 + 2,
            lo * lo <= n,
            n < hi * hi,
        decreases hi - lo,
    {
        let mid = lo + (hi - lo) / 2;
        proof {
            vstd::arithmetic::div_mod::lemma_fundamental_div_mod(n as int, mid as int);
        }
        let q = n / mid;
        assert((mid <= q) == (mid * mid <= n)) by (nonlinear_arith)
            requires
                n == mid * q + n % mid,
                0 <= n % mid < mid,
                mid >= 1,
        ;
        if mid <= q {
            lo = mid;
        } else {
            hi = mid;
        }
    }
    lo
}

/// The number of primes up to `n`: the primes up to the square root of `n` are passed one
/// by one, keeping for each value `n / j` and each small value how many numbers up to it
/// are still rough.
pub fn prime_count(n: usize) -> (r: usize)
    requires
        n >= 1,
        n <= 0xffff_ff00 * 0xffff_ff00,
    ensures
        r == prime_pi(n as int),
{
    let sn = isqrt(n);
    assert(sn <= 0xffff_ff00) by (nonlinear_arith)
        requires sn * sn <= n, n <= 0xffff_ff00 * 0xffff_ff00, sn >= 0;
    assert(sn >= 1) by (nonlinear_arith)
        requires n < (sn + 1) * (sn + 1), n >= 1, sn >= 0;
    let qs = primes(sn);
    assert(prime_list(qs@, sn as int));
    let mut div: Vec<usize> = Vec::new();
    let mut dp_large: Vec<usize> = Vec::new();
    let mut dp_small: Vec<usize> = Vec::new();
    let mut j: usize = 0;
    while j <= sn
        invariant
            j <= sn + 1,
            sn <= 0xffff_ff00,
            div@.len() == j,
            dp_large@.len() == j,
            dp_small@.len() == j,
            forall|a: int| 1 <= a < j ==> #[trigger] div@[a] == n as int / a,
            forall|a: int| 1 <= a < j ==> #[trigger] dp_large@[a] == rough_count(n as int / a, 1),
            forall|a: int| 0 <= a < j ==> #[trigger] dp_small@[a] == rough_count(a, 1),
        decreases sn + 1 - j,
    {
        let d: usize = if j == 0 { 0 } else { n / j };
        div.push(d);
        proof {
            lemma_count_start(d as int);
            lemma_count_start(j as int);
        }
        dp_large.push(if d == 0 { 0 } else { d - 1 });
        dp_small.push(if j == 0 { 0 } else { j - 1 });
        j += 1;
    }
    let mut t: usize = 0;
    while t < qs.len()
        invariant
            1 <= sn <= 0xffff_ff00,
            sn * sn <= n < (sn + 1) * (sn + 1),
            prime_list(qs@, sn as int),
            t <= qs@.len(),
            div@.len() == sn + 1,
            dp_large@.len() == sn + 1,
            dp_small@.len() == sn + 1,
            forall|a: int| 1 <= a <= sn ==> #[trigger] div@[a] == n as int / a,
            forall|a: int| 1 <= a <= sn ==> #[trigger] dp_large@[a] == rough_count(n as int / a, passed(qs@, t as int)),
            forall|a: int| 0 <= a <= sn ==> #[trigger] dp_small@[a] == rough_count(a, passed(qs@, t as int)),
        decreases qs@.len() - t,
    {
        let p = qs[t];
        let i = t + 1;
        let ghost m0 = passed(qs@, t as int);
        proof {
            lemma_list_gap(qs@, sn as int, t as int);
            lemma_pi_list(qs@, sn as int, t as int);
            lemma_count_primes_small(p - 1);
            assert forall|v: int| #![trigger rough_count(v, p - 1)] rough_count(v, p - 1) == rough_count(v, m0) by {
                lemma_count_skip(v, m0, p - 1);
            }
        }
        assert(p * p <= n) by (nonlinear_arith)
            requires p <= sn, sn * sn <= n, p >= 0;
        let pp = p * p;
        let mut j: usize = 1;
        while j <= sn && div[j] >= pp
            invariant
                1 <= sn <= 0xffff_ff00,
                sn * sn <= n < (sn + 1) * (sn + 1),
                is_prime(p as int),
                2 <= p <= sn,
                pp == p * p,
                i == t + 1,
                rough_count(p - 1, p - 1) == t,
                1 <= j <= sn + 1,
                div@.len() == sn + 1,
                dp_large@.len() == sn + 1,
                dp_small@.len() == sn + 1,
                forall|a: int| 1 <= a <= sn ==> #[trigger] div@[a] == n as int / a,
                forall|a: int| 1 <= a < j ==> #[trigger] dp_large@[a] == rough_count(n as int / a, p as int),
                forall|a: int| j <= a <= sn ==> #[trigger] dp_large@[a] == rough_count(n as int / a, p - 1),
                forall|a: int| 0 <= a <= sn ==> #[trigger] dp_small@[a] == rough_count(a, p - 1),
            decreases sn + 1 - j,
        {
            let v = div[j];
            let k = v / p;
            proof {
                lemma_square_div(v as int, p as int);
                lemma_count_step(v as int, p as int);
            }
            let s = if k > sn {
                proof {
                    lemma_floor_index(n as int, j as int, p as int);
                    assert(n / k <= sn) by (nonlinear_arith)
                        requires n < (sn + 1) * (sn + 1), k >= sn + 1, sn >= 1, n >= 0;
                    assert(n / k > j) by (nonlinear_arith)
                        requires n / k >= j * p, p >= 2, j >= 1;
                    assert(dp_large@[(n / k) as int] == rough_count((n / (n / k)) as int, p - 1));
                }
                dp_large[n / k]
            } else {
                dp_small[k]
            };
            proof {
                lemma_count_le(v as int, |x: int| rough(x, p - 1));
                lemma_count_le(k as int, |x: int| rough(x, p - 1));
                assert(s == rough_count(k as int, p - 1));
                vstd::arithmetic::div_mod::lemma_div_decreases(v as int, p as int);
            }
            let dv = s + 1 - i;
            let nv = dp_large[j] - dv;
            dp_large.set(j, nv);
            j += 1;
        }
        proof {
            assert forall|a: int| j <= a <= sn implies #[trigger] rough_count(n as int / a, p as int) == rough_count(n as int / a, p - 1) by {
                vstd::arithmetic::div_mod::lemma_div_is_ordered_by_denominator(n as int, j as int, a);
                lemma_square_div(n as int / a, p as int);
                lemma_count_step(n as int / a, p as int);
            }
        }
        let mut j2: usize = sn;
        while j2 >= pp
            invariant
                1 <= sn <= 0xffff_ff00,
                is_prime(p as int),
                2 <= p <= sn,
                pp == p * p,
                i == t + 1,
                rough_count(p - 1, p - 1) == t,
                j2 <= sn,
                dp_large@.len() == sn + 1,
                dp_small@.len() == sn + 1,
                forall|a: int| j2 < a <= sn ==> #[trigger] dp_small@[a] == rough_count(a, p as int),
                forall|a: int| 0 <= a <= j2 ==> #[trigger] dp_small@[a] == rough_count(a, p - 1),
            decreases j2,
        {
            let k = j2 / p;
            proof {
                lemma_square_div(j2 as int, p as int);
                lemma_count_step(j2 as int, p as int);
                lemma_count_le(j2 as int, |x: int| rough(x, p - 1));
                lemma_count_le(k as int, |x: int| rough(x, p - 1));
            }
            proof {
                vstd::arithmetic::div_mod::lemma_div_decreases(j2 as int, p as int);
            }
            let s = if k > sn { dp_large[n / k] } else { dp_small[k] };
            let dv = s + 1 - i;
            let nv = dp_small[j2] - dv;
            dp_small.set(j2, nv);
            j2 -= 1;
        }
        proof {
            assert forall|a: int| 0 <= a <= j2 implies #[trigger] rough_count(a, p as int) == rough_count(a, p - 1) by {
                lemma_square_div(a, p as int);
                lemma_count_step(a, p as int);
            }
            assert(passed(qs@, t + 1) == p);
        }
        t += 1;
    }
    proof {
        lemma_list_gap(qs@, sn as int, t as int);
        let m0 = passed(qs@, t as int);
        assert(m0 <= sn) by {
            if t > 0 {
                assert(qs@[t - 1] <= sn);
            }
        }
        lemma_count_skip(n as int, m0, sn as int);
        lemma_count_primes(n as int, sn as int);
        assert(dp_large@[1] == rough_count(n as int / 1, m0));
    }
    dp_large[1]
}

} // verus!
