use vstd::prelude::*;
use vstd::arithmetic::power::{pow, lemma_pow_multiplies, lemma_pow_mod_noop, lemma_square_is_pow2, lemma_pow0, lemma_pow1, lemma_pow_adds};
use vstd::arithmetic::div_mod::{lemma_mul_mod_noop_left, lemma_mul_mod_noop_right, lemma_fundamental_div_mod, lemma_add_mod_noop, lemma_add_mod_noop_right, lemma_small_mod, lemma_mod_twice, lemma_mod_add_multiples_vanish, lemma_mod_sub_multiples_vanish};
use vstd::arithmetic::mul::lemma_mul_is_distributive_add;
use vstd::arithmetic::mul::{lemma_mul_is_associative, lemma_mul_is_commutative};
use vstd::arithmetic::power2::pow2;

verus! {

/// One step of square-and-multiply: with `b2 == b * b % m`,
/// `y * b^n` is congruent to `(y * b) * b2^(n / 2)` for odd `n` and to
/// `y * b2^(n / 2)` for even `n`.
pub proof fn lemma_pow_step(y: int, b: int, n: nat, m: int)
    requires
        m > 0,
    ensures
        n % 2 == 1 ==> ((y * b % m) * pow(b * b % m, n / 2)) % m == (y * pow(b, n)) % m,
        n % 2 == 0 ==> (y * pow(b * b % m, n / 2)) % m == (y * pow(b, n)) % m,
{
    let k = n / 2;
    lemma_square_is_pow2(b);
    lemma_pow_multiplies(b, 2, k);
    // pow(b * b, k) == pow(b, 2 * k)
    lemma_pow_mod_noop(b * b, k, m);
    let p = pow(b * b, k);
    let pm = pow(b * b % m, k);
    // pm % m == p % m
    if n % 2 == 1 {
        assert(n == 2 * k + 1);
        lemma_pow_adds(b, 2 * k, 1);
        lemma_pow1(b);
        // pow(b, n) == pow(b, 2k) * b == p * b
        assert(pow(b, n) == p * b);
        lemma_mul_mod_noop_left(y * b, pm, m);
        lemma_mul_mod_noop_right(y * b % m, pm, m);
        lemma_mul_mod_noop_right(y * b % m, p, m);
        lemma_mul_mod_noop_left(y * b, p, m);
        // ((y*b%m) * pm) % m == ((y*b%m) * (pm%m)) % m == ((y*b%m) * (p%m)) % m == ((y*b%m) * p) % m == (y*b*p) % m
        lemma_mul_is_associative(y, b, p);
        lemma_mul_is_associative(y, p, b);
        lemma_mul_is_commutative(b, p);
    } else {
        assert(n == 2 * k);
        lemma_mul_mod_noop_right(y, pm, m);
        lemma_mul_mod_noop_right(y, p, m);
    }
}

} // verus!

verus! {

/// Reduction of a value within one modulus of the range `0..m`.
pub proof fn lemma_mod_near(s: int, m: int)
    requires
        m > 0,
        -m <= s < 2 * m,
    ensures
        s % m == if s < 0 {
            s + m
        } else if s < m {
            s
        } else {
            s - m
        },
{
    lemma_fundamental_div_mod(s, m);
    let q = s / m;
    let r = s % m;
    assert(0 <= r < m);
    assert(-1 <= q <= 1) by (nonlinear_arith)
        requires
            s == m * q + r,
            0 <= r < m,
            -m <= s < 2 * m,
            m > 0,
    ;
    if q == -1 {
        assert(m * q == -m) by (nonlinear_arith)
            requires q == -1;
    } else if q == 0 {
        assert(m * q == 0) by (nonlinear_arith)
            requires q == 0;
    } else {
        assert(m * q == m) by (nonlinear_arith)
            requires q == 1;
    }
}

} // verus!

verus! {

/// The Euclidean remainder of `-y` from that of `y`.
pub proof fn lemma_neg_mod(y: int, m: int)
    requires
        y >= 0,
        m > 0,
    ensures
        (-y) % m == if y % m == 0 {
            0
        } else {
            m - y % m
        },
{
    lemma_fundamental_div_mod(y, m);
    let q = y / m;
    let t = y % m;
    assert(-y == m * (-q - 1) + (m - t)) by (nonlinear_arith)
        requires
            y == m * q + t,
    ;
    vstd::arithmetic::div_mod::lemma_mod_multiples_vanish(-q - 1, m - t, m);
    lemma_mod_near(m - t, m);
}

/// The Euclidean remainder computed from nonnegative remainders only.
pub proof fn lemma_signed_mod(x: int, m: int)
    requires
        m > 0,
    ensures
        x >= 0 ==> x % m == x % m,
        x < 0 ==> x % m == if (-x) % m == 0 {
            0
        } else {
            m - (-x) % m
        },
{
    if x < 0 {
        lemma_neg_mod(-x, m);
    }
}

} // verus!

verus! {

/// Greatest common divisor, by Euclid's algorithm.
pub open spec fn gcd(a: nat, b: nat) -> nat
    decreases b,
{
    if b == 0 {
        a
    } else {
        gcd(b, a % b)
    }
}

/// The Bezout coefficients `(x, y)` of the extended Euclidean algorithm.
pub open spec fn ext_gcd(a: nat, b: nat) -> (int, int)
    decreases b,
{
    if b == 0 {
        (1, 0)
    } else {
        let (x, y) = ext_gcd(b, a % b);
        (y, x - (a / b) as int * y)
    }
}

/// Bezout's identity for [`ext_gcd`], and bounds on its coefficients.
pub proof fn lemma_ext_gcd(a: nat, b: nat)
    ensures
        a * ext_gcd(a, b).0 + b * ext_gcd(a, b).1 == gcd(a, b),
        b == 0 ==> ext_gcd(a, b) == (1int, 0int),
        b > 0 ==> -b <= ext_gcd(a, b).0 <= b,
        b > 0 ==> -(if a > 1 { a as int } else { 1 }) <= ext_gcd(a, b).1 <= (if a > 1 {
            a as int
        } else {
            1
        }),
    decreases b,
{
    if b > 0 {
        let r = a % b;
        let q = a / b;
        lemma_ext_gcd(b, r);
        let (x, y) = ext_gcd(b, r);
        lemma_fundamental_div_mod(a as int, b as int);
        assert(a == b * q + r);
        assert(a * y + b * (x - q * y) == b * x + r * y) by (nonlinear_arith)
            requires
                a == b * q + r,
        ;
        if r == 0 {
            assert(ext_gcd(b, r) == (1int, 0int));
            assert(q * y == 0) by (nonlinear_arith)
                requires
                    y == 0,
            ;
        } else {
            assert(-(q * b) <= q * y <= q * b) by (nonlinear_arith)
                requires
                    -b <= y <= b,
                    q >= 0,
            ;
            assert(q * b + r == a) by (nonlinear_arith)
                requires
                    a == b * q + r,
            ;
        }
    }
}

} // verus!

verus! {

pub proof fn lemma_usize_shl1(x: usize)
    requires
        x <= usize::MAX / 2,
    ensures
        x << 1 == 2 * x,
{
    vstd::arithmetic::power2::lemma2_to64();
    vstd::bits::lemma_usize_shl_is_mul(x, 1);
}

} // verus!

verus! {

/// The residues modulo `r` form a commutative ring under `(x + y) % r` and `(x * y) % r`.
pub proof fn lemma_residue_ring(x: int, y: int, z: int, r: int)
    requires
        r > 1,
    ensures
        (x + y) % r == (y + x) % r,
        ((x + y) % r + z) % r == (x + (y + z) % r) % r,
        0 <= x < r ==> (0 + x) % r == x,
        ((x * y) % r * z) % r == (x * ((y * z) % r)) % r,
        0 <= x < r ==> (1 * x) % r == x,
        0 <= x < r ==> (x * 1) % r == x,
        (0 * x) % r == 0,
        (x * 0) % r == 0,
        (x * ((y + z) % r)) % r == ((x * y) % r + (x * z) % r) % r,
        (((x + y) % r) * z) % r == ((x * z) % r + (y * z) % r) % r,
{
    if 0 <= x < r {
        lemma_small_mod(x as nat, r as nat);
    }
    lemma_small_mod(0, r as nat);
    // additive associativity: both sides are (x + y + z) % r
    lemma_add_mod_noop(x + y, z, r);
    lemma_add_mod_noop((x + y) % r, z, r);
    lemma_mod_twice(x + y, r);
    lemma_add_mod_noop_right(x, y + z, r);
    assert((x + y) + z == x + (y + z));
    // multiplicative associativity: both sides are (x * y * z) % r
    lemma_mul_mod_noop_left(x * y, z, r);
    lemma_mul_mod_noop_right(x, y * z, r);
    lemma_mul_is_associative(x, y, z);
    // distributivity
    lemma_mul_mod_noop_right(x, y + z, r);
    lemma_mul_is_distributive_add(x, y, z);
    lemma_add_mod_noop(x * y, x * z, r);
    lemma_mul_mod_noop_left(x + y, z, r);
    lemma_mul_is_distributive_add(z, x, y);
    lemma_mul_is_commutative(x + y, z);
    lemma_mul_is_commutative(x, z);
    lemma_mul_is_commutative(y, z);
    lemma_add_mod_noop(x * z, y * z, r);
}

/// Two integers of a window of width `r` with one residue modulo `r` are equal.
pub proof fn lemma_residue_injective(x: int, y: int, lo: int, r: int)
    requires
        r > 0,
        lo <= x < lo + r,
        lo <= y < lo + r,
        x % r == y % r,
    ensures
        x == y,
{
    lemma_fundamental_div_mod(x, r);
    lemma_fundamental_div_mod(y, r);
    let qx = x / r;
    let qy = y / r;
    assert(r * qx - r * qy == x - y);
    assert(r * (qx - qy) == x - y) by (nonlinear_arith)
        requires r * qx - r * qy == x - y;
    if qx > qy {
        assert(r * (qx - qy) >= r) by (nonlinear_arith)
            requires qx > qy, r > 0;
    } else if qx < qy {
        assert(r * (qy - qx) >= r) by (nonlinear_arith)
            requires qx < qy, r > 0;
        assert(r * (qx - qy) == -(r * (qy - qx))) by (nonlinear_arith);
    }
}

/// A value moved by one modulus keeps its residue.
pub proof fn lemma_residue_shift(x: int, r: int)
    requires
        r > 0,
    ensures
        (x + r) % r == x % r,
        (x - r) % r == x % r,
{
    lemma_mod_add_multiples_vanish(x, r);
    lemma_mod_sub_multiples_vanish(x, r);
    assert(r + x == x + r);
    assert(-r + x == x - r);
}

} // verus!

verus! {

/// `gcd(a, b)` divides `a` and `b`, and is zero only for `a == b == 0`.
pub proof fn lemma_gcd_divides(a: nat, b: nat)
    ensures
        gcd(a, b) == 0 <==> (a == 0 && b == 0),
        gcd(a, b) > 0 ==> a % gcd(a, b) == 0 && b % gcd(a, b) == 0,
        gcd(a, b) <= a || gcd(a, b) <= b,
    decreases b,
{
    if b > 0 {
        let r = a % b;
        lemma_gcd_divides(b, r);
        let g = gcd(b, r);
        lemma_fundamental_div_mod(a as int, b as int);
        if g > 0 {
            // a == b * (a / b) + r with g dividing b and r
            let qb = b / g;
            let qr = r / g;
            lemma_fundamental_div_mod(b as int, g as int);
            lemma_fundamental_div_mod(r as int, g as int);
            assert(a == g * (qb * (a / b) + qr)) by (nonlinear_arith)
                requires
                    a == b * (a / b) + r,
                    b == g * qb + 0,
                    r == g * qr + 0,
            ;
            vstd::arithmetic::div_mod::lemma_mod_multiples_basic((qb * (a / b) + qr) as int, g as int);
            assert(g * (qb * (a / b) + qr) == (qb * (a / b) + qr) * g) by (nonlinear_arith);
        }
        if g > b {
            assert(g <= r);
        }
    }
}

} // verus!

verus! {

/// `d` is a positive common divisor of `a` and `b`.
pub open spec fn common_divisor(d: nat, a: nat, b: nat) -> bool {
    d > 0 && a % d == 0 && b % d == 0
}

/// A multiple of `d` is `d` times its quotient, and every `d * k` is a multiple of `d`.
pub(crate) proof fn lemma_multiple(a: int, d: int, k: int)
    requires
        d > 0,
    ensures
        a % d == 0 ==> a == d * (a / d),
        (d * k) % d == 0,
{
    lemma_fundamental_div_mod(a, d);
    vstd::arithmetic::div_mod::lemma_mod_multiples_basic(k, d);
    lemma_mul_is_commutative(k, d);
}

/// Sums and differences of multiples of `d` are multiples of `d`.
proof fn lemma_multiple_add(a: int, b: int, d: int)
    requires
        d > 0,
        a % d == 0,
        b % d == 0,
    ensures
        (a + b) % d == 0,
        (b - a) % d == 0,
{
    lemma_multiple(a, d, 0);
    lemma_multiple(b, d, 0);
    let p = a / d;
    let q = b / d;
    assert(a + b == d * (p + q)) by (nonlinear_arith)
        requires
            a == d * p,
            b == d * q,
    ;
    assert(b - a == d * (q - p)) by (nonlinear_arith)
        requires
            a == d * p,
            b == d * q,
    ;
    lemma_multiple(0, d, p + q);
    lemma_multiple(0, d, q - p);
}

/// Every common divisor of `a` and `b` divides `gcd(a, b)`.
pub proof fn lemma_common_divides_gcd(a: nat, b: nat, d: nat)
    requires
        common_divisor(d, a, b),
    ensures
        gcd(a, b) % d == 0,
{
    lemma_ext_gcd(a, b);
    let (x, y) = ext_gcd(a, b);
    lemma_multiple(a as int, d as int, 0);
    lemma_multiple(b as int, d as int, 0);
    let p = a as int / d as int;
    let q = b as int / d as int;
    assert(a * x + b * y == d * (p * x + q * y)) by (nonlinear_arith)
        requires
            a == d * p,
            b == d * q,
    ;
    lemma_multiple(0, d as int, p * x + q * y);
}

/// Two positive numbers that divide each other are equal.
proof fn lemma_mutual_divides(x: nat, y: nat)
    requires
        x > 0,
        y > 0,
        x % y == 0,
        y % x == 0,
    ensures
        x == y,
{
    lemma_multiple(x as int, y as int, 0);
    lemma_multiple(y as int, x as int, 0);
    let p = x as int / y as int;
    let q = y as int / x as int;
    assert(x >= y) by (nonlinear_arith)
        requires
            x == y * p,
            x > 0,
            y > 0,
    ;
    assert(y >= x) by (nonlinear_arith)
        requires
            y == x * q,
            x > 0,
            y > 0,
    ;
}

/// Only zero is a multiple of every positive number.
proof fn lemma_all_divide_zero(a: nat, b: nat, c: nat, e: nat)
    requires
        forall|d: nat| #[trigger] common_divisor(d, a, b) == common_divisor(d, c, e),
        a == 0,
        b == 0,
    ensures
        c == 0,
        e == 0,
{
    assert(common_divisor((c + 1) as nat, a, b));
    assert(common_divisor((e + 1) as nat, a, b));
    lemma_small_mod(c, (c + 1) as nat);
    lemma_small_mod(e, (e + 1) as nat);
}

/// Pairs with the same common divisors have the same gcd.
pub proof fn lemma_gcd_same_divisors(a: nat, b: nat, c: nat, e: nat)
    requires
        forall|d: nat| #[trigger] common_divisor(d, a, b) == common_divisor(d, c, e),
    ensures
        gcd(a, b) == gcd(c, e),
{
    let g1 = gcd(a, b);
    let g2 = gcd(c, e);
    lemma_gcd_divides(a, b);
    lemma_gcd_divides(c, e);
    assert forall|d: nat| #[trigger] common_divisor(d, c, e) == common_divisor(d, a, b) by {
        assert(common_divisor(d, a, b) == common_divisor(d, c, e));
    }
    if g1 == 0 {
        lemma_all_divide_zero(a, b, c, e);
    } else if g2 == 0 {
        lemma_all_divide_zero(c, e, a, b);
    } else {
        assert(common_divisor(g1, a, b));
        assert(common_divisor(g1, c, e));
        lemma_common_divides_gcd(c, e, g1);
        assert(common_divisor(g2, c, e));
        assert(common_divisor(g2, a, b));
        lemma_common_divides_gcd(a, b, g2);
        lemma_mutual_divides(g1, g2);
    }
}

/// `gcd` is symmetric.
pub proof fn lemma_gcd_comm(a: nat, b: nat)
    ensures
        gcd(a, b) == gcd(b, a),
{
    assert forall|d: nat| #[trigger] common_divisor(d, a, b) == common_divisor(d, b, a) by {}
    lemma_gcd_same_divisors(a, b, b, a);
}

/// Subtracting the smaller argument from the larger keeps the gcd.
pub proof fn lemma_gcd_sub(a: nat, b: nat)
    requires
        a <= b,
    ensures
        gcd(a, b) == gcd(a, (b - a) as nat),
{
    let c = (b - a) as nat;
    assert forall|d: nat| #[trigger] common_divisor(d, a, b) == common_divisor(d, a, c) by {
        if common_divisor(d, a, b) {
            lemma_multiple_add(a as int, b as int, d as int);
        }
        if common_divisor(d, a, c) {
            lemma_multiple_add(a as int, c as int, d as int);
        }
    }
    lemma_gcd_same_divisors(a, b, a, c);
}

/// For odd `a`, halving an even second argument keeps the gcd.
pub proof fn lemma_gcd_odd_half(a: nat, b: nat)
    requires
        a % 2 == 1,
    ensures
        gcd(a, 2 * b) == gcd(a, b),
{
    let b2 = (2 * b) as nat;
    assert forall|d: nat| #[trigger] common_divisor(d, a, b2) == common_divisor(d, a, b) by {
        if common_divisor(d, a, b) {
            lemma_multiple(b as int, d as int, 0);
            let q = b as int / d as int;
            assert(b2 == d * (2 * q)) by (nonlinear_arith)
                requires
                    b == d * q,
                    b2 == 2 * b,
            ;
            lemma_multiple(0, d as int, 2 * q);
        }
        if common_divisor(d, a, b2) {
            lemma_multiple(a as int, d as int, 0);
            lemma_multiple(b2 as int, d as int, 0);
            let p = a as int / d as int;
            let m = b2 as int / d as int;
            lemma_fundamental_div_mod(d as int, 2);
            lemma_fundamental_div_mod(m, 2);
            lemma_fundamental_div_mod(a as int, 2);
            let s = d as int / 2;
            let t = m / 2;
            // `d` is odd, as it divides the odd `a`
            if d as int % 2 == 0 {
                assert(a == 2 * (s * p)) by (nonlinear_arith)
                    requires
                        a == d * p,
                        d == 2 * s + 0,
                ;
                lemma_multiple(0, 2, s * p);
                lemma_mul_is_commutative(2, s * p);
            }
            // so the cofactor `m` of `2 * b` is even
            if m % 2 == 1 {
                assert(b2 == 2 * (2 * s * t + s + t) + 1) by (nonlinear_arith)
                    requires
                        b2 == d * m,
                        d == 2 * s + 1,
                        m == 2 * t + 1,
                ;
                assert(false) by (nonlinear_arith)
                    requires
                        b2 == 2 * (2 * s * t + s + t) + 1,
                        b2 == 2 * b,
                ;
            }
            assert(b == d * t) by (nonlinear_arith)
                requires
                    b2 == d * m,
                    m == 2 * t + 0,
                    b2 == 2 * b,
            ;
            lemma_multiple(0, d as int, t);
        }
    }
    lemma_gcd_same_divisors(a, b2, a, b);
}

/// For odd `a`, factors of two in the second argument do not change the gcd.
pub proof fn lemma_gcd_odd_pow2(a: nat, k: nat, b: nat)
    requires
        a % 2 == 1,
    ensures
        gcd(a, pow2(k) * b) == gcd(a, b),
    decreases k,
{
    if k == 0 {
        vstd::arithmetic::power2::lemma2_to64();
        assert(pow2(0) * b == b);
    } else {
        vstd::arithmetic::power2::lemma_pow2_unfold(k);
        lemma_gcd_odd_pow2(a, (k - 1) as nat, b);
        let c = pow2((k - 1) as nat) * b;
        assert(pow2(k) * b == 2 * c) by (nonlinear_arith)
            requires
                pow2(k) == 2 * pow2((k - 1) as nat),
                c == pow2((k - 1) as nat) * b,
        ;
        lemma_gcd_odd_half(a, c);
    }
}

/// `(c * a) % (c * b) == c * (a % b)`.
proof fn lemma_mod_scale(a: nat, b: nat, c: nat)
    requires
        b > 0,
        c > 0,
    ensures
        (c * a) % (c * b) == c * (a % b),
{
    lemma_fundamental_div_mod(a as int, b as int);
    let q = a as int / b as int;
    let r = a as int % b as int;
    assert(c * a == q * (c * b) + c * r && 0 <= c * r < c * b) by (nonlinear_arith)
        requires
            a == b * q + r,
            0 <= r < b,
            c > 0,
    ;
    vstd::arithmetic::div_mod::lemma_fundamental_div_mod_converse((c * a) as int, (c * b) as int, q, c * r);
}

/// Scaling both arguments scales the gcd.
pub proof fn lemma_gcd_scale(a: nat, b: nat, c: nat)
    requires
        c > 0,
    ensures
        gcd(c * a, c * b) == c * gcd(a, b),
    decreases b,
{
    if b == 0 {
        assert(c * b == 0) by (nonlinear_arith)
            requires
                b == 0,
        ;
    } else {
        assert(c * b > 0) by (nonlinear_arith)
            requires
                b > 0,
                c > 0,
        ;
        lemma_mod_scale(a, b, c);
        lemma_gcd_scale(b, a % b, c);
        assert(gcd(c * a, c * b) == gcd(c * b, (c * a) % (c * b)));
    }
}

proof fn lemma_gcd_pow2_ordered(p: nat, x: nat, q: nat, y: nat)
    requires
        x % 2 == 1,
        p <= q,
    ensures
        gcd(pow2(p) * x, pow2(q) * y) == pow2(p) * gcd(x, y),
{
    vstd::arithmetic::power2::lemma_pow2_pos(p);
    let k = (q - p) as nat;
    vstd::arithmetic::power2::lemma_pow2_adds(p, k);
    let c = pow2(p);
    let yy = pow2(k) * y;
    assert(pow2(q) * y == c * yy) by (nonlinear_arith)
        requires
            pow2(q) == c * pow2(k),
            yy == pow2(k) * y,
    ;
    lemma_gcd_scale(x, yy, c);
    lemma_gcd_odd_pow2(x, k, y);
}

/// The gcd of `2^p * x` and `2^q * y`, for odd `x` and `y`, is `2^min(p, q) * gcd(x, y)`.
pub proof fn lemma_gcd_pow2_parts(p: nat, x: nat, q: nat, y: nat)
    requires
        x % 2 == 1,
        y % 2 == 1,
    ensures
        gcd(pow2(p) * x, pow2(q) * y) == pow2(if p <= q { p } else { q }) * gcd(x, y),
{
    if p <= q {
        lemma_gcd_pow2_ordered(p, x, q, y);
    } else {
        lemma_gcd_pow2_ordered(q, y, p, x);
        lemma_gcd_comm(pow2(p) * x, pow2(q) * y);
        lemma_gcd_comm(x, y);
    }
}

} // verus!
