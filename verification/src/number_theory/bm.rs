use vstd::prelude::*;
use crate::num_lemmas::{gcd, ext_gcd, lemma_ext_gcd, lemma_gcd_divides};
use crate::number_theory::number_theory::{is_prime, divides};
use vstd::arithmetic::div_mod::{lemma_fundamental_div_mod, lemma_mod_multiples_basic, lemma_add_mod_noop_right, lemma_small_mod};

verus! {

/// `(g, x, y)` with `g == gcd(a, b)` and `a * x + b * y == g`, by the
/// extended Euclidean algorithm.
pub fn extgcd(a: i64, b: i64) -> (r: (i64, i64, i64))
    requires
        a >= 0,
        b >= 0,
    ensures
        r.0 == gcd(a as nat, b as nat),
        (r.1 as int, r.2 as int) == ext_gcd(a as nat, b as nat),
        a * r.1 + b * r.2 == r.0,
    decreases b,
{
    proof {
        lemma_ext_gcd(a as nat, b as nat);
    }
    if b != 0 {
        let (g, y, x) = extgcd(b, a % b);
        proof {
            lemma_ext_gcd(b as nat, (a % b) as nat);
            assert(-b <= x <= b);
            vstd::arithmetic::div_mod::lemma_fundamental_div_mod(a as int, b as int);
            assert(-(a as int) <= (a / b) * x <= a) by (nonlinear_arith)
                requires
                    -b <= x <= b,
                    a / b >= 0,
                    a == b * (a / b) + a % b,
                    a % b >= 0;
        }
        (g, x, y - a / b * x)
    } else {
        (a, 1, 0)
    }
}

/// The coefficient `x` of [`extgcd`]: `x * a` is congruent to `gcd(a, m)` modulo `m`,
/// so for `gcd(a, m) == 1` it is an inverse of `a`.
pub fn mod_inv(a: i64, m: i64) -> (x: i64)
    requires
        a >= 0,
        m >= 0,
    ensures
        x as int == ext_gcd(a as nat, m as nat).0,
        m > 0 ==> (a * x) % (m as int) == gcd(a as nat, m as nat) as int % (m as int),
{
    let r = extgcd(a, m);
    proof {
        if m > 0 {
            vstd::arithmetic::div_mod::lemma_mod_multiples_vanish(r.2 as int, a * r.1, m as int);
            assert(a * r.1 + m * r.2 == m * r.2 + a * r.1);
        }
    }
    r.1
}

/// Every coefficient after the leading 1 is a residue modulo `m`.
pub open spec fn is_monic_reduced(c: Seq<i64>, m: int) -> bool {
    &&& c.len() >= 1
    &&& c[0] == 1
    &&& forall|j: int| 1 <= j < c.len() ==> 0 <= #[trigger] c[j] < m
}

/// The first `k` terms of the recurrence with coefficients `c` at position `i` of `a`:
/// the sum of `c[j] * a[i - j]` over `j < k` with `j <= i` and `j < c.len()`.
pub open spec fn recurrence_prefix(c: Seq<i64>, a: Seq<i64>, i: int, k: int) -> int
    decreases k,
{
    if k <= 0 {
        0
    } else {
        recurrence_prefix(c, a, i, k - 1) + if k - 1 <= i && k - 1 < c.len() {
            c[k - 1] * a[i - (k - 1)]
        } else {
            0
        }
    }
}

/// The value at position `i` of the recurrence with connection polynomial `c`:
/// `sum_j c[j] * a[i - j]`. It is zero modulo `m` exactly when `c` predicts `a[i]`
/// from the terms before it.
pub open spec fn recurrence_at(c: Seq<i64>, a: Seq<i64>, i: int) -> int {
    recurrence_prefix(c, a, i, c.len() as int)
}

/// The first `k` terms of the recurrence with coefficients `p` shifted right by `sh`,
/// at position `i` of `a`.
spec fn shifted_prefix(p: Seq<i64>, a: Seq<i64>, i: int, sh: int, k: int) -> int
    decreases k,
{
    if k <= 0 {
        0
    } else {
        shifted_prefix(p, a, i, sh, k - 1) + if sh <= k - 1 <= i && k - 1 - sh < p.len() {
            p[k - 1 - sh] * a[i - (k - 1)]
        } else {
            0
        }
    }
}

proof fn lemma_shifted_prefix(p: Seq<i64>, a: Seq<i64>, i: int, sh: int, k: int)
    requires
        0 <= sh <= k,
    ensures
        shifted_prefix(p, a, i, sh, k) == recurrence_prefix(p, a, i - sh, k - sh),
    decreases k,
{
    if k > sh {
        lemma_shifted_prefix(p, a, i, sh, k - 1);
    } else {
        lemma_shifted_zero(p, a, i, sh, k);
    }
}

proof fn lemma_shifted_zero(p: Seq<i64>, a: Seq<i64>, i: int, sh: int, k: int)
    requires
        k <= sh,
    ensures
        shifted_prefix(p, a, i, sh, k) == 0,
    decreases k,
{
    if k > 0 {
        lemma_shifted_zero(p, a, i, sh, k - 1);
    }
}

/// Terms past the end of `c` add nothing.
proof fn lemma_prefix_past_end(c: Seq<i64>, a: Seq<i64>, i: int, k: int)
    requires
        k >= c.len(),
    ensures
        recurrence_prefix(c, a, i, k) == recurrence_at(c, a, i),
    decreases k,
{
    if k > c.len() {
        lemma_prefix_past_end(c, a, i, k - 1);
    }
}

/// Padding `c` with zeros keeps the recurrence's value.
proof fn lemma_prefix_padded(c1: Seq<i64>, c: Seq<i64>, a: Seq<i64>, i: int, k: int)
    requires
        c.len() <= c1.len(),
        0 <= k <= c1.len(),
        forall|t: int| 0 <= t < c.len() ==> #[trigger] c1[t] == c[t],
        forall|t: int| c.len() <= t < c1.len() ==> #[trigger] c1[t] == 0,
    ensures
        recurrence_prefix(c1, a, i, k) == recurrence_prefix(c, a, i, k),
    decreases k,
{
    if k > 0 {
        lemma_prefix_padded(c1, c, a, i, k - 1);
    }
}

proof fn lemma_multiple_mod(x: int, q: int, m: int)
    requires
        m > 0,
        x == m * q,
    ensures
        x % m == 0,
{
    lemma_mod_multiples_basic(q, m);
    assert(q * m == m * q) by (nonlinear_arith);
}

/// Subtracting `e` times `p` shifted by `sh` from `c0`, modulo `m`, subtracts
/// `e` times the shifted sum from the recurrence's value.
proof fn lemma_update_prefix(c1: Seq<i64>, c0: Seq<i64>, p: Seq<i64>, a: Seq<i64>, i: int, sh: int, e: int, m: int, k: int)
    requires
        m > 0,
        c1.len() == c0.len(),
        0 <= k <= c0.len(),
        forall|t: int| 0 <= t < c0.len() ==> (#[trigger] c1[t] - c0[t] + if sh <= t < sh + p.len() {
            e * p[t - sh]
        } else {
            0
        }) % m == 0,
    ensures
        (recurrence_prefix(c1, a, i, k) - recurrence_prefix(c0, a, i, k) + e * shifted_prefix(p, a, i, sh, k)) % m == 0,
    decreases k,
{
    if k == 0 {
        lemma_multiple_mod(0, 0, m);
    } else {
        lemma_update_prefix(c1, c0, p, a, i, sh, e, m, k - 1);
        let t = k - 1;
        let x = recurrence_prefix(c1, a, i, t) - recurrence_prefix(c0, a, i, t) + e * shifted_prefix(p, a, i, sh, t);
        let w: int = if sh <= t < sh + p.len() { e * p[t - sh] } else { 0 };
        let y = c1[t] - c0[t] + w;
        assert(y % m == 0);
        lemma_fundamental_div_mod(x, m);
        lemma_fundamental_div_mod(y, m);
        let qx = x / m;
        let qy = y / m;
        if t <= i {
            let at = a[i - t];
            let sterm: int = if sh <= t && t - sh < p.len() { p[t - sh] * at } else { 0 };
            assert(e * sterm == w * at) by (nonlinear_arith)
                requires
                    sterm == (if sh <= t && t - sh < p.len() { p[t - sh] * at } else { 0 }),
                    w == (if sh <= t < sh + p.len() { e * p[t - sh] } else { 0 }),
            ;
            assert(e * (shifted_prefix(p, a, i, sh, t) + sterm) == e * shifted_prefix(p, a, i, sh, t) + e * sterm) by (nonlinear_arith);
            assert(x + c1[t] * at - c0[t] * at + w * at == m * (qx + qy * at)) by (nonlinear_arith)
                requires
                    x == m * qx,
                    y == m * qy,
                    y == c1[t] - c0[t] + w,
            ;
            lemma_multiple_mod(x + c1[t] * at - c0[t] * at + w * at, qx + qy * at, m);
        } else {
            assert(e * shifted_prefix(p, a, i, sh, k) == e * shifted_prefix(p, a, i, sh, t));
        }
    }
}

/// Two numbers with the same residue differ by a multiple of `m`.
proof fn lemma_same_mod_diff(x: int, y: int, m: int)
    requires
        m > 0,
        x % m == y % m,
    ensures
        (x - y) % m == 0,
{
    lemma_fundamental_div_mod(x, m);
    lemma_fundamental_div_mod(y, m);
    let qx = x / m;
    let qy = y / m;
    assert(x - y == m * (qx - qy)) by (nonlinear_arith)
        requires
            x == m * qx + x % m,
            y == m * qy + y % m,
            x % m == y % m,
    ;
    lemma_multiple_mod(x - y, qx - qy, m);
}

/// The sum of two multiples of `m` is a multiple of `m`.
proof fn lemma_sum_multiples(x: int, y: int, m: int)
    requires
        m > 0,
        x % m == 0,
        y % m == 0,
    ensures
        (x + y) % m == 0,
{
    lemma_fundamental_div_mod(x, m);
    lemma_fundamental_div_mod(y, m);
    let qx = x / m;
    let qy = y / m;
    assert(x + y == m * (qx + qy)) by (nonlinear_arith)
        requires
            x == m * qx,
            y == m * qy,
    ;
    lemma_multiple_mod(x + y, qx + qy, m);
}

/// With `r1 == d`, `s == pd` and `e == d / pd` modulo `m`, the value `r2 == r1 - e * s`
/// modulo `m` is zero.
proof fn lemma_cancel(r2: int, r1: int, s: int, e: int, d: int, pd: int, inv: int, m: int)
    requires
        m > 0,
        0 <= d < m,
        (r2 - r1 + e * s) % m == 0,
        r1 % m == d,
        s % m == pd,
        e == (d * inv) % m,
        (pd * inv) % m == 1,
    ensures
        r2 % m == 0,
{
    vstd::arithmetic::div_mod::lemma_mul_mod_noop_right(e, s, m);
    vstd::arithmetic::div_mod::lemma_mul_mod_noop_left(d * inv, pd, m);
    assert(d * inv * pd == d * (pd * inv)) by (nonlinear_arith);
    vstd::arithmetic::div_mod::lemma_mul_mod_noop_right(d, pd * inv, m);
    lemma_small_mod(d as nat, m as nat);
    assert((e * s) % m == d);
    lemma_same_mod_diff(r1, e * s, m);
    lemma_sum_multiples(r2 - r1 + e * s, r1 - e * s, m);
}

/// Every residue `0 < x < p` is coprime to the prime `p`.
proof fn lemma_coprime_prime(x: int, p: int)
    requires
        is_prime(p),
        0 < x < p,
    ensures
        gcd(x as nat, p as nat) == 1,
{
    lemma_gcd_divides(x as nat, p as nat);
    let g = gcd(x as nat, p as nat) as int;
    if g >= 2 {
        if g > x {
            lemma_small_mod(x as nat, g as nat);
        }
        assert(divides(g, p));
    }
}

/// Resizes `c` to `len`, padding with zeros.
fn resize_zero(c: &mut Vec<i64>, len: usize)
    ensures
        final(c)@.len() == len,
        forall|j: int| 0 <= j < len && j < old(c)@.len() ==> #[trigger] final(c)@[j] == old(c)@[j],
        forall|j: int| old(c)@.len() <= j < len ==> #[trigger] final(c)@[j] == 0,
{
    if c.len() > len {
        while c.len() > len
            invariant
                c@.len() >= len,
                c@.len() <= old(c)@.len(),
                forall|j: int| 0 <= j < c@.len() ==> #[trigger] c@[j] == old(c)@[j],
            decreases c@.len(),
        {
            c.pop();
        }
    } else {
        while c.len() < len
            invariant
                old(c)@.len() <= c@.len() <= len,
                forall|j: int| 0 <= j < old(c)@.len() ==> #[trigger] c@[j] == old(c)@[j],
                forall|j: int| old(c)@.len() <= j < c@.len() ==> #[trigger] c@[j] == 0,
            decreases len - c@.len(),
        {
            c.push(0);
        }
    }
}

/// Replacing `x` by `x - (ep mod m)`, brought back into range, subtracts `ep` modulo `m`.
proof fn lemma_step_congruence(x: int, y: int, r: int, ep: int, m: int)
    requires
        m > 0,
        ep >= 0,
        r == ep % m,
        y == x - r || y == x - r + m,
    ensures
        (y - x + ep) % m == 0,
{
    lemma_fundamental_div_mod(ep, m);
    let q = ep / m;
    if y == x - r {
        lemma_multiple_mod(y - x + ep, q, m);
    } else {
        assert(y - x + ep == m * (q + 1)) by (nonlinear_arith)
            requires
                y == x - r + m,
                ep == m * q + r,
        ;
        lemma_multiple_mod(y - x + ep, q + 1, m);
    }
}

/// The step at the last term leaves a polynomial that predicts it: the update
/// subtracts `e` times the earlier polynomial `p`, whose discrepancy `pd` at
/// `i - sh` cancels `d`.
proof fn lemma_last_step(c2: Seq<i64>, c1: Seq<i64>, c0: Seq<i64>, p: Seq<i64>, a: Seq<i64>, i: int, sh: int, j: int, e: int, d: int, pd: int, inv: int, inv_r: int, m: int, small: bool)
    requires
        is_prime(m),
        0 < d < m,
        0 < pd < m,
        1 <= sh,
        c0.len() >= 1,
        p.len() >= 1,
        c0.len() <= i + 1,
        sh + c0.len() + p.len() == i + 3,
        i - sh >= 0 ==> recurrence_at(p, a, i - sh) % m == pd,
        recurrence_at(c0, a, i) % m == d,
        small ==> 2 * (c0.len() - 1) <= i + 1,
        !small ==> 2 * (c0.len() - 1) > i + 1,
        small ==> c1.len() == i + 3 - c0.len(),
        small ==> forall|t: int| 0 <= t < c0.len() && t < c1.len() ==> #[trigger] c1[t] == c0[t],
        small ==> forall|t: int| c0.len() <= t < c1.len() ==> #[trigger] c1[t] == 0,
        !small ==> c1 == c0,
        c2.len() == c1.len(),
        c2.len() <= i + 1,
        0 <= j <= p.len(),
        !(j < p.len() && sh + j < c1.len()),
        forall|t: int| 0 <= t < c1.len() && !(sh <= t < sh + j) ==> #[trigger] c2[t] == c1[t],
        forall|t: int| 0 <= t < c1.len() && sh <= t < sh + j ==> (#[trigger] c2[t] - c1[t] + e * p[t - sh]) % m == 0,
        (pd * inv) % m == gcd(pd as nat, m as nat) as int % m,
        0 <= inv_r < m,
        (inv_r - inv) % m == 0,
        e == (d * inv_r) % m,
    ensures
        recurrence_at(c2, a, i) % m == 0,
{
    assert(i - sh >= 0);
    assert(sh + p.len() <= c1.len());
    assert(j == p.len());
    assert forall|t: int| 0 <= t < c1.len() implies (#[trigger] c2[t] - c1[t] + if sh <= t < sh + p.len() {
        e * p[t - sh]
    } else {
        0
    }) % m == 0 by {
        if !(sh <= t < sh + j) {
            assert(c2[t] == c1[t]);
            lemma_small_mod(0, m as nat);
        }
    }
    lemma_update_prefix(c2, c1, p, a, i, sh, e, m, c1.len() as int);
    lemma_shifted_prefix(p, a, i, sh, c1.len() as int);
    lemma_prefix_past_end(p, a, i - sh, c1.len() - sh);
    if small {
        lemma_prefix_padded(c1, c0, a, i, c1.len() as int);
        lemma_prefix_past_end(c0, a, i, c1.len() as int);
    }
    lemma_coprime_prime(pd, m);
    lemma_small_mod(1, m as nat);
    vstd::arithmetic::div_mod::lemma_mul_mod_noop_right(pd, inv_r, m);
    vstd::arithmetic::div_mod::lemma_mul_mod_noop_right(pd, inv, m);
    assert(inv_r % m == inv % m) by {
        lemma_fundamental_div_mod(inv_r - inv, m);
        lemma_fundamental_div_mod(inv, m);
        lemma_small_mod(inv_r as nat, m as nat);
        let q = (inv_r - inv) / m;
        let qi = inv / m;
        assert(inv_r == m * (q + qi) + inv % m) by (nonlinear_arith)
            requires
                inv_r - inv == m * q,
                inv == m * qi + inv % m,
        ;
        vstd::arithmetic::div_mod::lemma_mod_multiples_vanish(q + qi, inv % m, m);
        lemma_small_mod((inv % m) as nat, m as nat);
    }
    assert((pd * inv_r) % m == 1);
    lemma_cancel(recurrence_at(c2, a, i), recurrence_at(c1, a, i), recurrence_at(p, a, i - sh), e, d, pd, inv_r, m);
}

/// The connection polynomial of `a` modulo the prime `m` found by the
/// Berlekamp-Massey algorithm: `c[0] == 1` and the other coefficients are residues.
///
/// Every term's discrepancy is examined, the last one included: for a prime `m`, a
/// polynomial short enough to reach back from the last term predicts it, that is
/// `sum_j c[j] * a[n - 1 - j]` is zero modulo `m`. It is that short unless every term
/// before the last is zero, and the zero sequence gives `[1]`.
///
/// A step updates only the coefficients that `c` has, and leaves its length when the
/// new length would be negative.
pub fn berlekamp_massey(a: &[i64], m: i64) -> (c: Vec<i64>)
    requires
        2 <= m <= 0x8000_0000,
        forall|i: int| 0 <= i < a@.len() ==> 0 <= #[trigger] a@[i] < m,
        a@.len() < 0x1000_0000,
    ensures
        is_monic_reduced(c@, m as int),
        is_prime(m as int) && c@.len() <= a@.len() ==> recurrence_at(c@, a@, a@.len() - 1) % (m as int) == 0,
        (forall|k: int| 0 <= k < a@.len() ==> a@[k] == 0) ==> c@ == seq![1i64],
        c@.len() <= a@.len() || forall|k: int| 0 <= k < a@.len() - 1 ==> a@[k] == 0,
{
    let n = a.len();
    let mut c: Vec<i64> = vec![1];
    let mut pc: Vec<i64> = vec![1];
    let mut tc: Vec<i64> = Vec::new();
    let mut sh: usize = 1;
    let mut pd: i64 = 1;
    let mut i: usize = 0;
    while i < n
        invariant
            n == a@.len(),
            n < 0x1000_0000,
            2 <= m <= 0x8000_0000,
            forall|k: int| 0 <= k < n ==> 0 <= #[trigger] a@[k] < m,
            i <= n,
            is_monic_reduced(c@, m as int),
            is_monic_reduced(pc@, m as int),
            c@.len() <= i + 1,
            pc@.len() <= i + 1,
            1 <= sh <= 0x4000_0000,
            0 < pd < m,
            sh + c@.len() + pc@.len() == i + 3,
            i - sh >= 0 ==> recurrence_at(pc@, a@, i - sh) % (m as int) == pd as int,
            is_prime(m as int) && i == n && 1 <= i && c@.len() <= i ==> recurrence_at(c@, a@, i - 1) % (m as int) == 0,
            c@.len() == 1 <==> forall|k: int| 0 <= k < i ==> a@[k] == 0,
            c@.len() == i + 1 && i >= 1 ==> forall|k: int| 0 <= k < i - 1 ==> a@[k] == 0,
        decreases n - i,
    {
        let mut d: i64 = a[i];
        proof {
            lemma_small_mod(a@[i as int] as nat, m as nat);
            assert(recurrence_prefix(c@, a@, i as int, 0) == 0);
            assert(recurrence_prefix(c@, a@, i as int, 1) == a@[i as int]);
        }
        let mut j: usize = 1;
        while j < c.len()
            invariant
                2 <= m <= 0x8000_0000,
                forall|k: int| 0 <= k < n ==> 0 <= #[trigger] a@[k] < m,
                n == a@.len(),
                i < n,
                is_monic_reduced(c@, m as int),
                c@.len() <= i + 1,
                1 <= j <= c@.len(),
                0 <= d < m,
                d as int == recurrence_prefix(c@, a@, i as int, j as int) % (m as int),
            decreases c@.len() - j,
        {
            let cj = c[j];
            let ak = a[i - j];
            assert(0 <= cj * ak < 0x4000_0000_0000_0000) by (nonlinear_arith)
                requires
                    0 <= cj < m,
                    0 <= ak < m,
                    m <= 0x8000_0000,
            ;
            proof {
                lemma_add_mod_noop_right(cj * ak, recurrence_prefix(c@, a@, i as int, j as int), m as int);
            }
            d = (d + cj * ak) % m;
            j += 1;
        }
        let ghost c0 = c@;
        proof {
            assert(recurrence_at(c0, a@, i as int) % (m as int) == d as int);
            if c0.len() == 1 {
                assert(d == a@[i as int]);
            }
        }
        if d == 0 {
            if sh < 0x4000_0000 {
                sh += 1;
            }
        } else {
            let small = 2 * (c.len() - 1) <= n;
            if small {
                tc = c.clone();
                proof {
                    assert(tc@ == c@);
                }
                let l = c.len() - 1;
                if l <= i + 1 {
                    resize_zero(&mut c, i + 2 - l);
                }
            }
            let ghost c1 = c@;
            let inv = mod_inv(pd, m);
            let inv_r = match inv.checked_rem_euclid(m) {
                Some(v) => v,
                None => 0,
            };
            proof {
                assert(inv_r as int == inv as int % (m as int));
                vstd::arithmetic::div_mod::lemma_mod_bound(inv as int, m as int);
                lemma_small_mod(inv_r as nat, m as nat);
                lemma_same_mod_diff(inv_r as int, inv as int, m as int);
            }
            assert(0 <= d * inv_r < 0x4000_0000_0000_0000) by (nonlinear_arith)
                requires
                    0 <= d < m,
                    0 <= inv_r < m,
                    m <= 0x8000_0000,
            ;
            let e = (d * inv_r) % m;
            let mut j: usize = 0;
            while j < pc.len() && sh + j < c.len()
                invariant
                    2 <= m <= 0x8000_0000,
                    0 <= e < m,
                    1 <= sh <= 0x4000_0000,
                    is_monic_reduced(c@, m as int),
                    is_monic_reduced(pc@, m as int),
                    c@.len() <= i + 2,
                    pc@.len() <= i + 1,
                    i < n,
                    n < 0x1000_0000,
                    j <= pc@.len(),
                    c@.len() == c1.len(),
                    forall|t: int| 0 <= t < c1.len() && !(sh <= t < sh + j) ==> #[trigger] c@[t] == c1[t],
                    forall|t: int| 0 <= t < c1.len() && sh <= t < sh + j ==> (#[trigger] c@[t] - c1[t] + e * pc@[t - sh]) % (m as int) == 0,
                decreases pc@.len() - j,
            {
                let p = pc[j];
                let x = c[sh + j];
                assert(0 <= e * p < 0x4000_0000_0000_0000) by (nonlinear_arith)
                    requires
                        0 <= e < m,
                        0 <= p < m,
                        m <= 0x8000_0000,
                ;
                let r = (e * p) % m;
                let y = if x >= r { x - r } else { x - r + m };
                proof {
                    lemma_step_congruence(x as int, y as int, r as int, e * p, m as int);
                }
                c.set(sh + j, y);
                j += 1;
            }
            proof {
                if is_prime(m as int) && i + 1 == n && c@.len() <= i + 1 {
                    lemma_last_step(c@, c1, c0, pc@, a@, i as int, sh as int, j as int, e as int, d as int, pd as int, inv as int, inv_r as int, m as int, small);
                }
            }
            if sh < 0x4000_0000 {
                sh += 1;
            }
            if small {
                std::mem::swap(&mut pc, &mut tc);
                pd = d;
                sh = 1;
            }
        }
        proof {
            if c0.len() != 1 {
                assert(!(forall|k: int| 0 <= k < i ==> a@[k] == 0));
            }
        }
        i += 1;
    }
    proof {
        if c@.len() == 1 {
            assert(c@ =~= seq![1i64]);
        }
    }
    c
}

} // verus!
