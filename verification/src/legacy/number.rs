use vstd::prelude::*;
use crate::num_lemmas::{self, ext_gcd, lemma_gcd_comm, lemma_gcd_sub, lemma_gcd_odd_half, lemma_gcd_pow2_parts, lemma_gcd_divides};
use vstd::arithmetic::power2::{pow2, lemma_pow2_unfold, lemma2_to64, lemma2_to64_rest, lemma_pow2_strictly_increases};

verus! {

/// Splits off the factors of two: `x == 2^p * odd`.
fn strip_twos(x: i64) -> (r: (i64, u32))
    requires
        x > 0,
    ensures
        r.0 > 0,
        r.0 % 2 == 1,
        r.1 < 63,
        x == pow2(r.1 as nat) * r.0,
{
    let mut y = x;
    let mut p: u32 = 0;
    proof {
        lemma2_to64();
    }
    while y % 2 == 0
        invariant
            y > 0,
            p < 63,
            x == pow2(p as nat) * y,
        decreases y,
    {
        proof {
            lemma2_to64_rest();
            lemma_pow2_unfold((p + 1) as nat);
            assert(x == pow2((p + 1) as nat) * (y / 2)) by (nonlinear_arith)
                requires
                    x == pow2(p as nat) * y,
                    pow2((p + 1) as nat) == 2 * pow2(p as nat),
                    y % 2 == 0,
            ;
            if p + 1 >= 63 {
                if p + 1 > 63 {
                    lemma_pow2_strictly_increases(63, (p + 1) as nat);
                }
                assert(pow2((p + 1) as nat) * (y / 2) >= pow2(63)) by (nonlinear_arith)
                    requires
                        pow2((p + 1) as nat) >= pow2(63),
                        y / 2 >= 1,
                ;
            }
        }
        y = y / 2;
        p += 1;
    }
    (y, p)
}

/// Greatest common divisor of two non-negative numbers, by the binary method.
pub fn gcd(x: i64, y: i64) -> (g: i64)
    requires
        x >= 0,
        y >= 0,
    ensures
        g == num_lemmas::gcd(x as nat, y as nat),
{
    if x == 0 {
        proof {
            lemma_gcd_comm(x as nat, y as nat);
        }
        return y;
    }
    if y == 0 {
        return x;
    }
    let (x1, px) = strip_twos(x);
    let (y1, py) = strip_twos(y);
    let ghost g = num_lemmas::gcd(x1 as nat, y1 as nat);
    let mut a = x1;
    let mut b = y1;
    while a != b
        invariant
            a > 0,
            b > 0,
            a % 2 == 1,
            b % 2 == 1,
            num_lemmas::gcd(a as nat, b as nat) == g,
        decreases a + b,
    {
        let ghost sum = a + b;
        if a > b {
            proof {
                lemma_gcd_comm(a as nat, b as nat);
            }
            let t = a;
            a = b;
            b = t;
        }
        proof {
            lemma_gcd_sub(a as nat, b as nat);
        }
        b = b - a;
        while b % 2 == 0
            invariant
                a > 0,
                b > 0,
                a % 2 == 1,
                num_lemmas::gcd(a as nat, b as nat) == g,
                a + b < sum,
            decreases b,
        {
            proof {
                lemma_gcd_odd_half(a as nat, (b / 2) as nat);
            }
            b = b / 2;
        }
    }
    proof {
        assert(num_lemmas::gcd(a as nat, 0) == a);
        assert((a as nat) % (a as nat) == 0) by (nonlinear_arith)
            requires
                a > 0,
        ;
        lemma_gcd_pow2_parts(px as nat, x1 as nat, py as nat, y1 as nat);
        lemma_gcd_divides(x as nat, y as nat);
    }
    let m = if px <= py { px } else { py };
    let ghost total = num_lemmas::gcd(x as nat, y as nat);
    let mut r = a;
    let mut i: u32 = 0;
    proof {
        lemma2_to64();
        assert(total == pow2(m as nat) * a);
        assert(total <= i64::MAX);
    }
    while i < m
        invariant
            i <= m,
            m < 63,
            r > 0,
            total <= i64::MAX,
            total == pow2((m - i) as nat) * r,
        decreases m - i,
    {
        proof {
            lemma_pow2_unfold((m - i) as nat);
            assert(total == pow2((m - i - 1) as nat) * (2 * r)) by (nonlinear_arith)
                requires
                    total == pow2((m - i) as nat) * r,
                    pow2((m - i) as nat) == 2 * pow2((m - i - 1) as nat),
            ;
            vstd::arithmetic::power2::lemma_pow2_pos((m - i - 1) as nat);
            assert(2 * r <= total) by (nonlinear_arith)
                requires
                    total == pow2((m - i - 1) as nat) * (2 * r),
                    pow2((m - i - 1) as nat) >= 1,
                    r > 0,
            ;
        }
        r = 2 * r;
        i += 1;
    }
    proof {
        lemma2_to64();
    }
    r
}

/// `(g, x, y)` with `g == gcd(a, b)` and `a * x + b * y == g`.
pub fn extgcd(a: i64, b: i64) -> (r: (i64, i64, i64))
    requires
        a >= 0,
        b >= 0,
    ensures
        r.0 == num_lemmas::gcd(a as nat, b as nat),
        (r.1 as int, r.2 as int) == ext_gcd(a as nat, b as nat),
        a * r.1 + b * r.2 == r.0,
{
    crate::number_theory::bm::extgcd(a, b)
}

/// The coefficient `x` of [`extgcd`], an inverse of `a` modulo `m` when they are coprime.
pub fn mod_inv(a: i64, m: i64) -> (x: i64)
    requires
        a >= 0,
        m >= 0,
    ensures
        x as int == ext_gcd(a as nat, m as nat).0,
        m > 0 ==> (a * x) % (m as int) == num_lemmas::gcd(a as nat, m as nat) as int % (m as int),
{
    crate::number_theory::bm::mod_inv(a, m)
}

} // verus!
