use vstd::prelude::*;
use vstd::arithmetic::power::pow;
use crate::number_theory::number_theory::MUL_SAFE_MAX;

verus! {

/// The NTT prime `2^23 * 7 * 17 + 1`.
pub const P: i64 = 998244353;

/// A primitive root modulo [`P`].
pub const PR: i64 = 3;

/// `a^b mod m` by square-and-multiply; 1 when `b <= 0`.
pub fn mod_pow(a: i64, b: i64, m: i64) -> (r: i64)
    requires
        0 <= a <= MUL_SAFE_MAX,
        1 <= m <= MUL_SAFE_MAX,
    ensures
        r == if b <= 0 {
            1
        } else {
            pow(a as int, b as nat) % (m as int)
        },
        b > 0 ==> 0 <= r < m,
{
    crate::number_theory::number_theory::mod_pow(a, b, m)
}

/// `n` is a power of two.
pub open spec fn is_pow2(n: nat) -> bool
    decreases n,
{
    n == 1 || (n > 1 && n % 2 == 0 && is_pow2(n / 2))
}

/// Every entry lies in `0..P`.
pub open spec fn reduced(a: Seq<i64>) -> bool {
    forall|i: int| 0 <= i < a.len() ==> 0 <= #[trigger] a[i] < P
}

/// Every entry is zero: the zero polynomial.
pub open spec fn all_zero(a: Seq<i64>) -> bool {
    forall|i: int| 0 <= i < a.len() ==> #[trigger] a[i] == 0
}

/// The lowest `log2(n)` bits of `i` in reverse order, for a power of two `n`.
pub open spec fn reverse_bits(i: nat, n: nat) -> nat
    decreases n,
{
    if n <= 1 {
        0
    } else {
        (i % 2) * (n / 2) + reverse_bits(i / 2, n / 2)
    }
}

/// The index whose `log2(n)` low bits are those of `i` in reverse order.
fn bit_reverse(i: usize, n: usize) -> (j: usize)
    requires
        n >= 1,
        is_pow2(n as nat),
    ensures
        j < n,
        j == reverse_bits(i as nat, n as nat),
{
    let mut j: usize = 0;
    let mut t = i;
    let mut pw: usize = 1;
    let ghost mut q: nat = n as nat;
    while pw < n
        invariant
            1 <= pw <= n,
            j < pw,
            is_pow2(n as nat),
            is_pow2(pw as nat),
            is_pow2(q),
            pw * q == n,
            reverse_bits(i as nat, n as nat) == j * q + reverse_bits(t as nat, q),
        decreases n - pw,
    {
        proof {
            lemma_pow2_double(pw as nat, n as nat);
            if q <= 1 {
                assert(pw * q <= pw) by (nonlinear_arith)
                    requires q <= 1;
            }
            assert(q % 2 == 0 && is_pow2(q / 2));
            let q2 = q / 2;
            assert(reverse_bits(t as nat, q) == (t as nat % 2) * q2 + reverse_bits(t as nat / 2, q2));
            assert(j * q + (t as nat % 2) * q2 == (2 * j + t % 2) * q2) by (nonlinear_arith)
                requires q == 2 * q2;
            assert((2 * pw) * q2 == pw * q) by (nonlinear_arith)
                requires q == 2 * q2;
            q = q2;
        }
        j = 2 * j + t % 2;
        t = t / 2;
        pw = 2 * pw;
    }
    proof {
        assert(q == 1) by (nonlinear_arith)
            requires pw * q == n, pw == n, n >= 1;
    }
    j
}

/// Doubling a power of two below another one stays within it.
proof fn lemma_pow2_double(p: nat, n: nat)
    requires
        is_pow2(p),
        is_pow2(n),
        p < n,
    ensures
        2 * p <= n,
        is_pow2(2 * p),
    decreases n,
{
    assert(is_pow2(2 * p)) by {
        assert((2 * p) / 2 == p);
    }
    if p == 1 {
    } else {
        lemma_pow2_double(p / 2, n / 2);
    }
}

/// The number-theoretic transform modulo [`P`] by Cooley–Tukey butterflies (the
/// inverse when `inv`); the length must be a power of two.
pub fn dft(a: &mut [i64], inv: bool)
    requires
        is_pow2(old(a)@.len()),
        old(a)@.len() <= 0x80_0000,
        reduced(old(a)@),
    ensures
        final(a)@.len() == old(a)@.len(),
        reduced(final(a)@),
        all_zero(old(a)@) ==> all_zero(final(a)@),
{
    let n = a.len();
    let ghost zero = all_zero(a@);
    let mut i: usize = 0;
    while i < n
        invariant
            n == a@.len(),
            is_pow2(n as nat),
            reduced(a@),
            zero ==> all_zero(a@),
        decreases n - i,
    {
        let j = bit_reverse(i, n);
        if i < j {
            let x = a[i];
            let y = a[j];
            a[i] = y;
            a[j] = x;
        }
        i += 1;
    }
    let mut w: Vec<i64> = Vec::new();
    let mut k: usize = 2;
    assert(is_pow2(1));
    assert(is_pow2(2));
    while k <= n
        invariant
            n == a@.len(),
            n <= 0x80_0000,
            is_pow2(n as nat),
            is_pow2(k as nat),
            2 <= k,
            reduced(a@),
            zero ==> all_zero(a@),
        decreases n + 1 - k,
    {
        proof {
            lemma_pow2_divides(k as nat, n as nat);
        }
        let e = if inv { (P - 1) / (k as i64) } else { P - 1 - (P - 1) / (k as i64) };
        let r = mod_pow(PR, e, P);
        w.clear();
        let mut x: i64 = 1;
        let half = k / 2;
        while w.len() < half
            invariant
                0 <= x < P,
                0 <= r < P,
                w@.len() <= half,
                reduced(w@),
            decreases half - w@.len(),
        {
            w.push(x);
            assert(x * r < P * P) by (nonlinear_arith)
                requires 0 <= x < P, 0 <= r < P;
            x = x * r % P;
        }
        let mut ofs: usize = 0;
        while ofs < n
            invariant
                n == a@.len(),
                k <= n,
                half == k / 2,
                w@.len() == half,
                reduced(w@),
                reduced(a@),
                n % k == 0,
                ofs % k == 0,
                ofs <= n,
                k >= 2,
                zero ==> all_zero(a@),
            decreases n - ofs,
        {
            proof {
                assert(ofs + k <= n) by (nonlinear_arith)
                    requires ofs < n, ofs % k == 0, n % k == 0, k > 0;
            }
            let mut i: usize = 0;
            while i < half
                invariant
                    n == a@.len(),
                    half == k / 2,
                    ofs + k <= n,
                    k >= 2,
                    w@.len() == half,
                    reduced(w@),
                    reduced(a@),
                    i <= half,
                    zero ==> all_zero(a@),
                decreases half - i,
            {
                let u = ofs + i;
                let v = ofs + i + half;
                assert(w@[i as int] * a@[v as int] < P * P) by (nonlinear_arith)
                    requires 0 <= w@[i as int] < P, 0 <= a@[v as int] < P;
                let t = w[i] * a[v];
                let au = a[u];
                proof {
                    if zero {
                        assert(a@[v as int] == 0 && au == 0);
                        assert(t == 0) by (nonlinear_arith)
                            requires t == w@[i as int] * a@[v as int], a@[v as int] == 0;
                    }
                }
                let nv = (au - t) % P;
                let nv = if nv < 0 { nv + P } else { nv };
                a[v] = nv;
                a[u] = (au + t) % P;
                i += 1;
            }
            proof {
                vstd::arithmetic::div_mod::lemma_mod_add_multiples_vanish(ofs as int, k as int);
                assert(k + ofs == ofs + k);
            }
            ofs += k;
        }
        if k > n / 2 {
            break;
        }
        proof {
            assert(is_pow2(2 * k as nat)) by {
                assert((2 * k) as nat / 2 == k);
            }
        }
        k = 2 * k;
    }
    if inv {
        let d = mod_pow((n % (P as usize)) as i64, P - 2, P);
        let mut i: usize = 0;
        while i < n
            invariant
                n == a@.len(),
                0 <= d < P,
                reduced(a@),
                zero ==> all_zero(a@),
            decreases n - i,
        {
            assert(d * a@[i as int] < P * P) by (nonlinear_arith)
                requires 0 <= d < P, 0 <= a@[i as int] < P;
            proof {
                if zero {
                    assert(a@[i as int] == 0);
                    assert(d * a@[i as int] == 0) by (nonlinear_arith)
                        requires a@[i as int] == 0;
                }
            }
            a[i] = d * a[i] % P;
            i += 1;
        }
    }
}

/// The least power of two at least `n`.
fn next_pow2(n: usize) -> (m: usize)
    requires
        n <= 0x80_0000,
    ensures
        is_pow2(m as nat),
        n <= m,
        m <= 2 * n || m == 1,
{
    let mut m: usize = 1;
    assert(is_pow2(1));
    while m < n
        invariant
            1 <= m,
            is_pow2(m as nat),
            m < 2 * n || m == 1,
            n <= 0x80_0000,
        decreases 2 * n - m,
    {
        assert(is_pow2(2 * m as nat)) by {
            assert((2 * m) as nat / 2 == m);
        }
        m = 2 * m;
    }
    m
}

/// The cyclic convolution of `a` and `b` modulo [`P`], padded to a power of two and
/// cut back to `a.len() + b.len() - 1` entries, left in `a`; `b` is left transformed.
pub fn convolution(a: &mut Vec<i64>, b: &mut Vec<i64>)
    requires
        old(a)@.len() + old(b)@.len() >= 1,
        old(a)@.len() + old(b)@.len() - 1 <= 0x40_0000,
        reduced(old(a)@),
        reduced(old(b)@),
    ensures
        final(a)@.len() == old(a)@.len() + old(b)@.len() - 1,
        reduced(final(a)@),
        reduced(final(b)@),
        all_zero(old(a)@) || all_zero(old(b)@) ==> all_zero(final(a)@),
{
    let la = a.len();
    let lb = b.len();
    assert(1 <= la + lb <= 0x40_0001);
    let n = la + lb - 1;

    let m = next_pow2(n);
    let ghost a0 = a@;
    let ghost b0 = b@;
    a.resize(m, 0);
    b.resize(m, 0);
    assert forall|i: int| 0 <= i < a@.len() implies 0 <= #[trigger] a@[i] < P by {
        if i < a0.len() {
            assert(a@[i] == a0[i]);
        }
    }
    assert forall|i: int| 0 <= i < b@.len() implies 0 <= #[trigger] b@[i] < P by {
        if i < b0.len() {
            assert(b@[i] == b0[i]);
        }
    }
    let ghost za = all_zero(a0);
    let ghost zb = all_zero(b0);
    assert(za ==> all_zero(a@)) by {
        if za {
            assert forall|i: int| 0 <= i < a@.len() implies #[trigger] a@[i] == 0 by {
                if i < a0.len() {
                    assert(a@[i] == a0[i]);
                }
            }
        }
    }
    assert(zb ==> all_zero(b@)) by {
        if zb {
            assert forall|i: int| 0 <= i < b@.len() implies #[trigger] b@[i] == 0 by {
                if i < b0.len() {
                    assert(b@[i] == b0[i]);
                }
            }
        }
    }
    dft(a.as_mut_slice(), false);
    dft(b.as_mut_slice(), false);
    let mut i: usize = 0;
    while i < m
        invariant
            a@.len() == m,
            b@.len() == m,
            reduced(a@),
            reduced(b@),
            i <= m,
            za ==> all_zero(a@),
            zb ==> all_zero(b@),
            za || zb ==> forall|t: int| 0 <= t < i ==> #[trigger] a@[t] == 0,
        decreases m - i,
    {
        assert(a@[i as int] * b@[i as int] < P * P) by (nonlinear_arith)
            requires 0 <= a@[i as int] < P, 0 <= b@[i as int] < P;
        proof {
            if za {
                assert(a@[i as int] == 0);
            }
            if zb {
                assert(b@[i as int] == 0);
            }
            if za || zb {
                assert(a@[i as int] * b@[i as int] == 0) by (nonlinear_arith)
                    requires a@[i as int] == 0 || b@[i as int] == 0;
            }
        }
        let x = a[i] * b[i] % P;
        a.set(i, x);
        i += 1;
    }
    dft(a.as_mut_slice(), true);
    a.truncate(n);
}

/// A power of two at most `n` divides the power of two `n`.
proof fn lemma_pow2_divides(k: nat, n: nat)
    requires
        is_pow2(k),
        is_pow2(n),
        k <= n,
    ensures
        n % k == 0,
    decreases n,
{
    if k == n {
    } else if k == 1 {
    } else {
        lemma_pow2_divides(k / 2, n / 2);
        let q = (n / 2) / (k / 2);
        vstd::arithmetic::div_mod::lemma_fundamental_div_mod((n / 2) as int, (k / 2) as int);
        assert(n == q * k) by (nonlinear_arith)
            requires
                (n / 2) as int == (k / 2) as int * q + 0,
                n == 2 * (n / 2),
                k == 2 * (k / 2),
        ;
        vstd::arithmetic::div_mod::lemma_mod_multiples_basic(q as int, k as int);
    }
}

} // verus!
