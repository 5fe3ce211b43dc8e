use vstd::prelude::*;
use crate::mod_int::{ModInt, Modulo};
use std::ops::Neg;
use vstd::arithmetic::div_mod::{lemma_mul_mod_noop_right, lemma_mod_multiples_vanish, lemma_fundamental_div_mod};

verus! {

pub open spec fn is_prime(p: nat) -> bool {
    &&& p >= 2
    &&& forall|d: nat| 2 <= d < p ==> #[trigger] (p % d) != 0
}

/// With `m == q * x + t` and `a` an inverse of `t`, the value the table
/// recurrence gives for `x` is an inverse of `x`.
proof fn lemma_inverse_step(x: int, t: int, q: int, a: int, m: int)
    requires
        m > 0,
        x >= 1,
        m == x * q + t,
        (t * a) % m == 1,
    ensures
        (x * ((a * ((m - q) % m)) % m)) % m == 1,
{
    let b = (m - q) % m;
    lemma_mul_mod_noop_right(x, a * b, m);
    lemma_mul_mod_noop_right(x * a, m - q, m);
    assert(x * (a * b) == (x * a) * b) by (nonlinear_arith);
    assert((x * a) * (m - q) == m * (a * (x - 1)) + t * a) by (nonlinear_arith)
        requires
            m == x * q + t,
    ;
    lemma_mod_multiples_vanish(a * (x - 1), t * a, m);
}

/// `inv[x]` for `x` in `0..=n`, by the recurrence
/// `inv[x] = -(m / x) * inv[m % x]`; for a prime modulus, `inv[x]` is the
/// inverse of `x` for `1 <= x < m`.
pub fn mod_inv_table<M: Modulo>(n: usize) -> (inv: Vec<ModInt<M>>)
    requires
        1 <= n < u32::MAX,
    ensures
        inv@.len() == n + 1,
        inv@[0].val() == 0,
        inv@[1].val() == 1,
        forall|x: int|
            2 <= x <= n ==> (#[trigger] inv@[x]).val() == (inv@[ModInt::<M>::m() % x].val() * ((
            ModInt::<M>::m() - ModInt::<M>::m() / x) % ModInt::<M>::m())) % ModInt::<M>::m(),
        is_prime(ModInt::<M>::m() as nat) ==> forall|x: int|
            1 <= x <= n && x < ModInt::<M>::m() ==> (x * (#[trigger] inv@[x]).val()) % ModInt::<M>::m()
                == 1,
{
    proof {
        M::lemma_modulo_range();
    }
    let ghost m = ModInt::<M>::m();
    let mut inv: Vec<ModInt<M>> = Vec::new();
    inv.push(ModInt::new(0));
    inv.push(ModInt::new(1));
    proof {
        vstd::arithmetic::div_mod::lemma_small_mod(1, m as nat);
        assert((1 * inv@[1].val()) as int % m == 1);
    }
    let mut x: usize = 2;
    while x <= n
        invariant
            2 <= x <= n + 1,
            n < u32::MAX,
            m == ModInt::<M>::m(),
            2 <= m <= 0x8000_0000,
            inv@.len() == x,
            inv@[0].val() == 0,
            inv@[1].val() == 1,
            forall|y: int|
                2 <= y < x ==> (#[trigger] inv@[y]).val() == (inv@[m % y].val() * ((m - m / y) % m))
                    % m,
            is_prime(m as nat) ==> forall|y: int|
                1 <= y < x && y < m ==> (y * (#[trigger] inv@[y]).val()) % m == 1,
        decreases n + 1 - x,
    {
        let mm = M::modulo();
        let div = mm / x as u32;
        proof {
            vstd::arithmetic::div_mod::lemma_div_is_strictly_smaller(mm as int, x as int);
        }
        let rem = mm % x as u32;
        let r = inv[rem as usize];
        let d = ModInt::<M>::new(div);
        let nd = d.neg();
        let v = r * nd;
        proof {
            assert(nd.val() == (m - div) % m);
            if is_prime(m as nat) && x < m {
                let t = rem as int;
                lemma_fundamental_div_mod(m, x as int);
                assert((m as nat) % (x as nat) != 0);
                assert(1 <= t < x);
                assert((t * inv@[t].val()) % m == 1);
                lemma_inverse_step(x as int, t, div as int, inv@[t].val() as int, m);
                assert(v.val() == (inv@[t].val() * ((m - div) % m)) % m);
            }
        }
        inv.push(v);
        x += 1;
    }
    inv
}

} // verus!
