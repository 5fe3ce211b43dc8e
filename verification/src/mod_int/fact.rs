use vstd::prelude::*;
use crate::mod_int::{ModInt, Modulo, pow_mod};
use vstd::arithmetic::power::pow;

verus! {

pub open spec fn factorial(n: nat) -> nat
    decreases n,
{
    if n == 0 {
        1
    } else {
        n * factorial((n - 1) as nat)
    }
}

/// The product `(lo + 1) * (lo + 2) * ... * hi`, or 1 when `hi <= lo`.
pub open spec fn range_product(lo: nat, hi: nat) -> nat
    decreases hi,
{
    if hi <= lo {
        1
    } else {
        hi * range_product(lo, (hi - 1) as nat)
    }
}

/// Factorials modulo `M::modulo()` and their inverses, up to a bound.
pub struct Fact<M: Modulo> {
    f: Vec<ModInt<M>>,
    finv: Vec<ModInt<M>>,
}

impl<M: Modulo> Fact<M> {
    #[verifier::type_invariant]
    spec fn tables(&self) -> bool {
        let n = (self.f@.len() - 1) as nat;
        let m = ModInt::<M>::m();
        &&& self.f@.len() >= 1
        &&& self.finv@.len() == self.f@.len()
        &&& forall|i: int| 0 <= i <= n ==> (#[trigger] self.f@[i]).val() == factorial(i as nat) as int % m
        &&& forall|i: int|
            0 <= i <= n ==> (#[trigger] self.finv@[i]).val() == (pow_mod(
                factorial(n) as int % m,
                (m - 2) as nat,
                m,
            ) * range_product(i as nat, n)) % m
    }

    /// The largest argument the tables cover.
    pub closed spec fn bound(&self) -> nat {
        (self.f@.len() - 1) as nat
    }

    /// `x!` modulo `m`.
    pub open spec fn fact_val(&self, x: nat) -> int {
        factorial(x) as int % ModInt::<M>::m()
    }

    /// `(bound!)^(m - 2) * (x + 1) * ... * bound` modulo `m`: for a prime `m`,
    /// the inverse of `x!`.
    pub open spec fn fact_inv_val(&self, x: nat) -> int {
        let m = ModInt::<M>::m();
        (pow_mod(factorial(self.bound()) as int % m, (m - 2) as nat, m) * range_product(
            x,
            self.bound(),
        )) % m
    }

    /// The tables for the arguments `0..=n`.
    pub fn new(n: usize) -> (r: Self)
        requires
            n < ModInt::<M>::m(),
        ensures
            r.bound() == n,
    {
        proof {
            M::lemma_modulo_range();
        }
        let ghost m = ModInt::<M>::m();
        let mut f: Vec<ModInt<M>> = Vec::new();
        f.push(ModInt::new(1));
        proof {
            vstd::arithmetic::div_mod::lemma_small_mod(1, m as nat);
            assert(factorial(0) == 1);
        }
        let mut i: usize = 1;
        while i <= n
            invariant
                1 <= i <= n + 1,
                n < m,
                m == ModInt::<M>::m(),
                2 <= m <= 0x8000_0000,
                f@.len() == i,
                forall|j: int| 0 <= j < i ==> (#[trigger] f@[j]).val() == factorial(j as nat) as int % m,
            decreases n + 1 - i,
        {
            let prev = f[i - 1];
            let x = ModInt::new(i as u32) * prev;
            proof {
                vstd::arithmetic::div_mod::lemma_mul_mod_noop_right(i as int, factorial((i - 1) as nat) as int, m);
                assert(factorial(i as nat) == i * factorial((i - 1) as nat));
                assert(x.val() == factorial(i as nat) as int % m);
            }
            f.push(x);
            i += 1;
        }
        let top = f[n].inv();
        let mut rev: Vec<ModInt<M>> = Vec::new();
        rev.push(top);
        let ghost p = pow_mod(factorial(n as nat) as int % m, (m - 2) as nat, m);
        proof {
            let fv = f@[n as int].val();
            assert(fv == factorial(n as nat) as int % m);
            vstd::arithmetic::div_mod::lemma_mod_bound(pow(factorial(n as nat) as int % m, (m - 2) as nat), m);
            vstd::arithmetic::div_mod::lemma_small_mod(p as nat, m as nat);
            assert(range_product(n as nat, n as nat) == 1);
            assert(rev@[0].val() == (p * range_product(n as nat, n as nat)) % m);
        }
        let mut j: usize = n;
        while j > 0
            invariant
                j <= n,
                n < m,
                m == ModInt::<M>::m(),
                2 <= m <= 0x8000_0000,
                rev@.len() == n + 1 - j,
                f@.len() == n + 1,
                forall|k: int| 0 <= k < rev@.len() ==> (#[trigger] rev@[k]).val() == (p * range_product(
                    (n - k) as nat,
                    n as nat,
                )) % m,
            decreases j,
        {
            let last = rev[n - j];
            let x = last * ModInt::new(j as u32);
            proof {
                let q = p * range_product(j as nat, n as nat);
                vstd::arithmetic::div_mod::lemma_mul_mod_noop_left(q, j as int, m);
                assert(range_product((j - 1) as nat, n as nat) == j * range_product(j as nat, n as nat)) by {
                    lemma_range_product_low((j - 1) as nat, n as nat);
                }
                assert(q * j == p * range_product((j - 1) as nat, n as nat)) by (nonlinear_arith)
                    requires
                        q == p * range_product(j as nat, n as nat),
                        range_product((j - 1) as nat, n as nat) == j * range_product(j as nat, n as nat);
            }
            rev.push(x);
            proof {
                assert(rev@[n - j + 1].val() == (p * range_product((n - (n - j + 1)) as nat, n as nat)) % m);
            }
            j -= 1;
        }
        let finv = crate::vec_util::reverse_vec(rev);
        let r = Fact { f, finv };
        r
    }

    /// `x!` modulo `m`.
    pub fn fact(&self, x: usize) -> (r: ModInt<M>)
        requires
            x <= self.bound(),
        ensures
            r.val() == self.fact_val(x as nat),
    {
        proof {
            use_type_invariant(self);
        }
        self.f[x]
    }

    /// The inverse of `x!` modulo a prime `m` (see [`Fact::fact_inv_val`]).
    pub fn fact_inv(&self, x: usize) -> (r: ModInt<M>)
        requires
            x <= self.bound(),
        ensures
            r.val() == self.fact_inv_val(x as nat),
    {
        proof {
            use_type_invariant(self);
        }
        self.finv[x]
    }

    /// `n! / ((n - k)! k!)` modulo `m`, or 0 when `n < k`.
    pub fn binom(&self, n: usize, k: usize) -> (r: ModInt<M>)
        requires
            n <= self.bound(),
        ensures
            r.val() == if n >= k {
                (((self.fact_val(n as nat) * self.fact_inv_val((n - k) as nat)) % ModInt::<M>::m())
                    * self.fact_inv_val(k as nat)) % ModInt::<M>::m()
            } else {
                0
            },
    {
        proof {
            M::lemma_modulo_range();
        }
        if n >= k {
            self.fact(n) * self.fact_inv(n - k) * self.fact_inv(k)
        } else {
            ModInt::new(0)
        }
    }

    /// `n! / (n - k)!` modulo `m`, or 0 when `n < k`.
    pub fn perm(&self, n: usize, k: usize) -> (r: ModInt<M>)
        requires
            n <= self.bound(),
        ensures
            r.val() == if n >= k {
                (self.fact_val(n as nat) * self.fact_inv_val((n - k) as nat)) % ModInt::<M>::m()
            } else {
                0
            },
    {
        proof {
            M::lemma_modulo_range();
        }
        if n >= k {
            self.fact(n) * self.fact_inv(n - k)
        } else {
            ModInt::new(0)
        }
    }
}

proof fn lemma_range_product_low(lo: nat, hi: nat)
    requires
        lo < hi,
    ensures
        range_product(lo, hi) == (lo + 1) * range_product(lo + 1, hi),
    decreases hi,
{
    if hi == lo + 1 {
        assert(range_product(lo + 1, hi) == 1);
        assert(range_product(lo, (hi - 1) as nat) == 1);
    } else {
        lemma_range_product_low(lo, (hi - 1) as nat);
        let a = range_product(lo, (hi - 1) as nat);
        let b = range_product(lo + 1, (hi - 1) as nat);
        assert(hi * ((lo + 1) * b) == (lo + 1) * (hi * b)) by (nonlinear_arith);
    }
}

} // verus!
