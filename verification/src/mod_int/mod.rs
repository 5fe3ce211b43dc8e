use vstd::prelude::*;
use vstd::arithmetic::power::pow;
use vstd::arithmetic::div_mod::{lemma_mod_bound, lemma_small_mod};
use std::marker::PhantomData;
use crate::num_lemmas::{lemma_pow_step, lemma_mod_near, lemma_residue_ring};
use crate::other::matrix::{Zero, One, Ring, Field};

verus! {

/// A modulus for [`ModInt`].
pub trait Modulo {
    spec fn spec_modulo() -> nat;

    /// Every modulus lies in `2..=2^31`, so that sums of two residues fit in `u32`.
    proof fn lemma_modulo_range()
        ensures
            2 <= Self::spec_modulo() <= 0x8000_0000,
    ;

    fn modulo() -> (m: u32)
        ensures
            m == Self::spec_modulo(),
    ;
}

#[derive(Clone, Copy, PartialEq, Eq, Structural, Debug, Hash)]
pub struct Mod998244353;

impl Modulo for Mod998244353 {
    open spec fn spec_modulo() -> nat {
        998244353
    }

    proof fn lemma_modulo_range() {
    }

    fn modulo() -> (m: u32) {
        998244353
    }
}

#[derive(Clone, Copy, PartialEq, Eq, Structural, Debug, Hash)]
pub struct Mod1e9p7;

impl Modulo for Mod1e9p7 {
    open spec fn spec_modulo() -> nat {
        1000000007
    }

    proof fn lemma_modulo_range() {
    }

    fn modulo() -> (m: u32) {
        1000000007
    }
}

/// `b` to the power `e`, reduced modulo `m`.
pub open spec fn pow_mod(b: int, e: nat, m: int) -> int {
    pow(b, e) % m
}

/// An integer modulo `M::modulo()`, held as its residue in `0..M::modulo()`.
#[derive(Debug, Hash)]
pub struct ModInt<M: Modulo>(u32, PhantomData<M>);

impl<M: Modulo> Clone for ModInt<M> {
    fn clone(&self) -> (r: Self)
        ensures
            r == *self,
    {
        *self
    }
}

impl<M: Modulo> Copy for ModInt<M> {
}

impl<M: Modulo> PartialEq for ModInt<M> {
    fn eq(&self, other: &Self) -> (r: bool) {
        self.0 == other.0
    }
}

impl<M: Modulo> vstd::std_specs::cmp::PartialEqSpecImpl for ModInt<M> {
    open spec fn obeys_eq_spec() -> bool {
        true
    }

    open spec fn eq_spec(&self, other: &Self) -> bool {
        self.val() == other.val()
    }
}

impl<M: Modulo> Eq for ModInt<M> {
}

pub type Mint = ModInt<Mod998244353>;

/// The residue `x` modulo 998244353.
pub fn mint(x: u32) -> (r: Mint)
    requires
        x < 998244353,
    ensures
        r.val() == x,
{
    ModInt::new(x)
}

impl<M: Modulo> ModInt<M> {
    #[verifier::type_invariant]
    spec fn residue_in_range(self) -> bool {
        (self.0 as nat) < M::spec_modulo()
    }

    /// The residue.
    pub closed spec fn val(self) -> nat {
        self.0 as nat
    }

    pub open spec fn m() -> int {
        M::spec_modulo() as int
    }

    /// Makes the range of the residue and of the modulus known to the caller.
    pub(crate) fn range(self)
        ensures
            self.val() < Self::m(),
            2 <= Self::m() <= 0x8000_0000,
    {
        proof {
            use_type_invariant(self);
            M::lemma_modulo_range();
        }
    }

    /// The residue `x`.
    pub fn new(x: u32) -> (r: Self)
        requires
            x < M::spec_modulo(),
        ensures
            r.val() == x,
    {
        ModInt(x, PhantomData)
    }

    /// The residue, already reduced: the value itself.
    pub fn normalize(self) -> (r: Self)
        ensures
            r == self,
    {
        proof {
            use_type_invariant(self);
        }
        if self.0 < M::modulo() {
            self
        } else {
            Self::new(self.0 % M::modulo())
        }
    }

    pub fn get(self) -> (r: u32)
        ensures
            r == self.val(),
    {
        self.0
    }

    /// `self` to the power `m - 2`, which for a prime modulus and a nonzero
    /// `self` is its multiplicative inverse.
    pub fn inv(self) -> (r: Self)
        ensures
            r.val() == pow_mod(self.val() as int, (Self::m() - 2) as nat, Self::m()),
    {
        proof {
            M::lemma_modulo_range();
        }
        self.pow_u32(M::modulo() - 2)
    }

    /// For an odd modulus, the residue `h` with `2 * h == self`.
    pub fn half(self) -> (r: Self)
        ensures
            r.val() == self.val() / 2 + (self.val() % 2) * ((Self::m() + 1) / 2),
    {
        proof {
            use_type_invariant(self);
            M::lemma_modulo_range();
        }
        let x = self.0;
        let m = M::modulo();
        if x % 2 == 0 {
            assert((x % 2) * ((m + 1) / 2) == 0) by (nonlinear_arith)
                requires x % 2 == 0;
            Self::new(x / 2)
        } else {
            assert((x % 2) * ((m + 1) / 2) == (m + 1) / 2) by (nonlinear_arith)
                requires x % 2 == 1;
            Self::new(x / 2 + (m + 1) / 2)
        }
    }

    pub fn modulo() -> (m: u32)
        ensures
            m == Self::m(),
    {
        M::modulo()
    }

    /// `self` to the power `n`, by square-and-multiply.
    pub fn pow_u32(self, n: u32) -> (r: Self)
        ensures
            r.val() == pow_mod(self.val() as int, n as nat, Self::m()),
    {
        proof {
            use_type_invariant(self);
            M::lemma_modulo_range();
        }
        let m = M::modulo() as u64;
        let mut x = self.0 as u64;
        let mut y: u64 = 1;
        let ghost n0 = n;
        let mut n = n;
        proof {
            vstd::arithmetic::power::lemma_pow0(x as int);
            lemma_small_mod(1, m as nat);
            lemma_small_mod(self.0 as nat, m as nat);
        }
        while n > 0
            invariant
                m == Self::m(),
                2 <= m <= 0x8000_0000,
                x < m,
                y < m,
                (y * pow(x as int, n as nat)) % (m as int) == pow(self.val() as int, n0 as nat) % (m as int),
            decreases n,
        {
            proof {
                assert(y * x < 0x8000_0000 * 0x8000_0000) by (nonlinear_arith)
                    requires y < m, x < m, m <= 0x8000_0000;
                assert(x * x < 0x8000_0000 * 0x8000_0000) by (nonlinear_arith)
                    requires x < m, m <= 0x8000_0000;
                lemma_pow_step(y as int, x as int, n as nat, m as int);
                lemma_mod_bound((y * x) as int, m as int);
                lemma_mod_bound((x * x) as int, m as int);
            }
            if n % 2 == 1 {
                y = y * x % m;
            }
            x = x * x % m;
            n /= 2;
        }
        proof {
            vstd::arithmetic::power::lemma_pow0(x as int);
            lemma_small_mod(y as nat, m as nat);
        }
        Self::new(y as u32)
    }
}

} // verus!

verus! {

impl<M: Modulo> std::ops::Neg for ModInt<M> {
    type Output = Self;

    fn neg(self) -> (r: Self)
        ensures
            r.val() == (Self::m() - self.val()) % Self::m(),
    {
        proof {
            use_type_invariant(self);
            M::lemma_modulo_range();
            lemma_mod_near(Self::m() - self.val(), Self::m());
        }
        if self.0 == 0 {
            Self::new(0)
        } else {
            Self::new(M::modulo() - self.0)
        }
    }
}

impl<M: Modulo> vstd::std_specs::ops::NegSpecImpl for ModInt<M> {
    open spec fn obeys_neg_spec() -> bool {
        true
    }

    open spec fn neg_req(self) -> bool {
        true
    }

    closed spec fn neg_spec(self) -> Self {
        ModInt(((Self::m() - self.val()) % Self::m()) as u32, PhantomData)
    }
}

impl<M: Modulo> std::ops::Add for ModInt<M> {
    type Output = Self;

    fn add(self, rhs: Self) -> (r: Self)
        ensures
            r.val() == (self.val() + rhs.val()) as int % Self::m(),
    {
        proof {
            use_type_invariant(self);
            use_type_invariant(rhs);
            M::lemma_modulo_range();
        }
        proof {
            lemma_mod_near((self.val() + rhs.val()) as int, Self::m());
        }
        let s = self.0 + rhs.0;
        Self::new(if s < M::modulo() { s } else { s - M::modulo() })
    }
}

impl<M: Modulo> vstd::std_specs::ops::AddSpecImpl for ModInt<M> {
    open spec fn obeys_add_spec() -> bool {
        true
    }

    open spec fn add_req(self, rhs: Self) -> bool {
        true
    }

    closed spec fn add_spec(self, rhs: Self) -> Self {
        ModInt(((self.val() + rhs.val()) as int % Self::m()) as u32, PhantomData)
    }
}

impl<M: Modulo> std::ops::Sub for ModInt<M> {
    type Output = Self;

    fn sub(self, rhs: Self) -> (r: Self)
        ensures
            r.val() == (self.val() - rhs.val()) % Self::m(),
    {
        proof {
            use_type_invariant(self);
            use_type_invariant(rhs);
            M::lemma_modulo_range();
            lemma_mod_near(self.val() - rhs.val(), Self::m());
        }
        Self::new(
            if self.0 >= rhs.0 {
                self.0 - rhs.0
            } else {
                M::modulo() + self.0 - rhs.0
            },
        )
    }
}

impl<M: Modulo> vstd::std_specs::ops::SubSpecImpl for ModInt<M> {
    open spec fn obeys_sub_spec() -> bool {
        true
    }

    open spec fn sub_req(self, rhs: Self) -> bool {
        true
    }

    closed spec fn sub_spec(self, rhs: Self) -> Self {
        ModInt(((self.val() - rhs.val()) % Self::m()) as u32, PhantomData)
    }
}

impl<M: Modulo> std::ops::Mul for ModInt<M> {
    type Output = Self;

    fn mul(self, rhs: Self) -> (r: Self)
        ensures
            r.val() == (self.val() * rhs.val()) as int % Self::m(),
    {
        proof {
            use_type_invariant(self);
            use_type_invariant(rhs);
            M::lemma_modulo_range();
        }
        let a = self.0 as u64;
        let b = rhs.0 as u64;
        let m = M::modulo() as u64;
        assert(a * b < 0x8000_0000 * 0x8000_0000) by (nonlinear_arith)
            requires a < m, b < m, m <= 0x8000_0000;
        proof {
            lemma_mod_bound((a * b) as int, m as int);
        }
        Self::new((a * b % m) as u32)
    }
}

impl<M: Modulo> vstd::std_specs::ops::MulSpecImpl for ModInt<M> {
    open spec fn obeys_mul_spec() -> bool {
        true
    }

    open spec fn mul_req(self, rhs: Self) -> bool {
        true
    }

    closed spec fn mul_spec(self, rhs: Self) -> Self {
        ModInt(((self.val() * rhs.val()) as int % Self::m()) as u32, PhantomData)
    }
}

impl<M: Modulo> std::ops::Div for ModInt<M> {
    type Output = Self;

    /// `self` times [`ModInt::inv`] of `rhs`; `rhs` must be nonzero.
    fn div(self, rhs: Self) -> (r: Self)
        ensures
            r.val() == (self.val() * pow_mod(rhs.val() as int, (Self::m() - 2) as nat, Self::m()))
                % Self::m(),
    {
        self * rhs.inv()
    }
}

impl<M: Modulo> vstd::std_specs::ops::DivSpecImpl for ModInt<M> {
    open spec fn obeys_div_spec() -> bool {
        true
    }

    open spec fn div_req(self, rhs: Self) -> bool {
        rhs.val() != 0
    }

    closed spec fn div_spec(self, rhs: Self) -> Self {
        ModInt(((self.val() * pow_mod(rhs.val() as int, (Self::m() - 2) as nat, Self::m())) % Self::m()) as u32, PhantomData)
    }
}

} // verus!

verus! {

/// The Euclidean remainder of `x` modulo `m`.
pub(crate) fn rem_euclid_i128(x: i128, m: i128) -> (r: i128)
    requires
        m > 0,
        x > i128::MIN,
    ensures
        r == x as int % m as int,
        0 <= r < m,
{
    proof {
        crate::num_lemmas::lemma_signed_mod(x as int, m as int);
    }
    if x >= 0 {
        x % m
    } else {
        let t = (-x) % m;
        if t == 0 {
            0
        } else {
            m - t
        }
    }
}

/// Exponentiation.
pub trait Pow<T> {
    fn pow(self, n: T) -> Self;
}

impl<M: Modulo> Pow<u32> for ModInt<M> {
    fn pow(self, n: u32) -> (r: Self)
        ensures
            r.val() == pow_mod(self.val() as int, n as nat, Self::m()),
    {
        self.pow_u32(n)
    }
}

impl<M: Modulo> ModInt<M> {
    /// `self` to the power `n` reduced modulo `m - 1` (Euclidean remainder),
    /// which by Fermat's little theorem equals `self^n` for a prime modulus
    /// and a nonzero `self`.
    pub(crate) fn pow_i128(self, n: i128) -> (r: Self)
        requires
            n > i128::MIN,
        ensures
            r.val() == pow_mod(self.val() as int, (n as int % (Self::m() - 1)) as nat, Self::m()),
    {
        proof {
            M::lemma_modulo_range();
        }
        let k = (M::modulo() - 1) as i128;
        let e = rem_euclid_i128(n, k);
        self.pow_u32(e as u32)
    }
}

impl<M: Modulo> Pow<i32> for ModInt<M> {
    /// `self` to the power `n` reduced modulo `m - 1` (Euclidean remainder).
    fn pow(self, n: i32) -> (r: Self)
        ensures
            r.val() == pow_mod(self.val() as int, (n as int % (Self::m() - 1)) as nat, Self::m()),
    {
        self.pow_i128(n as i128)
    }
}

impl<M: Modulo> Pow<i64> for ModInt<M> {
    /// `self` to the power `n` reduced modulo `m - 1` (Euclidean remainder).
    fn pow(self, n: i64) -> (r: Self)
        ensures
            r.val() == pow_mod(self.val() as int, (n as int % (Self::m() - 1)) as nat, Self::m()),
    {
        self.pow_i128(n as i128)
    }
}

impl<M: Modulo> Pow<isize> for ModInt<M> {
    /// `self` to the power `n` reduced modulo `m - 1` (Euclidean remainder).
    fn pow(self, n: isize) -> (r: Self)
        ensures
            r.val() == pow_mod(self.val() as int, (n as int % (Self::m() - 1)) as nat, Self::m()),
    {
        self.pow_i128(n as i128)
    }
}

impl<M: Modulo> Pow<u64> for ModInt<M> {
    /// `self` to the power `n` reduced modulo `m - 1` (Euclidean remainder).
    fn pow(self, n: u64) -> (r: Self)
        ensures
            r.val() == pow_mod(self.val() as int, (n as int % (Self::m() - 1)) as nat, Self::m()),
    {
        self.pow_i128(n as i128)
    }
}

impl<M: Modulo> Pow<usize> for ModInt<M> {
    /// `self` to the power `n` reduced modulo `m - 1` (Euclidean remainder).
    fn pow(self, n: usize) -> (r: Self)
        ensures
            r.val() == pow_mod(self.val() as int, (n as int % (Self::m() - 1)) as nat, Self::m()),
    {
        self.pow_i128(n as i128)
    }
}

impl<M: Modulo> ModInt<M> {
    /// The residue of `x` (Euclidean remainder).
    pub(crate) fn from_i128(x: i128) -> (r: Self)
        requires
            x > i128::MIN,
        ensures
            r.val() == x as int % Self::m(),
    {
        proof {
            M::lemma_modulo_range();
        }
        let m = M::modulo() as i128;
        let e = rem_euclid_i128(x, m);
        Self::new(e as u32)
    }
}

impl<M: Modulo> From<isize> for ModInt<M> {
    fn from(x: isize) -> (r: Self) {
        Self::from_i128(x as i128)
    }
}

impl<M: Modulo> vstd::std_specs::convert::FromSpecImpl<isize> for ModInt<M> {
    open spec fn obeys_from_spec() -> bool {
        true
    }

    closed spec fn from_spec(v: isize) -> Self {
        ModInt((v as int % Self::m()) as u32, PhantomData)
    }
}

impl<M: Modulo> From<i8> for ModInt<M> {
    fn from(x: i8) -> (r: Self) {
        Self::from_i128(x as i128)
    }
}

impl<M: Modulo> vstd::std_specs::convert::FromSpecImpl<i8> for ModInt<M> {
    open spec fn obeys_from_spec() -> bool {
        true
    }

    closed spec fn from_spec(v: i8) -> Self {
        ModInt((v as int % Self::m()) as u32, PhantomData)
    }
}

impl<M: Modulo> From<i16> for ModInt<M> {
    fn from(x: i16) -> (r: Self) {
        Self::from_i128(x as i128)
    }
}

impl<M: Modulo> vstd::std_specs::convert::FromSpecImpl<i16> for ModInt<M> {
    open spec fn obeys_from_spec() -> bool {
        true
    }

    closed spec fn from_spec(v: i16) -> Self {
        ModInt((v as int % Self::m()) as u32, PhantomData)
    }
}

impl<M: Modulo> From<i32> for ModInt<M> {
    fn from(x: i32) -> (r: Self) {
        Self::from_i128(x as i128)
    }
}

impl<M: Modulo> vstd::std_specs::convert::FromSpecImpl<i32> for ModInt<M> {
    open spec fn obeys_from_spec() -> bool {
        true
    }

    closed spec fn from_spec(v: i32) -> Self {
        ModInt((v as int % Self::m()) as u32, PhantomData)
    }
}

impl<M: Modulo> From<i64> for ModInt<M> {
    fn from(x: i64) -> (r: Self) {
        Self::from_i128(x as i128)
    }
}

impl<M: Modulo> vstd::std_specs::convert::FromSpecImpl<i64> for ModInt<M> {
    open spec fn obeys_from_spec() -> bool {
        true
    }

    closed spec fn from_spec(v: i64) -> Self {
        ModInt((v as int % Self::m()) as u32, PhantomData)
    }
}

impl<M: Modulo> From<usize> for ModInt<M> {
    fn from(x: usize) -> (r: Self) {
        Self::from_i128(x as i128)
    }
}

impl<M: Modulo> vstd::std_specs::convert::FromSpecImpl<usize> for ModInt<M> {
    open spec fn obeys_from_spec() -> bool {
        true
    }

    closed spec fn from_spec(v: usize) -> Self {
        ModInt((v as int % Self::m()) as u32, PhantomData)
    }
}

impl<M: Modulo> From<u8> for ModInt<M> {
    fn from(x: u8) -> (r: Self) {
        Self::from_i128(x as i128)
    }
}

impl<M: Modulo> vstd::std_specs::convert::FromSpecImpl<u8> for ModInt<M> {
    open spec fn obeys_from_spec() -> bool {
        true
    }

    closed spec fn from_spec(v: u8) -> Self {
        ModInt((v as int % Self::m()) as u32, PhantomData)
    }
}

impl<M: Modulo> From<u16> for ModInt<M> {
    fn from(x: u16) -> (r: Self) {
        Self::from_i128(x as i128)
    }
}

impl<M: Modulo> vstd::std_specs::convert::FromSpecImpl<u16> for ModInt<M> {
    open spec fn obeys_from_spec() -> bool {
        true
    }

    closed spec fn from_spec(v: u16) -> Self {
        ModInt((v as int % Self::m()) as u32, PhantomData)
    }
}

impl<M: Modulo> From<u32> for ModInt<M> {
    fn from(x: u32) -> (r: Self) {
        Self::from_i128(x as i128)
    }
}

impl<M: Modulo> vstd::std_specs::convert::FromSpecImpl<u32> for ModInt<M> {
    open spec fn obeys_from_spec() -> bool {
        true
    }

    closed spec fn from_spec(v: u32) -> Self {
        ModInt((v as int % Self::m()) as u32, PhantomData)
    }
}

impl<M: Modulo> From<u64> for ModInt<M> {
    fn from(x: u64) -> (r: Self) {
        Self::from_i128(x as i128)
    }
}

impl<M: Modulo> vstd::std_specs::convert::FromSpecImpl<u64> for ModInt<M> {
    open spec fn obeys_from_spec() -> bool {
        true
    }

    closed spec fn from_spec(v: u64) -> Self {
        ModInt((v as int % Self::m()) as u32, PhantomData)
    }
}

impl<M: Modulo> Default for ModInt<M> {
    fn default() -> (r: Self)
        ensures
            r.val() == 0,
    {
        proof {
            M::lemma_modulo_range();
        }
        Self::new(0)
    }
}

impl<M: Modulo> Zero for ModInt<M> {
    closed spec fn spec_zero() -> Self {
        ModInt(0, PhantomData)
    }

    fn zero() -> (r: Self) {
        proof {
            M::lemma_modulo_range();
        }
        Self::new(0)
    }
}

impl<M: Modulo> One for ModInt<M> {
    closed spec fn spec_one() -> Self {
        ModInt(1, PhantomData)
    }

    fn one() -> (r: Self) {
        proof {
            M::lemma_modulo_range();
        }
        Self::new(1)
    }
}

impl<M: Modulo> Ring for ModInt<M> {
    closed spec fn radd(a: Self, b: Self) -> Self {
        ModInt(((a.val() + b.val()) as int % Self::m()) as u32, PhantomData)
    }

    closed spec fn rsub(a: Self, b: Self) -> Self {
        ModInt(((a.val() - b.val()) % Self::m()) as u32, PhantomData)
    }

    closed spec fn rmul(a: Self, b: Self) -> Self {
        ModInt(((a.val() * b.val()) as int % Self::m()) as u32, PhantomData)
    }

    closed spec fn canonical(a: Self) -> bool {
        a.val() < Self::m()
    }

    proof fn lemma_ring_laws(a: Self, b: Self, c: Self) {
        M::lemma_modulo_range();
        let r = Self::m();
        let (x, y, z) = (a.val() as int, b.val() as int, c.val() as int);
        lemma_residue_ring(x, y, z, r);
    }

    fn plus(a: Self, b: Self) -> (r: Self) {
        a + b
    }

    fn minus(a: Self, b: Self) -> (r: Self) {
        a - b
    }

    fn times(a: Self, b: Self) -> (r: Self) {
        a * b
    }

    fn is_zero(a: Self) -> (r: bool) {
        a.0 == 0
    }
}

impl<M: Modulo> Field for ModInt<M> {
    closed spec fn rdiv(a: Self, b: Self) -> Self {
        ModInt(((a.val() * pow_mod(b.val() as int, (Self::m() - 2) as nat, Self::m())) % Self::m()) as u32, PhantomData)
    }

    fn over(a: Self, b: Self) -> (r: Self) {
        a / b
    }
}

} // verus!

pub mod fact;
pub mod precalc;
pub mod poly;
