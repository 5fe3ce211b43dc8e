use vstd::prelude::*;

verus! {

/// An associative operation with an identity element.
pub trait Monoid: Sized {
    spec fn spec_id() -> Self;

    spec fn spec_op(a: Self, b: Self) -> Self;

    /// Associativity and the two identity laws.
    proof fn lemma_monoid_laws(a: Self, b: Self, c: Self)
        ensures
            Self::spec_op(Self::spec_op(a, b), c) == Self::spec_op(a, Self::spec_op(b, c)),
            Self::spec_op(Self::spec_id(), a) == a,
            Self::spec_op(a, Self::spec_id()) == a,
    ;

    fn id() -> (r: Self)
        ensures
            r == Self::spec_id(),
    ;

    fn op(&self, other: &Self) -> (r: Self)
        ensures
            r == Self::spec_op(*self, *other),
    ;
}

/// The product of the elements of `s`, from left to right.
pub open spec fn fold<T: Monoid>(s: Seq<T>) -> T
    decreases s.len(),
{
    if s.len() == 0 {
        T::spec_id()
    } else {
        T::spec_op(fold(s.drop_last()), s.last())
    }
}

pub proof fn lemma_fold_single<T: Monoid>(a: T)
    ensures
        fold(seq![a]) == a,
{
    assert(seq![a].drop_last() =~= Seq::<T>::empty());
    assert(fold(Seq::<T>::empty()) == T::spec_id());
    assert(fold(seq![a]) == T::spec_op(fold(seq![a].drop_last()), seq![a].last()));
    T::lemma_monoid_laws(a, a, a);
}

/// The product over a concatenation is the product of the two products.
pub proof fn lemma_fold_concat<T: Monoid>(a: Seq<T>, b: Seq<T>)
    ensures
        fold(a + b) == T::spec_op(fold(a), fold(b)),
    decreases b.len(),
{
    if b.len() == 0 {
        assert(a + b =~= a);
        T::lemma_monoid_laws(fold(a), fold(a), fold(a));
    } else {
        lemma_fold_concat(a, b.drop_last());
        assert((a + b).drop_last() =~= a + b.drop_last());
        assert((a + b).last() == b.last());
        T::lemma_monoid_laws(fold(a), fold(b.drop_last()), b.last());
    }
}

/// The larger of two values, with 0 as identity.
#[derive(Clone, Copy, PartialEq, Eq, Structural, Debug)]
pub struct Max(pub u32);

impl Monoid for Max {
    open spec fn spec_id() -> Self {
        Max(0)
    }

    open spec fn spec_op(a: Self, b: Self) -> Self {
        if a.0 < b.0 {
            b
        } else {
            a
        }
    }

    proof fn lemma_monoid_laws(a: Self, b: Self, c: Self) {
    }

    fn id() -> (r: Self) {
        Max(0)
    }

    fn op(&self, other: &Self) -> (r: Self) {
        if self.0 < other.0 {
            *other
        } else {
            *self
        }
    }
}

/// Addition modulo `2^32`, with 0 as identity.
#[derive(Clone, Copy, PartialEq, Eq, Structural, Debug)]
pub struct Sum(pub u32);

impl Monoid for Sum {
    open spec fn spec_id() -> Self {
        Sum(0)
    }

    open spec fn spec_op(a: Self, b: Self) -> Self {
        Sum(((a.0 + b.0) % 0x1_0000_0000) as u32)
    }

    proof fn lemma_monoid_laws(a: Self, b: Self, c: Self) {
        let m: int = 0x1_0000_0000;
        vstd::arithmetic::div_mod::lemma_add_mod_noop(a.0 as int + b.0 as int, c.0 as int, m);
        vstd::arithmetic::div_mod::lemma_add_mod_noop(a.0 as int, b.0 as int + c.0 as int, m);
        vstd::arithmetic::div_mod::lemma_mod_twice(a.0 as int + b.0 as int, m);
        vstd::arithmetic::div_mod::lemma_mod_twice(b.0 as int + c.0 as int, m);
        vstd::arithmetic::div_mod::lemma_small_mod(a.0 as nat, m as nat);
        vstd::arithmetic::div_mod::lemma_small_mod(c.0 as nat, m as nat);
        vstd::arithmetic::div_mod::lemma_small_mod(b.0 as nat, m as nat);
        assert((((a.0 + b.0) % m) as u32 + c.0) % m == (a.0 + b.0 + c.0) % m);
        assert((a.0 + ((b.0 + c.0) % m) as u32) % m == (a.0 + b.0 + c.0) % m);
    }

    fn id() -> (r: Self) {
        Sum(0)
    }

    fn op(&self, other: &Self) -> (r: Self) {
        Sum(self.0.wrapping_add(other.0))
    }
}

} // verus!
