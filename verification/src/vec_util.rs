use vstd::prelude::*;

verus! {

/// Moves the elements of `v` into a new vector in reverse order.
pub(crate) fn reverse_vec<T>(v: Vec<T>) -> (r: Vec<T>)
    ensures
        r@ == v@.reverse(),
{
    let mut v = v;
    let ghost orig = v@;
    let mut r: Vec<T> = Vec::new();
    while v.len() > 0
        invariant
            v@ == orig.subrange(0, v@.len() as int),
            r@.len() + v@.len() == orig.len(),
            forall|i: int| 0 <= i < r@.len() ==> #[trigger] r@[i] == orig[orig.len() - 1 - i],
        decreases v.len(),
    {
        let x = v.pop().unwrap();
        r.push(x);
    }
    assert(r@ =~= orig.reverse());
    r
}


pub(crate) fn vec_swap<T>(v: &mut Vec<T>, i: usize, j: usize)
    requires
        i < j < old(v)@.len(),
    ensures
        final(v)@ == old(v)@.update(i as int, old(v)@[j as int]).update(j as int, old(v)@[i as int]),
{
    let (a, b) = v.as_mut_slice().split_at_mut(j);
    std::mem::swap(&mut a[i], &mut b[0]);
}

} // verus!
