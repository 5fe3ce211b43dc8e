use vstd::prelude::*;

verus! {

/// Bit `i` of `s` is clear.
pub open spec fn bit_clear(s: usize, i: usize) -> bool {
    s & (1usize << i) == 0
}

/// One layer of the superset transform: every `s < size` with bit `i` clear combines
/// its value with that of `s | 1 << i`, by one call of `f`.
pub open spec fn zeta_layer<T, F: Fn(&T, &T) -> T>(
    before: Seq<T>,
    after: Seq<T>,
    i: usize,
    size: usize,
    f: F,
) -> bool {
    &&& after.len() == before.len()
    &&& forall|s: usize|
        #![trigger after[s as int]]
        (s as int) < after.len() ==> if s < size && bit_clear(s, i) {
            f.ensures((&before[s as int], &before[(s | (1usize << i)) as int]), after[s as int])
        } else {
            after[s as int] == before[s as int]
        }
}

proof fn lemma_partner(s: usize, i: usize, k: usize)
    requires
        i < k,
        k < usize::BITS,
        s < (1usize << k),
        bit_clear(s, i),
    ensures
        s < (s | (1usize << i)) < (1usize << k),
        !bit_clear(s | (1usize << i), i),
{
    assert(s < (s | (1usize << i)) && (s | (1usize << i)) < (1usize << k)) by (bit_vector)
        requires
            i < k,
            k < usize::BITS,
            s < (1usize << k),
            s & (1usize << i) == 0,
    ;
    assert((s | (1usize << i)) & (1usize << i) != 0) by (bit_vector)
        requires
            i < usize::BITS,
    ;
}

/// The superset zeta transform over the first `2^k` entries: layer by layer for the
/// bits `0..k`, `a[s]` becomes `f(a[s], a[s | 1 << i])` for each `s` without bit `i`.
pub fn zeta_superset<T, F: Fn(&T, &T) -> T>(a: &mut [T], k: usize, f: F)
    requires
        k < usize::BITS,
        old(a)@.len() >= (1usize << k),
        forall|x: &T, y: &T| #[trigger] f.requires((x, y)),
    ensures
        exists|layers: Seq<Seq<T>>|
            {
                &&& layers.len() == k + 1
                &&& layers[0] == old(a)@
                &&& layers[k as int] == final(a)@
                &&& forall|i: int|
                    0 <= i < k ==> zeta_layer(#[trigger] layers[i], layers[i + 1], i as usize, (1usize << k), f)
            },
{
    let size: usize = 1usize << k;
    let ghost mut layers: Seq<Seq<T>> = seq![a@];
    let mut i: usize = 0;
    while i < k
        invariant
            i <= k,
            k < usize::BITS,
            size == (1usize << k),
            a@.len() >= size,
            forall|x: &T, y: &T| #[trigger] f.requires((x, y)),
            layers.len() == i + 1,
            layers[0] == old(a)@,
            layers[i as int] == a@,
            forall|j: int| 0 <= j < i ==> zeta_layer(#[trigger] layers[j], layers[j + 1], j as usize, size, f),
        decreases k - i,
    {
        let ghost before = a@;
        let bit: usize = 1usize << i;
        let mut s: usize = 0;
        while s < size
            invariant
                i < k,
                k < usize::BITS,
                size == (1usize << k),
                bit == (1usize << i),
                a@.len() == before.len(),
                before.len() >= size,
                s <= size,
                forall|x: &T, y: &T| #[trigger] f.requires((x, y)),
                forall|t: usize|
                    #![trigger a@[t as int]]
                    (t as int) < a@.len() ==> if t < s && bit_clear(t, i) {
                        f.ensures((&before[t as int], &before[(t | (1usize << i)) as int]), a@[t as int])
                    } else {
                        a@[t as int] == before[t as int]
                    },
            decreases size - s,
        {
            if s & bit == 0 {
                proof {
                    lemma_partner(s, i, k);
                }
                let t = s | bit;
                let x = f(&a[s], &a[t]);
                a[s] = x;
            }
            s += 1;
        }
        proof {
            layers = layers.push(a@);
            assert(zeta_layer(before, a@, i, size, f));
            assert forall|j: int| 0 <= j < i + 1 implies zeta_layer(#[trigger] layers[j], layers[j + 1], j as usize, size, f) by {
                if j < i {
                    assert(layers[j] == layers.drop_last()[j]);
                }
            }
        }
        i += 1;
    }
    assert(layers[k as int] == a@);
}

} // verus!
