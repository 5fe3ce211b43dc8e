use vstd::prelude::*;

verus! {

/// Bit `c` of `x` is set.
pub open spec fn bit(x: u64, c: int) -> bool {
    (x >> (c as u64)) & 1 == 1
}

/// The lowest set bit of `x` is bit `c`.
pub open spec fn lowest_bit(x: u64, c: int) -> bool {
    &&& 0 <= c < 64
    &&& bit(x, c)
    &&& forall|d: int| 0 <= d < c ==> !#[trigger] bit(x, d)
}

/// The rows `a` are in reduced echelon form over the columns `0..n` with pivot
/// columns `cols`: each of the first `cols.len()` rows has its lowest set bit at its
/// pivot column, the pivot columns increase, every other row is clear there, and the
/// remaining rows are clear in all columns below `n`.
pub open spec fn reduced_echelon(a: Seq<u64>, cols: Seq<int>, n: int) -> bool {
    &&& cols.len() <= a.len()
    &&& forall|p: int, q: int| 0 <= p < q < cols.len() ==> cols[p] < cols[q]
    &&& forall|p: int| 0 <= p < cols.len() ==> #[trigger] cols[p] < n && lowest_bit(a[p], cols[p])
    &&& forall|p: int, q: int|
        0 <= p < cols.len() && 0 <= q < a.len() && q != p ==> !bit(#[trigger] a[q], #[trigger] cols[p])
    &&& forall|q: int, d: int| cols.len() <= q < a.len() && 0 <= d < n ==> !#[trigger] bit(a[q], d)
}

proof fn lemma_xor_bit(x: u64, y: u64, c: int)
    requires
        0 <= c < 64,
    ensures
        bit(x ^ y, c) == (bit(x, c) != bit(y, c)),
{
    let s = c as u64;
    assert((((x ^ y) >> s) & 1 == 1) == (((x >> s) & 1 == 1) != ((y >> s) & 1 == 1))) by (bit_vector)
        requires
            s < 64,
    ;
}

proof fn lemma_low_bit(x: u64)
    ensures
        x & 1 == 0 || x & 1 == 1,
{
    assert(x & 1 == 0 || x & 1 == 1) by (bit_vector);
}

/// Gaussian elimination over GF(2) on the rows `a`, each a bit vector whose bit `c`
/// is column `c`, over the columns `0..a.len()`. Returns the rank.
pub fn elimination_f2(a: &mut [u64]) -> (r: usize)
    requires
        old(a)@.len() <= 64,
    ensures
        final(a)@.len() == old(a)@.len(),
        r <= old(a)@.len(),
        exists|cols: Seq<int>|
            cols.len() == r && #[trigger] reduced_echelon(final(a)@, cols, old(a)@.len() as int),
{
    let n = a.len();
    let mut k: usize = 0;
    let mut i: usize = 0;
    let ghost mut cols: Seq<int> = Seq::empty();
    while i < n
        invariant
            n == a@.len(),
            n <= 64,
            k <= i <= n,
            cols.len() == k,
            forall|p: int| 0 <= p < k ==> #[trigger] cols[p] < i,
            reduced_echelon(a@, cols, i as int),
        decreases n - i,
    {
        let mut j = k;
        while j < n && (a[j] >> i as u64) & 1 == 0
            invariant
                n == a@.len(),
                k <= j <= n,
                i < 64,
                forall|q: int| k <= q < j ==> !bit(#[trigger] a@[q], i as int),
            decreases n - j,
        {
            j += 1;
        }
        if j < n {
            let ghost a0 = a@;
            proof {
                lemma_low_bit(a0[j as int] >> i as u64);
            }
            let t = a[k];
            a[k] = a[j];
            a[j] = t;
            let ghost b0 = a@;
            proof {
                assert forall|q: int| 0 <= q < n implies (#[trigger] b0[q] == a0[q] || (q == k && b0[q]
                    == a0[j as int]) || (q == j && b0[q] == a0[k as int])) by {}
                assert forall|d: int| 0 <= d < i implies !#[trigger] bit(b0[k as int], d) by {
                    assert(b0[k as int] == a0[j as int]);
                }
            }
            let piv = a[k];
            let mut l: usize = 0;
            while l < n
                invariant
                    n == a@.len(),
                    n == b0.len(),
                    k < n,
                    i < 64,
                    l <= n,
                    piv == b0[k as int],
                    forall|q: int|
                        0 <= q < l && q != k ==> #[trigger] a@[q] == if bit(b0[q], i as int) {
                            b0[q] ^ piv
                        } else {
                            b0[q]
                        },
                    forall|q: int| 0 <= q < n && (l <= q || q == k) ==> #[trigger] a@[q] == b0[q],
                decreases n - l,
            {
                if l != k && (a[l] >> i as u64) & 1 == 1 {
                    let x = a[l] ^ piv;
                    a[l] = x;
                }
                l += 1;
            }
            proof {
                let ghost c2 = cols.push(i as int);
                let fa = a@;
                // what each row becomes, bit by bit
                assert forall|q: int, d: int| 0 <= q < n && q != k && 0 <= d < 64 implies #[trigger] bit(
                    fa[q],
                    d,
                ) == if bit(b0[q], i as int) {
                    bit(b0[q], d) != bit(piv, d)
                } else {
                    bit(b0[q], d)
                } by {
                    if bit(b0[q], i as int) {
                        lemma_xor_bit(b0[q], piv, d);
                    }
                }
                assert(lowest_bit(piv, i as int)) by {
                    assert(bit(b0[k as int], i as int));
                }
                assert forall|p: int| 0 <= p < c2.len() implies #[trigger] c2[p] < i + 1 && lowest_bit(
                    fa[p],
                    c2[p],
                ) by {
                    if p < k {
                        assert(cols[p] < i);
                        assert(lowest_bit(b0[p], cols[p]));
                        assert(!bit(b0[k as int], cols[p]));
                        assert forall|d: int| 0 <= d < c2[p] implies !#[trigger] bit(fa[p], d) by {
                            assert(!bit(b0[p], d));
                        }
                        assert(bit(fa[p], c2[p]));
                    }
                }
                assert forall|p: int, q: int|
                    0 <= p < c2.len() && 0 <= q < n && q != p implies !bit(#[trigger] fa[q], #[trigger] c2[p]) by {
                    if p < k {
                        assert(!bit(b0[k as int], cols[p]));
                        if q != k {
                            assert(!bit(b0[q], cols[p]));
                        } else {
                            assert(cols[p] < i);
                        }
                    } else {
                        assert(c2[p] == i);
                    }
                }
                assert forall|q: int, d: int| c2.len() <= q < n && 0 <= d < i + 1 implies !#[trigger] bit(fa[q], d) by {
                    assert(q != k);
                    if d < i {
                        assert(!bit(b0[q], d));
                        assert(!bit(piv, d));
                    }
                }
                assert forall|p: int, q: int| 0 <= p < q < c2.len() implies c2[p] < c2[q] by {
                    if q == k {
                        assert(cols[p] < i);
                    }
                }
                assert(reduced_echelon(fa, c2, i + 1));
                cols = c2;
            }
            k += 1;
        } else {
            proof {
                assert forall|q: int, d: int| cols.len() <= q < n && 0 <= d < i + 1 implies !#[trigger] bit(a@[q], d) by {
                    if d == i {
                        assert(!bit(a@[q], i as int));
                    }
                }
            }
        }
        i += 1;
    }
    k
}

} // verus!
