use vstd::prelude::*;

verus! {

/// Bit `j` of `w`.
pub open spec fn bit(w: u64, j: u64) -> bool {
    (w >> j) & 1 == 1
}

/// How a bit changes under an operation on a range.
#[derive(Clone, Copy, PartialEq, Eq, Structural, Debug)]
pub enum BitOp {
    Flip,
    Fill,
    Clear,
}

pub open spec fn apply_bit_op(op: BitOp, b: bool) -> bool {
    match op {
        BitOp::Flip => !b,
        BitOp::Fill => true,
        BitOp::Clear => false,
    }
}

proof fn lemma_word_ops(w: u64, m: u64, j: u64)
    requires
        j < 64,
    ensures
        bit(w | m, j) == (bit(w, j) || bit(m, j)),
        bit(w & !m, j) == (bit(w, j) && !bit(m, j)),
        bit(w ^ m, j) == (bit(w, j) != bit(m, j)),
        bit(!w, j) == !bit(w, j),
        bit(!0u64, j),
        !bit(0u64, j),
{
    assert(((w | m) >> j) & 1 == 1 <==> ((w >> j) & 1 == 1 || (m >> j) & 1 == 1)) by (bit_vector)
        requires j < 64;
    assert(((w & !m) >> j) & 1 == 1 <==> ((w >> j) & 1 == 1 && !((m >> j) & 1 == 1))) by (bit_vector)
        requires j < 64;
    assert(((w ^ m) >> j) & 1 == 1 <==> ((w >> j) & 1 == 1) != ((m >> j) & 1 == 1)) by (bit_vector)
        requires j < 64;
    assert(((!w) >> j) & 1 == 1 <==> !((w >> j) & 1 == 1)) by (bit_vector)
        requires j < 64;
    assert(((!0u64) >> j) & 1 == 1) by (bit_vector)
        requires j < 64;
    assert(!((0u64 >> j) & 1 == 1)) by (bit_vector);
}

proof fn lemma_masks(j: u64, lo: u64, hi: u64)
    requires
        j < 64,
        lo < 64,
        0 < hi < 64,
    ensures
        bit(!0u64 << lo, j) == (j >= lo),
        bit(!0u64 >> ((64 - hi) as u64), j) == (j < hi),
        bit((!0u64 << lo) & (!0u64 >> ((64 - hi) as u64)), j) == (lo <= j < hi),
        bit(1u64 << lo, j) == (j == lo),
{
    assert((((!0u64) << lo) >> j) & 1 == 1 <==> j >= lo) by (bit_vector)
        requires j < 64, lo < 64;
    assert((((!0u64) >> ((64 - hi) as u64)) >> j) & 1 == 1 <==> j < hi) by (bit_vector)
        requires j < 64, 0 < hi < 64;
    assert(((((!0u64) << lo) & ((!0u64) >> ((64 - hi) as u64))) >> j) & 1 == 1 <==> (lo <= j && j < hi)) by (bit_vector)
        requires j < 64, lo < 64, 0 < hi < 64;
    assert(((1u64 << lo) >> j) & 1 == 1 <==> j == lo) by (bit_vector)
        requires j < 64, lo < 64;
}

/// A fixed-size set of bits, 64 to a word.
pub struct BitSet(Vec<u64>);

impl BitSet {
    /// The bits, bit `x` being bit `x % 64` of word `x / 64`.
    pub closed spec fn view(&self) -> Seq<bool> {
        Seq::new((64 * self.0@.len()) as nat, |x: int| bit(self.0@[x / 64], (x % 64) as u64))
    }

    /// At least `n + 1` bits, all equal to `b`.
    pub fn new(n: usize, b: bool) -> (s: Self)
        ensures
            s.view().len() == 64 * (n / 64 + 1),
            forall|x: int| 0 <= x < s.view().len() ==> #[trigger] s.view()[x] == b,
    {
        let x: u64 = if b { !0u64 } else { 0 };
        let words = vec![x; n / 64 + 1];
        let s = BitSet(words);
        assert forall|k: int| 0 <= k < s.view().len() implies #[trigger] s.view()[k] == b by {
            lemma_word_ops(x, x, (k % 64) as u64);
        }
        s
    }

    pub fn get(&self, i: usize) -> (r: bool)
        requires
            i < self.view().len(),
        ensures
            r == self.view()[i as int],
    {
        (self.0[i / 64] >> ((i % 64) as u64)) & 1 == 1
    }

    pub fn set(&mut self, i: usize, b: bool)
        requires
            i < old(self).view().len(),
        ensures
            final(self).view() == old(self).view().update(i as int, b),
    {
        let ghost v0 = self.view();
        let q = i / 64;
        let r = (i % 64) as u64;
        let w = self.0[q];
        let mask: u64 = 1u64 << r;
        let nw = if b { w | mask } else { w & !mask };
        self.0.set(q, nw);
        assert forall|x: int| 0 <= x < v0.len() implies #[trigger] self.view()[x] == v0.update(i as int, b)[x] by {
            if x / 64 == q as int {
                let j = (x % 64) as u64;
                lemma_word_ops(w, mask, j);
                lemma_masks(j, r, 1);
            }
        }
        assert(self.view() =~= v0.update(i as int, b));
    }

    /// Flips the bits `l..r` (the part of them that exists).
    pub fn flip(&mut self, l: usize, r: usize)
        requires
            l <= r,
            l < old(self).view().len(),
            !(l == r && l % 64 == 0),
        ensures
            final(self).view().len() == old(self).view().len(),
            forall|x: int|
                0 <= x < old(self).view().len() ==> #[trigger] final(self).view()[x] == if l <= x < r {
                    !old(self).view()[x]
                } else {
                    old(self).view()[x]
                },
    {
        self.modify_range(l, r, BitOp::Flip);
    }

    /// Sets the bits `l..r` (the part of them that exists) to `b`.
    pub fn fill(&mut self, l: usize, r: usize, b: bool)
        requires
            l <= r,
            l < old(self).view().len(),
            !(l == r && l % 64 == 0),
        ensures
            final(self).view().len() == old(self).view().len(),
            forall|x: int|
                0 <= x < old(self).view().len() ==> #[trigger] final(self).view()[x] == if l <= x < r {
                    b
                } else {
                    old(self).view()[x]
                },
    {
        if b {
            self.modify_range(l, r, BitOp::Fill);
        } else {
            self.modify_range(l, r, BitOp::Clear);
        }
    }

    /// Applies `op` to the bits of `w` under `mask`.
    fn word_op(w: u64, mask: u64, op: BitOp) -> (r: u64)
        ensures
            forall|j: u64| j < 64 ==> #[trigger] bit(r, j) == if bit(mask, j) {
                apply_bit_op(op, bit(w, j))
            } else {
                bit(w, j)
            },
    {
        let r = match op {
            BitOp::Flip => w ^ mask,
            BitOp::Fill => w | mask,
            BitOp::Clear => w & !mask,
        };
        assert forall|j: u64| j < 64 implies #[trigger] bit(r, j) == if bit(mask, j) {
            apply_bit_op(op, bit(w, j))
        } else {
            bit(w, j)
        } by {
            lemma_word_ops(w, mask, j);
        }
        r
    }

    fn modify_range(&mut self, l: usize, r: usize, op: BitOp)
        requires
            l <= r,
            l / 64 < old(self).0@.len(),
            !(l == r && l % 64 == 0),
        ensures
            final(self).view().len() == old(self).view().len(),
            forall|x: int|
                0 <= x < old(self).view().len() ==> #[trigger] final(self).view()[x] == if l <= x < r {
                    apply_bit_op(op, old(self).view()[x])
                } else {
                    old(self).view()[x]
                },
    {
        let ghost v0 = self.view();
        let ghost w0 = self.0@;
        let len = self.0.len();
        let ldiv = l / 64;
        let lrem = (l % 64) as u64;
        let rdiv = r / 64;
        let rrem = (r % 64) as u64;
        if ldiv == rdiv {
            let mask = (!0u64 << lrem) & (!0u64 >> (64 - rrem));
            let w = self.0[ldiv];
            let nw = Self::word_op(w, mask, op);
            self.0.set(ldiv, nw);
            assert forall|x: int| 0 <= x < v0.len() implies #[trigger] self.view()[x] == if l <= x < r {
                apply_bit_op(op, v0[x])
            } else {
                v0[x]
            } by {
                if x / 64 == ldiv as int {
                    lemma_masks((x % 64) as u64, lrem, rrem);
                }
            }
        } else {
            let lmask = !0u64 << lrem;
            let w = self.0[ldiv];
            let nw = Self::word_op(w, lmask, op);
            self.0.set(ldiv, nw);
            let end = if rdiv < len { rdiv } else { len };
            let mut k = ldiv + 1;
            while k < end
                invariant
                    ldiv < k <= end <= len,
                    end <= rdiv,
                    len == w0.len(),
                    self.0@.len() == len,
                    self.0@[ldiv as int] == nw,
                    forall|q: int| 0 <= q < len && (q < ldiv || q >= k) ==> #[trigger] self.0@[q] == w0[q],
                    forall|q: int, j: u64|
                        ldiv < q < k && j < 64 ==> #[trigger] bit(self.0@[q], j) == apply_bit_op(op, bit(w0[q], j)),
                decreases end - k,
            {
                let full = Self::word_op(self.0[k], !0u64, op);
                proof {
                    assert forall|j: u64| j < 64 implies bit(!0u64, j) by {
                        lemma_word_ops(0, 0, j);
                    }
                }
                self.0.set(k, full);
                k += 1;
            }
            let ghost mid = self.0@;
            if rdiv < len && rrem != 0 {
                let rmask = !0u64 >> (64 - rrem);
                let w2 = self.0[rdiv];
                let nw2 = Self::word_op(w2, rmask, op);
                self.0.set(rdiv, nw2);
            }
            assert forall|x: int| 0 <= x < v0.len() implies #[trigger] self.view()[x] == if l <= x < r {
                apply_bit_op(op, v0[x])
            } else {
                v0[x]
            } by {
                let q = x / 64;
                let j = (x % 64) as u64;
                if q == ldiv as int {
                    lemma_masks(j, lrem, 1);
                } else if ldiv < q < end {
                    lemma_word_ops(0, 0, j);
                } else if q == rdiv as int && rrem != 0 {
                    lemma_masks(j, 0, rrem);
                }
            }
        }
        assert(self.view().len() == v0.len());
    }
}

} // verus!
