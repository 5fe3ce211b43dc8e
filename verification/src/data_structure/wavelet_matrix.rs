use vstd::prelude::*;
use vstd::arithmetic::power2::{pow2, lemma2_to64, lemma_pow2_unfold, lemma_pow2_pos, lemma_pow2_strictly_increases};
use vstd::arithmetic::div_mod::{lemma_mod_breakdown, lemma_div_denominator};

verus! {

/// The number of set bits of `x`.
#[verifier::opaque]
pub open spec fn popcount(x: nat) -> nat
    decreases x,
{
    if x == 0 {
        0
    } else {
        popcount(x / 2) + x % 2
    }
}

/// The number of set bits of `x` below bit `s`.
#[verifier::opaque]
spec fn low_count(x: nat, s: nat) -> nat {
    popcount(x % pow2(s))
}

/// Bit `s` of `x`.
#[verifier::opaque]
spec fn bit_of(x: nat, s: nat) -> nat {
    (x / pow2(s)) % 2
}

/// Adding the next bit to a low-bit window adds that bit to the count.
proof fn lemma_popcount_step(x: nat, s: nat)
    ensures
        popcount(x % pow2(s + 1)) == popcount(x % pow2(s)) + (x / pow2(s)) % 2,
    decreases s,
{
    reveal(popcount);
    lemma_pow2_pos(s);
    lemma_pow2_unfold(s + 1);
    if s == 0 {
        vstd::arithmetic::power2::lemma2_to64();
        assert(x % 1 == 0);
        let b = x % 2;
        assert(b / 2 == 0);
        assert(popcount(b) == popcount(b / 2) + b % 2);
        assert(x / 1 == x);
    } else {
        let h: nat = x / 2;
        lemma_pow2_unfold(s);
        lemma_pow2_pos((s - 1) as nat);
        lemma_mod_breakdown(x as int, 2, pow2(s) as int);
        lemma_mod_breakdown(x as int, 2, pow2((s - 1) as nat) as int);
        let y: nat = x % pow2(s + 1);
        let z: nat = x % pow2(s);
        assert(y == 2 * (h % pow2(s)) + x % 2);
        assert(z == 2 * (h % pow2((s - 1) as nat)) + x % 2);
        assert(y / 2 == h % pow2(s) && y % 2 == x % 2);
        assert(z / 2 == h % pow2((s - 1) as nat) && z % 2 == x % 2);
        lemma_popcount_step(h, (s - 1) as nat);
        lemma_div_denominator(x as int, 2, pow2((s - 1) as nat) as int);
        if y == 0 {
            assert(h % pow2(s) == 0 && x % 2 == 0);
        }
        if z == 0 {
            assert(h % pow2((s - 1) as nat) == 0 && x % 2 == 0);
        }
    }
}

/// The window count grows by the next bit, which is 0 or 1.
proof fn lemma_low_count_step(x: nat, s: nat)
    ensures
        low_count(x, s + 1) == low_count(x, s) + bit_of(x, s),
        bit_of(x, s) <= 1,
{
    reveal(low_count);
    reveal(bit_of);
    lemma_popcount_step(x, s);
}

proof fn lemma_low_count_zero(x: nat)
    ensures
        low_count(x, 0) == 0,
{
    reveal(low_count);
    reveal(popcount);
    lemma2_to64();
    assert(x % 1 == 0);
}

/// At most `s` bits are set below bit `s`.
proof fn lemma_popcount_window(x: nat, s: nat)
    ensures
        low_count(x, s) <= s,
    decreases s,
{
    if s == 0 {
        lemma_low_count_zero(x);
    } else {
        let t = (s - 1) as nat;
        lemma_low_count_step(x, t);
        lemma_popcount_window(x, t);
    }
}

proof fn lemma_popcount_zero()
    ensures
        popcount(0) == 0,
{
    reveal(popcount);
}

/// A word of 64 bits has at most 64 set bits, all of them below bit 64.
proof fn lemma_popcount_u64(x: u64)
    ensures
        popcount(x as nat) <= 64,
        popcount(x as nat) == low_count(x as nat, 64),
{
    reveal(low_count);
    lemma2_to64();
    vstd::arithmetic::power2::lemma2_to64_rest();
    assert(x as nat % pow2(64) == x as nat);
    lemma_popcount_window(x as nat, 64);
}

/// The number of set bits of `x`, one bit at a time.
fn count_ones(x: u64) -> (r: u32)
    ensures
        r == popcount(x as nat),
{
    let mut v = x;
    let mut c: u32 = 0;
    proof {
        lemma_popcount_u64(x);
    }
    while v > 0
        invariant
            c + popcount(v as nat) == popcount(x as nat),
            popcount(x as nat) <= 64,
        decreases v,
    {
        proof {
            reveal(popcount);
            assert(popcount(v as nat) == popcount((v / 2) as nat) + (v % 2) as nat);
        }
        c = c + (v % 2) as u32;
        v = v / 2;
    }
    proof {
        lemma_popcount_zero();
    }
    c
}

/// Bit `b` of `y` is set.
pub open spec fn has_bit(y: u32, b: int) -> bool {
    (y >> (b as u32)) & 1 == 1
}

/// The values of `s` whose bit `b` is `v`, in their order.
pub open spec fn part(s: Seq<u32>, b: int, v: bool) -> Seq<u32>
    decreases s.len(),
{
    if s.len() == 0 {
        s
    } else {
        let r = part(s.drop_last(), b, v);
        if has_bit(s.last(), b) == v {
            r.push(s.last())
        } else {
            r
        }
    }
}

/// The number of entries of `s` equal to `x`.
pub open spec fn occurrences(s: Seq<u32>, x: u32) -> nat
    decreases s.len(),
{
    if s.len() == 0 {
        0
    } else {
        occurrences(s.drop_last(), x) + if s.last() == x {
            1nat
        } else {
            0nat
        }
    }
}

/// `s` reordered stably by bit `b`, zeros first.
pub open spec fn reorder(s: Seq<u32>, b: int) -> Seq<u32> {
    part(s, b, false) + part(s, b, true)
}

/// Every value of `s` agrees with `x` on bits `b` and up.
spec fn agrees(s: Seq<u32>, x: u32, b: int) -> bool {
    b >= 32 || forall|i: int| 0 <= i < s.len() ==> (#[trigger] s[i] >> (b as u32)) == x >> (b as u32)
}

/// The bits of `y` from bit `d` up, as a number.
spec fn high(y: u32, d: int) -> int {
    if d >= 32 {
        0
    } else {
        (y >> (d as u32)) as int
    }
}

/// The values of `w` that agree with `x` on bits `d` and up, in their order.
spec fn same_high(w: Seq<u32>, x: u32, d: int) -> Seq<u32>
    decreases w.len(),
{
    if w.len() == 0 {
        w
    } else {
        let r = same_high(w.drop_last(), x, d);
        if high(w.last(), d) == high(x, d) {
            r.push(w.last())
        } else {
            r
        }
    }
}

/// The number of values of `w` whose bits from `d` up are below those of `x`.
spec fn high_below(w: Seq<u32>, x: u32, d: int) -> nat
    decreases w.len(),
{
    if w.len() == 0 {
        0
    } else {
        high_below(w.drop_last(), x, d) + if high(w.last(), d) < high(x, d) {
            1nat
        } else {
            0nat
        }
    }
}

/// The number of values of `w` below `x`.
pub open spec fn count_below(w: Seq<u32>, x: u32) -> nat
    decreases w.len(),
{
    if w.len() == 0 {
        0
    } else {
        count_below(w.drop_last(), x) + if w.last() < x {
            1nat
        } else {
            0nat
        }
    }
}

/// Bits `d` and up compare as bits `d + 1` and up, then bit `d`.
proof fn lemma_high_step(y: u32, x: u32, x2: u32, d: int)
    requires
        0 <= d < 32,
        high(x2, d + 1) == high(x, d + 1),
    ensures
        (high(y, d) == high(x2, d)) == (high(y, d + 1) == high(x, d + 1) && has_bit(y, d) == has_bit(x2, d)),
        (high(y, d) < high(x2, d)) == (high(y, d + 1) < high(x, d + 1) || (high(y, d + 1) == high(x, d + 1)
            && !has_bit(y, d) && has_bit(x2, d))),
{
    let e = d as u32;
    let ye = y >> e;
    let xe = x2 >> e;
    let by = ye & 1 == 1;
    let bx = xe & 1 == 1;
    if d < 31 {
        let c = (d + 1) as u32;
        let yc = y >> c;
        let xc = x2 >> c;
        assert((ye == xe) == (yc == xc && by == bx) && (ye < xe) == (yc < xc || (yc == xc && !by && bx))) by (bit_vector)
            requires
                e < 31,
                c == e + 1,
                ye == y >> e,
                xe == x2 >> e,
                yc == y >> c,
                xc == x2 >> c,
                by == (ye & 1 == 1),
                bx == (xe & 1 == 1),
        ;
        assert(xc == (x >> c));
    } else {
        assert((ye == xe) == (by == bx) && (ye < xe) == (!by && bx)) by (bit_vector)
            requires
                e == 31,
                ye == y >> e,
                xe == x2 >> e,
                by == (ye & 1 == 1),
                bx == (xe & 1 == 1),
        ;
    }
}

proof fn lemma_same_high_top(w: Seq<u32>, x: u32)
    ensures
        same_high(w, x, 32) == w,
        high_below(w, x, 32) == 0,
    decreases w.len(),
{
    if w.len() > 0 {
        lemma_same_high_top(w.drop_last(), x);
        assert(w.drop_last().push(w.last()) =~= w);
    }
}

/// Splitting the values that agree on bits `d + 1` and up by bit `d`.
proof fn lemma_same_high_part(w: Seq<u32>, x: u32, x2: u32, d: int, v: bool)
    requires
        0 <= d < 32,
        high(x2, d + 1) == high(x, d + 1),
        has_bit(x2, d) == v,
    ensures
        part(same_high(w, x, d + 1), d, v) == same_high(w, x2, d),
        high_below(w, x2, d) == high_below(w, x, d + 1) + if v {
            part(same_high(w, x, d + 1), d, false).len()
        } else {
            0
        },
    decreases w.len(),
{
    if w.len() > 0 {
        let y = w.last();
        lemma_same_high_part(w.drop_last(), x, x2, d, v);
        lemma_high_step(y, x, x2, d);
        let r = same_high(w.drop_last(), x, d + 1);
        if high(y, d + 1) == high(x, d + 1) {
            assert(r.push(y).drop_last() =~= r);
        }
    }
}

/// On all bits, agreeing is being equal and being below is being smaller.
proof fn lemma_same_high_bottom(w: Seq<u32>, x: u32)
    ensures
        same_high(w, x, 0).len() == occurrences(w, x),
        high_below(w, x, 0) == count_below(w, x),
    decreases w.len(),
{
    if w.len() > 0 {
        lemma_same_high_bottom(w.drop_last(), x);
        let y = w.last();
        vstd::bits::lemma_u32_shr_is_div(y, 0);
        vstd::bits::lemma_u32_shr_is_div(x, 0);
        vstd::arithmetic::power2::lemma2_to64();
        assert(high(y, 0) == y && high(x, 0) == x);
    }
}

proof fn lemma_part_add(a: Seq<u32>, c: Seq<u32>, b: int, v: bool)
    ensures
        part(a + c, b, v) == part(a, b, v) + part(c, b, v),
    decreases c.len(),
{
    if c.len() == 0 {
        assert(a + c =~= a);
        assert(part(a, b, v) + part(c, b, v) =~= part(a, b, v));
    } else {
        lemma_part_add(a, c.drop_last(), b, v);
        assert((a + c).drop_last() =~= a + c.drop_last());
        assert((a + c).last() == c.last());
        if has_bit(c.last(), b) == v {
            assert(part(a, b, v) + part(c.drop_last(), b, v).push(c.last()) =~= (part(a, b, v) + part(
                c.drop_last(),
                b,
                v,
            )).push(c.last()));
        }
    }
}

proof fn lemma_part_len(s: Seq<u32>, b: int)
    ensures
        part(s, b, false).len() + part(s, b, true).len() == s.len(),
    decreases s.len(),
{
    if s.len() > 0 {
        lemma_part_len(s.drop_last(), b);
    }
}

/// The part of a window is the window of the part, between the counts of the part
/// before its ends.
proof fn lemma_part_window(s: Seq<u32>, b: int, v: bool, l: int, r: int)
    requires
        0 <= l <= r <= s.len(),
    ensures
        part(s.take(l), b, v).len() <= part(s.take(r), b, v).len() <= part(s, b, v).len(),
        part(s, b, v).subrange(part(s.take(l), b, v).len() as int, part(s.take(r), b, v).len() as int) == part(
            s.subrange(l, r),
            b,
            v,
        ),
{
    assert(s.take(r) =~= s.take(l) + s.subrange(l, r));
    lemma_part_add(s.take(l), s.subrange(l, r), b, v);
    assert(s =~= s.take(r) + s.skip(r));
    lemma_part_add(s.take(r), s.skip(r), b, v);
    let pl = part(s.take(l), b, v);
    let pm = part(s.subrange(l, r), b, v);
    let pr = part(s.skip(r), b, v);
    assert(part(s, b, v) =~= pl + pm + pr);
    assert((pl + pm + pr).subrange(pl.len() as int, (pl.len() + pm.len()) as int) =~= pm);
}

proof fn lemma_occurrences_part(s: Seq<u32>, x: u32, b: int)
    ensures
        occurrences(part(s, b, has_bit(x, b)), x) == occurrences(s, x),
    decreases s.len(),
{
    if s.len() > 0 {
        lemma_occurrences_part(s.drop_last(), x, b);
        let r = part(s.drop_last(), b, has_bit(x, b));
        if has_bit(s.last(), b) == has_bit(x, b) {
            assert(r.push(s.last()).drop_last() =~= r);
        }
    }
}

proof fn lemma_agrees_part(s: Seq<u32>, x: u32, b: int)
    requires
        0 <= b < 32,
        agrees(s, x, b + 1),
    ensures
        agrees(part(s, b, has_bit(x, b)), x, b),
    decreases s.len(),
{
    if s.len() > 0 {
        assert(agrees(s.drop_last(), x, b + 1)) by {
            if b + 1 < 32 {
                assert forall|i: int| 0 <= i < s.drop_last().len() implies (#[trigger] s.drop_last()[i] >> ((b
                    + 1) as u32)) == x >> ((b + 1) as u32) by {
                    assert(s.drop_last()[i] == s[i]);
                }
            }
        }
        lemma_agrees_part(s.drop_last(), x, b);
        let r = part(s.drop_last(), b, has_bit(x, b));
        if has_bit(s.last(), b) == has_bit(x, b) {
            let y = s.last();
            let bb = b as u32;
            assert((y >> bb) == (x >> bb)) by {
                assert(y == s[s.len() - 1]);
                lemma_high_step(y, x, x, b);
            }
            let r2 = r.push(y);
            assert forall|i: int| 0 <= i < r2.len() implies (#[trigger] r2[i] >> bb) == x >> bb by {
                if i < r.len() {
                    assert(r2[i] == r[i]);
                }
            }
        }
    }
}

proof fn lemma_occurrences_all(s: Seq<u32>, x: u32)
    requires
        agrees(s, x, 0),
    ensures
        occurrences(s, x) == s.len(),
    decreases s.len(),
{
    if s.len() > 0 {
        assert(agrees(s.drop_last(), x, 0)) by {
            assert forall|i: int| 0 <= i < s.drop_last().len() implies (#[trigger] s.drop_last()[i] >> 0u32) == x >> 0u32 by {
                assert(s.drop_last()[i] == s[i]);
            }
        }
        lemma_occurrences_all(s.drop_last(), x);
        let y = s.last();
        assert(y == s[s.len() - 1]);
        assert((y >> 0u32) == (x >> 0u32));
        assert(y == x) by (bit_vector)
            requires
                (y >> 0u32) == (x >> 0u32),
        ;
    }
}

/// Setting bit `k` of a word whose bits from `k` up are clear leaves the bits below
/// `k` and makes bit `k` the one set.
proof fn lemma_word_bits(old: u64, bv: u64, k: u64, j: u64)
    requires
        old < (1u64 << k),
        bv <= 1,
        k < 64,
        j <= k,
    ensures
        bit_of((old | (bv << k)) as nat, j as nat) == if j < k {
            bit_of(old as nat, j as nat)
        } else {
            bv as nat
        },
{
    reveal(bit_of);
    let w = old | (bv << k);
    let y = w >> j;
    let z = old >> j;
    vstd::bits::lemma_u64_shr_is_div(w, j);
    vstd::bits::lemma_u64_shr_is_div(old, j);
    assert((y & 1) == y % 2 && (z & 1) == z % 2 && (j < k ==> (y & 1) == (z & 1)) && (j == k ==> (y & 1) == bv))
        by (bit_vector)
        requires
            old < (1u64 << k),
            bv <= 1,
            k < 64,
            j <= k,
            w == old | (bv << k),
            y == w >> j,
            z == old >> j,
    ;
}

/// Each bit counted in turn: one more position adds its bit.
proof fn lemma_ones_before_next(bits: Seq<u64>, p: int)
    requires
        0 <= p,
        (p + 1) / 64 < bits.len(),
    ensures
        ones_before(bits, p + 1) == ones_before(bits, p) + bit_of(bits[p / 64] as nat, (p % 64) as nat),
{
    let q = p / 64;
    let sft = (p % 64) as nat;
    let x = bits[q] as nat;
    lemma_low_count_step(x, sft);
    if (p + 1) % 64 == 0 {
        assert((p + 1) / 64 == q + 1 && sft == 63);
        lemma_popcount_u64(bits[q]);
        lemma_low_count_zero(bits[q + 1] as nat);
    } else {
        assert((p + 1) / 64 == q && (p + 1) % 64 == sft + 1);
    }
}

/// When the bits hold bit `b` of each value of `s`, the ones before each position
/// count the values before it whose bit `b` is set.
proof fn lemma_level_counts(bits: Seq<u64>, s: Seq<u32>, b: int, p: int)
    requires
        0 <= p <= s.len(),
        s.len() / 64 < bits.len(),
        forall|j: int|
            0 <= j < s.len() ==> #[trigger] bit_of(bits[j / 64] as nat, (j % 64) as nat) == if has_bit(s[j], b) {
                1nat
            } else {
                0nat
            },
    ensures
        ones_before(bits, p) == part(s.take(p), b, true).len(),
    decreases p,
{
    if p == 0 {
        lemma_low_count_zero(bits[0] as nat);
        assert(s.take(0) =~= Seq::<u32>::empty());
    } else {
        lemma_level_counts(bits, s, b, p - 1);
        lemma_ones_before_next(bits, p - 1);
        assert(s.take(p).drop_last() =~= s.take(p - 1));
        assert(s.take(p).last() == s[p - 1]);
        assert(bit_of(bits[(p - 1) / 64] as nat, ((p - 1) % 64) as nat) == if has_bit(s[p - 1], b) {
            1nat
        } else {
            0nat
        });
    }
}

/// A bit sequence with the number of ones before each word.
struct BitVector {
    sum: Vec<u32>,
    bits: Vec<u64>,
}

/// The sum of the set-bit counts of the first `q` words.
spec fn words_ones(bits: Seq<u64>, q: int) -> nat
    decreases q,
{
    if q <= 0 {
        0
    } else {
        words_ones(bits, q - 1) + popcount(bits[q - 1] as nat)
    }
}

proof fn lemma_words_ones_update(bits: Seq<u64>, w: int, v: u64, q: int)
    requires
        0 <= w < bits.len(),
        0 <= q <= bits.len(),
    ensures
        words_ones(bits.update(w, v), q) == if q > w {
            words_ones(bits, q) - popcount(bits[w] as nat) + popcount(v as nat)
        } else {
            words_ones(bits, q) as int
        },
    decreases q,
{
    if q > 0 {
        lemma_words_ones_update(bits, w, v, q - 1);
    }
    if q > w {
        lemma_words_ones_le_prefix(bits, w, q);
    }
}

proof fn lemma_words_ones_le_prefix(bits: Seq<u64>, w: int, q: int)
    requires
        0 <= w < q <= bits.len(),
    ensures
        words_ones(bits, q) >= popcount(bits[w] as nat),
    decreases q,
{
    if q - 1 > w {
        lemma_words_ones_le_prefix(bits, w, q - 1);
    }
}

proof fn lemma_words_ones_le(bits: Seq<u64>, q: int)
    requires
        0 <= q <= bits.len(),
    ensures
        words_ones(bits, q) <= 64 * q,
    decreases q,
{
    if q > 0 {
        lemma_words_ones_le(bits, q - 1);
        lemma_popcount_u64(bits[q - 1]);
    }
}

/// The number of set bits among the first `p` bits.
spec fn ones_before(bits: Seq<u64>, p: int) -> int {
    (words_ones(bits, p / 64) + low_count(bits[p / 64] as nat, (p % 64) as nat)) as int
}

/// One more bit adds zero or one.
proof fn lemma_ones_before_step(bits: Seq<u64>, p: int)
    requires
        0 <= p,
        (p + 1) / 64 < bits.len(),
    ensures
        ones_before(bits, p) <= ones_before(bits, p + 1) <= ones_before(bits, p) + 1,
{
    let q = p / 64;
    let s = (p % 64) as nat;
    let x = bits[q] as nat;
    lemma_low_count_step(x, s);
    if (p + 1) % 64 == 0 {
        assert((p + 1) / 64 == q + 1 && s == 63);
        lemma_popcount_u64(bits[q]);
        lemma_low_count_zero(bits[q + 1] as nat);
    } else {
        assert((p + 1) / 64 == q && (p + 1) % 64 == s + 1);
    }
}

proof fn lemma_ones_before_mono(bits: Seq<u64>, l: int, r: int)
    requires
        0 <= l <= r,
        r / 64 < bits.len(),
    ensures
        0 <= ones_before(bits, r) - ones_before(bits, l) <= r - l,
    decreases r - l,
{
    if l < r {
        lemma_ones_before_mono(bits, l, r - 1);
        lemma_ones_before_step(bits, r - 1);
    }
}

proof fn lemma_ones_before_bounds(bits: Seq<u64>, r: int)
    requires
        0 <= r,
        r < 64 * bits.len(),
    ensures
        0 <= ones_before(bits, r) <= r,
        ones_before(bits, r) <= words_ones(bits, bits.len() as int),
{
    lemma_low_count_zero(bits[0] as nat);
    assert(ones_before(bits, 0) == 0);
    lemma_ones_before_mono(bits, 0, r);
    let last = 64 * bits.len() - 1;
    lemma_ones_before_mono(bits, r, last);
    let q = bits.len() - 1;
    assert(last / 64 == q && last % 64 == 63);
    lemma_low_count_step(bits[q] as nat, 63);
    lemma_popcount_u64(bits[q]);
}

proof fn lemma_words_ones_zero(bits: Seq<u64>, q: int)
    requires
        0 <= q <= bits.len(),
        forall|w: int| 0 <= w < q ==> #[trigger] bits[w] == 0,
    ensures
        words_ones(bits, q) == 0,
    decreases q,
{
    if q > 0 {
        lemma_words_ones_zero(bits, q - 1);
        lemma_popcount_zero();
    }
}

impl BitVector {
    spec fn wf(&self) -> bool {
        &&& self.sum@.len() == self.bits@.len() + 1
        &&& forall|w: int| 0 <= w <= self.bits@.len() ==> #[trigger] self.sum@[w] == words_ones(self.bits@, w)
    }

    fn new(bits: Vec<u64>) -> (bv: Self)
        requires
            64 * bits@.len() <= u32::MAX,
        ensures
            bv.wf(),
            bv.bits@ == bits@,
    {
        let mut sum: Vec<u32> = Vec::new();
        sum.push(0);
        let mut s: u32 = 0;
        let mut w: usize = 0;
        while w < bits.len()
            invariant
                w <= bits@.len(),
                64 * bits@.len() <= u32::MAX,
                sum@.len() == w + 1,
                s == sum@[w as int],
                forall|q: int| 0 <= q <= w ==> #[trigger] sum@[q] == words_ones(bits@, q),
            decreases bits@.len() - w,
        {
            let c = count_ones(bits[w]);
            proof {
                lemma_words_ones_le(bits@, w as int + 1);
            }
            s = s + c;
            sum.push(s);
            w += 1;
        }
        BitVector { sum, bits }
    }

    /// The number of ones among the first `r` bits.
    fn rank_one(&self, r: usize) -> (k: usize)
        requires
            self.wf(),
            r < 64 * self.bits@.len(),
            64 * self.bits@.len() <= u32::MAX,
        ensures
            k == ones_before(self.bits@, r as int),
    {
        let q = r / 64;
        let sh = (r % 64) as u64;
        proof {
            vstd::bits::lemma_u64_pow2_no_overflow(sh as nat);
            vstd::bits::lemma_u64_shl_is_mul(1, sh);
            vstd::bits::lemma_u64_low_bits_mask_is_mod(self.bits@[q as int], sh as nat);
        }
        let m: u64 = (1u64 << sh) - 1;
        let c = count_ones(self.bits[q] & m);
        proof {
            reveal(low_count);
            lemma_popcount_window(self.bits@[q as int] as nat, sh as nat);
            lemma_words_ones_le(self.bits@, q as int);
        }
        (self.sum[q] as usize) + (c as usize)
    }

    /// The number of zeros among the first `r` bits.
    fn rank_zero(&self, r: usize) -> (k: usize)
        requires
            self.wf(),
            r < 64 * self.bits@.len(),
            64 * self.bits@.len() <= u32::MAX,
        ensures
            k == r - ones_before(self.bits@, r as int),
    {
        let o = self.rank_one(r);
        proof {
            lemma_ones_before_bounds(self.bits@, r as int);
        }
        r - o
    }
}

/// A wavelet matrix over `u32` values: for each bit from the highest, the bits of the
/// values, which are then reordered stably with zeros first; each level keeps its count
/// of zeros. Beside the levels stand the orders of the values: the values as given
/// last, and each order before it the next reordered by one bit.
pub struct WaveletMatrix(Vec<(BitVector, usize)>, Ghost<Seq<Seq<u32>>>);

impl WaveletMatrix {
    /// The number of values.
    pub closed spec fn len(&self) -> nat {
        let lv = self.0@[0];
        (lv.1 + words_ones(lv.0.bits@, lv.0.bits@.len() as int)) as nat
    }

    /// The values, in the order given.
    pub closed spec fn values(&self) -> Seq<u32> {
        self.1@[32]
    }

    /// Each of the 32 levels holds one bit of every value, and its count of zeros: level
    /// `d` holds bit `d` of the values in order `d + 1`, and order `d` is order `d + 1`
    /// reordered by that bit.
    pub closed spec fn wf(&self) -> bool {
        &&& self.0@.len() == 32
        &&& self.len() + 64 <= u32::MAX
        &&& forall|d: int| 0 <= d < 32 ==> {
            let lv = #[trigger] self.0@[d];
            &&& lv.0.wf()
            &&& lv.0.bits@.len() == self.len() / 64 + 1
            &&& lv.1 + words_ones(lv.0.bits@, lv.0.bits@.len() as int) == self.len()
        }
        &&& self.1@.len() == 33
        &&& forall|d: int| 0 <= d <= 32 ==> (#[trigger] self.1@[d]).len() == self.len()
        &&& forall|d: int| 0 <= d < 32 ==> #[trigger] self.1@[d] == reorder(self.1@[d + 1], d)
        &&& forall|d: int| 0 <= d < 32 ==> #[trigger] self.0@[d].1 == part(self.1@[d + 1], d, false).len()
        &&& forall|d: int, p: int|
            0 <= d < 32 && 0 <= p <= self.len() ==> #[trigger] ones_before(self.0@[d].0.bits@, p) == part(
                self.1@[d + 1].take(p),
                d,
                true,
            ).len()
    }

    pub fn new(a: Vec<u32>) -> (w: Self)
        requires
            a@.len() + 64 <= u32::MAX,
        ensures
            w.wf(),
            w.len() == a@.len(),
            w.values() == a@,
    {
        let n = a.len();
        let ghost a0 = a@;
        let mut a = a;
        let mut mat: Vec<(BitVector, usize)> = Vec::new();
        let ghost mut hist: Seq<Seq<u32>> = seq![a0];
        let mut b: u32 = 32;
        while b > 0
            invariant
                a@.len() == n,
                n + 64 <= u32::MAX,
                b <= 32,
                mat@.len() == 32 - b,
                hist.len() == 33 - b,
                hist[0] == a0,
                hist.last() == a@,
                forall|k: int| 0 <= k < hist.len() ==> (#[trigger] hist[k]).len() == n,
                forall|k: int| 0 <= k < mat@.len() ==> #[trigger] hist[k + 1] == reorder(hist[k], 31 - k),
                forall|d: int| 0 <= d < mat@.len() ==> {
                    let lv = #[trigger] mat@[d];
                    &&& lv.0.wf()
                    &&& lv.0.bits@.len() == n / 64 + 1
                    &&& lv.1 + words_ones(lv.0.bits@, lv.0.bits@.len() as int) == n
                    &&& lv.1 == part(hist[d], 31 - d, false).len()
                    &&& forall|p: int| 0 <= p <= n ==> #[trigger] ones_before(lv.0.bits@, p) == part(
                        hist[d].take(p),
                        31 - d,
                        true,
                    ).len()
                },
            decreases b,
        {
            b -= 1;
            let words = n / 64 + 1;
            let mut bits: Vec<u64> = vec![0u64; words];
            let mut cnt_ones: usize = 0;
            let mut i: usize = 0;
            proof {
                lemma2_to64();
                assert(bits@ == Seq::new(words as nat, |w: int| 0u64));
                lemma_words_ones_zero(bits@, words as int);
                assert(a@.take(0) =~= Seq::<u32>::empty());
            }
            while i < n
                invariant
                    a@.len() == n,
                    n + 64 <= u32::MAX,
                    bits@.len() == words,
                    words == n / 64 + 1,
                    i <= n,
                    cnt_ones <= i,
                    b < 32,
                    words_ones(bits@, words as int) == cnt_ones,
                    cnt_ones == part(a@.take(i as int), b as int, true).len(),
                    (bits@[(i / 64) as int] as nat) < pow2((i % 64) as nat),
                    forall|w: int| i / 64 < w < words ==> #[trigger] bits@[w] == 0,
                    forall|j: int|
                        0 <= j < i ==> #[trigger] bit_of(bits@[j / 64] as nat, (j % 64) as nat) == if has_bit(
                            a@[j],
                            b as int,
                        ) {
                            1nat
                        } else {
                            0nat
                        },
                decreases n - i,
            {
                let q = i / 64;
                let k = (i % 64) as u64;
                let av = a[i];
                let bit = ((av >> b) & 1) as u64;
                let old_word = bits[q];
                let ghost b0 = bits@;
                proof {
                    vstd::bits::lemma_u64_pow2_no_overflow(k as nat);
                    vstd::bits::lemma_u64_shl_is_mul(1, k);
                    vstd::bits::lemma_u64_shl_is_mul(0, k);
                    lemma_pow2_unfold(k as nat + 1);
                    assert(bit <= 1) by (bit_vector)
                        requires bit == ((av >> b) & 1) as u64;
                }
                let word = old_word | (bit << k);
                proof {
                    assert(word == old_word + (bit << k)) by (bit_vector)
                        requires
                            word == old_word | (bit << k),
                            old_word < (1u64 << k),
                            bit <= 1,
                            k < 64;
                    if bit == 1 {
                        let pk = pow2(k as nat);
                        lemma_pow2_pos(k as nat);
                        lemma_popcount_step(word as nat, k as nat);
                        vstd::arithmetic::div_mod::lemma_fundamental_div_mod_converse(
                            word as int, pk as int, 1, old_word as int);
                        vstd::arithmetic::div_mod::lemma_small_mod(word as nat, pow2(k as nat + 1));
                        vstd::arithmetic::div_mod::lemma_small_mod(old_word as nat, pk);
                    }
                    lemma_words_ones_update(bits@, q as int, word, words as int);
                }
                bits.set(q, word);
                cnt_ones += bit as usize;
                i += 1;
                proof {
                    assert((bit == 1) == has_bit(av, b as int));
                    assert(a@.take(i as int).drop_last() =~= a@.take(i - 1));
                    assert(a@.take(i as int).last() == av);
                    assert forall|j: int|
                        0 <= j < i implies #[trigger] bit_of(bits@[j / 64] as nat, (j % 64) as nat) == if has_bit(
                            a@[j],
                            b as int,
                        ) {
                            1nat
                        } else {
                            0nat
                        } by {
                        if j / 64 == q as int {
                            lemma_word_bits(old_word, bit, k, (j % 64) as u64);
                        } else {
                            assert(bits@[j / 64] == b0[j / 64]);
                        }
                    }
                    if i / 64 != q {
                        assert(i / 64 == q + 1 && i % 64 == 0);
                        lemma2_to64();
                    }
                }
            }
            proof {
                lemma_words_ones_le(bits@, words as int);
                assert(a@.take(n as int) =~= a@);
                assert forall|p: int| 0 <= p <= n implies #[trigger] ones_before(bits@, p) == part(
                    a@.take(p),
                    b as int,
                    true,
                ).len() by {
                    lemma_level_counts(bits@, a@, b as int, p);
                }
                lemma_part_len(a@, b as int);
            }
            let ghost bits_seq = bits@;
            mat.push((BitVector::new(bits), n - cnt_ones));
            let mut zeros: Vec<u32> = Vec::new();
            let mut ones: Vec<u32> = Vec::new();
            let mut i: usize = 0;
            while i < n
                invariant
                    a@.len() == n,
                    b < 32,
                    i <= n,
                    zeros@ == part(a@.take(i as int), b as int, false),
                    ones@ == part(a@.take(i as int), b as int, true),
                decreases n - i,
            {
                let x = a[i];
                proof {
                    assert(a@.take(i + 1).drop_last() =~= a@.take(i as int));
                    assert(a@.take(i + 1).last() == x);
                    assert(((x >> b) & 1u32 == 0) == !has_bit(x, b as int)) by (bit_vector);
                }
                if (x >> b) & 1u32 == 0 {
                    zeros.push(x);
                } else {
                    ones.push(x);
                }
                i += 1;
            }
            zeros.append(&mut ones);
            proof {
                assert(a@.take(n as int) =~= a@);
                let h2 = hist.push(zeros@);
                assert(zeros@ == reorder(a@, b as int));
                lemma_part_len(a@, b as int);
                assert forall|k2: int| 0 <= k2 < mat@.len() implies #[trigger] h2[k2 + 1] == reorder(
                    h2[k2],
                    31 - k2,
                ) by {
                    if k2 < mat@.len() - 1 {
                        assert(h2[k2 + 1] == hist[k2 + 1] && h2[k2] == hist[k2]);
                    } else {
                        assert(h2[k2] == hist[k2]);
                        assert(hist[k2] == a@);
                        assert(31 - k2 == b);
                    }
                }
                assert forall|k2: int| 0 <= k2 < h2.len() implies (#[trigger] h2[k2]).len() == n by {
                    if k2 < hist.len() {
                        assert(h2[k2] == hist[k2]);
                    }
                }
                assert forall|d: int| 0 <= d < mat@.len() implies {
                    let lv = #[trigger] mat@[d];
                    &&& lv.0.wf()
                    &&& lv.0.bits@.len() == n / 64 + 1
                    &&& lv.1 + words_ones(lv.0.bits@, lv.0.bits@.len() as int) == n
                    &&& lv.1 == part(h2[d], 31 - d, false).len()
                    &&& forall|p: int| 0 <= p <= n ==> #[trigger] ones_before(lv.0.bits@, p) == part(
                        h2[d].take(p),
                        31 - d,
                        true,
                    ).len()
                } by {
                    assert(h2[d] == hist[d]);
                    if d == mat@.len() - 1 {
                        assert(hist[d] == a@);
                        assert(31 - d == b);
                    }
                }
                hist = h2;
            }
            a = zeros;
        }
        let mut rev: Vec<(BitVector, usize)> = Vec::new();
        let ghost full = mat@;
        while mat.len() > 0
            invariant
                mat@.len() + rev@.len() == 32,
                full.len() == 32,
                mat@ == full.subrange(0, mat@.len() as int),
                forall|d: int| 0 <= d < rev@.len() ==> #[trigger] rev@[d] == full[31 - d],
            decreases mat@.len(),
        {
            let ghost before = mat@;
            let x = mat.pop().unwrap();
            assert(x == full[mat@.len() as int]);
            assert(mat@ =~= full.subrange(0, mat@.len() as int));
            rev.push(x);
        }
        let ghost orders = Seq::new(33, |d: int| hist[32 - d]);
        let w = WaveletMatrix(rev, Ghost(orders));
        proof {
            assert(w.0@[0] == full[31]);
            assert(w.len() == n);
            assert forall|d: int| 0 <= d <= 32 implies (#[trigger] w.1@[d]).len() == w.len() by {
                assert(w.1@[d] == hist[32 - d]);
            }
            assert forall|d: int| 0 <= d < 32 implies #[trigger] w.1@[d] == reorder(w.1@[d + 1], d) by {
                let k = 31 - d;
                assert(hist[k + 1] == reorder(hist[k], 31 - k));
                assert(w.1@[d] == hist[k + 1] && w.1@[d + 1] == hist[k]);
            }
            assert forall|d: int| 0 <= d < 32 implies #[trigger] w.0@[d].1 == part(w.1@[d + 1], d, false).len() by {
                assert(w.0@[d] == full[31 - d]);
                assert(w.1@[d + 1] == hist[31 - d]);
            }
            assert forall|d: int, p: int|
                0 <= d < 32 && 0 <= p <= w.len() implies #[trigger] ones_before(w.0@[d].0.bits@, p) == part(
                w.1@[d + 1].take(p),
                d,
                true,
            ).len() by {
                assert(w.0@[d] == full[31 - d]);
                assert(w.1@[d + 1] == hist[31 - d]);
                let lv = full[31 - d];
                assert(forall|p2: int| 0 <= p2 <= n ==> #[trigger] ones_before(lv.0.bits@, p2) == part(
                    hist[31 - d].take(p2),
                    31 - (31 - d),
                    true,
                ).len());
            }
            assert(w.values() == hist[0]);
        }
        w
    }
}

impl WaveletMatrix {
    /// Where the positions `l..r` of level `d` go on the next level: among the values
    /// whose bit `d` is zero, which come first in their order, or among those whose bit
    /// is one, after all the zeros.
    pub closed spec fn step(&self, d: int, l: int, r: int, one: bool) -> (int, int) {
        let lv = self.0@[d];
        if one {
            (lv.1 + ones_before(lv.0.bits@, l), lv.1 + ones_before(lv.0.bits@, r))
        } else {
            (l - ones_before(lv.0.bits@, l), r - ones_before(lv.0.bits@, r))
        }
    }

    /// The positions `l..r` after following the bits of `x` from bit 31 down to bit `d`.
    pub open spec fn follow(&self, x: u32, d: int, l: int, r: int) -> (int, int)
        decreases 32 - d,
    {
        if d >= 32 || d < 0 {
            (l, r)
        } else {
            let (l1, r1) = self.follow(x, d + 1, l, r);
            self.step(d, l1, r1, (x >> (d as u32)) & 1 == 1)
        }
    }

    /// The value at place `k` of the positions `l..r` in increasing order, read from
    /// bit `d` down: at each level the zeros come first.
    pub open spec fn select(&self, d: int, l: int, r: int, k: int) -> int
        decreases d + 1,
    {
        if d < 0 {
            0
        } else {
            let (l0, r0) = self.step(d, l, r, false);
            if k < r0 - l0 {
                self.select(d - 1, l0, r0, k)
            } else {
                let (l1, r1) = self.step(d, l, r, true);
                pow2(d as nat) + self.select(d - 1, l1, r1, k - (r0 - l0))
            }
        }
    }

    /// The positions `l..r` carried one level down, along the zeros or the ones.
    fn descend(&self, d: usize, l: usize, r: usize, one: bool) -> (res: (usize, usize))
        requires
            self.wf(),
            d < 32,
            l <= r <= self.len(),
        ensures
            res.0 <= res.1 <= self.len(),
            res.1 - res.0 <= r - l,
            (res.0 as int, res.1 as int) == self.step(d as int, l as int, r as int, one),
    {
        let lv = &self.0[d];
        let bv = &lv.0;
        proof {
            let n = self.len() as int;
            assert(self.0@[d as int] == *lv);
            lemma_ones_before_mono(bv.bits@, l as int, r as int);
            lemma_ones_before_bounds(bv.bits@, r as int);
            lemma_ones_before_bounds(bv.bits@, l as int);
        }
        if !one {
            (bv.rank_zero(l), bv.rank_zero(r))
        } else {
            (lv.1 + bv.rank_one(l), lv.1 + bv.rank_one(r))
        }
    }

    /// The window `l..r` of order `d + 1` taken one level down along bit value `v` is
    /// the part of that window whose bit `d` is `v`, as it stands in order `d`.
    proof fn lemma_step_part(&self, d: int, l: int, r: int, v: bool)
        requires
            self.wf(),
            0 <= d < 32,
            0 <= l <= r <= self.len(),
        ensures
            ({
                let (l2, r2) = self.step(d, l, r, v);
                &&& 0 <= l2 <= r2 <= self.len()
                &&& self.1@[d].subrange(l2, r2) == part(self.1@[d + 1].subrange(l, r), d, v)
            }),
    {
        let sq = self.1@[d + 1];
        assert(sq.len() == self.len());
        let lv = self.0@[d];
        assert(ones_before(lv.0.bits@, l) == part(sq.take(l), d, true).len());
        assert(ones_before(lv.0.bits@, r) == part(sq.take(r), d, true).len());
        assert(lv.1 == part(sq, d, false).len());
        assert(self.1@[d] == reorder(sq, d));
        lemma_part_window(sq, d, v, l, r);
        lemma_part_len(sq.take(l), d);
        lemma_part_len(sq.take(r), d);
        lemma_part_len(sq, d);
        assert(sq.take(l).len() == l && sq.take(r).len() == r);
        let p0 = part(sq, d, false);
        let p1 = part(sq, d, true);
        if v {
            let a = part(sq.take(l), d, true).len() as int;
            let b = part(sq.take(r), d, true).len() as int;
            assert((p0 + p1).subrange(p0.len() + a, p0.len() + b) =~= p1.subrange(a, b));
        } else {
            let a = part(sq.take(l), d, false).len() as int;
            let b = part(sq.take(r), d, false).len() as int;
            assert((p0 + p1).subrange(a, b) =~= p0.subrange(a, b));
        }
    }

    /// The number of positions in `l..r` holding `x`.
    pub fn rank(&self, l: usize, r: usize, x: u32) -> (k: usize)
        requires
            self.wf(),
            l <= r <= self.len(),
        ensures
            k <= r - l,
            k == self.follow(x, 0, l as int, r as int).1 - self.follow(x, 0, l as int, r as int).0,
            k == occurrences(self.values().subrange(l as int, r as int), x),
    {
        let l0 = l;
        let r0 = r;
        let mut l = l;
        let mut r = r;
        let ghost width = r - l;
        let mut d: usize = 32;
        while d > 0
            invariant
                self.wf(),
                d <= 32,
                l <= r <= self.len(),
                r - l <= width,
                (l as int, r as int) == self.follow(x, d as int, l0 as int, r0 as int),
                occurrences(self.1@[d as int].subrange(l as int, r as int), x) == occurrences(
                    self.values().subrange(l0 as int, r0 as int),
                    x,
                ),
                agrees(self.1@[d as int].subrange(l as int, r as int), x, d as int),
            decreases d,
        {
            d -= 1;
            let one = (x >> (d as u32)) & 1 == 1;
            let ghost win = self.1@[d + 1].subrange(l as int, r as int);
            proof {
                self.lemma_step_part(d as int, l as int, r as int, one);
                assert(one == has_bit(x, d as int));
                lemma_occurrences_part(win, x, d as int);
                lemma_agrees_part(win, x, d as int);
            }
            let (nl, nr) = self.descend(d, l, r, one);
            l = nl;
            r = nr;
        }
        proof {
            lemma_occurrences_all(self.1@[0].subrange(l as int, r as int), x);
        }
        r - l
    }

    /// The value at position `k` of `l..r` in increasing order: fewer than `k + 1` of
    /// the values there are below it, and more than `k` are at most it.
    pub fn quantile(&self, l: usize, r: usize, k: usize) -> (x: u32)
        requires
            self.wf(),
            l <= r <= self.len(),
        ensures
            x as int == self.select(31, l as int, r as int, k as int),
            k < r - l ==> count_below(self.values().subrange(l as int, r as int), x) <= k < count_below(
                self.values().subrange(l as int, r as int),
                x,
            ) + occurrences(self.values().subrange(l as int, r as int), x),
    {
        let l0 = l;
        let r0 = r;
        let k0 = k;
        let ghost w = self.values().subrange(l0 as int, r0 as int);
        let mut l = l;
        let mut r = r;
        let mut k = k;
        let mut x: u32 = 0;
        let mut d: usize = 32;
        proof {
            lemma_same_high_top(w, x);
        }
        while d > 0
            invariant
                self.wf(),
                d <= 32,
                l <= r <= self.len(),
                d == 32 ==> x == 0,
                d < 32 ==> (x >> (d as u32)) << (d as u32) == x,
                x as int + self.select(d - 1, l as int, r as int, k as int) == self.select(
                    31,
                    l0 as int,
                    r0 as int,
                    k0 as int,
                ),
                w == self.values().subrange(l0 as int, r0 as int),
                self.1@[d as int].subrange(l as int, r as int) == same_high(w, x, d as int),
                k + high_below(w, x, d as int) == k0,
                k0 < r0 - l0 ==> k < r - l,
            decreases d,
        {
            d -= 1;
            let ghost t = self.1@[d + 1].subrange(l as int, r as int);
            let (zl, zr) = self.descend(d, l, r, false);
            proof {
                lemma_low_bits_clear(x, d as u32);
                self.lemma_step_part(d as int, l as int, r as int, false);
                lemma_part_len(t, d as int);
            }
            if k < zr - zl {
                proof {
                    lemma_same_high_part(w, x, x, d as int, false);
                }
                l = zl;
                r = zr;
            } else {
                proof {
                    vstd::bits::lemma_u32_pow2_no_overflow(d as nat);
                    vstd::bits::lemma_u32_shl_is_mul(1, d as u32);
                    self.lemma_step_part(d as int, l as int, r as int, true);
                }
                let ghost xo = x;
                x = x | (1u32 << (d as u32));
                proof {
                    lemma_same_high_part(w, xo, x, d as int, true);
                }
                k = k - (zr - zl);
                let (l1, r1) = self.descend(d, l, r, true);
                l = l1;
                r = r1;
            }
        }
        proof {
            lemma_same_high_bottom(w, x);
        }
        x
    }
}

/// When the bits of `x` below `e + 1` are clear, so are those below `e`, and setting
/// bit `e` adds `2^e` and keeps those below `e` clear.
proof fn lemma_low_bits_clear(x: u32, e: u32)
    requires
        e < 32,
        e + 1 == 32 ==> x == 0,
        e + 1 < 32 ==> (x >> ((e + 1) as u32)) << ((e + 1) as u32) == x,
    ensures
        (x >> e) << e == x,
        (x | (1u32 << e)) == x + (1u32 << e),
        ((x | (1u32 << e)) >> e) << e == (x | (1u32 << e)),
        (x >> e) & 1 == 0,
        ((x | (1u32 << e)) >> e) & 1 == 1,
        e + 1 < 32 ==> ((x | (1u32 << e)) >> ((e + 1) as u32)) == x >> ((e + 1) as u32),
{
    if e + 1 == 32 {
        assert(e == 31);
        assert((0u32 >> 31u32) << 31u32 == 0u32 && (0u32 | (1u32 << 31u32)) == 0u32 + (1u32 << 31u32) && ((0u32 | (
        1u32 << 31u32)) >> 31u32) << 31u32 == (0u32 | (1u32 << 31u32)) && (0u32 >> 31u32) & 1 == 0 && ((0u32 | (1u32
            << 31u32)) >> 31u32) & 1 == 1) by (bit_vector);
    } else {
        let f = (e + 1) as u32;
        let y = x | (1u32 << e);
        assert((x >> e) << e == x && y == x + (1u32 << e) && (y >> e) << e == y && (x >> e) & 1 == 0 && (y >> e) & 1
            == 1 && (y >> f) == x >> f) by (bit_vector)
            requires
                e < 31,
                f == e + 1,
                (x >> f) << f == x,
                y == x | (1u32 << e),
        ;
    }
}

} // verus!
