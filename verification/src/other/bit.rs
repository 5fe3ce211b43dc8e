use vstd::prelude::*;
use vstd::std_specs::bits::{u64_trailing_zeros, axiom_u64_trailing_zeros};

verus! {

/// The subset of `set` that follows `cur` when the subsets are listed in
/// increasing order, wrapping to 0 after `set`.
pub open spec fn next_subset(cur: usize, set: usize) -> usize {
    (cur | !set).wrapping_add(1) & set
}

/// A cursor over the subsets of `set`, in increasing order from 0.
pub fn subsets(set: usize) -> (s: Subsets)
    ensures
        s.set() == set,
        s.current() == 0,
        !s.done(),
{
    Subsets { set, cur: 0, end: false }
}

pub struct Subsets {
    set: usize,
    cur: usize,
    end: bool,
}

impl Subsets {
    pub closed spec fn set(&self) -> usize {
        self.set
    }

    /// The subset handed out next.
    pub closed spec fn current(&self) -> usize {
        self.cur
    }

    pub closed spec fn done(&self) -> bool {
        self.end
    }

    /// The current subset, then the next one in increasing order; `None`
    /// after `set` itself was handed out.
    pub fn next(&mut self) -> (r: Option<usize>)
        ensures
            final(self).set() == old(self).set(),
            old(self).done() ==> r is None && *final(self) == *old(self),
            !old(self).done() ==> {
                &&& r == Some(old(self).current())
                &&& final(self).current() == next_subset(old(self).current(), old(self).set())
                &&& final(self).done() == (final(self).current() == 0)
            },
            old(self).current() & !old(self).set() == 0 ==> final(self).current() & !final(self).set()
                == 0,
    {
        if self.end {
            None
        } else {
            let res = self.cur;
            let set = self.set;
            let w = (self.cur | !set).wrapping_add(1);
            let c = w & set;
            assert(c & !set == 0) by (bit_vector)
                requires c == w & set;
            self.cur = c;
            self.end = self.cur == 0;
            Some(res)
        }
    }
}

/// A cursor over the set bits of `n`, each as a one-bit word, from the lowest.
pub fn bits(n: u64) -> (b: Bits)
    ensures
        b.rest() == n,
{
    Bits(n)
}

pub struct Bits(u64);

impl Bits {
    /// The bits not handed out yet.
    pub closed spec fn rest(&self) -> u64 {
        self.0
    }

    /// The lowest set bit of the rest, which is then cleared; `None` when no bit is left.
    pub fn next(&mut self) -> (r: Option<u64>)
        ensures
            old(self).rest() == 0 ==> r is None && final(self).rest() == 0,
            old(self).rest() != 0 ==> (r matches Some(b) && {
                &&& b != 0
                &&& b & (b - 1) as u64 == 0
                &&& old(self).rest() & b == b
                &&& old(self).rest() & (b - 1) as u64 == 0
                &&& final(self).rest() == old(self).rest() ^ b
            }),
    {
        if self.0 == 0 {
            None
        } else {
            let x = self.0;
            assert(!x < u64::MAX) by (bit_vector)
                requires x != 0;
            let lsb = x & (!x + 1);
            assert(lsb != 0 && lsb & (lsb - 1) as u64 == 0 && x & lsb == lsb && x & (lsb - 1) as u64 == 0)
                by (bit_vector)
                requires x != 0, lsb == x & (!x + 1) as u64;
            self.0 ^= lsb;
            Some(lsb)
        }
    }
}

/// A cursor over the positions of the set bits of `n`, from the lowest.
pub fn bit_positions(n: u64) -> (b: BitPositions)
    ensures
        b.rest() == n,
{
    BitPositions(n)
}

pub struct BitPositions(u64);

impl BitPositions {
    /// The bits not handed out yet.
    pub closed spec fn rest(&self) -> u64 {
        self.0
    }

    /// The position of the lowest set bit of the rest, which is then
    /// cleared; `None` when no bit is left.
    pub fn next(&mut self) -> (r: Option<u32>)
        ensures
            old(self).rest() == 0 ==> r is None && final(self).rest() == 0,
            old(self).rest() != 0 ==> (r matches Some(p) && {
                &&& p < 64
                &&& p == u64_trailing_zeros(old(self).rest())
                &&& final(self).rest() == old(self).rest() ^ (1u64 << p)
            }),
    {
        if self.0 == 0 {
            None
        } else {
            let res = self.0.trailing_zeros();
            proof {
                axiom_u64_trailing_zeros(self.0);
            }
            self.0 ^= 1 << res;
            Some(res)
        }
    }
}

} // verus!
