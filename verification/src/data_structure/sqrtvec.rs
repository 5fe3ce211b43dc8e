use vstd::prelude::*;

verus! {

/// The number of slots in a block.
pub const SIZE: usize = 256;

/// A block of `SIZE` slots: all one value, or each slot its own.
pub enum Block<T> {
    Covered(T),
    Data(Vec<T>),
}

/// Slot `r` of a block.
pub open spec fn slot<T>(b: Block<T>, r: int) -> T {
    match b {
        Block::Covered(v) => v,
        Block::Data(a) => a@[r],
    }
}

/// A block holds `SIZE` slots.
pub open spec fn block_ok<T>(b: Block<T>) -> bool {
    match b {
        Block::Covered(_) => true,
        Block::Data(a) => a@.len() == SIZE,
    }
}

/// The number of blocks that `n` slots take.
pub open spec fn blocks_for(n: int) -> int {
    (n + SIZE - 1) / (SIZE as int)
}

/// `n` values kept in blocks of `SIZE`; a range can be set to one value, and a block
/// that is wholly set holds that value once.
pub struct SqrtVec<T> {
    blocks: Vec<Block<T>>,
    len: usize,
}

/// Block `b` with slots `lo..hi` set to `v`.
fn filled<T: Copy>(b: &Block<T>, lo: usize, hi: usize, v: T) -> (r: Block<T>)
    requires
        block_ok(*b),
        lo <= hi <= SIZE,
    ensures
        block_ok(r),
        forall|j: int| 0 <= j < SIZE ==> #[trigger] slot(r, j) == if lo <= j < hi {
            v
        } else {
            slot(*b, j)
        },
{
    let mut a: Vec<T> = Vec::new();
    let mut j: usize = 0;
    while j < SIZE
        invariant
            j <= SIZE,
            lo <= hi <= SIZE,
            block_ok(*b),
            a@.len() == j,
            forall|k: int| 0 <= k < j ==> #[trigger] a@[k] == if lo <= k < hi {
                v
            } else {
                slot(*b, k)
            },
        decreases SIZE - j,
    {
        if lo <= j && j < hi {
            a.push(v);
        } else {
            match b {
                Block::Covered(c) => a.push(*c),
                Block::Data(d) => a.push(d[j]),
            }
        }
        j += 1;
    }
    Block::Data(a)
}

impl<T: Copy> SqrtVec<T> {
    /// Every slot of every block, also those past the end.
    pub closed spec fn slots(&self) -> Seq<T> {
        Seq::new((self.blocks@.len() * SIZE) as nat, |i: int| slot(self.blocks@[i / (SIZE as int)], i % (SIZE as int)))
    }

    /// The values.
    pub closed spec fn values(&self) -> Seq<T> {
        self.slots().take(self.len as int)
    }

    /// The blocks are just enough for the values, each of `SIZE` slots.
    pub closed spec fn wf(&self) -> bool {
        &&& self.blocks@.len() == blocks_for(self.len as int)
        &&& self.len <= self.blocks@.len() * SIZE
        &&& forall|k: int| 0 <= k < self.blocks@.len() ==> block_ok(#[trigger] self.blocks@[k])
    }

    proof fn lemma_slot(&self, i: int)
        requires
            0 <= i < self.blocks@.len() * SIZE,
        ensures
            self.slots()[i] == slot(self.blocks@[i / (SIZE as int)], i % (SIZE as int)),
            0 <= i / (SIZE as int) < self.blocks@.len(),
            0 <= i % (SIZE as int) < SIZE,
    {
        assert(0 <= i / 256 < self.blocks@.len()) by (nonlinear_arith)
            requires
                0 <= i < self.blocks@.len() * 256,
        ;
    }

    /// No values.
    pub fn new() -> (s: Self)
        ensures
            s.wf(),
            s.slots() == Seq::<T>::empty(),
            s.values() == Seq::<T>::empty(),
    {
        let s = SqrtVec { blocks: Vec::new(), len: 0 };
        assert(s.slots() =~= Seq::<T>::empty());
        s
    }

    /// `n` values: the blocks are cut or extended to the number `n` takes, each new
    /// block wholly `v`. Slots of a kept block stay as they were, also those past the
    /// old end.
    pub fn resize(&mut self, n: usize, v: T)
        requires
            old(self).wf(),
            n + (SIZE - 1) <= usize::MAX,
        ensures
            final(self).wf(),
            final(self).values().len() == n,
            final(self).slots() == Seq::new(
                (blocks_for(n as int) * SIZE) as nat,
                |i: int|
                    if i < old(self).slots().len() {
                        old(self).slots()[i]
                    } else {
                        v
                    },
            ),
            final(self).values() == final(self).slots().take(n as int),
    {
        let nb = (n + (SIZE - 1)) / SIZE;
        let ghost s0 = self.slots();
        let ghost b0 = self.blocks@;
        while self.blocks.len() > nb
            invariant
                self.blocks@.len() >= nb || self.blocks@.len() == b0.len(),
                self.blocks@ == b0.take(self.blocks@.len() as int),
                b0.len() >= self.blocks@.len(),
            decreases self.blocks@.len(),
        {
            self.blocks.pop();
        }
        let ghost b1 = self.blocks@;
        while self.blocks.len() < nb
            invariant
                self.blocks@.len() <= nb || self.blocks@.len() == b1.len(),
                self.blocks@.len() >= b1.len(),
                self.blocks@.take(b1.len() as int) == b1,
                forall|k: int| b1.len() <= k < self.blocks@.len() ==> #[trigger] self.blocks@[k] == Block::Covered(v),
            decreases nb - self.blocks@.len(),
        {
            self.blocks.push(Block::Covered(v));
        }
        self.len = n;
        proof {
            assert(nb == blocks_for(n as int));
            assert(n <= nb * 256) by (nonlinear_arith)
                requires
                    nb == (n + 255) / 256,
            ;
            assert(self.blocks@.len() == nb) by {
                if b0.len() >= nb {
                    assert(b1.len() == nb);
                }
            }
            assert forall|k: int| 0 <= k < self.blocks@.len() implies block_ok(#[trigger] self.blocks@[k]) by {
                if k < b1.len() {
                    assert(self.blocks@[k] == b1[k]);
                    assert(b1[k] == b0[k]);
                }
            }
            let goal = Seq::new(
                (nb * SIZE) as nat,
                |i: int|
                    if i < s0.len() {
                        s0[i]
                    } else {
                        v
                    },
            );
            assert forall|i: int| 0 <= i < goal.len() implies #[trigger] self.slots()[i] == goal[i] by {
                self.lemma_slot(i);
                let q = i / (SIZE as int);
                if q < b1.len() {
                    assert(self.blocks@[q] == b1[q]);
                    assert(b1[q] == b0[q]);
                    assert(i < s0.len()) by (nonlinear_arith)
                        requires
                            q == i / 256,
                            q < b0.len(),
                            s0.len() == b0.len() * 256,
                            0 <= i,
                    ;
                    assert(s0[i] == slot(b0[q], i % (SIZE as int)));
                } else {
                    assert(i >= s0.len()) by (nonlinear_arith)
                        requires
                            q == i / 256,
                            q >= b1.len(),
                            b1.len() == b0.len() || b1.len() == nb,
                            b1.len() <= b0.len(),
                            s0.len() == b0.len() * 256,
                            0 <= i < nb * 256,
                    ;
                }
            }
            assert(self.slots() =~= goal);
        }
    }

    /// Sets the slots `start..end` to `v`; slots past the last block are left out.
    pub fn fill(&mut self, range: std::ops::Range<usize>, v: T)
        requires
            old(self).wf(),
            range.start <= range.end,
            range.start < old(self).slots().len(),
            range.end < old(self).slots().len() + SIZE,
        ensures
            final(self).wf(),
            final(self).values().len() == old(self).values().len(),
            final(self).slots() == Seq::new(
                old(self).slots().len(),
                |i: int|
                    if range.start <= i < range.end {
                        v
                    } else {
                        old(self).slots()[i]
                    },
            ),
            final(self).values() == final(self).slots().take(old(self).values().len() as int),
    {
        let ghost s0 = self.slots();
        let ghost b0 = self.blocks@;
        let start = range.start;
        let end = range.end;
        let ldiv = start / SIZE;
        let lrem = start % SIZE;
        let rdiv = end / SIZE;
        let rrem = end % SIZE;
        proof {
            let nb = b0.len();
            assert(ldiv < nb && rdiv <= nb) by (nonlinear_arith)
                requires
                    start < nb * 256,
                    end < nb * 256 + 256,
                    ldiv == start / 256,
                    rdiv == end / 256,
            ;
        }
        if ldiv == rdiv {
            let b = filled(&self.blocks[ldiv], lrem, rrem, v);
            self.blocks.set(ldiv, b);
            proof {
                assert forall|k: int| 0 <= k < self.blocks@.len() implies block_ok(#[trigger] self.blocks@[k]) by {
                    if k != ldiv {
                        assert(self.blocks@[k] == b0[k]);
                    }
                }
            }
        } else {
            let b = filled(&self.blocks[ldiv], lrem, SIZE, v);
            self.blocks.set(ldiv, b);
            let mut k = ldiv + 1;
            while k < rdiv
                invariant
                    ldiv < k <= rdiv,
                    self.len == old(self).len,
                    rdiv <= self.blocks@.len(),
                    self.blocks@.len() == b0.len(),
                    forall|q: int| 0 <= q < b0.len() && !(ldiv <= q < k) ==> #[trigger] self.blocks@[q] == b0[q],
                    forall|j: int| 0 <= j < SIZE ==> #[trigger] slot(self.blocks@[ldiv as int], j) == if lrem <= j {
                        v
                    } else {
                        slot(b0[ldiv as int], j)
                    },
                    block_ok(self.blocks@[ldiv as int]),
                    forall|q: int| ldiv < q < k ==> #[trigger] self.blocks@[q] == Block::Covered(v),
                decreases rdiv - k,
            {
                self.blocks.set(k, Block::Covered(v));
                k += 1;
            }
            let ghost bm = self.blocks@;
            if rdiv < self.blocks.len() {
                let b = filled(&self.blocks[rdiv], 0, rrem, v);
                self.blocks.set(rdiv, b);
            }
            proof {
                assert forall|k: int| 0 <= k < self.blocks@.len() implies block_ok(#[trigger] self.blocks@[k]) by {
                    if k != rdiv {
                        assert(self.blocks@[k] == bm[k]);
                        if !(ldiv <= k < rdiv) {
                            assert(bm[k] == b0[k]);
                        }
                    }
                }
            }
        }
        proof {
            let goal = Seq::new(
                s0.len(),
                |i: int|
                    if start <= i < end {
                        v
                    } else {
                        s0[i]
                    },
            );
            assert forall|i: int| 0 <= i < goal.len() implies #[trigger] self.slots()[i] == goal[i] by {
                self.lemma_slot(i);
                let q = i / (SIZE as int);
                let r = i % (SIZE as int);
                assert(i == q * 256 + r);
                assert(start == ldiv * 256 + lrem);
                assert(end == rdiv * 256 + rrem);
                assert(s0[i] == slot(b0[q], r));
            }
            assert(self.slots() =~= goal);
        }
    }

    /// The value at `i`, or `None` past the end.
    pub fn get(&self, i: usize) -> (r: Option<&T>)
        requires
            self.wf(),
        ensures
            match r {
                Some(x) => i < self.values().len() && *x == self.values()[i as int],
                None => i >= self.values().len(),
            },
    {
        if i < self.len {
            proof {
                self.lemma_slot(i as int);
            }
            match &self.blocks[i / SIZE] {
                Block::Covered(v) => Some(v),
                Block::Data(a) => Some(&a[i % SIZE]),
            }
        } else {
            None
        }
    }
}

} // verus!
