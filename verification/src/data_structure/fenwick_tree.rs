use vstd::prelude::*;

verus! {

/// The lowest set bit of `i`: `i & -i`, taken in 64 bits.
pub open spec fn low(i: usize) -> usize {
    ((i as u64) & ((!(i as u64) + 1) as u64)) as usize
}

/// The lowest set bit of a positive number is positive and at most the number.
pub proof fn lemma_low(i: usize)
    requires
        i > 0,
    ensures
        0 < low(i) <= i,
{
    let x = i as u64;
    assert(!x < 0xffff_ffff_ffff_ffffu64) by (bit_vector)
        requires x > 0;
    assert(0 < x & ((!x + 1) as u64) && x & ((!x + 1) as u64) <= x) by (bit_vector)
        requires x > 0;
}

/// The nodes that a query of the first `i` elements combines: `i`, then `i - low(i)`,
/// and so on down to zero.
pub open spec fn down_path(i: usize) -> Seq<usize>
    decreases i,
{
    if i == 0 {
        Seq::empty()
    } else {
        proof {
            lemma_low(i);
        }
        seq![i].add(down_path((i - low(i)) as usize))
    }
}

/// The nodes that an update of element `i - 1` touches: `i`, then `i + low(i)`, and so
/// on while below `len`.
pub open spec fn up_path(i: usize, len: nat) -> Seq<usize>
    decreases usize::MAX - i,
{
    if i == 0 || i >= len {
        Seq::empty()
    } else {
        proof {
            lemma_low(i);
        }
        if i + low(i) > usize::MAX {
            seq![i]
        } else {
            seq![i].add(up_path((i + low(i)) as usize, len))
        }
    }
}

/// The lowest set bit of `i > 0`: `i & -i`.
fn lowbit(i: usize) -> (b: usize)
    requires
        i > 0,
    ensures
        0 < b <= i,
        b == low(i),
{
    let x = i as u64;
    assert(!x < 0xffff_ffff_ffff_ffffu64) by (bit_vector)
        requires x > 0;
    let b = x & (!x + 1);
    assert(0 < b && b <= x) by (bit_vector)
        requires x > 0, b == x & ((!x + 1) as u64);
    b as usize
}

/// After a step up from `q`, the range of the node reached starts no later.
proof fn lemma_up_step(q: usize)
    requires
        q > 0,
        q + low(q) <= usize::MAX,
    ensures
        q + low(q) - low((q + low(q)) as usize) <= q - low(q),
{
    let x = q as u64;
    lemma_low(q);
    let v = x & ((!x + 1) as u64);
    assert(v <= x) by (bit_vector)
        requires
            v == x & ((!x + 1) as u64),
    ;
    assert(low(q) as int == v as int);
    let y = (x + v) as u64;
    let w = y & ((!y + 1) as u64);
    assert(w <= y && y - w <= x - v) by (bit_vector)
        requires
            x > 0,
            v == x & ((!x + 1) as u64),
            x + v <= 0xffff_ffff_ffff_ffffu64,
            y == (x + v) as u64,
            w == y & ((!y + 1) as u64),
    ;
    let q2 = (q + low(q)) as usize;
    assert(q2 as u64 == y);
    assert(low(q2) as int == w as int);
}

/// A step up from a point inside the range of node `j` does not pass `j`.
proof fn lemma_up_within(j: usize, q: usize)
    requires
        0 < q < j,
        j - low(j) < q,
    ensures
        q + low(q) <= j,
{
    let x = j as u64;
    let y = q as u64;
    assert(y + (y & ((!y + 1) as u64)) <= x) by (bit_vector)
        requires
            0 < y < x,
            x - (x & ((!x + 1) as u64)) < y,
    ;
}

/// Every node an update starting at `q` touches has a range that holds `p`, when the
/// range of `q` does.
proof fn lemma_up_path_covers(q: usize, p: int, len: nat, j: usize)
    requires
        1 <= p <= q,
        q - low(q) < p,
        up_path(q, len).contains(j),
    ensures
        j - low(j) < p <= j,
    decreases usize::MAX - q,
{
    lemma_low(q);
    if q < len && q + low(q) <= usize::MAX {
        let q2 = (q + low(q)) as usize;
        assert(up_path(q, len) == seq![q].add(up_path(q2, len)));
        if j != q {
            let k = choose|k: int| 0 <= k < up_path(q, len).len() && up_path(q, len)[k] == j;
            assert(up_path(q2, len)[k - 1] == j);
            lemma_up_step(q);
            lemma_up_path_covers(q2, p, len, j);
        }
    } else if q < len {
        assert(up_path(q, len) == seq![q]);
    }
}

/// An update starting at `q` reaches every node below `len` whose range holds `q`.
proof fn lemma_up_path_reaches(q: usize, len: nat, j: usize)
    requires
        1 <= q <= j,
        j < len,
        j - low(j) < q,
    ensures
        up_path(q, len).contains(j),
    decreases j - q,
{
    lemma_low(q);
    if q == j {
        if q + low(q) > usize::MAX {
            assert(up_path(q, len) == seq![q]);
        } else {
            assert(up_path(q, len) == seq![q].add(up_path((q + low(q)) as usize, len)));
        }
        assert(up_path(q, len)[0] == j);
    } else {
        lemma_up_within(j, q);
        let q2 = (q + low(q)) as usize;
        assert(up_path(q, len) == seq![q].add(up_path(q2, len)));
        lemma_up_path_reaches(q2, len, j);
        let k = choose|k: int| 0 <= k < up_path(q2, len).len() && up_path(q2, len)[k] == j;
        assert(up_path(q, len)[k + 1] == j);
    }
}

/// `op` is associative and commutative with unit `e`.
pub open spec fn commutative_monoid<T>(op: spec_fn(T, T) -> T, e: T) -> bool {
    &&& forall|a: T, b: T| #[trigger] op(a, b) == op(b, a)
    &&& forall|a: T, b: T, c: T| #[trigger] op(op(a, b), c) == op(a, op(b, c))
    &&& forall|a: T| #[trigger] op(e, a) == a
}

/// The combination under `op` of the elements `lo..hi` of `vals`, from the unit `e`.
pub open spec fn fold_range<T>(vals: Seq<T>, lo: int, hi: int, op: spec_fn(T, T) -> T, e: T) -> T
    decreases hi - lo,
{
    if hi <= lo {
        e
    } else {
        op(fold_range(vals, lo, hi - 1, op, e), vals[hi - 1])
    }
}

/// Node `j` holds the combination of the elements `j - (j & -j)..j` of `vals`.
pub open spec fn fenwick_of<T>(nodes: Seq<T>, vals: Seq<T>, op: spec_fn(T, T) -> T, e: T) -> bool {
    &&& nodes.len() == vals.len() + 1
    &&& forall|j: int| 1 <= j < nodes.len() ==> #[trigger] nodes[j] == fold_range(vals, j - low(j as usize), j, op, e)
}

proof fn lemma_fold_split<T>(vals: Seq<T>, lo: int, mid: int, hi: int, op: spec_fn(T, T) -> T, e: T)
    requires
        commutative_monoid(op, e),
        lo <= mid <= hi,
    ensures
        fold_range(vals, lo, hi, op, e) == op(fold_range(vals, lo, mid, op, e), fold_range(vals, mid, hi, op, e)),
    decreases hi - mid,
{
    if hi == mid {
        assert(op(fold_range(vals, lo, mid, op, e), e) == op(e, fold_range(vals, lo, mid, op, e)));
    } else {
        lemma_fold_split(vals, lo, mid, hi - 1, op, e);
        let a = fold_range(vals, lo, mid, op, e);
        let b = fold_range(vals, mid, hi - 1, op, e);
        assert(op(op(a, b), vals[hi - 1]) == op(a, op(b, vals[hi - 1])));
    }
}

/// Combining `x` into element `i` inside the range combines `x` into the range.
proof fn lemma_fold_update<T>(vals: Seq<T>, i: int, x: T, lo: int, hi: int, op: spec_fn(T, T) -> T, e: T)
    requires
        commutative_monoid(op, e),
        0 <= i < vals.len(),
        0 <= lo,
        hi <= vals.len(),
    ensures
        fold_range(vals.update(i, op(vals[i], x)), lo, hi, op, e) == if lo <= i < hi {
            op(fold_range(vals, lo, hi, op, e), x)
        } else {
            fold_range(vals, lo, hi, op, e)
        },
    decreases hi - lo,
{
    let v2 = vals.update(i, op(vals[i], x));
    if hi > lo {
        lemma_fold_update(vals, i, x, lo, hi - 1, op, e);
        let a = fold_range(vals, lo, hi - 1, op, e);
        if hi - 1 == i {
            assert(fold_range(v2, lo, hi - 1, op, e) == a);
            assert(op(a, op(vals[i], x)) == op(op(a, vals[i]), x));
        } else if lo <= i < hi - 1 {
            assert(op(op(a, x), vals[hi - 1]) == op(a, op(x, vals[hi - 1])));
            assert(op(x, vals[hi - 1]) == op(vals[hi - 1], x));
            assert(op(op(a, vals[hi - 1]), x) == op(a, op(vals[hi - 1], x)));
        }
    }
}

/// The combination that a query of the first `r` elements forms from `acc`: node `r`
/// combined into `acc`, then the query of the first `r - (r & -r)`.
pub open spec fn query_fold<T>(nodes: Seq<T>, r: usize, acc: T, op: spec_fn(T, T) -> T) -> T
    decreases r,
{
    if r == 0 {
        acc
    } else {
        proof {
            lemma_low(r);
        }
        query_fold(nodes, (r - low(r)) as usize, op(nodes[r as int], acc), op)
    }
}

/// A query combines the elements below `r`: the nodes of a query tile `0..r`.
pub proof fn lemma_query<T>(nodes: Seq<T>, vals: Seq<T>, r: usize, acc: T, op: spec_fn(T, T) -> T, e: T)
    requires
        commutative_monoid(op, e),
        fenwick_of(nodes, vals, op, e),
        r <= vals.len(),
    ensures
        query_fold(nodes, r, acc, op) == op(fold_range(vals, 0, r as int, op, e), acc),
    decreases r,
{
    if r == 0 {
    } else {
        lemma_low(r);
        let r2 = (r - low(r)) as usize;
        let n = nodes[r as int];
        assert(n == fold_range(vals, r - low(r), r as int, op, e));
        lemma_query(nodes, vals, r2, op(n, acc), op, e);
        lemma_fold_split(vals, 0, r2 as int, r as int, op, e);
        let a = fold_range(vals, 0, r2 as int, op, e);
        assert(op(a, op(n, acc)) == op(op(a, n), acc));
    }
}

/// Combining `x` into element `i` of the values combines it into exactly the nodes an
/// update of `i` touches, and so keeps a tree of the values a tree of the new values.
pub proof fn lemma_update<T>(nodes: Seq<T>, nodes2: Seq<T>, vals: Seq<T>, i: usize, x: T, op: spec_fn(T, T) -> T, e: T)
    requires
        commutative_monoid(op, e),
        fenwick_of(nodes, vals, op, e),
        nodes.len() <= usize::MAX,
        i < vals.len(),
        nodes2.len() == nodes.len(),
        forall|j: int|
            0 <= j < nodes.len() ==> #[trigger] nodes2[j] == if up_path((i + 1) as usize, nodes.len()).contains(
                j as usize,
            ) {
                op(nodes[j], x)
            } else {
                nodes[j]
            },
    ensures
        fenwick_of(nodes2, vals.update(i as int, op(vals[i as int], x)), op, e),
{
    let v2 = vals.update(i as int, op(vals[i as int], x));
    let p = (i + 1) as usize;
    assert forall|j: int| 1 <= j < nodes2.len() implies #[trigger] nodes2[j] == fold_range(
        v2,
        j - low(j as usize),
        j,
        op,
        e,
    ) by {
        let ju = j as usize;
        lemma_low(ju);
        lemma_low(p);
        lemma_fold_update(vals, i as int, x, j - low(ju), j, op, e);
        assert(nodes[j] == fold_range(vals, j - low(ju), j, op, e));
        if up_path(p, nodes.len()).contains(ju) {
            lemma_up_path_covers(p, p as int, nodes.len(), ju);
        } else if j - low(ju) <= i < j {
            lemma_up_path_reaches(p, nodes.len(), ju);
        }
    }
}

/// All units make the tree of all-unit values.
pub proof fn lemma_all_units<T>(nodes: Seq<T>, op: spec_fn(T, T) -> T, e: T)
    requires
        commutative_monoid(op, e),
        1 <= nodes.len() <= usize::MAX,
        forall|j: int| 0 <= j < nodes.len() ==> #[trigger] nodes[j] == e,
    ensures
        fenwick_of(nodes, Seq::new((nodes.len() - 1) as nat, |k: int| e), op, e),
{
    let vals = Seq::new((nodes.len() - 1) as nat, |k: int| e);
    assert forall|j: int| 1 <= j < nodes.len() implies #[trigger] nodes[j] == fold_range(
        vals,
        j - low(j as usize),
        j,
        op,
        e,
    ) by {
        lemma_low(j as usize);
        lemma_fold_units(vals, j - low(j as usize), j, op, e);
    }
}

proof fn lemma_fold_units<T>(vals: Seq<T>, lo: int, hi: int, op: spec_fn(T, T) -> T, e: T)
    requires
        commutative_monoid(op, e),
        0 <= lo,
        hi <= vals.len(),
        forall|k: int| 0 <= k < vals.len() ==> #[trigger] vals[k] == e,
    ensures
        fold_range(vals, lo, hi, op, e) == e,
    decreases hi - lo,
{
    if hi > lo {
        lemma_fold_units(vals, lo, hi - 1, op, e);
        assert(vals[hi - 1] == e);
        assert(op(e, e) == e);
    }
}

proof fn lemma_chain<T>(nodes: Seq<T>, r: usize, c: Seq<T>, op: spec_fn(T, T) -> T)
    requires
        c.len() == down_path(r).len() + 1,
        forall|k: int| 0 <= k < down_path(r).len() ==> #[trigger] c[k + 1] == op(nodes[down_path(r)[k] as int], c[k]),
    ensures
        c.last() == query_fold(nodes, r, c[0], op),
    decreases r,
{
    if r > 0 {
        lemma_low(r);
        let r2 = (r - low(r)) as usize;
        assert(down_path(r) == seq![r].add(down_path(r2)));
        let c2 = c.drop_first();
        assert(c[1] == op(nodes[r as int], c[0]));
        assert forall|k: int| 0 <= k < down_path(r2).len() implies #[trigger] c2[k + 1] == op(
            nodes[down_path(r2)[k] as int],
            c2[k],
        ) by {
            let k1 = k + 1;
            assert(c[k1 + 1] == op(nodes[down_path(r)[k1] as int], c[k1]));
            assert(down_path(r)[k1] == down_path(r2)[k]);
            assert(c2[k + 1] == c[k1 + 1] && c2[k] == c[k1]);
        }
        lemma_chain(nodes, r2, c2, op);
    }
}

/// Prefix combinations under `f`, updated one element at a time; node `i` holds the
/// combination of the elements `i - (i & -i)..i`.
pub struct FenwickTree<T, F, Z> {
    a: Vec<T>,
    f: F,
    z: Z,
}

impl<T, F: Fn(&T, &T) -> T, Z: Fn() -> T> FenwickTree<T, F, Z> {
    /// The number of elements.
    pub closed spec fn len(&self) -> nat {
        (self.a@.len() - 1) as nat
    }

    /// The nodes; node `0` is unused.
    pub closed spec fn nodes(&self) -> Seq<T> {
        self.a@
    }

    /// The combining function.
    pub closed spec fn op(&self) -> F {
        self.f
    }

    /// The function giving the unit.
    pub closed spec fn unit(&self) -> Z {
        self.z
    }

    /// `f` and `z` may be called on anything.
    pub closed spec fn total(&self) -> bool {
        &&& self.a@.len() >= 1
        &&& forall|x: &T, y: &T| #[trigger] self.f.requires((x, y))
        &&& self.z.requires(())
    }

    /// `n` elements, all `z()`.
    pub fn new(n: usize, z: Z, f: F) -> (t: Self)
        requires
            n < usize::MAX,
            forall|x: &T, y: &T| #[trigger] f.requires((x, y)),
            z.requires(()),
        ensures
            t.total(),
            t.len() == n,
            t.op() == f,
            t.unit() == z,
            forall|j: int| 0 <= j <= n ==> z.ensures((), #[trigger] t.nodes()[j]),
            forall|op: spec_fn(T, T) -> T, e: T|
                #[trigger] t.computes(op, e) ==> t.holds(Seq::new(n as nat, |k: int| e), op, e),
    {
        let mut a: Vec<T> = Vec::new();
        let mut i: usize = 0;
        while i <= n
            invariant
                i <= n + 1,
                n < usize::MAX,
                a@.len() == i,
                z.requires(()),
                forall|j: int| 0 <= j < i ==> z.ensures((), #[trigger] a@[j]),
            decreases n + 1 - i,
        {
            a.push(z());
            i += 1;
        }
        let t = FenwickTree { a, f, z };
        proof {
            assert forall|op: spec_fn(T, T) -> T, e: T| #[trigger] t.computes(op, e) implies t.holds(
                Seq::new(n as nat, |k: int| e),
                op,
                e,
            ) by {
                t.lemma_units(op, e);
            }
        }
        t
    }

    /// Combines `x` into element `i`: every node whose range holds `i` becomes
    /// `f(node, x)`.
    pub fn add(&mut self, i: usize, x: T)
        requires
            old(self).total(),
            i < usize::MAX,
        ensures
            final(self).total(),
            final(self).len() == old(self).len(),
            final(self).op() == old(self).op(),
            final(self).unit() == old(self).unit(),
            forall|j: int|
                0 <= j < old(self).nodes().len() ==> if up_path((i + 1) as usize, old(self).nodes().len()).contains(
                    j as usize,
                ) {
                    old(self).op().ensures((&old(self).nodes()[j], &x), #[trigger] final(self).nodes()[j])
                } else {
                    final(self).nodes()[j] == old(self).nodes()[j]
                },
            forall|vals: Seq<T>, op: spec_fn(T, T) -> T, e: T|
                #[trigger] old(self).holds(vals, op, e) && i < vals.len() ==> final(self).holds(
                    vals.update(i as int, op(vals[i as int], x)),
                    op,
                    e,
                ),
    {
        let ghost s0 = *self;
        let ghost i0 = i;
        let ghost a0 = self.a@;
        let ghost path = up_path((i + 1) as usize, a0.len());
        let ghost mut done: Seq<usize> = Seq::empty();
        let mut i = i + 1;
        let len = self.a.len();
        while i < len
            invariant_except_break
                path == done + up_path(i, len as nat),
                forall|k: int| 0 <= k < done.len() ==> #[trigger] done[k] < i,
            invariant
                self.total(),
                len == self.a@.len(),
                a0.len() == len,
                self.f == old(self).f,
                self.z == old(self).z,
                i >= 1,
                forall|j: int|
                    0 <= j < len ==> if done.contains(j as usize) {
                        self.f.ensures((&a0[j], &x), #[trigger] self.a@[j])
                    } else {
                        self.a@[j] == a0[j]
                    },
            ensures
                path == done,
                self.total(),
                len == self.a@.len(),
                self.f == old(self).f,
                self.z == old(self).z,
                forall|j: int|
                    0 <= j < len ==> if done.contains(j as usize) {
                        self.f.ensures((&a0[j], &x), #[trigger] self.a@[j])
                    } else {
                        self.a@[j] == a0[j]
                    },
            decreases usize::MAX - i,
        {
            proof {
                assert(!done.contains(i)) by {
                    if done.contains(i) {
                        let k = choose|k: int| 0 <= k < done.len() && done[k] == i;
                        assert(done[k] < i);
                    }
                }
            }
            let v = (self.f)(&self.a[i], &x);
            self.a.set(i, v);
            let lb = lowbit(i);
            let ghost d2 = done.push(i);
            proof {
                assert forall|j: int| 0 <= j < len implies #[trigger] d2.contains(j as usize) == (done.contains(
                    j as usize,
                ) || j == i) by {
                    if j == i {
                        assert(d2[done.len() as int] == i);
                    }
                    if d2.contains(j as usize) && j != i {
                        let k = choose|k: int| 0 <= k < d2.len() && d2[k] == j as usize;
                        assert(done[k] == j);
                    }
                    if done.contains(j as usize) {
                        let k = choose|k: int| 0 <= k < done.len() && done[k] == j as usize;
                        assert(d2[k] == j);
                    }
                }
                assert(up_path(i, len as nat) == (if i + low(i) > usize::MAX {
                    seq![i]
                } else {
                    seq![i].add(up_path((i + low(i)) as usize, len as nat))
                }));
                done = d2;
            }
            match i.checked_add(lb) {
                Some(j) => {
                    proof {
                        assert(path =~= done + up_path(j, len as nat));
                    }
                    i = j
                },
                None => {
                    proof {
                        assert(path =~= done);
                    }
                    break
                },
            }
        }
        proof {
            if i >= len {
                assert(path =~= done);
            }
            let s1 = *self;
            assert(s1.op() == s0.op() && s1.unit() == s0.unit());
            assert(s0.nodes() == a0 && s1.nodes() == self.a@);
            assert forall|vals: Seq<T>, op: spec_fn(T, T) -> T, e: T|
                #[trigger] s0.holds(vals, op, e) && i0 < vals.len() implies s1.holds(
                    vals.update(i0 as int, op(vals[i0 as int], x)),
                    op,
                    e,
                ) by {
                assert(s1.computes(op, e));
                Self::lemma_add(&s0, &s1, vals, i0, x, op, e);
            }
        }
    }

    /// The combination of the elements `0..i`: `f(node, f(node, ... z()))` over the
    /// nodes that cover `0..i`, from node `i` down.
    pub fn sum(&self, i: usize) -> (s: T)
        requires
            self.total(),
            i <= self.len(),
        ensures
            exists|vals: Seq<T>|
                {
                    &&& vals.len() == down_path(i).len() + 1
                    &&& self.unit().ensures((), vals[0])
                    &&& forall|k: int|
                        0 <= k < down_path(i).len() ==> self.op().ensures(
                            (&self.nodes()[down_path(i)[k] as int], &vals[k]),
                            #[trigger] vals[k + 1],
                        )
                    &&& s == vals.last()
                },
            forall|vals: Seq<T>, op: spec_fn(T, T) -> T, e: T|
                #[trigger] self.holds(vals, op, e) ==> s == fold_range(vals, 0, i as int, op, e),
    {
        let ghost path = down_path(i);
        let ghost mut done: Seq<usize> = Seq::empty();
        let i0 = i;
        let mut i = i;
        let mut s = (self.z)();
        let ghost mut vals: Seq<T> = seq![s];
        while i > 0
            invariant
                self.total(),
                i <= self.len(),
                path == down_path(i0),
                path == done + down_path(i),
                vals.len() == done.len() + 1,
                self.z.ensures((), vals[0]),
                forall|k: int|
                    0 <= k < done.len() ==> self.f.ensures((&self.a@[done[k] as int], &vals[k]), #[trigger] vals[k + 1]),
                s == vals.last(),
            decreases i,
        {
            proof {
                lemma_low(i);
            }
            let s2 = (self.f)(&self.a[i], &s);
            let ghost d2 = done.push(i);
            let ghost v2 = vals.push(s2);
            proof {
                assert(down_path(i) == seq![i].add(down_path((i - low(i)) as usize)));
                assert(path =~= d2 + down_path((i - low(i)) as usize));
                assert forall|k: int|
                    0 <= k < d2.len() implies self.f.ensures((&self.a@[d2[k] as int], &v2[k]), #[trigger] v2[k + 1]) by {
                    if k < done.len() {
                        assert(d2[k] == done[k] && v2[k] == vals[k] && v2[k + 1] == vals[k + 1]);
                    }
                }
                done = d2;
                vals = v2;
            }
            s = s2;
            i -= lowbit(i);
        }
        proof {
            assert(path =~= done);
            assert forall|vs: Seq<T>, op: spec_fn(T, T) -> T, e: T|
                #[trigger] self.holds(vs, op, e) implies s == fold_range(vs, 0, i0 as int, op, e) by {
                self.lemma_sum(vs, i0, s, op, e);
            }
        }
        s
    }

    /// Every node back to `z()`.
    pub fn reset(&mut self)
        requires
            old(self).total(),
        ensures
            final(self).total(),
            final(self).len() == old(self).len(),
            final(self).op() == old(self).op(),
            final(self).unit() == old(self).unit(),
            forall|j: int| 0 <= j < final(self).nodes().len() ==> old(self).unit().ensures((), #[trigger] final(self).nodes()[j]),
            forall|op: spec_fn(T, T) -> T, e: T|
                #[trigger] final(self).computes(op, e) ==> final(self).holds(Seq::new(final(self).len(), |k: int| e), op, e),
    {
        let mut i: usize = 0;
        while i < self.a.len()
            invariant
                self.total(),
                self.a@.len() == old(self).a@.len(),
                i <= self.a@.len(),
                self.f == old(self).f,
                self.z == old(self).z,
                forall|j: int| 0 <= j < i ==> self.z.ensures((), #[trigger] self.a@[j]),
            decreases self.a@.len() - i,
        {
            let v = (self.z)();
            self.a.set(i, v);
            i += 1;
        }
        proof {
            let s1 = *self;
            assert forall|op: spec_fn(T, T) -> T, e: T| #[trigger] s1.computes(op, e) implies s1.holds(
                Seq::new(s1.len(), |k: int| e),
                op,
                e,
            ) by {
                s1.lemma_units(op, e);
            }
        }
    }
}


impl<T, F: Fn(&T, &T) -> T, Z: Fn() -> T> FenwickTree<T, F, Z> {
    /// `f` computes `op` and `z` gives `e`, where `op` is commutative and associative
    /// with unit `e`.
    pub open spec fn computes(&self, op: spec_fn(T, T) -> T, e: T) -> bool {
        &&& commutative_monoid(op, e)
        &&& forall|a: &T, b: &T, c: T| #[trigger] self.op().ensures((a, b), c) ==> c == op(*a, *b)
        &&& forall|c: T| #[trigger] self.unit().ensures((), c) ==> c == e
    }

    /// The nodes form the tree of `vals` under `op` with unit `e`, which `f` and `z` compute.
    pub open spec fn holds(&self, vals: Seq<T>, op: spec_fn(T, T) -> T, e: T) -> bool {
        &&& self.computes(op, e)
        &&& fenwick_of(self.nodes(), vals, op, e)
    }

    /// A new or reset tree holds all units.
    pub proof fn lemma_units(&self, op: spec_fn(T, T) -> T, e: T)
        requires
            self.computes(op, e),
            self.total(),
            self.nodes().len() <= usize::MAX,
            forall|j: int| 0 <= j < self.nodes().len() ==> self.unit().ensures((), #[trigger] self.nodes()[j]),
        ensures
            fenwick_of(self.nodes(), Seq::new(self.len(), |k: int| e), op, e),
    {
        assert forall|j: int| 0 <= j < self.nodes().len() implies #[trigger] self.nodes()[j] == e by {
            assert(self.unit().ensures((), self.nodes()[j]));
        }
        lemma_all_units(self.nodes(), op, e);
        assert(Seq::new(self.len(), |k: int| e) =~= Seq::new((self.nodes().len() - 1) as nat, |k: int| e));
    }

    /// After `add(i, x)`, the tree holds the values with `x` combined into element `i`.
    pub proof fn lemma_add(
        before: &Self,
        after: &Self,
        vals: Seq<T>,
        i: usize,
        x: T,
        op: spec_fn(T, T) -> T,
        e: T,
    )
        requires
            before.computes(op, e),
            after.op() == before.op(),
            fenwick_of(before.nodes(), vals, op, e),
            before.nodes().len() <= usize::MAX,
            i < vals.len(),
            after.nodes().len() == before.nodes().len(),
            forall|j: int|
                0 <= j < before.nodes().len() ==> if up_path((i + 1) as usize, before.nodes().len()).contains(
                    j as usize,
                ) {
                    before.op().ensures((&before.nodes()[j], &x), #[trigger] after.nodes()[j])
                } else {
                    after.nodes()[j] == before.nodes()[j]
                },
        ensures
            fenwick_of(after.nodes(), vals.update(i as int, op(vals[i as int], x)), op, e),
    {
        let nodes = before.nodes();
        let nodes2 = after.nodes();
        assert forall|j: int| 0 <= j < nodes.len() implies #[trigger] nodes2[j] == if up_path(
            (i + 1) as usize,
            nodes.len(),
        ).contains(j as usize) {
            op(nodes[j], x)
        } else {
            nodes[j]
        } by {
            if up_path((i + 1) as usize, nodes.len()).contains(j as usize) {
                assert(before.op().ensures((&nodes[j], &x), nodes2[j]));
            }
        }
        lemma_update(nodes, nodes2, vals, i, x, op, e);
    }

    /// What `sum(r)` returns is the combination of the elements below `r`.
    pub proof fn lemma_sum(&self, vals: Seq<T>, r: usize, s: T, op: spec_fn(T, T) -> T, e: T)
        requires
            self.computes(op, e),
            fenwick_of(self.nodes(), vals, op, e),
            r <= self.len(),
            exists|c: Seq<T>|
                {
                    &&& c.len() == down_path(r).len() + 1
                    &&& self.unit().ensures((), c[0])
                    &&& forall|k: int|
                        0 <= k < down_path(r).len() ==> self.op().ensures(
                            (&self.nodes()[down_path(r)[k] as int], &c[k]),
                            #[trigger] c[k + 1],
                        )
                    &&& s == c.last()
                },
        ensures
            s == fold_range(vals, 0, r as int, op, e),
    {
        let c = choose|c: Seq<T>|
            {
                &&& c.len() == down_path(r).len() + 1
                &&& self.unit().ensures((), c[0])
                &&& forall|k: int|
                    0 <= k < down_path(r).len() ==> self.op().ensures(
                        (&self.nodes()[down_path(r)[k] as int], &c[k]),
                        #[trigger] c[k + 1],
                    )
                &&& s == c.last()
            };
        assert(c[0] == e);
        assert forall|k: int| 0 <= k < down_path(r).len() implies #[trigger] c[k + 1] == op(
            self.nodes()[down_path(r)[k] as int],
            c[k],
        ) by {
            assert(self.op().ensures((&self.nodes()[down_path(r)[k] as int], &c[k]), c[k + 1]));
        }
        lemma_chain(self.nodes(), r, c, op);
        lemma_query(self.nodes(), vals, r, e, op, e);
        assert(op(fold_range(vals, 0, r as int, op, e), e) == op(e, fold_range(vals, 0, r as int, op, e)));
    }
}

} // verus!
