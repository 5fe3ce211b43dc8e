use vstd::prelude::*;

verus! {

/// Number of indices `i < k` whose class representative is `r`.
pub open spec fn class_count(roots: Seq<int>, r: int, k: int) -> nat
    decreases k,
{
    if k <= 0 {
        0
    } else {
        class_count(roots, r, k - 1) + if roots[k - 1] == r { 1nat } else { 0nat }
    }
}

proof fn lemma_class_count_bound(roots: Seq<int>, r: int, k: int)
    requires
        k >= 0,
    ensures
        class_count(roots, r, k) <= k,
    decreases k,
{
    if k > 0 {
        lemma_class_count_bound(roots, r, k - 1);
    }
}

proof fn lemma_class_count_pos(roots: Seq<int>, r: int, k: int)
    requires
        0 <= r < k,
        roots[r] == r,
    ensures
        class_count(roots, r, k) >= 1,
    decreases k,
{
    if k - 1 > r {
        lemma_class_count_pos(roots, r, k - 1);
    }
}

/// Relabelling class `c` as class `r` adds the two counts for `r` and zeroes `c`,
/// leaving every other class count unchanged.
proof fn lemma_class_count_merge(roots: Seq<int>, new_roots: Seq<int>, r: int, c: int, k: int)
    requires
        r != c,
        0 <= k <= roots.len(),
        new_roots.len() == roots.len(),
        forall|i: int|
            0 <= i < roots.len() ==> #[trigger] new_roots[i] == (if roots[i] == c {
                r
            } else {
                roots[i]
            }),
    ensures
        class_count(new_roots, r, k) == class_count(roots, r, k) + class_count(roots, c, k),
        class_count(new_roots, c, k) == 0,
        forall|x: int| x != r && x != c ==> class_count(new_roots, x, k) == class_count(roots, x, k),
    decreases k,
{
    if k > 0 {
        lemma_class_count_merge(roots, new_roots, r, c, k - 1);
        assert(new_roots[k - 1] == (if roots[k - 1] == c { r } else { roots[k - 1] }));
        assert forall|x: int| x != r && x != c implies class_count(new_roots, x, k)
            == class_count(roots, x, k) by {
            assert(class_count(new_roots, x, k - 1) == class_count(roots, x, k - 1));
        }
    }
}

/// Disjoint-set union with union by size.
///
/// `p[u] < 0` marks a representative whose class has `-p[u]` members;
/// otherwise `p[u]` is the parent of `u`.
pub struct Dsu {
    p: Vec<isize>,
    roots: Ghost<Seq<int>>,
    rank: Ghost<Seq<nat>>,
}

impl Dsu {
    /// Number of elements.
    pub closed spec fn len(&self) -> nat {
        self.p@.len()
    }

    /// Representative of the class of `u`.
    pub closed spec fn find(&self, u: int) -> int {
        self.roots@[u]
    }

    /// Number of elements in the class whose representative is `r`.
    pub closed spec fn count(&self, r: int) -> nat {
        class_count(self.roots@, r, self.p@.len() as int)
    }

    /// The class of `r` has as many members as there are elements whose
    /// representative is `r`.
    pub proof fn lemma_count_members(&self, r: int)
        requires
            self.wf(),
        ensures
            self.count(r) == class_count(Seq::new(self.len(), |x: int| self.find(x)), r, self.len() as int),
    {
        assert(Seq::new(self.len(), |x: int| self.find(x)) =~= self.roots@);
    }

    pub closed spec fn wf(&self) -> bool {
        let n = self.p@.len();
        &&& n <= isize::MAX
        &&& self.roots@.len() == n
        &&& self.rank@.len() == n
        &&& forall|u: int|
            0 <= u < n ==> {
                let r = #[trigger] self.roots@[u];
                &&& 0 <= r < n
                &&& self.roots@[r] == r
                &&& self.rank@[u] <= self.rank@[r]
                &&& (self.p@[u] < 0 <==> r == u)
                &&& self.p@[u] >= 0 ==> {
                    &&& self.p@[u] < n
                    &&& self.roots@[self.p@[u] as int] == r
                    &&& self.rank@[u] < self.rank@[self.p@[u] as int]
                }
                &&& r == u ==> {
                    &&& -self.p@[u] == class_count(self.roots@, u, n as int)
                    &&& self.rank@[u] < class_count(self.roots@, u, n as int)
                }
            }
    }

    /// Every element is the representative of its own class.
    pub fn new(n: usize) -> (d: Self)
        requires
            n <= isize::MAX,
        ensures
            d.wf(),
            d.len() == n,
            forall|u: int| 0 <= u < n ==> d.find(u) == u,
    {
        let mut p: Vec<isize> = Vec::new();
        let mut i: usize = 0;
        while i < n
            invariant
                i <= n,
                p@.len() == i,
                forall|j: int| 0 <= j < i ==> p@[j] == -1,
            decreases n - i,
        {
            p.push(-1);
            i += 1;
        }
        let ghost roots = Seq::new(n as nat, |i: int| i);
        let ghost rank = Seq::new(n as nat, |i: int| 0nat);
        proof {
            assert forall|u: int| 0 <= u < n implies class_count(roots, u, n as int) == 1 by {
                lemma_class_count_single(roots, u, n as int);
            }
        }
        Dsu { p, roots: Ghost(roots), rank: Ghost(rank) }
    }

    /// The representative of the class of `u`.
    pub fn root(&self, u: usize) -> (r: usize)
        requires
            self.wf(),
            u < self.len(),
        ensures
            r == self.find(u as int),
    {
        let mut u = u;
        let ghost u0 = u as int;
        while self.p[u] >= 0
            invariant
                self.wf(),
                u < self.len(),
                self.roots@[u as int] == self.roots@[u0],
            decreases self.len() - self.rank@[u as int],
        {
            proof {
                let r = self.roots@[u as int];
                assert(self.rank@[r] < class_count(self.roots@, r, self.len() as int));
                lemma_class_count_bound(self.roots@, r, self.len() as int);
            }
            u = self.p[u] as usize;
        }
        u
    }

    /// Whether `u` is the representative of its class.
    pub fn is_root(&self, u: usize) -> (b: bool)
        requires
            self.wf(),
            u < self.len(),
        ensures
            b == (self.find(u as int) == u),
    {
        self.p[u] < 0
    }

    /// Merges the classes of `u` and `v`; returns `(r, c)` where `r` is the
    /// representative of the merged class and `c` the former representative of
    /// the other class (`(r, r)` when `u` and `v` were already together).
    /// The larger class keeps its representative; on a tie, that of `u`.
    pub fn unite(&mut self, u: usize, v: usize) -> (rc: (usize, usize))
        requires
            old(self).wf(),
            u < old(self).len(),
            v < old(self).len(),
        ensures
            final(self).wf(),
            final(self).len() == old(self).len(),
            ({
                let ru = old(self).find(u as int);
                let rv = old(self).find(v as int);
                let (r, c) = (rc.0 as int, rc.1 as int);
                if ru == rv {
                    &&& r == ru && c == ru
                    &&& forall|x: int|
                        0 <= x < old(self).len() ==> final(self).find(x) == old(self).find(x)
                } else {
                    &&& (r, c) == (if old(self).count(ru) >= old(self).count(rv) {
                        (ru, rv)
                    } else {
                        (rv, ru)
                    })
                    &&& forall|x: int|
                        0 <= x < old(self).len() ==> final(self).find(x) == (if old(self).find(x)
                            == c {
                            r
                        } else {
                            old(self).find(x)
                        })
                    &&& final(self).count(r) == old(self).count(r) + old(self).count(c)
                    &&& final(self).count(c) == 0
                    &&& forall|x: int| x != r && x != c ==> #[trigger] final(self).count(x) == old(self).count(x)
                }
            }),
            forall|x: int| old(self).find(u as int) == old(self).find(v as int) ==> #[trigger] final(self).count(x)
                == old(self).count(x),
    {
        let ru = self.root(u);
        let rv = self.root(v);
        if ru == rv {
            return (ru, ru);
        }
        let ghost n = self.len() as int;
        let ghost old_roots = self.roots@;
        proof {
            lemma_class_count_bound(old_roots, ru as int, n);
            lemma_class_count_bound(old_roots, rv as int, n);
        }
        let (r, c) = if -self.p[ru] >= -self.p[rv] {
            (ru, rv)
        } else {
            (rv, ru)
        };
        let ghost new_roots = Seq::new(
            n as nat,
            |i: int| if old_roots[i] == c as int { r as int } else { old_roots[i] },
        );
        proof {
            lemma_class_count_merge(old_roots, new_roots, r as int, c as int, n);
            lemma_class_count_disjoint(old_roots, r as int, c as int, n);
        }
        let ghost old_rank = self.rank@;
        let ghost new_rank_r: nat = if old_rank[r as int] > old_rank[c as int] {
            old_rank[r as int]
        } else {
            old_rank[c as int] + 1
        };
        let sum = self.p[r] + self.p[c];
        self.p[r] = sum;
        self.p[c] = r as isize;
        self.roots = Ghost(new_roots);
        self.rank = Ghost(old_rank.update(r as int, new_rank_r));
        proof {
            assert forall|x: int| 0 <= x < n implies {
                let rt = #[trigger] self.roots@[x];
                &&& 0 <= rt < n
                &&& self.roots@[rt] == rt
                &&& self.rank@[x] <= self.rank@[rt]
                &&& (self.p@[x] < 0 <==> rt == x)
                &&& self.p@[x] >= 0 ==> {
                    &&& self.p@[x] < n
                    &&& self.roots@[self.p@[x] as int] == rt
                    &&& self.rank@[x] < self.rank@[self.p@[x] as int]
                }
                &&& rt == x ==> {
                    &&& -self.p@[x] == class_count(self.roots@, x, n)
                    &&& self.rank@[x] < class_count(self.roots@, x, n)
                }
            } by {
                assert(old_roots[x] == old_roots[old_roots[x]]);
                if self.p@[x] >= 0 && x != c as int {
                    assert(old_roots[old(self).p@[x] as int] == old_roots[x]);
                }
            }
        }
        (r, c)
    }

    /// Whether `u` and `v` are in the same class.
    pub fn is_same(&self, u: usize, v: usize) -> (b: bool)
        requires
            self.wf(),
            u < self.len(),
            v < self.len(),
        ensures
            b == (self.find(u as int) == self.find(v as int)),
    {
        self.root(u) == self.root(v)
    }

    /// The number of elements in the class of `u`.
    pub fn size(&self, u: usize) -> (s: usize)
        requires
            self.wf(),
            u < self.len(),
        ensures
            s == self.count(self.find(u as int)),
    {
        let r = self.root(u);
        proof {
            lemma_class_count_bound(self.roots@, r as int, self.len() as int);
        }
        (-self.p[r]) as usize
    }
}

proof fn lemma_class_count_single(roots: Seq<int>, u: int, k: int)
    requires
        0 <= u < roots.len(),
        k <= roots.len(),
        forall|i: int| 0 <= i < roots.len() ==> roots[i] == i,
    ensures
        class_count(roots, u, k) == if u < k { 1nat } else { 0nat },
    decreases k,
{
    if k > 0 {
        lemma_class_count_single(roots, u, k - 1);
    }
}

proof fn lemma_class_count_disjoint(roots: Seq<int>, r: int, c: int, k: int)
    requires
        r != c,
        0 <= k,
    ensures
        class_count(roots, r, k) + class_count(roots, c, k) <= k,
    decreases k,
{
    if k > 0 {
        lemma_class_count_disjoint(roots, r, c, k - 1);
    }
}

} // verus!

verus! {

/// A [`Dsu`] whose classes each carry a value, held by the representative.
pub struct DsuWithData<T> {
    inner: Dsu,
    data: Vec<Option<T>>,
}

impl<T> DsuWithData<T> {
    pub closed spec fn wf(&self) -> bool {
        &&& self.inner.wf()
        &&& self.data@.len() == self.inner.len()
        &&& forall|u: int|
            0 <= u < self.data@.len() ==> (#[trigger] self.data@[u] is Some <==> self.inner.find(u)
                == u)
    }

    pub closed spec fn len(&self) -> nat {
        self.inner.len()
    }

    pub closed spec fn find(&self, u: int) -> int {
        self.inner.find(u)
    }

    pub closed spec fn count(&self, r: int) -> nat {
        self.inner.count(r)
    }

    /// The class of `r` has as many members as there are elements whose
    /// representative is `r`.
    pub proof fn lemma_count_members(&self, r: int)
        requires
            self.wf(),
        ensures
            self.count(r) == class_count(Seq::new(self.len(), |x: int| self.find(x)), r, self.len() as int),
    {
        self.inner.lemma_count_members(r);
        assert(Seq::new(self.len(), |x: int| self.find(x)) =~= Seq::new(self.inner.len(), |x: int| self.inner.find(x)));
    }

    /// The value of the class whose representative is `r`.
    pub closed spec fn value(&self, r: int) -> T {
        self.data@[r]->Some_0
    }

    /// One singleton class per element of `data`, each carrying that element.
    pub fn from_vec(data: Vec<T>) -> (d: Self)
        requires
            data.len() <= isize::MAX,
        ensures
            d.wf(),
            d.len() == data.len(),
            forall|u: int| 0 <= u < data.len() ==> d.find(u) == u && d.value(u) == data@[u],
    {
        let n = data.len();
        let mut rev: Vec<Option<T>> = Vec::new();
        let mut data = data;
        let ghost orig = data@;
        while data.len() > 0
            invariant
                data@.len() + rev@.len() == n,
                orig.len() == n,
                forall|i: int| 0 <= i < data@.len() ==> data@[i] == orig[i],
                forall|i: int|
                    0 <= i < rev@.len() ==> #[trigger] rev@[i] == Some(orig[n - 1 - i]),
            decreases data.len(),
        {
            let x = data.pop().unwrap();
            rev.push(Some(x));
        }
        let mut out: Vec<Option<T>> = Vec::new();
        while rev.len() > 0
            invariant
                rev@.len() + out@.len() == n,
                forall|i: int|
                    0 <= i < rev@.len() ==> #[trigger] rev@[i] == Some(orig[n - 1 - i]),
                forall|i: int| 0 <= i < out@.len() ==> #[trigger] out@[i] == Some(orig[i]),
            decreases rev.len(),
        {
            let x = rev.pop().unwrap();
            out.push(x);
        }
        DsuWithData { inner: Dsu::new(n), data: out }
    }

    pub fn root(&self, u: usize) -> (r: usize)
        requires
            self.wf(),
            u < self.len(),
        ensures
            r == self.find(u as int),
    {
        self.inner.root(u)
    }

    pub fn is_root(&self, u: usize) -> (b: bool)
        requires
            self.wf(),
            u < self.len(),
        ensures
            b == (self.find(u as int) == u),
    {
        self.inner.is_root(u)
    }

    pub fn is_same(&self, u: usize, v: usize) -> (b: bool)
        requires
            self.wf(),
            u < self.len(),
            v < self.len(),
        ensures
            b == (self.find(u as int) == self.find(v as int)),
    {
        self.inner.is_same(u, v)
    }

    pub fn size(&self, u: usize) -> (s: usize)
        requires
            self.wf(),
            u < self.len(),
        ensures
            s == self.count(self.find(u as int)),
    {
        self.inner.size(u)
    }

    /// The value of the class of `u`.
    pub fn get(&self, u: usize) -> (x: &T)
        requires
            self.wf(),
            u < self.len(),
        ensures
            *x == self.value(self.find(u as int)),
    {
        let r = self.inner.root(u);
        self.data[r].as_ref().unwrap()
    }

    /// Merges the classes of `u` and `v` as [`Dsu::unite`] does; the value of
    /// the merged class is `merge(value of r, value of c)`.
    pub fn unite<F: Fn(T, T) -> T>(&mut self, u: usize, v: usize, merge: F) -> (rc: (usize, usize))
        requires
            old(self).wf(),
            u < old(self).len(),
            v < old(self).len(),
            forall|a: T, b: T| #[trigger] merge.requires((a, b)),
        ensures
            final(self).wf(),
            final(self).len() == old(self).len(),
            ({
                let ru = old(self).find(u as int);
                let rv = old(self).find(v as int);
                let (r, c) = (rc.0 as int, rc.1 as int);
                if ru == rv {
                    &&& r == ru && c == ru
                    &&& forall|x: int|
                        0 <= x < old(self).len() ==> final(self).find(x) == old(self).find(x)
                    &&& forall|x: int|
                        0 <= x < old(self).len() && old(self).find(x) == x ==> final(self).value(x)
                            == old(self).value(x)
                } else {
                    &&& (r, c) == (if old(self).count(ru) >= old(self).count(rv) {
                        (ru, rv)
                    } else {
                        (rv, ru)
                    })
                    &&& forall|x: int|
                        0 <= x < old(self).len() ==> final(self).find(x) == (if old(self).find(x)
                            == c {
                            r
                        } else {
                            old(self).find(x)
                        })
                    &&& final(self).count(r) == old(self).count(r) + old(self).count(c)
                    &&& merge.ensures((old(self).value(r), old(self).value(c)), final(self).value(r))
                    &&& forall|x: int|
                        0 <= x < old(self).len() && old(self).find(x) == x && x != r && x != c
                            ==> final(self).value(x) == old(self).value(x)
                }
            }),
    {
        let (r, c) = self.inner.unite(u, v);
        if r != c {
            let dc = self.data[c].take().unwrap();
            let dr = self.data[r].take().unwrap();
            let m = merge(dr, dc);
            self.data[r] = Some(m);
        }
        (r, c)
    }
}

} // verus!
