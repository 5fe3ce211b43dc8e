use vstd::prelude::*;
use vstd::arithmetic::power2::{pow2, lemma_pow2_unfold, lemma_pow2_pos};
use crate::slice::Ordered;

verus! {

/// The least key among `s[l..r]`, for `l < r`.
pub open spec fn min_key<T: Ordered>(s: Seq<T>, l: int, r: int) -> int
    decreases r - l,
{
    if r <= l + 1 {
        s[l].key()
    } else {
        let m = min_key(s, l, r - 1);
        if s[r - 1].key() < m {
            s[r - 1].key()
        } else {
            m
        }
    }
}

/// `min_key` is a lower bound of the range that some element attains.
pub proof fn lemma_min_key<T: Ordered>(s: Seq<T>, l: int, r: int)
    requires
        l < r,
    ensures
        forall|i: int| l <= i < r ==> min_key(s, l, r) <= #[trigger] s[i].key(),
        exists|i: int| l <= i < r && min_key(s, l, r) == #[trigger] s[i].key(),
    decreases r - l,
{
    if r > l + 1 {
        lemma_min_key(s, l, r - 1);
        let i = choose|i: int| l <= i < r - 1 && min_key(s, l, r - 1) == #[trigger] s[i].key();
        if s[r - 1].key() < min_key(s, l, r - 1) {
            assert(min_key(s, l, r) == s[r - 1].key());
        } else {
            assert(min_key(s, l, r) == s[i].key());
        }
    } else {
        assert(min_key(s, l, r) == s[l].key());
    }
}

/// The least key of a range covered by two overlapping ranges is the lesser of theirs.
pub proof fn lemma_min_key_cover<T: Ordered>(s: Seq<T>, l: int, m1: int, m2: int, r: int)
    requires
        l < m2,
        m1 < r,
        l <= m1 <= m2 <= r,
    ensures
        min_key(s, l, r) == if min_key(s, l, m2) <= min_key(s, m1, r) {
            min_key(s, l, m2)
        } else {
            min_key(s, m1, r)
        },
{
    lemma_min_key(s, l, r);
    lemma_min_key(s, l, m2);
    lemma_min_key(s, m1, r);
    let i = choose|i: int| l <= i < r && min_key(s, l, r) == #[trigger] s[i].key();
    let i1 = choose|i: int| l <= i < m2 && min_key(s, l, m2) == #[trigger] s[i].key();
    let i2 = choose|i: int| m1 <= i < r && min_key(s, m1, r) == #[trigger] s[i].key();
    if i < m2 {
        assert(min_key(s, l, m2) <= s[i].key());
    } else {
        assert(min_key(s, m1, r) <= s[i].key());
    }
}

/// `v` is an element of `s[j..j + w]` of least key.
pub open spec fn least_of<T: Ordered>(s: Seq<T>, v: T, j: int, w: int) -> bool {
    &&& v.key() == min_key(s, j, j + w)
    &&& exists|q: int| j <= q < j + w && s[q] == v
}

proof fn lemma_pick_least<T: Ordered>(s: Seq<T>, p: T, q: T, j: int, w: int)
    requires
        w >= 1,
        least_of(s, p, j, w),
        least_of(s, q, j + w, w),
    ensures
        least_of(s, if q.key() < p.key() { q } else { p }, j, 2 * w),
{
    lemma_min_key_cover(s, j, j + w, j + w, j + 2 * w);
    let qi = choose|qq: int| j + w <= qq < j + w + w && s[qq] == q;
    let pi = choose|qq: int| j <= qq < j + w && s[qq] == p;
}

/// Range minima by doubling: row `k` holds, at `j`, an element of least key among
/// `a[j..j + 2^k]`.
pub struct SparseTable<T>(Vec<Vec<T>>);

impl<T: Ordered> SparseTable<T> {
    /// The elements.
    pub closed spec fn elems(&self) -> Seq<T> {
        if self.0@.len() > 0 {
            self.0@[0]@
        } else {
            Seq::empty()
        }
    }

    pub closed spec fn wf(&self) -> bool {
        let a = self.elems();
        &&& self.0@.len() >= 1
        &&& forall|k: nat| pow2(k) <= a.len() ==> k < self.0@.len()
        &&& forall|k: int|
            0 <= k < self.0@.len() ==> {
                &&& (#[trigger] self.0@[k])@.len() + pow2(k as nat) == a.len() + 1 || (k == 0 && a.len() == 0)
                &&& forall|j: int| 0 <= j < self.0@[k]@.len() ==> least_of(a, #[trigger] self.0@[k]@[j], j, pow2(k as nat) as int)
            }
    }

    /// The table of `a`.
    pub fn new(a: Vec<T>) -> (t: Self)
        ensures
            t.wf(),
            t.elems() == a@,
    {
        let n = a.len();
        let ghost x = a@;
        let mut tab: Vec<Vec<T>> = Vec::new();
        let mut cur = a;
        let mut width: usize = 1;
        proof {
            vstd::arithmetic::power2::lemma2_to64();
            assert forall|j: int| 0 <= j < cur@.len() implies least_of(x, #[trigger] cur@[j], j, 1) by {
                assert(x[j] == cur@[j]);
            }
            assert forall|k: nat| pow2(k) <= 1 && pow2(k) <= n implies k <= 0 by {
                if k > 0 {
                    vstd::arithmetic::power2::lemma_pow2_strictly_increases(0, k);
                }
            }
        }
        while width < cur.len()
            invariant
                n == x.len(),
                1 <= width <= n + 1,
                width == pow2(tab@.len() as nat),
                cur@.len() + width == n + 1 || (tab@.len() == 0 && n == 0),
                tab@.len() > 0 ==> tab@[0]@ == x,
                tab@.len() == 0 ==> cur@ == x,
                forall|k: nat| pow2(k) <= width && pow2(k) <= n ==> k <= tab@.len(),
                forall|k: int|
                    0 <= k < tab@.len() ==> {
                        &&& (#[trigger] tab@[k])@.len() + pow2(k as nat) == n + 1
                        &&& forall|j: int| 0 <= j < tab@[k]@.len() ==> least_of(x, #[trigger] tab@[k]@[j], j, pow2(k as nat) as int)
                    },
                forall|j: int| 0 <= j < cur@.len() ==> least_of(x, #[trigger] cur@[j], j, width as int),
            decreases n + 1 - width,
        {
            let len = cur.len();
            let mut b: Vec<T> = Vec::new();
            let mut i = width;
            while i < len
                invariant
                    width <= i <= len,
                    len == cur@.len(),
                    n == x.len(),
                    len + width == n + 1,
                    width >= 1,
                    b@.len() == i - width,
                    forall|j: int| 0 <= j < cur@.len() ==> least_of(x, #[trigger] cur@[j], j, width as int),
                    forall|j: int| 0 <= j < b@.len() ==> least_of(x, #[trigger] b@[j], j, 2 * width),
                decreases len - i,
            {
                let p = cur[i - width];
                let q = cur[i];
                let m = if q.less(&p) { q } else { p };
                proof {
                    let j = (i - width) as int;
                    assert(least_of(x, cur@[j], j, width as int));
                    assert(least_of(x, cur@[i as int], j + width, width as int));
                    lemma_pick_least(x, p, q, j, width as int);
                }
                b.push(m);
                i += 1;
            }
            let ghost k = tab@.len();
            tab.push(cur);
            cur = b;
            proof {
                vstd::arithmetic::power2::lemma_pow2_unfold((k + 1) as nat);
                assert(pow2((k + 1) as nat) == 2 * width);
                assert forall|kk: nat| pow2(kk) <= 2 * width && pow2(kk) <= n implies kk <= k + 1 by {
                    if kk > k + 1 {
                        vstd::arithmetic::power2::lemma_pow2_strictly_increases((k + 1) as nat, kk);
                    }
                }
                assert forall|kk: int| 0 <= kk < tab@.len() implies {
                    &&& (#[trigger] tab@[kk])@.len() + pow2(kk as nat) == n + 1
                    &&& forall|j: int| 0 <= j < tab@[kk]@.len() ==> least_of(x, #[trigger] tab@[kk]@[j], j, pow2(kk as nat) as int)
                } by {
                    if kk == k {
                        assert(tab@[kk]@.len() + width == n + 1);
                    }
                }
            }
            width = width * 2;
        }
        tab.push(cur);
        let t = SparseTable(tab);
        proof {
            let K = (t.0@.len() - 1) as nat;
            assert(t.elems() == x);
            assert forall|kk: nat| pow2(kk) <= x.len() implies kk < t.0@.len() by {
                if kk > K {
                    vstd::arithmetic::power2::lemma_pow2_unfold(K + 1);
                    if kk > K + 1 { vstd::arithmetic::power2::lemma_pow2_strictly_increases(K + 1, kk); }
                }
            }
        }
        t
    }

    pub fn len(&self) -> (n: usize)
        requires
            self.wf(),
        ensures
            n == self.elems().len(),
    {
        self.0[0].len()
    }

    /// An element of least key among `l..r`.
    #[verifier::rlimit(100)]
    #[verifier::spinoff_prover]
    pub fn min(&self, l: usize, r: usize) -> (m: &T)
        requires
            self.wf(),
            l < r <= self.elems().len(),
        ensures
            m.key() == min_key(self.elems(), l as int, r as int),
            exists|q: int| l <= q < r && self.elems()[q] == *m,
    {
        let ghost x = self.elems();
        let mut k: usize = 0;
        let mut w: usize = 1;
        proof {
            vstd::arithmetic::power2::lemma2_to64();
        }
        while w <= (r - l) / 2
            invariant
                1 <= w <= r - l,
                w == pow2(k as nat),
                k <= 64,
            decreases r - l - w,
        {
            proof {
                vstd::arithmetic::power2::lemma2_to64();
                vstd::arithmetic::power2::lemma_pow2_unfold((k + 1) as nat);
                if k + 1 > 64 {
                    vstd::arithmetic::power2::lemma_pow2_strictly_increases(64, (k + 1) as nat);
                }
            }
            w = 2 * w;
            k += 1;
        }
        assert(k < self.0@.len());
        let row = &self.0[k];
        proof {
            let rk = self.0@[k as int]@;
            assert(rk.len() + w == x.len() + 1);
            assert(least_of(x, rk[l as int], l as int, w as int));
            assert(least_of(x, rk[r - w], r - w, w as int));
            lemma_min_key_cover(x, l as int, r - w, l + w, r as int);
        }
        let a = &row[l];
        let b = &row[r - w];
        if b.less(a) {
            b
        } else {
            a
        }
    }
}

} // verus!
