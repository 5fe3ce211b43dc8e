use vstd::prelude::*;

verus! {

/// Values compared through an integer key, which orders them as `Ord` does.
pub trait Ordered: Copy {
    spec fn key(self) -> int;

    fn less(&self, other: &Self) -> (r: bool)
        ensures
            r == (self.key() < other.key()),
    ;
}

impl Ordered for i32 {
    open spec fn key(self) -> int {
        self as int
    }

    fn less(&self, other: &Self) -> (r: bool) {
        *self < *other
    }
}

impl Ordered for i64 {
    open spec fn key(self) -> int {
        self as int
    }

    fn less(&self, other: &Self) -> (r: bool) {
        *self < *other
    }
}

impl Ordered for u8 {
    open spec fn key(self) -> int {
        self as int
    }

    fn less(&self, other: &Self) -> (r: bool) {
        *self < *other
    }
}

impl Ordered for u32 {
    open spec fn key(self) -> int {
        self as int
    }

    fn less(&self, other: &Self) -> (r: bool) {
        *self < *other
    }
}

impl Ordered for u64 {
    open spec fn key(self) -> int {
        self as int
    }

    fn less(&self, other: &Self) -> (r: bool) {
        *self < *other
    }
}

impl Ordered for usize {
    open spec fn key(self) -> int {
        self as int
    }

    fn less(&self, other: &Self) -> (r: bool) {
        *self < *other
    }
}

/// The keys of `s` never increase from index `from` on.
pub open spec fn non_increasing_from<T: Ordered>(s: Seq<T>, from: int) -> bool {
    forall|x: int, y: int| from <= x <= y < s.len() ==> (#[trigger] s[x]).key() >= (#[trigger] s[y]).key()
}

/// The keys of `s` never decrease from index `from` on.
pub open spec fn non_decreasing_from<T: Ordered>(s: Seq<T>, from: int) -> bool {
    forall|x: int, y: int| from <= x <= y < s.len() ==> (#[trigger] s[x]).key() <= (#[trigger] s[y]).key()
}

/// `t` is the successor of `s` found at the pivot `i`, the last ascent of `s`, and the
/// swap partner `j`, the last element larger than `s[i]`: the prefix before `i` stays,
/// `s[j]` moves to `i`, and the rest follows in ascending order.
pub open spec fn next_permutation_at<T: Ordered>(s: Seq<T>, t: Seq<T>, i: int, j: int) -> bool {
    &&& 0 <= i < j < s.len()
    &&& s[i].key() < s[i + 1].key()
    &&& non_increasing_from(s, i + 1)
    &&& s[j].key() > s[i].key()
    &&& forall|k: int| j < k < s.len() ==> (#[trigger] s[k]).key() <= s[i].key()
    &&& t == s.take(i) + seq![s[j]] + s.subrange(i + 1, s.len() as int).update(j - i - 1, s[i]).reverse()
    &&& t.take(i) == s.take(i)
    &&& t[i].key() > s[i].key()
    &&& non_decreasing_from(t, i + 1)
}

/// The first index `r` such that every element before `r` is `< x`
/// and every element from `r` on is `>= x`, for a sorted slice.
pub fn lower_bound<T: Ordered>(a: &[T], x: &T) -> (r: usize)
    requires
        a.len() < isize::MAX,
        non_decreasing_from(a@, 0),
    ensures
        r <= a.len(),
        forall|i: int| 0 <= i < r ==> a@[i].key() < x.key(),
        forall|i: int| r <= i < a.len() ==> a@[i].key() >= x.key(),
{
    let mut l: isize = -1;
    let mut r: isize = a.len() as isize;
    while r - l > 1
        invariant
            -1 <= l < r <= a.len(),
            a.len() < isize::MAX,
            non_decreasing_from(a@, 0),
            forall|i: int| 0 <= i <= l ==> a@[i].key() < x.key(),
            forall|i: int| r <= i < a.len() ==> a@[i].key() >= x.key(),
        decreases r - l,
    {
        let m = l + (r - l) / 2;
        if !a[m as usize].less(x) {
            r = m;
        } else {
            l = m;
        }
    }
    r as usize
}

/// Reverses the elements `lo..hi` in place.
fn reverse_range<T: Copy>(p: &mut [T], lo: usize, hi: usize)
    requires
        lo <= hi <= old(p)@.len(),
    ensures
        final(p)@ == old(p)@.take(lo as int) + old(p)@.subrange(lo as int, hi as int).reverse() + old(p)@.skip(
            hi as int,
        ),
{
    let ghost s0 = p@;
    let mut a = lo;
    let mut b = hi;
    while b - a >= 2
        invariant
            lo <= a <= b <= hi,
            hi <= s0.len(),
            a - lo == hi - b,
            p@.len() == s0.len(),
            forall|k: int| 0 <= k < lo || hi <= k < s0.len() || a <= k < b ==> #[trigger] p@[k] == s0[k],
            forall|k: int| lo <= k < a || b <= k < hi ==> #[trigger] p@[k] == s0[lo + hi - 1 - k],
        decreases b - a,
    {
        let x = p[a];
        let y = p[b - 1];
        p[a] = y;
        p[b - 1] = x;
        a += 1;
        b -= 1;
    }
    assert(p@ =~= s0.take(lo as int) + s0.subrange(lo as int, hi as int).reverse() + s0.skip(hi as int));
}

/// Rearranges `p` into the next permutation in lexicographic order and returns `true`,
/// or, when `p` is the last one (its keys never increase), sorts it ascending and
/// returns `false`.
pub fn next_permutation<T: Ordered>(p: &mut [T]) -> (r: bool)
    requires
        old(p)@.len() >= 1,
    ensures
        r == !non_increasing_from(old(p)@, 0),
        !r ==> final(p)@ == old(p)@.reverse(),
        r ==> exists|i: int, j: int| next_permutation_at(old(p)@, final(p)@, i, j),
{
    let n = p.len();
    let ghost s0 = p@;
    let mut i = n - 1;
    while i > 0
        invariant
            1 <= n == s0.len(),
            s0 == old(p)@,
            p@ == s0,
            i < n,
            non_increasing_from(s0, i as int),
        decreases i,
    {
        i -= 1;
        if p[i].less(&p[i + 1]) {
            let mut j = n;
            while j > 0
                invariant
                    p@ == s0,
                    s0 == old(p)@,
                    i + 1 < n == s0.len(),
                    i < j <= n,
                    s0[i as int].key() < s0[i + 1].key(),
                    non_increasing_from(s0, i + 1),
                    forall|k: int| j <= k < n ==> (#[trigger] s0[k]).key() <= s0[i as int].key(),
                decreases j,
            {
                j -= 1;
                if p[i].less(&p[j]) {
                    let x = p[i];
                    let y = p[j];
                    p[i] = y;
                    p[j] = x;
                    let ghost s1 = p@;
                    assert(s1.subrange(i + 1, n as int) =~= s0.subrange(i + 1, n as int).update(j - i - 1, s0[i as int]));
                    reverse_range(p, i + 1, n);
                    proof {
                        let t = s0.subrange(i + 1, n as int).update(j - i - 1, s0[i as int]);
                        assert(p@ =~= s0.take(i as int) + seq![s0[j as int]] + t.reverse());
                        assert forall|a: int, b: int| 0 <= a <= b < t.len() implies (#[trigger] t[a]).key()
                            >= (#[trigger] t[b]).key() by {
                            let k0 = j - i - 1;
                            if a == k0 && b != k0 {
                                assert(s0[i + 1 + b].key() <= s0[i as int].key());
                            } else if b == k0 && a != k0 {
                                assert(s0[i + 1 + a].key() >= s0[j as int].key());
                            } else if a != k0 && b != k0 {
                                assert(s0[i + 1 + a].key() >= s0[i + 1 + b].key());
                            }
                        }
                        assert forall|x: int, y: int| i + 1 <= x <= y < n implies (#[trigger] p@[x]).key()
                            <= (#[trigger] p@[y]).key() by {
                            assert(p@[x] == t[n - 1 - x]);
                            assert(p@[y] == t[n - 1 - y]);
                        }
                        assert(p@.take(i as int) =~= s0.take(i as int));
                        assert(p@[i as int] == s0[j as int]);
                        assert(next_permutation_at(s0, p@, i as int, j as int));
                        assert(s0[i as int].key() < s0[i + 1].key());
                        assert(s0 == old(p)@);
                        assert(next_permutation_at(old(p)@, p@, i as int, j as int));
                        assert(!non_increasing_from(old(p)@, 0));
                    }
                    return true;
                }
                assert(s0[j as int].key() <= s0[i as int].key());
            }
            assert(false);
        }
        assert(non_increasing_from(s0, i as int)) by {
            assert(s0[i as int].key() >= s0[i + 1].key());
        }
    }
    reverse_range(p, 0, n);
    assert(p@ =~= s0.reverse());
    false
}

} // verus!
