use vstd::prelude::*;
use vstd::multiset::Multiset;

verus! {

broadcast use vstd::seq_lib::group_to_multiset_ensures;

/// No element of `s` comes before its predecessor under `lt`.
pub open spec fn sorted_by<T>(s: Seq<T>, lt: spec_fn(T, T) -> bool) -> bool {
    forall|k: int| 0 <= k < s.len() - 1 ==> !lt(#[trigger] s[k + 1], s[k])
}

/// `less` computes `lt`, and `lt` is asymmetric.
pub open spec fn computes_order<T, F: Fn(T, T) -> bool>(less: F, lt: spec_fn(T, T) -> bool) -> bool {
    &&& forall|x: T, y: T| #[trigger] less.requires((x, y))
    &&& forall|x: T, y: T, b: bool| #[trigger] less.ensures((x, y), b) ==> b == lt(x, y)
    &&& forall|x: T, y: T| #[trigger] lt(x, y) ==> !lt(y, x)
}

/// `a` merged with `b`, taking from `b` only when its head is strictly smaller.
fn merge<T: Copy, F: Fn(T, T) -> bool>(a: &Vec<T>, b: &Vec<T>, less: &F, Ghost(lt): Ghost<spec_fn(T, T) -> bool>) -> (r: Vec<T>)
    requires
        computes_order(*less, lt),
        sorted_by(a@, lt),
        sorted_by(b@, lt),
    ensures
        r@.to_multiset() == a@.to_multiset().add(b@.to_multiset()),
        r@.len() == a@.len() + b@.len(),
        sorted_by(r@, lt),
{
    let mut r: Vec<T> = Vec::new();
    let mut i: usize = 0;
    let mut j: usize = 0;
    while i < a.len() || j < b.len()
        invariant
            computes_order(*less, lt),
            sorted_by(a@, lt),
            sorted_by(b@, lt),
            sorted_by(r@, lt),
            r@.len() > 0 && i < a@.len() ==> !lt(a@[i as int], r@.last()),
            r@.len() > 0 && j < b@.len() ==> !lt(b@[j as int], r@.last()),
            i <= a@.len(),
            j <= b@.len(),
            r@.len() == i + j,
            r@.to_multiset() == a@.take(i as int).to_multiset().add(b@.take(j as int).to_multiset()),
        decreases a@.len() + b@.len() - i - j,
    {
        let take_b = if i == a.len() {
            true
        } else if j == b.len() {
            false
        } else {
            less(b[j], a[i])
        };
        if take_b {
            proof {
                if j + 1 < b@.len() {
                    assert(!lt(b@[j + 1], b@[j as int]));
                }
            }
            r.push(b[j]);
            proof {
                assert(b@.take(j as int + 1) =~= b@.take(j as int).push(b@[j as int]));
            }
            j += 1;
        } else {
            proof {
                if i + 1 < a@.len() {
                    assert(!lt(a@[i + 1], a@[i as int]));
                }
            }
            r.push(a[i]);
            proof {
                assert(a@.take(i as int + 1) =~= a@.take(i as int).push(a@[i as int]));
            }
            i += 1;
        }
    }
    proof {
        assert(a@.take(i as int) =~= a@);
        assert(b@.take(j as int) =~= b@);
    }
    r
}

/// The elements of `a` reordered by merge sort under `less`.
fn merge_sort<T: Copy, F: Fn(T, T) -> bool>(a: Vec<T>, less: &F, Ghost(lt): Ghost<spec_fn(T, T) -> bool>) -> (r: Vec<T>)
    requires
        computes_order(*less, lt),
    ensures
        r@.to_multiset() == a@.to_multiset(),
        r@.len() == a@.len(),
        sorted_by(r@, lt),
    decreases a@.len(),
{
    if a.len() <= 1 {
        return a;
    }
    let mid = a.len() / 2;
    let mut left: Vec<T> = Vec::new();
    let mut right: Vec<T> = Vec::new();
    let mut k: usize = 0;
    while k < a.len()
        invariant
            k <= a@.len(),
            mid < a@.len(),
            left@ == a@.take(if k < mid { k as int } else { mid as int }),
            k <= mid ==> right@.len() == 0,
            k > mid ==> right@ == a@.subrange(mid as int, k as int),
        decreases a@.len() - k,
    {
        if k < mid {
            left.push(a[k]);
            assert(left@ =~= a@.take(k as int + 1));
        } else {
            right.push(a[k]);
            assert(right@ =~= a@.subrange(mid as int, k as int + 1));
        }
        k += 1;
    }
    proof {
        assert(a@ =~= left@ + right@);
        vstd::seq_lib::lemma_multiset_commutative(left@, right@);
    }
    let l = merge_sort(left, less, Ghost(lt));
    let r = merge_sort(right, less, Ghost(lt));
    merge(&l, &r, less, Ghost(lt))
}

/// `p` comes before `q` in the argument order: points with `y < 0` before those with
/// `y >= 0`; within one half plane by the sign of the cross product; then by `y`, then
/// by decreasing `x`.
pub open spec fn argument_before(p: (i32, i32), q: (i32, i32)) -> bool {
    let (x1, y1) = (p.0 as int, p.1 as int);
    let (x2, y2) = (q.0 as int, q.1 as int);
    if (y1 >= 0) != (y2 >= 0) {
        y1 < 0
    } else if x2 * y1 != x1 * y2 {
        x2 * y1 < x1 * y2
    } else if y1 != y2 {
        y1 < y2
    } else {
        x2 < x1
    }
}

/// Whether `p` comes before `q` by angle from the positive x axis, counted
/// counterclockwise over `[0, 2 pi)`; the origin comes first, and points on one ray
/// by distance.
pub fn argument_less(p: (i32, i32), q: (i32, i32)) -> (b: bool)
    ensures
        b == argument_before(p, q),
{
    let (x1, y1) = p;
    let (x2, y2) = q;
    let h1 = y1 >= 0;
    let h2 = y2 >= 0;
    if h1 != h2 {
        return !h1 && h2;
    }
    let (a1, b1, a2, b2) = (x1 as i64, y1 as i64, x2 as i64, y2 as i64);
    assert(-0x4000_0000_0000_0000 <= a2 * b1 <= 0x4000_0000_0000_0000) by (nonlinear_arith)
        requires
            -0x8000_0000 <= a2 <= 0x8000_0000,
            -0x8000_0000 <= b1 <= 0x8000_0000,
    ;
    assert(-0x4000_0000_0000_0000 <= a1 * b2 <= 0x4000_0000_0000_0000) by (nonlinear_arith)
        requires
            -0x8000_0000 <= a1 <= 0x8000_0000,
            -0x8000_0000 <= b2 <= 0x8000_0000,
    ;
    let c1 = a2 * b1;
    let c2 = a1 * b2;
    if c1 != c2 {
        return c1 < c2;
    }
    if y1 != y2 {
        return y1 < y2;
    }
    x2 < x1
}

/// Sorts points by their argument, as [`argument_less`] orders them.
pub fn argument_sort(a: &mut Vec<(i32, i32)>)
    ensures
        final(a)@.to_multiset() == old(a)@.to_multiset(),
        final(a)@.len() == old(a)@.len(),
        forall|k: int| 0 <= k < final(a)@.len() - 1 ==> !argument_before(#[trigger] final(a)@[k + 1], final(a)@[k]),
{
    let mut v: Vec<(i32, i32)> = Vec::new();
    std::mem::swap(&mut v, a);
    let less = |p: (i32, i32), q: (i32, i32)| -> (b: bool)
        ensures
            b == argument_before(p, q),
        { argument_less(p, q) };
    let ghost lt = |p: (i32, i32), q: (i32, i32)| argument_before(p, q);
    proof {
        assert forall|p: (i32, i32), q: (i32, i32)| #[trigger] lt(p, q) implies !lt(q, p) by {}
    }
    *a = merge_sort(v, &less, Ghost(lt));
}

/// `p` before `q` by `x`, then by `y`.
pub open spec fn lex_before(p: [i64; 2], q: [i64; 2]) -> bool {
    p@[0] < q@[0] || (p@[0] == q@[0] && p@[1] < q@[1])
}

/// `p` before `q` by `x`, then by `y`.
fn lex_less(p: [i64; 2], q: [i64; 2]) -> (b: bool)
    ensures
        b == lex_before(p, q),
{
    p[0] < q[0] || (p[0] == q[0] && p[1] < q[1])
}

/// Coordinates small enough for the products of differences to fit.
pub open spec fn small_points(ps: Seq<[i64; 2]>) -> bool {
    forall|i: int| 0 <= i < ps.len() ==> -0x2000_0000 <= #[trigger] ps[i][0] <= 0x2000_0000 && -0x2000_0000 <= ps[i][1] <= 0x2000_0000
}

/// The convex hull by Andrew's monotone chain: indices of its vertices, lower chain
/// then upper chain.
pub fn graham_scan(ps: &[[i64; 2]]) -> (hull: Vec<usize>)
    requires
        small_points(ps@),
        ps@.len() <= usize::MAX / 4,
    ensures
        forall|k: int| 0 <= k < hull@.len() ==> #[trigger] hull@[k] < ps@.len(),
        ps@.len() > 0 ==> hull@.len() >= 1 && forall|k: int|
            0 <= k < ps@.len() ==> !lex_before(#[trigger] ps@[k], ps@[hull@[0] as int]),
        forall|k1: int, k2: int|
            2 <= k1 < k2 < hull@.len() && #[trigger] bends_right(ps@, hull@, k1) ==> !#[trigger] bends_right(
                ps@,
                hull@,
                k2,
            ),
{
    let n = ps.len();
    let mut ids: Vec<usize> = Vec::new();
    let mut k: usize = 0;
    while k < n
        invariant
            k <= n,
            ids@.len() == k,
            forall|t: int| 0 <= t < k ==> #[trigger] ids@[t] == t,
        decreases n - k,
    {
        ids.push(k);
        k += 1;
    }
    let ghost ids0 = ids@;
    let ids = sort_indices(ids, ps);
    let ghost first = ids@[0];
    proof {
        if n > 0 {
            lemma_sorted_first_least(ps@, ids@, (n - 1) as int);
            assert forall|k: int| 0 <= k < n implies !lex_before(#[trigger] ps@[k], ps@[first as int]) by {
                assert(ids0[k] == k);
                assert(ids0.to_multiset().count(k as usize) > 0);
                assert(ids@.to_multiset().count(k as usize) > 0);
                assert(ids@.contains(k as usize));
                let t = choose|t: int| 0 <= t < ids@.len() && ids@[t] == k as usize;
                assert(!lex_before(ps@[ids@[t] as int], ps@[ids@[0] as int]));
            }
        }
    }
    let mut ids = ids;
    let mut hull: Vec<usize> = Vec::new();
    let mut dir: usize = 0;
    let ghost mut lower: int = 0;
    while dir < 2
        invariant
            n == ps@.len(),
            small_points(ps@),
            dir <= 2,
            n <= usize::MAX / 4,
            ids@.len() <= n,
            hull@.len() <= (if dir == 0 { 0 } else if dir == 1 { n as int } else { 2 * n as int }),
            forall|t: int| 0 <= t < ids@.len() ==> #[trigger] ids@[t] < n,
            forall|t: int| 0 <= t < hull@.len() ==> #[trigger] hull@[t] < n,
            dir == 0 ==> hull@.len() == 0 && ids@.len() == n && (n > 0 ==> ids@[0] == first),
            dir > 0 && n > 0 ==> hull@.len() >= 1 && hull@[0] == first,
            dir == 0 ==> lower == 0,
            dir == 1 ==> hull@.len() == lower,
            forall|k: int| 2 <= k < hull@.len() && k != lower ==> !#[trigger] bends_right(ps@, hull@, k),
        decreases 2 - dir,
    {
        let mut len = dir;
        let mut t: usize = 0;
        while t < ids.len()
            invariant
                n == ps@.len(),
                small_points(ps@),
                forall|t2: int| 0 <= t2 < ids@.len() ==> #[trigger] ids@[t2] < n,
                forall|t2: int| 0 <= t2 < hull@.len() ==> #[trigger] hull@[t2] < n,
                len <= hull@.len() + 1,
                t <= ids@.len(),
                dir < 2,
                n <= usize::MAX / 4,
                ids@.len() <= n,
                hull@.len() <= (if dir == 0 { 0 } else { n as int }) + t,
                dir == 0 ==> ids@.len() == n && (n > 0 ==> ids@[0] == first),
                dir == 0 && t == 0 ==> hull@.len() == 0,
                (dir > 0 || t > 0) && n > 0 ==> hull@.len() >= 1 && hull@[0] == first,
                len as int == hull@.len() - (if dir == 0 { 0 } else { lower - 1 }),
                dir == 1 ==> len >= 1,
                forall|k: int| 2 <= k < hull@.len() && k != lower ==> !#[trigger] bends_right(ps@, hull@, k),
            decreases ids@.len() - t,
        {
            let i = ids[t];
            let p2 = ps[i];
            while len >= 2 && hull.len() >= 2
                invariant
                    n == ps@.len(),
                    small_points(ps@),
                    i < n,
                    p2 == ps@[i as int],
                    forall|t2: int| 0 <= t2 < hull@.len() ==> #[trigger] hull@[t2] < n,
                    len <= hull@.len() + 1,
                    hull@.len() <= (if dir == 0 { 0 } else { n as int }) + t,
                    dir < 2,
                    n <= usize::MAX / 4,
                    hull@.len() >= 1 ==> hull@[0] == first,
                    dir == 0 && t == 0 ==> hull@.len() == 0,
                    (dir > 0 || t > 0) && n > 0 ==> hull@.len() >= 1,
                    len as int == hull@.len() - (if dir == 0 { 0 } else { lower - 1 }),
                    dir == 1 ==> len >= 1,
                    forall|k: int| 2 <= k < hull@.len() && k != lower ==> !#[trigger] bends_right(ps@, hull@, k),
                ensures
                    hull@.len() >= 2 && len >= 2 ==> !right_turn(
                        ps@[hull@[hull@.len() - 2] as int],
                        ps@[hull@[hull@.len() - 1] as int],
                        p2,
                    ),
                    len as int == hull@.len() - (if dir == 0 { 0 } else { lower - 1 }),
                    dir == 1 ==> len >= 1,
                    forall|k: int| 2 <= k < hull@.len() && k != lower ==> !#[trigger] bends_right(ps@, hull@, k),
                decreases hull@.len(),
            {
                let p0 = ps[hull[hull.len() - 2]];
                let p1 = ps[hull[hull.len() - 1]];
                if !turns_right(p0, p1, p2) {
                    break;
                }
                let ghost h0 = hull@;
                hull.pop();
                len -= 1;
                proof {
                    assert forall|k: int| 2 <= k < hull@.len() && k != lower implies !#[trigger] bends_right(ps@, hull@, k) by {
                        assert(!bends_right(ps@, h0, k));
                    }
                }
            }
            let ghost h0 = hull@;
            hull.push(i);
            len += 1;
            proof {
                assert forall|k: int| 2 <= k < hull@.len() && k != lower implies !#[trigger] bends_right(ps@, hull@, k) by {
                    if k < h0.len() {
                        assert(!bends_right(ps@, h0, k));
                    }
                }
            }
            t += 1;
        }
        proof {
            if dir == 0 {
                lower = hull@.len() as int;
            }
        }
        ids.pop();
        let mut rev = crate::vec_util::reverse_vec(ids);
        rev.pop();
        ids = rev;
        dir += 1;
    }
    proof {
        assert forall|k1: int, k2: int|
            2 <= k1 < k2 < hull@.len() && #[trigger] bends_right(ps@, hull@, k1) implies !#[trigger] bends_right(
                ps@,
                hull@,
                k2,
            ) by {}
    }
    hull
}

/// In a list of indices sorted by their points, no point comes before the first one.
proof fn lemma_sorted_first_least(ps: Seq<[i64; 2]>, r: Seq<usize>, t: int)
    requires
        0 <= t < r.len(),
        forall|q: int| 0 <= q < r.len() ==> #[trigger] r[q] < ps.len(),
        forall|q: int| 0 <= q < r.len() - 1 ==> !lex_before(ps[#[trigger] r[q + 1] as int], ps[r[q] as int]),
    ensures
        forall|q: int| 0 <= q <= t ==> !lex_before(ps[#[trigger] r[q] as int], ps[r[0] as int]),
    decreases t,
{
    if t > 0 {
        lemma_sorted_first_least(ps, r, t - 1);
        let q = t - 1;
        assert(!lex_before(ps[r[q + 1] as int], ps[r[q] as int]));
        assert(!lex_before(ps[r[q] as int], ps[r[0] as int]));
    }
}

/// The indices sorted by their points, by `x` then `y`.
fn sort_indices(ids: Vec<usize>, ps: &[[i64; 2]]) -> (r: Vec<usize>)
    requires
        forall|t: int| 0 <= t < ids@.len() ==> #[trigger] ids@[t] < ps@.len(),
    ensures
        r@.to_multiset() == ids@.to_multiset(),
        r@.len() == ids@.len(),
        forall|t: int| 0 <= t < r@.len() ==> #[trigger] r@[t] < ps@.len(),
        forall|t: int| 0 <= t < r@.len() - 1 ==> !lex_before(ps@[#[trigger] r@[t + 1] as int], ps@[r@[t] as int]),
{
    let n = ps.len();
    let less = |i: usize, j: usize| -> (b: bool)
        ensures
            b == (i < n && j < n && (ps@[i as int]@[0] < ps@[j as int]@[0] || (ps@[i as int]@[0]
                == ps@[j as int]@[0] && ps@[i as int]@[1] < ps@[j as int]@[1]))),
        {
            if i < n && j < n {
                lex_less(ps[i], ps[j])
            } else {
                false
            }
        };
    let ghost lt = |i: usize, j: usize| i < n && j < n && (ps@[i as int]@[0] < ps@[j as int]@[0] || (
        ps@[i as int]@[0] == ps@[j as int]@[0] && ps@[i as int]@[1] < ps@[j as int]@[1]));
    let r = merge_sort(ids, &less, Ghost(lt));
    proof {
        assert forall|t: int| 0 <= t < r@.len() implies #[trigger] r@[t] < ps@.len() by {
            assert(r@.to_multiset().count(r@[t]) > 0);
            assert(ids@.to_multiset().count(r@[t]) > 0);
            assert(ids@.contains(r@[t]));
        }
        assert forall|t: int| 0 <= t < r@.len() - 1 implies !lex_before(ps@[#[trigger] r@[t + 1] as int], ps@[r@[t] as int]) by {
            assert(!lt(r@[t + 1], r@[t]));
        }
    }
    r
}

/// Two points farthest apart, found by rotating calipers over the hull.
pub fn farthest_pair(ps: &[[i64; 2]]) -> (r: (usize, usize))
    requires
        small_points(ps@),
        ps@.len() <= usize::MAX / 4,
    ensures
        ps@.len() > 0 ==> r.0 < ps@.len() && r.1 < ps@.len(),
{
    let hull = graham_scan(ps);
    let m = hull.len();
    let mut res: (usize, usize) = (0, 0);
    let mut max: Option<i64> = None;
    let mut j: usize = 0;
    let mut t: usize = 0;
    while t < m
        invariant
            m == hull@.len(),
            small_points(ps@),
            forall|k: int| 0 <= k < m ==> #[trigger] hull@[k] < ps@.len(),
            j < m || m == 0,
            ps@.len() > 0 ==> res.0 < ps@.len() && res.1 < ps@.len(),
        decreases m - t,
    {
        let i = hull[t];
        let mut d = norm(ps[i], ps[hull[j]]);
        let mut steps: usize = 0;
        loop
            invariant
                m == hull@.len(),
                small_points(ps@),
                forall|k: int| 0 <= k < m ==> #[trigger] hull@[k] < ps@.len(),
                j < m,
                i < ps@.len(),
                steps <= m,
            decreases m - steps,
        {
            let j_inc = if j + 1 < m { j + 1 } else { 0 };
            let d_inc = norm(ps[i], ps[hull[j_inc]]);
            if d >= d_inc || steps == m {
                break;
            }
            d = d_inc;
            j = j_inc;
            steps += 1;
        }
        let better = match max {
            None => true,
            Some(x) => d > x,
        };
        if better {
            max = Some(d);
            res = (i, hull[j]);
        }
        t += 1;
    }
    res
}

/// `p0 -> p1 -> p2` turns clockwise: the cross product of `p1 - p0` and `p2 - p0` is
/// negative.
pub open spec fn right_turn(p0: [i64; 2], p1: [i64; 2], p2: [i64; 2]) -> bool {
    (p1[0] - p0[0]) * (p2[1] - p0[1]) < (p2[0] - p0[0]) * (p1[1] - p0[1])
}

/// The vertices `k - 2`, `k - 1`, `k` of the chain `h` turn clockwise.
pub open spec fn bends_right(ps: Seq<[i64; 2]>, h: Seq<usize>, k: int) -> bool {
    right_turn(ps[h[k - 2] as int], ps[h[k - 1] as int], ps[h[k] as int])
}

/// Whether `p0 -> p1 -> p2` turns clockwise.
fn turns_right(p0: [i64; 2], p1: [i64; 2], p2: [i64; 2]) -> (b: bool)
    requires
        -0x2000_0000 <= p0[0] <= 0x2000_0000,
        -0x2000_0000 <= p0[1] <= 0x2000_0000,
        -0x2000_0000 <= p1[0] <= 0x2000_0000,
        -0x2000_0000 <= p1[1] <= 0x2000_0000,
        -0x2000_0000 <= p2[0] <= 0x2000_0000,
        -0x2000_0000 <= p2[1] <= 0x2000_0000,
    ensures
        b == right_turn(p0, p1, p2),
{
    let (a, b, c, d) = (p1[0] - p0[0], p2[1] - p0[1], p2[0] - p0[0], p1[1] - p0[1]);
    assert(-0x1000_0000_0000_0000 <= a * b <= 0x1000_0000_0000_0000) by (nonlinear_arith)
        requires
            -0x4000_0000 <= a <= 0x4000_0000,
            -0x4000_0000 <= b <= 0x4000_0000,
    ;
    assert(-0x1000_0000_0000_0000 <= c * d <= 0x1000_0000_0000_0000) by (nonlinear_arith)
        requires
            -0x4000_0000 <= c <= 0x4000_0000,
            -0x4000_0000 <= d <= 0x4000_0000,
    ;
    a * b < c * d
}

/// The squared distance between two points.
fn norm(p: [i64; 2], q: [i64; 2]) -> (d: i64)
    requires
        -0x2000_0000 <= p[0] <= 0x2000_0000,
        -0x2000_0000 <= p[1] <= 0x2000_0000,
        -0x2000_0000 <= q[0] <= 0x2000_0000,
        -0x2000_0000 <= q[1] <= 0x2000_0000,
    ensures
        d == (q[0] - p[0]) * (q[0] - p[0]) + (q[1] - p[1]) * (q[1] - p[1]),
{
    let dx = q[0] - p[0];
    let dy = q[1] - p[1];
    assert(0 <= dx * dx <= 0x1000_0000_0000_0000) by (nonlinear_arith)
        requires
            -0x4000_0000 <= dx <= 0x4000_0000,
    ;
    assert(0 <= dy * dy <= 0x1000_0000_0000_0000) by (nonlinear_arith)
        requires
            -0x4000_0000 <= dy <= 0x4000_0000,
    ;
    dx * dx + dy * dy
}

} // verus!
