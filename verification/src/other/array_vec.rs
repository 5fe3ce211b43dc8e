use vstd::prelude::*;
use crate::vec_util::reverse_vec;
use vstd::std_specs::cmp::PartialEqSpec;

verus! {

/// `r` is what comparing the keys that `f` gives `a` and `b` answered.
pub open spec fn keys_equal<T, U: PartialEq, F: Fn(&T) -> U>(f: F, a: &T, b: &T, r: bool) -> bool {
    exists|ka: U, kb: U|
        #![trigger f.ensures((a,), ka), f.ensures((b,), kb)]
        f.ensures((a,), ka) && f.ensures((b,), kb) && (U::obeys_eq_spec() ==> r == ka.eq_spec(&kb))
}

/// Some flag after position `j` is set.
pub open spec fn set_after(flags: Seq<bool>, j: int) -> bool {
    exists|i: int| j < i < flags.len() && #[trigger] flags[i]
}

/// The elements that survive a compaction dropping the flagged positions: a run of
/// unflagged elements is moved down when a flagged element closes it, so the run after
/// the last flagged position is not kept.
pub open spec fn kept_runs(dropped: Seq<bool>) -> Seq<bool> {
    Seq::new(dropped.len(), |j: int| !dropped[j] && set_after(dropped, j))
}

/// Every flag flipped.
pub open spec fn negated(flags: Seq<bool>) -> Seq<bool> {
    Seq::new(flags.len(), |i: int| !flags[i])
}

/// Position `i` holds an element equal to the one before it.
pub open spec fn repeats<T: PartialEq>(s: Seq<T>) -> Seq<bool> {
    Seq::new(s.len(), |i: int| i > 0 && s[i - 1].eq_spec(&s[i]))
}

/// The elements of `s` whose flag in `keep` is set, in order.
pub open spec fn select<T>(s: Seq<T>, keep: Seq<bool>) -> Seq<T>
    decreases s.len(),
{
    if s.len() == 0 {
        s
    } else {
        let r = select(s.drop_last(), keep.drop_last());
        if keep.last() {
            r.push(s.last())
        } else {
            r
        }
    }
}

/// A vector with room for at most `CAP` elements.
pub struct ArrayVec<T, const CAP: usize> {
    buf: Vec<T>,
}

impl<T, const CAP: usize> ArrayVec<T, CAP> {
    /// The elements.
    pub closed spec fn view(&self) -> Seq<T> {
        self.buf@
    }

    pub fn new() -> (a: Self)
        ensures
            a.view() == Seq::<T>::empty(),
    {
        ArrayVec { buf: Vec::new() }
    }

    pub fn len(&self) -> (n: usize)
        ensures
            n == self.view().len(),
    {
        self.buf.len()
    }

    pub fn is_empty(&self) -> (b: bool)
        ensures
            b == (self.view().len() == 0),
    {
        self.buf.len() == 0
    }

    pub fn is_full(&self) -> (b: bool)
        ensures
            b == (self.view().len() == CAP),
    {
        self.buf.len() == CAP
    }

    pub fn as_slice(&self) -> (s: &[T])
        ensures
            s@ == self.view(),
    {
        self.buf.as_slice()
    }

    pub fn as_mut_slice(&mut self) -> (s: &mut [T])
        ensures
            s@ == old(self).view(),
            final(self).view() == final(s)@,
    {
        self.buf.as_mut_slice()
    }

    /// Removes every element.
    pub fn clear(&mut self)
        ensures
            final(self).view() == Seq::<T>::empty(),
    {
        self.buf.clear();
    }

    /// Keeps the first `len` elements (all of them when there are fewer).
    pub fn truncate(&mut self, len: usize)
        ensures
            final(self).view() == if len < old(self).view().len() {
                old(self).view().take(len as int)
            } else {
                old(self).view()
            },
    {
        if len < self.buf.len() {
            self.buf.truncate(len);
        }
    }

    /// Appends `val` and returns `None`, or returns `Some(val)` when full.
    pub fn push(&mut self, val: T) -> (r: Option<T>)
        ensures
            old(self).view().len() < CAP ==> r is None && final(self).view() == old(self).view().push(
                val,
            ),
            old(self).view().len() >= CAP ==> r == Some(val) && final(self).view() == old(
                self,
            ).view(),
    {
        if self.buf.len() < CAP {
            self.buf.push(val);
            None
        } else {
            Some(val)
        }
    }

    /// Removes and returns the last element.
    pub fn pop(&mut self) -> (r: Option<T>)
        ensures
            old(self).view().len() == 0 ==> r is None && final(self).view() == old(self).view(),
            old(self).view().len() > 0 ==> r == Some(old(self).view().last()) && final(self).view()
                == old(self).view().drop_last(),
    {
        self.buf.pop()
    }

    /// Inserts `val` at position `i`, shifting the later elements.
    pub fn insert(&mut self, i: usize, val: T)
        requires
            i <= old(self).view().len(),
            old(self).view().len() < CAP,
        ensures
            final(self).view() == old(self).view().insert(i as int, val),
    {
        self.buf.insert(i, val);
    }

    /// Removes and returns the element at position `i`.
    pub fn remove(&mut self, i: usize) -> (x: T)
        requires
            i < old(self).view().len(),
        ensures
            x == old(self).view()[i as int],
            final(self).view() == old(self).view().remove(i as int),
    {
        self.buf.remove(i)
    }

    /// Keeps the elements whose flag is set, in order.
    fn keep_flagged(&mut self, keep: &Vec<bool>)
        requires
            keep@.len() == old(self).view().len(),
        ensures
            final(self).view() == select(old(self).view(), keep@),
    {
        let ghost orig = self.buf@;
        let total = self.buf.len();
        let mut taken: Vec<T> = Vec::new();
        std::mem::swap(&mut taken, &mut self.buf);
        let mut rest = reverse_vec(taken);
        let mut out: Vec<T> = Vec::new();
        let mut k: usize = 0;
        while rest.len() > 0
            invariant
                k + rest@.len() == orig.len(),
                orig.len() == total,
                keep@.len() == total,
                forall|j: int| 0 <= j < rest@.len() ==> #[trigger] rest@[j] == orig[orig.len() - 1 - j],
                out@ == select(orig.take(k as int), keep@.take(k as int)),
            decreases rest.len(),
        {
            let x = rest.pop().unwrap();
            proof {
                let t = orig.take(k + 1);
                assert(t.drop_last() =~= orig.take(k as int));
                assert(t.last() == x);
                assert(keep@.take(k + 1).drop_last() =~= keep@.take(k as int));
            }
            if keep[k] {
                out.push(x);
            }
            k += 1;
        }
        assert(orig.take(k as int) =~= orig);
        assert(keep@.take(k as int) =~= keep@);
        self.buf = out;
    }

    /// Moves the runs of unflagged elements down as each flagged element is dropped: what
    /// survives is [`kept_runs`] of the flags.
    fn compact(&mut self, dropped: &Vec<bool>)
        requires
            dropped@.len() == old(self).view().len(),
        ensures
            final(self).view() == select(old(self).view(), kept_runs(dropped@)),
    {
        let n = dropped.len();
        let mut keep: Vec<bool> = vec![false; n];
        let mut seen = false;
        let mut j: usize = n;
        while j > 0
            invariant
                j <= n,
                n == dropped@.len(),
                keep@.len() == n,
                seen == set_after(dropped@, j - 1),
                forall|a: int| j <= a < n ==> #[trigger] keep@[a] == kept_runs(dropped@)[a],
            decreases j,
        {
            j -= 1;
            keep.set(j, !dropped[j] && seen);
            proof {
                if !seen && dropped@[j as int] {
                    assert(j - 1 < j < dropped@.len() && dropped@[j as int]);
                }
                if seen {
                    let i = choose|i: int| j < i < dropped@.len() && #[trigger] dropped@[i];
                    assert(j - 1 < i < dropped@.len() && dropped@[i]);
                }
                if set_after(dropped@, j - 1) {
                    let i = choose|i: int| j - 1 < i < dropped@.len() && #[trigger] dropped@[i];
                    if i > j {
                        assert(set_after(dropped@, j as int));
                    }
                }
            }
            seen = seen || dropped[j];
        }
        assert(keep@ =~= kept_runs(dropped@));
        self.keep_flagged(&keep);
    }

    /// Drops each element for which `f` holds of the element just before it in the
    /// original order, moving the runs between them down; the run after the last dropped
    /// element is not kept.
    pub fn dedup_by<F: Fn(&T, &T) -> bool>(&mut self, f: F)
        requires
            forall|a: &T, b: &T| #[trigger] f.requires((a, b)),
        ensures
            exists|dropped: Seq<bool>|
                #![trigger kept_runs(dropped)]
                {
                    let s = old(self).view();
                    &&& dropped.len() == s.len()
                    &&& s.len() > 0 ==> !dropped[0]
                    &&& forall|i: int| 0 < i < s.len() ==> f.ensures((&s[i - 1], &s[i]), #[trigger] dropped[i])
                    &&& final(self).view() == select(s, kept_runs(dropped))
                },
    {
        let n = self.buf.len();
        let mut dropped: Vec<bool> = Vec::new();
        let mut i: usize = 0;
        while i < n
            invariant
                i <= n,
                n == self.buf@.len(),
                self.buf@ == old(self).view(),
                dropped@.len() == i,
                i > 0 ==> !dropped@[0],
                forall|a: &T, b: &T| #[trigger] f.requires((a, b)),
                forall|j: int| 0 < j < i ==> f.ensures((&self.buf@[j - 1], &self.buf@[j]), #[trigger] dropped@[j]),
            decreases n - i,
        {
            if i == 0 {
                dropped.push(false);
            } else {
                let b = f(&self.buf[i - 1], &self.buf[i]);
                dropped.push(b);
            }
            i += 1;
        }
        let ghost d = dropped@;
        self.compact(&dropped);
        assert(kept_runs(d) == kept_runs(dropped@));
    }

    /// Drops each element whose key under `f` equals that of the element just before it
    /// in the original order, as [`ArrayVec::dedup_by`] does.
    pub fn dedup_by_key<U: PartialEq, F: Fn(&T) -> U>(&mut self, f: F)
        requires
            forall|a: &T| #[trigger] f.requires((a,)),
        ensures
            exists|dropped: Seq<bool>|
                #![trigger kept_runs(dropped)]
                {
                    let s = old(self).view();
                    &&& dropped.len() == s.len()
                    &&& s.len() > 0 ==> !dropped[0]
                    &&& forall|i: int| 0 < i < s.len() ==> keys_equal(&f, &s[i - 1], &s[i], #[trigger] dropped[i])
                    &&& final(self).view() == select(s, kept_runs(dropped))
                },
    {
        let fr = &f;
        let g = move |a: &T, b: &T| -> (r: bool)
            requires
                fr.requires((a,)),
                fr.requires((b,)),
            ensures
                keys_equal(fr, a, b, r),
            {
                let ka = fr(a);
                let kb = fr(b);
                let r = ka == kb;
                assert(keys_equal(fr, a, b, r));
                r
            };
        assert(forall|a: &T| #[trigger] fr.requires((a,)));
        self.dedup_by(g);
    }

    /// Drops each element equal to the one just before it in the original order, as
    /// [`ArrayVec::dedup_by`] does.
    pub fn dedup(&mut self)
        where
            T: PartialEq,
        ensures
            T::obeys_eq_spec() ==> final(self).view() == select(old(self).view(), kept_runs(repeats(old(self).view()))),
    {
        let n = self.buf.len();
        let mut dropped: Vec<bool> = Vec::new();
        let mut i: usize = 0;
        while i < n
            invariant
                i <= n,
                n == self.buf@.len(),
                self.buf@ == old(self).view(),
                dropped@.len() == i,
                T::obeys_eq_spec() ==> forall|j: int| 0 <= j < i ==> #[trigger] dropped@[j] == repeats(self.buf@)[j],
            decreases n - i,
        {
            if i == 0 {
                dropped.push(false);
            } else {
                let b = self.buf[i - 1] == self.buf[i];
                dropped.push(b);
            }
            i += 1;
        }
        proof {
            if T::obeys_eq_spec() {
                assert(dropped@ =~= repeats(old(self).view()));
            }
        }
        self.compact(&dropped);
    }

    /// Drops the elements for which `f` fails, moving the runs between them down; the run
    /// after the last dropped element is not kept.
    pub fn retain<F: Fn(&T) -> bool>(&mut self, f: F)
        requires
            forall|a: &T| #[trigger] f.requires((a,)),
        ensures
            exists|kept: Seq<bool>|
                #![trigger negated(kept)]
                {
                    let s = old(self).view();
                    &&& kept.len() == s.len()
                    &&& forall|i: int| 0 <= i < s.len() ==> f.ensures((&s[i],), #[trigger] kept[i])
                    &&& final(self).view() == select(s, kept_runs(negated(kept)))
                },
    {
        let n = self.buf.len();
        let mut dropped: Vec<bool> = Vec::new();
        let ghost mut kept: Seq<bool> = Seq::empty();
        let mut i: usize = 0;
        while i < n
            invariant
                i <= n,
                n == self.buf@.len(),
                self.buf@ == old(self).view(),
                dropped@.len() == i,
                kept.len() == i,
                forall|a: &T| #[trigger] f.requires((a,)),
                forall|j: int| 0 <= j < i ==> f.ensures((&self.buf@[j],), #[trigger] kept[j]),
                dropped@ == negated(kept),
            decreases n - i,
        {
            let b = f(&self.buf[i]);
            dropped.push(!b);
            proof {
                let k2 = kept.push(b);
                assert forall|j: int| 0 <= j < i + 1 implies f.ensures((&self.buf@[j],), #[trigger] k2[j]) by {
                    if j < i {
                        assert(k2[j] == kept[j]);
                    }
                }
                kept = k2;
                assert(dropped@ =~= negated(kept));
            }
            i += 1;
        }
        self.compact(&dropped);
    }

    /// Removes the elements `start..end` and returns them as a cursor.
    pub fn drain(&mut self, start: usize, end: usize) -> (d: Drain<T>)
        requires
            start <= end <= old(self).view().len(),
        ensures
            d.rest() == old(self).view().subrange(start as int, end as int),
            final(self).view() == old(self).view().take(start as int) + old(self).view().skip(end as int),
    {
        let ghost orig = self.buf@;
        let mut tail = self.buf.split_off(end);
        let removed = self.buf.split_off(start);
        self.buf.append(&mut tail);
        assert(self.buf@ =~= orig.take(start as int) + orig.skip(end as int));
        Drain { items: removed }
    }

    /// A cursor that hands out the elements by value, from the front or the back.
    pub fn into_iter(self) -> (it: IntoIter<T>)
        ensures
            it.rest() == self.view(),
    {
        let rev = reverse_vec(self.buf);
        assert(rev@.reverse() =~= self.view());
        IntoIter { rev }
    }
}

/// The elements taken out of an [`ArrayVec`] by value.
pub struct IntoIter<T> {
    rev: Vec<T>,
}

impl<T> IntoIter<T> {
    /// The elements not handed out yet, in order.
    pub closed spec fn rest(&self) -> Seq<T> {
        self.rev@.reverse()
    }

    /// The first element not handed out yet.
    pub fn next(&mut self) -> (r: Option<T>)
        ensures
            old(self).rest().len() == 0 ==> r is None && final(self).rest() == old(self).rest(),
            old(self).rest().len() > 0 ==> r == Some(old(self).rest()[0]) && final(self).rest()
                == old(self).rest().drop_first(),
    {
        let r = self.rev.pop();
        assert(self.rest() =~= old(self).rest().drop_first() || old(self).rest().len() == 0);
        r
    }

    /// The last element not handed out yet.
    pub fn next_back(&mut self) -> (r: Option<T>)
        ensures
            old(self).rest().len() == 0 ==> r is None && final(self).rest() == old(self).rest(),
            old(self).rest().len() > 0 ==> r == Some(old(self).rest().last()) && final(self).rest()
                == old(self).rest().drop_last(),
    {
        if self.rev.len() > 0 {
            let x = self.rev.remove(0);
            assert(self.rest() =~= old(self).rest().drop_last());
            Some(x)
        } else {
            None
        }
    }

    pub fn size_hint(&self) -> (r: (usize, Option<usize>))
        ensures
            r.0 == self.rest().len(),
            r.1 == Some(r.0),
    {
        let size = self.rev.len();
        (size, Some(size))
    }
}

/// The elements removed by [`ArrayVec::drain`].
pub struct Drain<T> {
    items: Vec<T>,
}

impl<T> Drain<T> {
    /// The elements not handed out yet, in order.
    pub closed spec fn rest(&self) -> Seq<T> {
        self.items@
    }

    /// The first element not handed out yet.
    pub fn next(&mut self) -> (r: Option<T>)
        ensures
            old(self).rest().len() == 0 ==> r is None && final(self).rest() == old(self).rest(),
            old(self).rest().len() > 0 ==> r == Some(old(self).rest()[0]) && final(self).rest()
                == old(self).rest().drop_first(),
    {
        if self.items.len() > 0 {
            Some(self.items.remove(0))
        } else {
            None
        }
    }

    pub fn size_hint(&self) -> (r: (usize, Option<usize>))
        ensures
            r.0 == self.rest().len(),
            r.1 == Some(r.0),
    {
        let size = self.items.len();
        (size, Some(size))
    }
}

} // verus!
