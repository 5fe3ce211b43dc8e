use vstd::prelude::*;
use crate::slice::Ordered;

verus! {

/// The two sequences merged by repeatedly taking the smaller front element, the first
/// sequence winning ties.
pub open spec fn merged<T: Ordered>(a: Seq<T>, b: Seq<T>) -> Seq<T>
    decreases a.len() + b.len(),
{
    if a.len() == 0 {
        b
    } else if b.len() == 0 {
        a
    } else if a[0].key() <= b[0].key() {
        seq![a[0]] + merged(a.drop_first(), b)
    } else {
        seq![b[0]] + merged(a, b.drop_first())
    }
}

/// A merge holds every element of both sequences.
pub proof fn lemma_merged_len<T: Ordered>(a: Seq<T>, b: Seq<T>)
    ensures
        merged(a, b).len() == a.len() + b.len(),
    decreases a.len() + b.len(),
{
    if a.len() > 0 && b.len() > 0 {
        if a[0].key() <= b[0].key() {
            lemma_merged_len(a.drop_first(), b);
        } else {
            lemma_merged_len(a, b.drop_first());
        }
    }
}

/// Merges two sequences, each sorted, into one sorted sequence.
pub fn merge<T: Ordered>(a: Vec<T>, b: Vec<T>) -> (m: Merge<T>)
    ensures
        m.wf(),
        m.rest() == merged(a@, b@),
{
    let m = Merge { a, b, i: 0, j: 0 };
    assert(m.a@.skip(0) =~= m.a@);
    assert(m.b@.skip(0) =~= m.b@);
    m
}

/// The merge of two sequences, handed out element by element.
pub struct Merge<T> {
    a: Vec<T>,
    b: Vec<T>,
    i: usize,
    j: usize,
}

impl<T: Ordered> Merge<T> {
    /// The elements still to come.
    pub closed spec fn rest(&self) -> Seq<T> {
        merged(self.a@.skip(self.i as int), self.b@.skip(self.j as int))
    }

    pub closed spec fn wf(&self) -> bool {
        self.i <= self.a@.len() && self.j <= self.b@.len()
    }

    /// The next element of the merge, or `None` after the last.
    pub fn next(&mut self) -> (r: Option<T>)
        requires
            old(self).wf(),
        ensures
            final(self).wf(),
            old(self).rest().len() == 0 ==> r is None && final(self).rest().len() == 0,
            old(self).rest().len() > 0 ==> r == Some(old(self).rest()[0]) && final(self).rest()
                == old(self).rest().drop_first(),
    {
        let ghost sa = self.a@.skip(self.i as int);
        let ghost sb = self.b@.skip(self.j as int);
        if self.i < self.a.len() {
            if self.j < self.b.len() {
                let x = self.a[self.i];
                let y = self.b[self.j];
                if !y.less(&x) {
                    self.i += 1;
                    assert(self.a@.skip(self.i as int) =~= sa.drop_first());
                    Some(x)
                } else {
                    self.j += 1;
                    assert(self.b@.skip(self.j as int) =~= sb.drop_first());
                    Some(y)
                }
            } else {
                let x = self.a[self.i];
                self.i += 1;
                assert(self.a@.skip(self.i as int) =~= sa.drop_first());
                assert(sb.len() == 0);
                Some(x)
            }
        } else if self.j < self.b.len() {
            let y = self.b[self.j];
            self.j += 1;
            assert(self.b@.skip(self.j as int) =~= sb.drop_first());
            assert(sa.len() == 0);
            Some(y)
        } else {
            None
        }
    }

    /// Bounds on the number of elements still to come: exact.
    pub fn size_hint(&self) -> (r: (usize, Option<usize>))
        requires
            self.wf(),
        ensures
            r.0 as int == if self.rest().len() > usize::MAX {
                usize::MAX as int
            } else {
                self.rest().len() as int
            },
            r.1 == Some(r.0),
    {
        proof {
            lemma_merged_len(self.a@.skip(self.i as int), self.b@.skip(self.j as int));
        }
        let la = self.a.len() - self.i;
        let lb = self.b.len() - self.j;
        let s = la.saturating_add(lb);
        (s, Some(s))
    }
}

} // verus!
