use vstd::prelude::*;
pub use super::OutputItem;
use super::{Output, joined};

verus! {

/// Writes items separated by single spaces into bytes held in memory.
pub struct KOutput {
    dest: Vec<u8>,
    delim: bool,
}

impl KOutput {
    /// The bytes written so far.
    pub closed spec fn written(&self) -> Seq<u8> {
        self.dest@
    }

    /// Whether the next item is preceded by a space.
    pub closed spec fn pending_space(&self) -> bool {
        self.delim
    }

    pub fn new(dest: Vec<u8>) -> (k: Self)
        ensures
            k.written() == dest@,
            !k.pending_space(),
    {
        KOutput { dest, delim: false }
    }

    pub fn bytes(&mut self, s: &[u8])
        ensures
            final(self).written() == old(self).written() + s@,
            final(self).pending_space() == old(self).pending_space(),
    {
        self.dest.bytes(s);
    }

    pub fn byte(&mut self, b: u8)
        ensures
            final(self).written() == old(self).written().push(b),
            final(self).pending_space() == old(self).pending_space(),
    {
        self.dest.push(b);
    }

    /// Writes `x`, after a space unless it is the first item of its line.
    pub fn output<T: OutputItem>(&mut self, x: T)
        ensures
            final(self).written() == old(self).written() + (if old(self).pending_space() {
                seq![32u8]
            } else {
                Seq::empty()
            }) + x.text(),
            final(self).pending_space(),
    {
        let ghost w0 = self.dest@;
        if self.delim {
            self.dest.push(32);
        }
        self.delim = true;
        x.output(&mut self.dest);
        proof {
            if !old(self).pending_space() {
                assert(w0 + Seq::<u8>::empty() =~= w0);
            }
        }
    }

    /// Ends the line.
    pub fn ln(&mut self)
        ensures
            final(self).written() == old(self).written().push(10),
            !final(self).pending_space(),
    {
        self.delim = false;
        self.dest.push(10);
    }

    /// The bytes written so far.
    pub fn inner(&mut self) -> (d: &mut Vec<u8>)
        ensures
            d@ == old(self).written(),
            final(self).written() == final(d)@,
            final(self).pending_space() == old(self).pending_space(),
    {
        &mut self.dest
    }

    /// Writes every item, each as [`KOutput::output`] does.
    pub fn seq<T: OutputItem + Copy>(&mut self, items: &[T])
        ensures
            final(self).written() == old(self).written() + (if old(self).pending_space() && items@.len() > 0 {
                seq![32u8]
            } else {
                Seq::empty()
            }) + joined(items@, 32),
            final(self).pending_space() == (old(self).pending_space() || items@.len() > 0),
    {
        let ghost w0 = self.dest@;
        let ghost sp = self.delim && items@.len() > 0;
        let mut i: usize = 0;
        while i < items.len()
            invariant
                i <= items@.len(),
                sp == (old(self).pending_space() && items@.len() > 0),
                w0 == old(self).written(),
                self.dest@ == w0 + (if sp && i > 0 {
                    seq![32u8]
                } else {
                    Seq::empty()
                }) + joined(items@.take(i as int), 32),
                self.delim == (old(self).pending_space() || i > 0),
            decreases items@.len() - i,
        {
            self.output(items[i]);
            proof {
                let t = items@.take(i + 1);
                assert(t.drop_last() =~= items@.take(i as int));
                if i == 0 {
                    assert(joined(t, 32) =~= items@[0].text());
                    assert(joined(items@.take(0), 32) =~= Seq::<u8>::empty());
                }
            }
            i += 1;
        }
        assert(items@.take(items@.len() as int) =~= items@);
        proof {
            if items@.len() == 0 {
                assert(joined(items@, 32) =~= Seq::<u8>::empty());
            }
        }
    }

    /// Nothing to do for bytes held in memory; the caller writes them out.
    pub fn flush(&mut self)
        ensures
            *final(self) == *old(self),
    {
    }

    /// Nothing to do for bytes held in memory; the caller writes them out.
    pub fn flush_debug(&mut self)
        ensures
            *final(self) == *old(self),
    {
    }
}

} // verus!
