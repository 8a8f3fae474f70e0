//! Double-ended, in-order traversal of the bits of a bit string.
use vstd::prelude::*;

use crate::bit_string::BitString;

verus! {

/// A double-ended cursor over the bits of a [`BitString`], front to back.
pub struct Iter<'a> {
    bit_string: &'a BitString,
    front: usize,
    back: usize,
}

impl<'a> Iter<'a> {
    /// The cursor stays within the bit string it walks (a type invariant).
    #[verifier::type_invariant]
    pub closed spec fn wf(&self) -> bool {
        &&& self.bit_string.wf()
        &&& self.front <= self.back <= self.bit_string@.len()
    }

    /// The bits not yet yielded from either end, in order.
    pub closed spec fn remaining(&self) -> Seq<bool> {
        self.bit_string@.subrange(self.front as int, self.back as int)
    }

    /// Yields the next bit from the front, or `None` when exhausted.
    pub fn next(&mut self) -> (r: Option<bool>)
        ensures
            old(self).remaining().len() == 0 ==> r == None::<bool> && final(self).remaining()
                == old(self).remaining(),
            old(self).remaining().len() > 0 ==> r == Some(old(self).remaining()[0]) && final(self).remaining() == old(self).remaining().drop_first(),
    {
        proof {
            use_type_invariant(&*self);
        }
        if self.front == self.back {
            return None;
        }
        let value = self.bit_string.read(self.front);
        self.front += 1;
        assert(self.remaining() =~= old(self).remaining().drop_first());
        Some(value)
    }

    /// Yields the next bit from the back, or `None` when exhausted.
    pub fn next_back(&mut self) -> (r: Option<bool>)
        ensures
            old(self).remaining().len() == 0 ==> r == None::<bool> && final(self).remaining()
                == old(self).remaining(),
            old(self).remaining().len() > 0 ==> r == Some(old(self).remaining().last()) && final(self).remaining() == old(self).remaining().drop_last(),
    {
        proof {
            use_type_invariant(&*self);
        }
        if self.front == self.back {
            return None;
        }
        self.back -= 1;
        assert(self.remaining() =~= old(self).remaining().drop_last());
        Some(self.bit_string.read(self.back))
    }

    /// The exact number of bits left, as a `(lower, upper)` bound pair.
    pub fn size_hint(&self) -> (r: (usize, Option<usize>))
        ensures
            r == (self.remaining().len() as usize, Some(self.remaining().len() as usize)),
    {
        proof {
            use_type_invariant(self);
        }
        let len = self.back - self.front;
        (len, Some(len))
    }
}

impl BitString {
    /// A cursor over all bits, front to back.
    pub fn iter(&self) -> (r: Iter<'_>)
        ensures
            r.remaining() == self@,
    {
        proof {
            use_type_invariant(self);
        }
        let r = Iter { bit_string: self, front: 0, back: self.bit_len() };
        assert(r.remaining() =~= self@);
        r
    }
}

} // verus!
