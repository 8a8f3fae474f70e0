//! Editing operations that grow, shrink or split a bit string.
use vstd::prelude::*;

use crate::bit_string::{mask_unused_bits, vec_capacity, BitString};
use crate::words::{
    bit_at, clear_bits_at, grow_words, or_bits_into, shift_tail_left, shift_tail_right, word_len,
    write_bit, zero_words, WORD_BITS,
};
use crate::pack::bools_core;

verus! {

impl BitString {
    /// The bits `self[start..end]` as a new bit string.
    pub(crate) fn copy_range(&self, start: usize, end: usize) -> (r: BitString)
        requires
            self.wf(),
            start <= end <= self@.len(),
        ensures
            r.wf(),
            r@ == self@.subrange(start as int, end as int),
    {
        let len = end - start;
        let mut bits = zero_words(word_len(len));
        or_bits_into(&mut bits, 0, self.words(), start, len);
        let r = BitString::from_raw_parts(bits, len);
        assert(r@ =~= self@.subrange(start as int, end as int));
        r
    }

    /// Appends all bits of `rhs` at the end of `self`.
    ///
    /// The combined length must fit in `usize`.
    pub fn push_bit_string(&mut self, rhs: &Self)
        requires
            old(self)@.len() + rhs@.len() <= usize::MAX,
        ensures
            final(self)@ == old(self)@ + rhs@,
    {
        proof {
            use_type_invariant(&*self);
            use_type_invariant(rhs);
        }
        if rhs.bit_len() == 0 {
            assert(self@ + rhs@ =~= self@);
            return;
        }
        if self.bit_len() == 0 {
            *self = rhs.duplicate();
            assert(old(self)@ + rhs@ =~= rhs@);
            return;
        }
        let old_len = self.bit_len();
        let rhs_len = rhs.bit_len();
        let new_len = old_len + rhs_len;
        let new_words = word_len(new_len);
        let mut words = self.take_words();
        if vec_capacity(&words) >= new_words {
            // Grow into the spare capacity and paste `rhs` after the old bits.
            grow_words(&mut words, new_words);
            or_bits_into(&mut words, old_len, rhs.words(), 0, rhs_len);
        } else {
            // Reallocate and paste both halves.
            let mut bits = zero_words(new_words);
            or_bits_into(&mut bits, 0, words.as_slice(), 0, old_len);
            or_bits_into(&mut bits, old_len, rhs.words(), 0, rhs_len);
            words = bits;
        }
        *self = BitString::from_raw_parts(words, new_len);
        assert(self@ =~= old(self)@ + rhs@);
    }

    /// Appends all bits of `rhs` at the end of `self` (same as
    /// [`push_bit_string`](Self::push_bit_string)).
    pub fn push_bits(&mut self, rhs: &Self)
        requires
            old(self)@.len() + rhs@.len() <= usize::MAX,
        ensures
            final(self)@ == old(self)@ + rhs@,
    {
        proof {
            use_type_invariant(&*self);
            use_type_invariant(rhs);
        }
        self.push_bit_string(rhs);
    }

    /// Inserts all bits of `rhs` before position `index`, shifting the tail
    /// right.
    ///
    /// `index` must be at most `self.bit_len()`, and the combined length must
    /// fit in `usize`.
    pub fn insert_bit_string(&mut self, index: usize, rhs: &Self)
        requires
            index <= old(self)@.len(),
            old(self)@.len() + rhs@.len() <= usize::MAX,
        ensures
            final(self)@ == old(self)@.subrange(0, index as int) + rhs@ + old(self)@.subrange(
                index as int,
                old(self)@.len() as int,
            ),
    {
        proof {
            use_type_invariant(&*self);
            use_type_invariant(rhs);
        }
        let old_len = self.bit_len();
        if rhs.bit_len() == 0 {
            assert(self@.subrange(0, index as int) + rhs@ + self@.subrange(index as int, old_len as int)
                =~= self@);
            return;
        }
        if index == old_len {
            self.push_bit_string(rhs);
            assert(old(self)@.subrange(0, index as int) + rhs@ + old(self)@.subrange(
                index as int,
                old_len as int,
            ) =~= old(self)@ + rhs@);
            return;
        }
        let shift = rhs.bit_len();
        let new_len = old_len + shift;
        let new_words = word_len(new_len);
        let mut words = self.take_words();
        // In-place fast path: grow into spare capacity.  A shift of at least
        // one word keeps the read and write regions of each step apart.
        if vec_capacity(&words) >= new_words && shift >= WORD_BITS {
            let tail_len = old_len - index;
            grow_words(&mut words, new_words);
            shift_tail_right(&mut words, index, tail_len, shift);
            // The source region still holds the leading tail bits: clear it
            // before pasting the inserted bits.
            clear_bits_at(&mut words, index, shift);
            or_bits_into(&mut words, index, rhs.words(), 0, shift);
            *self = BitString::from_raw_parts(words, new_len);
            assert(self@ =~= old(self)@.subrange(0, index as int) + rhs@ + old(self)@.subrange(
                index as int,
                old_len as int,
            ));
            return;
        }
        // Slow path: reallocate.
        let mut bits = zero_words(new_words);
        or_bits_into(&mut bits, 0, words.as_slice(), 0, index);
        or_bits_into(&mut bits, index, rhs.words(), 0, shift);
        or_bits_into(&mut bits, index + shift, words.as_slice(), index, old_len - index);
        *self = BitString::from_raw_parts(bits, new_len);
        assert(self@ =~= old(self)@.subrange(0, index as int) + rhs@ + old(self)@.subrange(
            index as int,
            old_len as int,
        ));
    }

    /// Splits the bit string in two at `at`: `self` keeps `[0, at)` and the
    /// returned bit string holds `[at, len)`.
    ///
    /// `at` is clamped to `self.bit_len()`.
    pub fn split_off(&mut self, at: usize) -> (rhs: Self)
        ensures
            final(self)@ == old(self)@.take(clamp(at as int, old(self)@.len() as int)),
            rhs@ == old(self)@.skip(clamp(at as int, old(self)@.len() as int)),
    {
        proof {
            use_type_invariant(&*self);
        }
        let len = self.bit_len();
        let at = if at < len {
            at
        } else {
            len
        };
        let rhs = self.copy_range(at, len);
        self.truncate(at);
        assert(old(self)@.take(at as int) =~= old(self)@.subrange(0, at as int));
        assert(rhs@ =~= old(self)@.skip(at as int));
        assert(at == len ==> old(self)@.take(at as int) =~= old(self)@);
        rhs
    }

    /// Inserts a single bit at `index`, shifting the tail right.
    ///
    /// `index` is clamped to `[0, self.bit_len()]` — an out-of-bounds index
    /// pushes at the end.  The new length must fit in `usize`.
    pub fn insert(&mut self, index: usize, value: bool)
        requires
            old(self)@.len() < usize::MAX,
        ensures
            final(self)@ == old(self)@.insert(clamp(index as int, old(self)@.len() as int), value),
    {
        proof {
            use_type_invariant(&*self);
        }
        let len = self.bit_len();
        let index = if index < len {
            index
        } else {
            len
        };
        if index == len {
            self.push(value);
            assert(self@ =~= old(self)@.insert(index as int, value));
            return;
        }
        let new_len = len + 1;
        let new_words = word_len(new_len);
        if new_words != self.words().len() {
            // The word count changes: build a fresh buffer.
            let mut bits = zero_words(new_words);
            or_bits_into(&mut bits, 0, self.words(), 0, index);
            write_bit(&mut bits, index, value);
            or_bits_into(&mut bits, index + 1, self.words(), index, len - index);
            *self = BitString::from_raw_parts(bits, new_len);
            assert(self@ =~= old(self)@.insert(index as int, value));
            return;
        }
        // The word count is unchanged: shift the tail one position right,
        // word by word, within the same buffer.
        let ghost init = self@;
        let mut words = self.take_words();
        shift_tail_right(&mut words, index, len - index, 1);
        let ghost shifted = words@;
        write_bit(&mut words, index, value);
        proof {
            assert forall|p: int| 0 <= p < words@.len() * 64 implies #[trigger] bit_at(words@, p)
                == (p < new_len && init.insert(index as int, value)[p]) by {
                assert(bit_at(words@, p) == (if p == index {
                    value
                } else {
                    bit_at(shifted, p)
                }));
            }
        }
        *self = BitString::from_raw_parts(words, new_len);
        assert(self@ =~= init.insert(index as int, value));
    }

    /// Removes the bit at `index`, shifting the tail left, and returns it.
    ///
    /// `index` must be below `self.bit_len()`.
    pub fn remove(&mut self, index: usize) -> (r: bool)
        requires
            index < old(self)@.len(),
        ensures
            r == old(self)@[index as int],
            final(self)@ == old(self)@.remove(index as int),
    {
        proof {
            use_type_invariant(&*self);
        }
        let len = self.bit_len();
        let value = self.read(index);
        let new_len = len - 1;
        let new_words = word_len(new_len);
        if new_words != self.words().len() {
            // The word count changes: build a fresh buffer.
            let mut bits = zero_words(new_words);
            or_bits_into(&mut bits, 0, self.words(), 0, index);
            or_bits_into(&mut bits, index, self.words(), index + 1, len - index - 1);
            *self = BitString::from_raw_parts(bits, new_len);
            assert(self@ =~= old(self)@.remove(index as int));
            return value;
        }
        // The word count is unchanged: shift the tail one position left,
        // word by word, within the same buffer, then clear the vacated bit.
        let ghost init = self@;
        let mut words = self.take_words();
        shift_tail_left(&mut words, index, len - index - 1, 1);
        let ghost shifted = words@;
        mask_unused_bits(&mut words, new_len);
        proof {
            assert forall|p: int| 0 <= p < words@.len() * 64 implies #[trigger] bit_at(words@, p)
                == (p < new_len && init.remove(index as int)[p]) by {
                assert(bit_at(words@, p) == (p < new_len && bit_at(shifted, p)));
            }
        }
        *self = BitString::from_raw_parts(words, new_len);
        assert(self@ =~= init.remove(index as int));
        value
    }

    /// Appends every value of `values`, in order.
    ///
    /// The combined length must fit in `usize`.
    pub fn extend(&mut self, values: &[bool])
        requires
            old(self)@.len() + values@.len() <= usize::MAX,
        ensures
            final(self)@ == old(self)@ + values@,
    {
        proof {
            use_type_invariant(&*self);
        }
        self.reserve_bits(values.len());
        let rhs = BitString::from_bool_iter(values);
        self.push_bit_string(&rhs);
    }

    /// A bit string holding `values`, in order.
    pub fn from_bool_iter(values: &[bool]) -> (r: Self)
        ensures
            r@ == values@,
    {
        let bit_len = values.len();
        let words = bools_core(values);
        let r = BitString::from_raw_parts(words, bit_len);
        assert(r@ =~= values@);
        r
    }
}

impl<'a> From<&'a [bool]> for BitString {
    /// A bit string holding `values`, in order.
    fn from(values: &'a [bool]) -> (r: Self)
        ensures
            r@ == values@,
    {
        BitString::from_bool_iter(values)
    }
}

/// `from` states its result in its own `ensures`: a well-formed bit string
/// whose bits are the slice's.  A bit string is pinned down by its bits only
/// up to the capacity of its buffer, so no single value is claimed here.
impl<'a> vstd::std_specs::convert::FromSpecImpl<&'a [bool]> for BitString {
    open spec fn obeys_from_spec() -> bool {
        false
    }

    open spec fn from_spec(v: &'a [bool]) -> Self {
        choose|b: BitString| b.wf() && b@ == v@
    }
}

impl<const N: usize> From<[bool; N]> for BitString {
    /// A bit string holding the `N` values of the array, in order.
    fn from(values: [bool; N]) -> (r: Self)
        ensures
            r@ == values@,
    {
        BitString::from_bool_iter(values.as_slice())
    }
}

/// As for slices, `from` states its result in its own `ensures`.
impl<const N: usize> vstd::std_specs::convert::FromSpecImpl<[bool; N]> for BitString {
    open spec fn obeys_from_spec() -> bool {
        false
    }

    open spec fn from_spec(v: [bool; N]) -> Self {
        choose|b: BitString| b.wf() && b@ == v@
    }
}

/// `x` clamped to `[0, hi]` for `x >= 0`: the smaller of `x` and `hi`.
pub open spec fn clamp(x: int, hi: int) -> int {
    if x < hi {
        x
    } else {
        hi
    }
}

} // verus!
