//! Operations on an interval of a bit string: slicing, draining and
//! replacing.
//!
//! Every interval is clamped to the bit string first: its start to
//! `[0, bit_len]`, and its end to `[start, bit_len]`.
use vstd::prelude::*;

use crate::bit_string::BitString;
use crate::editing::clamp;
use crate::interval::Interval;
use crate::words::{clear_bits_at, or_bits_into, word_len, zero_words};

verus! {

/// The start of `iv` clamped to `[0, len]`.
pub open spec fn clamped_start(iv: Interval, len: nat) -> int {
    clamp(iv.spec_start() as int, len as int)
}

/// The end of `iv` clamped to `[clamped_start(iv, len), len]`.
pub open spec fn clamped_end(iv: Interval, len: nat) -> int {
    let e = clamp(iv.spec_end_excl() as int, len as int);
    if e < clamped_start(iv, len) {
        clamped_start(iv, len)
    } else {
        e
    }
}

/// `s` with the positions `[start, end)` replaced by `r`.
pub open spec fn splice(s: Seq<bool>, start: int, end: int, r: Seq<bool>) -> Seq<bool> {
    s.subrange(0, start) + r + s.subrange(end, s.len() as int)
}

/// The end of the span that [`BitString::replace`] overwrites: the
/// replacement's length from `start`, clamped to `len`.
pub open spec fn replace_end(len: nat, start: int, repl_len: nat) -> int {
    if start + repl_len < len {
        start + repl_len
    } else {
        len as int
    }
}

impl BitString {
    /// Returns a new [`BitString`] containing the bits in `interval`.
    ///
    /// The interval is clamped to `[0, self.bit_len()]`.  An interval that lies
    /// entirely beyond the bit string returns an empty result.
    pub fn slice(&self, interval: Interval) -> (r: Self)
        ensures
            r@ == self@.subrange(
                clamped_start(interval, self@.len()),
                clamped_end(interval, self@.len()),
            ),
    {
        proof {
            use_type_invariant(self);
        }
        let (start, end) = self.clamp_replace_interval(interval);
        let len = end - start;
        if len == 0 {
            let r = BitString::new();
            assert(r@ =~= self@.subrange(start as int, end as int));
            return r;
        }
        self.copy_range(start, end)
    }

    /// Returns a new [`BitString`] containing bits from `start` to the end.
    ///
    /// `start` is clamped to `self.bit_len()` — an out-of-bounds index returns
    /// an empty result.
    pub fn slice_from(&self, start: usize) -> (r: Self)
        ensures
            r@ == self@.skip(clamp(start as int, self@.len() as int)),
    {
        proof {
            use_type_invariant(self);
        }
        let bit_len = self.bit_len();
        let start = if start < bit_len {
            start
        } else {
            bit_len
        };
        let len = bit_len - start;
        if len == 0 {
            let r = BitString::new();
            assert(r@ =~= self@.skip(start as int));
            return r;
        }
        let r = self.copy_range(start, bit_len);
        assert(r@ =~= self@.skip(start as int));
        r
    }

    /// Returns a new [`BitString`] containing bits from the start to `end`.
    ///
    /// `end` is clamped to `self.bit_len()` — a value beyond the bit string
    /// returns all bits.
    pub fn slice_until(&self, end: usize) -> (r: Self)
        ensures
            r@ == self@.take(clamp(end as int, self@.len() as int)),
    {
        proof {
            use_type_invariant(self);
        }
        let bit_len = self.bit_len();
        let end = if end < bit_len {
            end
        } else {
            bit_len
        };
        if end == 0 {
            let r = BitString::new();
            assert(r@ =~= self@.take(0));
            return r;
        }
        let r = self.copy_range(0, end);
        assert(r@ =~= self@.take(end as int));
        r
    }

    /// Clamps an interval to `[0, self.bit_len())`; `None` when the clamped
    /// interval is empty.
    fn clamp_drain_interval(&self, interval: Interval) -> (r: Option<Interval>)
        ensures
            r is Some <==> clamped_start(interval, self@.len()) < clamped_end(
                interval,
                self@.len(),
            ),
            r matches Some(c) ==> c.spec_start() == clamped_start(interval, self@.len())
                && c.spec_end_excl() == clamped_end(interval, self@.len()),
    {
        let (start, end) = self.clamp_replace_interval(interval);
        Interval::try_new(start, end)
    }

    /// The bits of `self` with the in-bounds interval `clamped` removed.
    fn drain_allocate(&self, clamped: Interval) -> (r: BitString)
        requires
            self.wf(),
            clamped.spec_end_excl() <= self@.len(),
        ensures
            r.wf(),
            r@ == self@.subrange(0, clamped.spec_start() as int) + self@.subrange(
                clamped.spec_end_excl() as int,
                self@.len() as int,
            ),
    {
        let removed_len = clamped.len();
        let bit_len = self.bit_len();
        let start = clamped.start();
        let end = clamped.end_excl();
        let tail_len = bit_len - end;
        let new_len = bit_len - removed_len;
        let mut dst = zero_words(word_len(new_len));
        or_bits_into(&mut dst, 0, self.words(), 0, start);
        or_bits_into(&mut dst, start, self.words(), end, tail_len);
        let r = BitString::from_raw_parts(dst, new_len);
        assert(r@ =~= self@.subrange(0, start as int) + self@.subrange(end as int, bit_len as int));
        r
    }

    /// Borrowing variant: returns a new [`BitString`] with `interval` removed;
    /// `self` is unchanged.
    ///
    /// The interval is clamped to `[0, self.bit_len())`.  An interval that lies
    /// entirely beyond the bit string length returns a copy of `self`.
    pub fn drain_interval(&self, interval: Interval) -> (r: Self)
        ensures
            r@ == splice(
                self@,
                clamped_start(interval, self@.len()),
                clamped_end(interval, self@.len()),
                Seq::empty(),
            ),
    {
        proof {
            use_type_invariant(self);
        }
        match self.clamp_drain_interval(interval) {
            Some(clamped) => {
                let r = self.drain_allocate(clamped);
                assert(r@ =~= splice(
                    self@,
                    clamped_start(interval, self@.len()),
                    clamped_end(interval, self@.len()),
                    Seq::empty(),
                ));
                r
            },
            None => {
                let r = self.duplicate();
                let ghost s = clamped_start(interval, self@.len());
                assert(r@ =~= splice(self@, s, s, Seq::empty()));
                r
            },
        }
    }

    /// Assigning variant: removes `interval` from `self`.
    ///
    /// The interval is clamped as for [`drain_interval`](Self::drain_interval).
    pub fn drain_interval_assign(&mut self, interval: Interval)
        ensures
            final(self)@ == splice(
                old(self)@,
                clamped_start(interval, old(self)@.len()),
                clamped_end(interval, old(self)@.len()),
                Seq::empty(),
            ),
    {
        proof {
            use_type_invariant(&*self);
        }
        match self.clamp_drain_interval(interval) {
            Some(clamped) => {
                let r = self.drain_allocate(clamped);
                assert(r@ =~= splice(
                    self@,
                    clamped_start(interval, self@.len()),
                    clamped_end(interval, self@.len()),
                    Seq::empty(),
                ));
                *self = r;
            },
            None => {
                let ghost s = clamped_start(interval, self@.len());
                assert(self@ =~= splice(self@, s, s, Seq::empty()));
            },
        }
    }

    /// Clamps an interval to `[0, self.bit_len()]`, as `(start, end)` with
    /// `start <= end`.
    fn clamp_replace_interval(&self, interval: Interval) -> (r: (usize, usize))
        ensures
            r.0 == clamped_start(interval, self@.len()),
            r.1 == clamped_end(interval, self@.len()),
            r.0 <= r.1 <= self@.len(),
    {
        let bit_len = self.bit_len();
        let start = if interval.start() < bit_len {
            interval.start()
        } else {
            bit_len
        };
        let end = if interval.end_excl() < bit_len {
            interval.end_excl()
        } else {
            bit_len
        };
        let end = if end < start {
            start
        } else {
            end
        };
        (start, end)
    }

    /// A new bit string: `self` with the pre-clamped span `[start, end)`
    /// replaced by `replacement`.
    fn replace_allocate(&self, start: usize, end: usize, replacement: &Self) -> (r: BitString)
        requires
            self.wf(),
            replacement.wf(),
            start <= end <= self@.len(),
            start + replacement@.len() + (self@.len() - end) <= usize::MAX,
        ensures
            r.wf(),
            r@ == splice(self@, start as int, end as int, replacement@),
    {
        let bit_len = self.bit_len();
        let repl_len = replacement.bit_len();
        let tail_len = bit_len - end;
        let new_len = start + repl_len + tail_len;
        let mut dst = zero_words(word_len(new_len));
        or_bits_into(&mut dst, 0, self.words(), 0, start);
        or_bits_into(&mut dst, start, replacement.words(), 0, repl_len);
        or_bits_into(&mut dst, start + repl_len, self.words(), end, tail_len);
        let r = BitString::from_raw_parts(dst, new_len);
        assert(r@ =~= splice(self@, start as int, end as int, replacement@));
        r
    }

    /// Overwrites `self[start..start + replacement.bit_len()]` with
    /// `replacement`; the length does not change.
    fn replace_equal_length_in_place(&mut self, start: usize, replacement: &Self)
        requires
            old(self).wf(),
            replacement.wf(),
            start + replacement@.len() <= old(self)@.len(),
        ensures
            final(self).wf(),
            final(self)@ == splice(
                old(self)@,
                start as int,
                start + replacement@.len(),
                replacement@,
            ),
    {
        let repl_len = replacement.bit_len();
        if repl_len == 0 {
            assert(splice(self@, start as int, start as int, replacement@) =~= self@);
            return;
        }
        let bit_len = self.bit_len();
        let mut words = self.take_words();
        clear_bits_at(&mut words, start, repl_len);
        or_bits_into(&mut words, start, replacement.words(), 0, repl_len);
        *self = BitString::from_raw_parts(words, bit_len);
        assert(self@ =~= splice(old(self)@, start as int, start + repl_len, replacement@));
    }

    /// The clamped `(start, end)` span that [`replace`](Self::replace) writes:
    /// `start` clamped to `[0, bit_len]`, `end` the replacement's length on
    /// from there, clamped to `bit_len`.
    fn clamp_replace_range(&self, start: usize, len: usize) -> (r: (usize, usize))
        ensures
            r.0 == clamp(start as int, self@.len() as int),
            r.1 == replace_end(self@.len(), r.0 as int, len as nat),
            r.0 <= r.1 <= self@.len(),
    {
        let bit_len = self.bit_len();
        let start = if start < bit_len {
            start
        } else {
            bit_len
        };
        let reach = start.saturating_add(len);
        let end = if bit_len < reach {
            bit_len
        } else {
            reach
        };
        (start, end)
    }

    /// Borrowing variant: returns `self` with the (clamped) `interval` replaced
    /// by `replacement`; `self` is unchanged.
    ///
    /// The resulting length must fit in `usize`.
    pub fn replace_interval(&self, interval: Interval, replacement: &Self) -> (r: Self)
        requires
            clamped_start(interval, self@.len()) + replacement@.len() + (self@.len()
                - clamped_end(interval, self@.len())) <= usize::MAX,
        ensures
            r@ == splice(
                self@,
                clamped_start(interval, self@.len()),
                clamped_end(interval, self@.len()),
                replacement@,
            ),
    {
        proof {
            use_type_invariant(self);
            use_type_invariant(replacement);
        }
        let (start, end) = self.clamp_replace_interval(interval);
        self.replace_allocate(start, end, replacement)
    }

    /// Assigning variant: replaces the (clamped) interval in place.
    ///
    /// When the replacement length equals the clamped interval length the
    /// bits are overwritten without allocation; otherwise a fresh buffer is
    /// built and swapped in.
    pub fn replace_interval_assign(&mut self, interval: Interval, replacement: &Self)
        requires
            clamped_start(interval, old(self)@.len()) + replacement@.len() + (old(self)@.len()
                - clamped_end(interval, old(self)@.len())) <= usize::MAX,
        ensures
            final(self)@ == splice(
                old(self)@,
                clamped_start(interval, old(self)@.len()),
                clamped_end(interval, old(self)@.len()),
                replacement@,
            ),
    {
        proof {
            use_type_invariant(&*self);
            use_type_invariant(replacement);
        }
        let (start, end) = self.clamp_replace_interval(interval);
        if replacement.bit_len() == end - start {
            self.replace_equal_length_in_place(start, replacement);
            return;
        }
        let result = self.replace_allocate(start, end, replacement);
        *self = result;
    }

    /// Consuming variant: replaces the (clamped) interval, reusing `self`'s
    /// storage when the replacement has the same length as the clamped
    /// interval.
    pub fn replace_interval_into(self, interval: Interval, replacement: &Self) -> (r: Self)
        requires
            clamped_start(interval, self@.len()) + replacement@.len() + (self@.len()
                - clamped_end(interval, self@.len())) <= usize::MAX,
        ensures
            r@ == splice(
                self@,
                clamped_start(interval, self@.len()),
                clamped_end(interval, self@.len()),
                replacement@,
            ),
    {
        proof {
            use_type_invariant(&self);
            use_type_invariant(replacement);
        }
        let mut this = self;
        let (start, end) = this.clamp_replace_interval(interval);
        if replacement.bit_len() == end - start {
            this.replace_equal_length_in_place(start, replacement);
            return this;
        }
        this.replace_allocate(start, end, replacement)
    }

    /// Borrowing variant: returns `self` with the bits from `start` on
    /// overwritten by `replacement`, extending the bit string where the
    /// replacement runs past the end; `self` is unchanged.
    ///
    /// `start` is clamped to `self.bit_len()`.  The resulting length must fit
    /// in `usize`.
    pub fn replace(&self, start: usize, replacement: &Self) -> (r: Self)
        requires
            clamp(start as int, self@.len() as int) + replacement@.len() + (self@.len()
                - replace_end(
                self@.len(),
                clamp(start as int, self@.len() as int),
                replacement@.len(),
            )) <= usize::MAX,
        ensures
            r@ == splice(
                self@,
                clamp(start as int, self@.len() as int),
                replace_end(self@.len(), clamp(start as int, self@.len() as int), replacement@.len()),
                replacement@,
            ),
    {
        proof {
            use_type_invariant(self);
            use_type_invariant(replacement);
        }
        let (start, end) = self.clamp_replace_range(start, replacement.bit_len());
        if start == end {
            let mut result = self.duplicate();
            result.insert_bit_string(start, replacement);
            return result;
        }
        let interval = Interval::try_new(start, end).unwrap();
        self.replace_interval(interval, replacement)
    }

    /// Assigning variant of [`replace`](Self::replace).
    pub fn replace_assign(&mut self, start: usize, replacement: &Self)
        requires
            clamp(start as int, old(self)@.len() as int) + replacement@.len() + (old(self)@.len()
                - replace_end(
                old(self)@.len(),
                clamp(start as int, old(self)@.len() as int),
                replacement@.len(),
            )) <= usize::MAX,
        ensures
            final(self)@ == splice(
                old(self)@,
                clamp(start as int, old(self)@.len() as int),
                replace_end(
                    old(self)@.len(),
                    clamp(start as int, old(self)@.len() as int),
                    replacement@.len(),
                ),
                replacement@,
            ),
    {
        proof {
            use_type_invariant(&*self);
            use_type_invariant(replacement);
        }
        let (start, end) = self.clamp_replace_range(start, replacement.bit_len());
        if start == end {
            self.insert_bit_string(start, replacement);
            return;
        }
        let interval = Interval::try_new(start, end).unwrap();
        self.replace_interval_assign(interval, replacement);
    }

    /// Consuming variant of [`replace`](Self::replace).
    pub fn replace_into(self, start: usize, replacement: &Self) -> (r: Self)
        requires
            clamp(start as int, self@.len() as int) + replacement@.len() + (self@.len()
                - replace_end(
                self@.len(),
                clamp(start as int, self@.len() as int),
                replacement@.len(),
            )) <= usize::MAX,
        ensures
            r@ == splice(
                self@,
                clamp(start as int, self@.len() as int),
                replace_end(self@.len(), clamp(start as int, self@.len() as int), replacement@.len()),
                replacement@,
            ),
    {
        proof {
            use_type_invariant(&self);
            use_type_invariant(replacement);
        }
        let (start, end) = self.clamp_replace_range(start, replacement.bit_len());
        if start == end {
            let mut this = self;
            this.insert_bit_string(start, replacement);
            return this;
        }
        let interval = Interval::try_new(start, end).unwrap();
        self.replace_interval_into(interval, replacement)
    }
}

} // verus!
