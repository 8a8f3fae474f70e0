//! Bitwise operations, counting, and chunk access.
use vstd::prelude::*;

use crate::bit_string::{mask_unused_bits, BitString};
use crate::words::{
    bit_at, grow_words, lemma_word_bit_mask, lemma_word_bit_ops, low_mask, or_bits_into, or_chunk,
    read_chunk, word_bit, word_len, zero_words, WORD_BITS,
};

verus! {

/// Number of `true` bits in `s`.
pub open spec fn count_true(s: Seq<bool>) -> nat
    decreases s.len(),
{
    if s.len() == 0 {
        0
    } else {
        count_true(s.drop_last()) + (if s.last() {
            1nat
        } else {
            0nat
        })
    }
}

/// A count of `true` bits is at most the length.
pub proof fn lemma_count_true_le_len(s: Seq<bool>)
    ensures
        count_true(s) <= s.len(),
    decreases s.len(),
{
    if s.len() > 0 {
        lemma_count_true_le_len(s.drop_last());
    }
}

/// The bits `0..n` of `value`, low bit first.
pub open spec fn low_bits(value: u64, n: nat) -> Seq<bool> {
    Seq::new(n, |j: int| word_bit(value, j as u64))
}

impl BitString {
    /// Number of `1` bits.
    pub fn count_ones(&self) -> (r: usize)
        ensures
            r == count_true(self@),
    {
        proof {
            use_type_invariant(self);
        }
        let len = self.bit_len();
        let mut count: usize = 0;
        let mut k: usize = 0;
        while k < len
            invariant
                self.wf(),
                len == self@.len(),
                k <= len,
                count == count_true(self@.take(k as int)),
                count <= k,
            decreases len - k,
        {
            assert(self@.take(k + 1).drop_last() =~= self@.take(k as int));
            if self.read(k) {
                count += 1;
            }
            k += 1;
        }
        assert(self@.take(len as int) =~= self@);
        count
    }

    /// Number of `0` bits.
    pub fn count_zeros(&self) -> (r: usize)
        ensures
            r + count_true(self@) == self@.len(),
    {
        proof {
            use_type_invariant(self);
        }
        let ones = self.count_ones();
        proof {
            lemma_count_true_le_len(self@);
        }
        self.bit_len() - ones
    }

    /// Whether every bit is `1` (true of the empty bit string).
    pub fn is_all_ones(&self) -> (r: bool)
        ensures
            r == (forall|i: int| 0 <= i < self@.len() ==> #[trigger] self@[i]),
    {
        proof {
            use_type_invariant(self);
        }
        let len = self.bit_len();
        let mut k: usize = 0;
        while k < len
            invariant
                self.wf(),
                len == self@.len(),
                k <= len,
                forall|i: int| 0 <= i < k ==> #[trigger] self@[i],
            decreases len - k,
        {
            if !self.read(k) {
                return false;
            }
            k += 1;
        }
        true
    }

    /// The 64 bits starting at `bit_start`, bit `start + j` becoming bit `j`
    /// of the result; positions at or beyond `bit_len()` read as `0`.
    pub fn get_chunk(&self, bit_start: usize) -> (r: u64)
        ensures
            forall|j: u64|
                j < 64 ==> #[trigger] word_bit(r, j) == (bit_start + j < self@.len() && self@[bit_start
                    + j]),
    {
        proof {
            use_type_invariant(self);
        }
        let len = self.bit_len();
        let rest = if bit_start < len {
            len - bit_start
        } else {
            0
        };
        let take = if rest < WORD_BITS {
            rest
        } else {
            WORD_BITS
        };
        let start = if bit_start < len {
            bit_start
        } else {
            len
        };
        let r = read_chunk(self.words(), start, take);
        proof {
            assert forall|j: u64| j < 64 implies #[trigger] word_bit(r, j) == (bit_start + j
                < self@.len() && self@[bit_start + j]) by {
                assert(word_bit(r, j as int as u64) == (j < take && bit_at(
                    self.spec_words(),
                    start + j,
                )));
            }
        }
        r
    }

    /// Sets the bits from `bit_start` on wherever the low `len` bits of
    /// `value` are `1`; bits where `value` is `0` keep their old value.
    ///
    /// At most 64 bits are touched, and bits beyond `self.bit_len()` are
    /// ignored.  Only the low `len` bits of `value` are used; higher bits are
    /// masked out.
    pub fn set_chunk(&mut self, bit_start: usize, value: u64, len: usize)
        ensures
            final(self)@.len() == old(self)@.len(),
            forall|i: int|
                0 <= i < old(self)@.len() ==> #[trigger] final(self)@[i] == (old(self)@[i] || (
                bit_start <= i < bit_start + len && i - bit_start < 64 && word_bit(
                    value,
                    (i - bit_start) as u64,
                ))),
    {
        proof {
            use_type_invariant(&*self);
        }
        let bit_len = self.bit_len();
        let room = if bit_start < bit_len {
            bit_len - bit_start
        } else {
            0
        };
        let mut count = if len < WORD_BITS {
            len
        } else {
            WORD_BITS
        };
        if room < count {
            count = room;
        }
        if count == 0 {
            return;
        }
        let chunk = value & low_mask(count);
        proof {
            assert forall|j: int| count <= j < 64 implies !#[trigger] word_bit(chunk, j as u64) by {
                lemma_word_bit_mask(value, count as u64, j as u64);
            }
        }
        let mut words = self.take_words();
        or_chunk(&mut words, bit_start, chunk, count);
        *self = BitString::from_raw_parts(words, bit_len);
        proof {
            assert forall|i: int| 0 <= i < bit_len implies #[trigger] self@[i] == (old(self)@[i] || (
            bit_start <= i < bit_start + len && i - bit_start < 64 && word_bit(
                value,
                (i - bit_start) as u64,
            ))) by {
                if bit_start <= i < bit_start + count {
                    lemma_word_bit_mask(value, count as u64, (i - bit_start) as u64);
                }
            }
        }
    }

    /// Appends the low `bits` bits of `value`, low bit first.
    ///
    /// `bits` must be at most 64 and the new length must fit in `usize`.
    pub fn push_low_bits(&mut self, value: u64, bits: usize)
        requires
            bits <= 64,
            old(self)@.len() + bits <= usize::MAX,
        ensures
            final(self)@ == old(self)@ + low_bits(value, bits as nat),
    {
        proof {
            use_type_invariant(&*self);
        }
        if bits == 0 {
            assert(self@ + low_bits(value, 0) =~= self@);
            return;
        }
        let old_len = self.bit_len();
        let new_len = old_len + bits;
        let chunk = value & low_mask(bits);
        proof {
            assert forall|j: int| bits <= j < 64 implies !#[trigger] word_bit(chunk, j as u64) by {
                lemma_word_bit_mask(value, bits as u64, j as u64);
            }
        }
        let mut words = self.take_words();
        grow_words(&mut words, word_len(new_len));
        or_chunk(&mut words, old_len, chunk, bits);
        *self = BitString::from_raw_parts(words, new_len);
        proof {
            assert forall|i: int| 0 <= i < new_len implies #[trigger] self@[i] == (old(self)@ + low_bits(
                value,
                bits as nat,
            ))[i] by {
                if i >= old_len {
                    lemma_word_bit_mask(value, bits as u64, (i - old_len) as u64);
                }
            }
            assert(self@ =~= old(self)@ + low_bits(value, bits as nat));
        }
    }

    /// The bitwise complement: every bit flipped.
    pub fn not(&self) -> (r: Self)
        ensures
            r@ == Seq::new(self@.len(), |i: int| !self@[i]),
    {
        proof {
            use_type_invariant(self);
        }
        let mut r = self.duplicate();
        r.not_assign();
        r
    }

    /// Flips every bit in place.
    pub fn not_assign(&mut self)
        ensures
            final(self)@ == Seq::new(old(self)@.len(), |i: int| !old(self)@[i]),
    {
        proof {
            use_type_invariant(&*self);
        }
        let len = self.bit_len();
        let mut words = self.take_words();
        let ghost init = words@;
        let n = words.len();
        let mut k: usize = 0;
        while k < n
            invariant
                n == init.len(),
                words@.len() == n,
                k <= n,
                forall|p: int|
                    0 <= p < n * 64 ==> #[trigger] bit_at(words@, p) == (if p < k * 64 {
                        !bit_at(init, p)
                    } else {
                        bit_at(init, p)
                    }),
            decreases n - k,
        {
            let ghost prev = words@;
            let w = !words[k];
            words.set(k, w);
            proof {
                assert forall|p: int| 0 <= p < n * 64 implies #[trigger] bit_at(words@, p) == (if p
                    < (k + 1) * 64 {
                    !bit_at(init, p)
                } else {
                    bit_at(init, p)
                }) by {
                    assert(bit_at(prev, p) == (if p < k * 64 {
                        !bit_at(init, p)
                    } else {
                        bit_at(init, p)
                    }));
                    if p / 64 == k {
                        lemma_word_bit_ops(prev[k as int], 0, 0, (p % 64) as u64);
                    }
                }
            }
            k += 1;
        }
        mask_unused_bits(&mut words, len);
        *self = BitString::from_raw_parts(words, len);
        assert(self@ =~= Seq::new(old(self)@.len(), |i: int| !old(self)@[i]));
    }

    /// Bitwise exclusive or of two bit strings of the same length; `None`
    /// when the lengths differ.
    pub fn xor(&self, rhs: &Self) -> (r: Option<Self>)
        ensures
            r is Some <==> self@.len() == rhs@.len(),
            r matches Some(x) ==> x@ == Seq::new(
                self@.len(),
                |i: int| self@[i] != rhs@[i],
            ),
    {
        proof {
            use_type_invariant(self);
            use_type_invariant(rhs);
        }
        let len = self.bit_len();
        if rhs.bit_len() != len {
            return None;
        }
        let a = self.words();
        let b = rhs.words();
        let n = a.len();
        let mut words: Vec<u64> = Vec::with_capacity(n);
        let mut k: usize = 0;
        while k < n
            invariant
                n == a@.len(),
                n == b@.len(),
                words@.len() == k,
                k <= n,
                forall|p: int|
                    0 <= p < k * 64 ==> #[trigger] bit_at(words@, p) == (bit_at(a@, p) != bit_at(
                        b@,
                        p,
                    )),
            decreases n - k,
        {
            let ghost prev = words@;
            let w = a[k] ^ b[k];
            words.push(w);
            proof {
                assert forall|p: int| 0 <= p < (k + 1) * 64 implies #[trigger] bit_at(words@, p) == (
                bit_at(a@, p) != bit_at(b@, p)) by {
                    if p / 64 == k {
                        lemma_word_bit_ops(a@[k as int], b@[k as int], 0, (p % 64) as u64);
                    } else {
                        assert(bit_at(prev, p) == (bit_at(a@, p) != bit_at(b@, p)));
                    }
                }
            }
            k += 1;
        }
        let r = BitString::from_raw_parts(words, len);
        assert(r@ =~= Seq::new(self@.len(), |i: int| self@[i] != rhs@[i]));
        Some(r)
    }

    /// Shifts every bit `amount` positions towards the end, keeping the
    /// length: bit `i` moves to `i + amount`, bits pushed past the end are
    /// lost, and the first `amount` positions become `0`.
    pub fn shl(&self, amount: usize) -> (r: Self)
        ensures
            r@ == Seq::new(self@.len(), |i: int| i >= amount && self@[i - amount]),
    {
        proof {
            use_type_invariant(self);
        }
        let len = self.bit_len();
        let mut words = zero_words(word_len(len));
        if amount < len {
            or_bits_into(&mut words, amount, self.words(), 0, len - amount);
        }
        let r = BitString::from_raw_parts(words, len);
        assert(r@ =~= Seq::new(self@.len(), |i: int| i >= amount && self@[i - amount]));
        r
    }

    /// Shifts every bit `amount` positions towards the start in place,
    /// keeping the length: bit `i + amount` moves to `i`, and the last
    /// `amount` positions become `0`.
    pub fn shr_assign(&mut self, amount: usize)
        ensures
            final(self)@ == Seq::new(
                old(self)@.len(),
                |i: int| i + amount < old(self)@.len() && old(self)@[i + amount],
            ),
    {
        proof {
            use_type_invariant(&*self);
        }
        let len = self.bit_len();
        let mut words = zero_words(word_len(len));
        if amount < len {
            or_bits_into(&mut words, 0, self.words(), amount, len - amount);
        }
        *self = BitString::from_raw_parts(words, len);
        assert(self@ =~= Seq::new(
            old(self)@.len(),
            |i: int| i + amount < old(self)@.len() && old(self)@[i + amount],
        ));
    }
}

} // verus!
