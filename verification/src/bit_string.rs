//! The `BitString` type: its storage, its abstract view as a sequence of
//! booleans, and the primitive operations that touch the packed words.
use vstd::prelude::*;

use crate::words::{
    bit_at, bits_of, lemma_word_bit_constants, lemma_word_bit_mask, low_mask, packs, read_bit,
    spec_word_len, word_len, write_bit, WORD_BITS,
};

verus! {

/// A growable string of bits.
///
/// Bits are packed little-endian into `u64` words: bit `i` is bit `i % 64` of
/// word `i / 64`.  The buffer always holds exactly `ceil(bit_len / 64)` words
/// and every bit at or above `bit_len` in the last word is clear.
#[derive(Debug, PartialEq, Eq, Hash)]
pub struct BitString {
    words: Vec<u64>,
    bit_len: usize,
}

impl Clone for BitString {
    /// A copy with its own storage: the same bits in the same words.
    fn clone(&self) -> (r: Self)
        ensures
            r@ == self@,
            r.spec_words() == self.spec_words(),
    {
        proof {
            use_type_invariant(self);
        }
        self.duplicate()
    }
}

impl View for BitString {
    type V = Seq<bool>;

    /// The bits of the string, in order.
    closed spec fn view(&self) -> Seq<bool> {
        bits_of(self.words@, self.bit_len as nat)
    }
}

impl BitString {
    /// Storage invariant: exactly `ceil(bit_len / 64)` words, and every bit
    /// of the buffer at or above `bit_len` is clear.  It holds of every
    /// executable value (a type invariant); proofs about ghost values state it.
    #[verifier::type_invariant]
    pub closed spec fn wf(&self) -> bool {
        &&& self.words@.len() == spec_word_len(self.bit_len as nat)
        &&& forall|i: int|
            self.bit_len <= i < self.words@.len() * 64 ==> !#[trigger] bit_at(self.words@, i)
    }

    /// The packed storage words.
    pub closed spec fn spec_words(&self) -> Seq<u64> {
        self.words@
    }

    /// What a well-formed value's words say about its bits.
    pub proof fn lemma_words_agree(&self)
        requires
            self.wf(),
        ensures
            packs(self.spec_words(), self@),
    {
    }

    /// Creates an empty bit string.
    pub fn new() -> (r: Self)
        ensures
            r@ == Seq::<bool>::empty(),
    {
        let r = BitString { words: Vec::new(), bit_len: 0 };
        assert(r@ =~= Seq::<bool>::empty());
        r
    }

    /// Number of bits.
    pub fn bit_len(&self) -> (n: usize)
        ensures
            n == self@.len(),
    {
        self.bit_len
    }

    /// Number of bits (same as [`bit_len`](Self::bit_len)).
    pub fn len(&self) -> (n: usize)
        ensures
            n == self@.len(),
    {
        self.bit_len
    }

    /// Whether the bit string holds no bits.
    pub fn is_empty(&self) -> (b: bool)
        ensures
            b == (self@.len() == 0),
    {
        self.bit_len == 0
    }

    /// The bit at `index`, or `None` when `index >= self.bit_len()`.
    pub fn get(&self, index: usize) -> (r: Option<bool>)
        ensures
            r == (if index < self@.len() {
                Some(self@[index as int])
            } else {
                None
            }),
    {
        proof {
            use_type_invariant(self);
        }
        if index >= self.bit_len {
            return None;
        }
        Some(read_bit(&self.words, index))
    }

    /// The packed storage words (little-endian bit order).
    pub fn words(&self) -> (w: &[u64])
        ensures
            w@ == self.spec_words(),
            packs(w@, self@),
    {
        proof {
            use_type_invariant(self);
        }
        self.words.as_slice()
    }

    /// The packed storage words (same as [`words`](Self::words)).
    pub fn as_words(&self) -> (w: &[u64])
        ensures
            w@ == self.spec_words(),
            packs(w@, self@),
    {
        proof {
            use_type_invariant(self);
        }
        self.words.as_slice()
    }

    /// A copy of `self` with its own storage.
    pub fn duplicate(&self) -> (r: Self)
        ensures
            r@ == self@,
            r.spec_words() == self.spec_words(),
    {
        proof {
            use_type_invariant(self);
        }
        let words = self.words.clone();
        assert(words@ =~= self.words@);
        BitString { words, bit_len: self.bit_len }
    }

    /// Moves the storage words out, leaving `self` empty.
    pub(crate) fn take_words(&mut self) -> (w: Vec<u64>)
        requires
            old(self).wf(),
        ensures
            final(self)@ == Seq::<bool>::empty(),
            packs(w@, old(self)@),
    {
        let mut taken = BitString::new();
        core::mem::swap(self, &mut taken);
        taken.words
    }

    /// Reserves storage for `additional_bits` more bits.
    pub(crate) fn reserve_bits(&mut self, additional_bits: usize)
        ensures
            final(self).wf() == old(self).wf(),
            final(self)@ == old(self)@,
    {
        proof {
            use_type_invariant(&*self);
        }
        if let Some(total_bits) = self.bit_len.checked_add(additional_bits) {
            let n = self.bit_len;
            let ghost init = self@;
            let mut words = self.take_words();
            let additional_words = word_len(total_bits).saturating_sub(words.len());
            words.reserve(additional_words);
            *self = BitString::from_raw_parts(words, n);
            assert(self@ =~= init);
        }
    }

    /// Appends one bit at the end.
    pub fn push(&mut self, value: bool)
        requires
            old(self)@.len() < usize::MAX,
        ensures
            final(self)@ == old(self)@.push(value),
    {
        proof {
            use_type_invariant(&*self);
        }
        let n = self.bit_len;
        let ghost init = self@;
        let mut words = self.take_words();
        let ghost old_words = words@;
        if n % WORD_BITS == 0 {
            words.push(0);
            proof {
                assert forall|j: int|
                    0 <= j < words@.len() * 64 implies #[trigger] bit_at(words@, j) == (if j
                    < old_words.len() * 64 {
                    bit_at(old_words, j)
                } else {
                    false
                }) by {
                    if j >= old_words.len() * 64 {
                        lemma_word_bit_constants((j % 64) as u64);
                    } else {
                        assert(words@[j / 64] == old_words[j / 64]);
                    }
                }
            }
        }
        let ghost mid_words = words@;
        if value {
            write_bit(&mut words, n, true);
        }
        proof {
            assert forall|j: int|
                0 <= j < words@.len() * 64 implies #[trigger] bit_at(words@, j) == (if j < n {
                bit_at(old_words, j)
            } else if j == n {
                value
            } else {
                false
            }) by {
                assert(bit_at(words@, j) == (if j == n {
                    value
                } else {
                    bit_at(mid_words, j)
                }));
            }
        }
        *self = BitString::from_raw_parts(words, n + 1);
        assert(self@ =~= init.push(value));
    }

    /// Removes and returns the last bit, or `None` when empty.
    pub fn pop(&mut self) -> (r: Option<bool>)
        ensures
            old(self)@.len() == 0 ==> r == None::<bool> && final(self)@ == old(self)@,
            old(self)@.len() > 0 ==> r == Some(old(self)@.last()) && final(self)@ == old(self)@.drop_last(),
    {
        proof {
            use_type_invariant(&*self);
        }
        if self.bit_len == 0 {
            return None;
        }
        let index = self.bit_len - 1;
        let ghost init = self@;
        let mut words = self.take_words();
        let value = read_bit(&words, index);
        let ghost old_words = words@;
        write_bit(&mut words, index, false);
        let count = word_len(index);
        let ghost mid_words = words@;
        let shrink = count < words.len();
        if shrink {
            truncate_vec(&mut words, count);
        } else {
            mask_unused_bits(&mut words, index);
        }
        proof {
            assert forall|j: int|
                0 <= j < words@.len() * 64 implies #[trigger] bit_at(words@, j) == (if j < index {
                bit_at(old_words, j)
            } else {
                false
            }) by {
                assert(bit_at(mid_words, j) == (if j == index {
                    false
                } else {
                    bit_at(old_words, j)
                }));
                if shrink {
                    assert(words@[j / 64] == mid_words[j / 64]);
                }
            }
        }
        *self = BitString::from_raw_parts(words, index);
        assert(self@ =~= init.drop_last());
        Some(value)
    }

    /// The bit at `index`, which must be in bounds.
    pub(crate) fn read(&self, index: usize) -> (b: bool)
        requires
            self.wf(),
            index < self@.len(),
        ensures
            b == self@[index as int],
    {
        read_bit(&self.words, index)
    }

    /// Overwrites the in-bounds bit at `index` with `value`.
    pub(crate) fn write(&mut self, index: usize, value: bool)
        requires
            old(self).wf(),
            index < old(self)@.len(),
        ensures
            final(self).wf(),
            final(self)@ == old(self)@.update(index as int, value),
    {
        let n = self.bit_len;
        let mut words = self.take_words();
        write_bit(&mut words, index, value);
        *self = BitString::from_raw_parts(words, n);
        proof {
            assert(self@ =~= old(self)@.update(index as int, value));
        }
    }

    /// Sets the bit at `index` to `value`, returning the previous bit.
    ///
    /// Returns `None` (without modifying `self`) when `index >= self.bit_len()`.
    pub fn set(&mut self, index: usize, value: bool) -> (r: Option<bool>)
        ensures
            index < old(self)@.len() ==> r == Some(old(self)@[index as int]) && final(self)@
                == old(self)@.update(index as int, value),
            index >= old(self)@.len() ==> r == None::<bool> && final(self)@ == old(self)@,
    {
        proof {
            use_type_invariant(&*self);
        }
        if index >= self.bit_len {
            return None;
        }
        let old_value = self.read(index);
        self.write(index, value);
        Some(old_value)
    }

    /// Truncates `self` to `len` bits, discarding the tail.
    ///
    /// `len` is clamped to `self.bit_len()` — a larger value is a no-op.
    pub fn truncate(&mut self, len: usize)
        ensures
            len >= old(self)@.len() ==> final(self)@ == old(self)@,
            len < old(self)@.len() ==> final(self)@ == old(self)@.take(len as int),
    {
        proof {
            use_type_invariant(&*self);
        }
        let len = if len < self.bit_len {
            len
        } else {
            self.bit_len
        };
        if len == self.bit_len {
            return;
        }
        let ghost init = self@;
        let mut words = self.take_words();
        let ghost old_words = words@;
        let count = word_len(len);
        if count < words.len() {
            truncate_vec(&mut words, count);
        }
        let ghost mid_words = words@;
        mask_unused_bits(&mut words, len);
        proof {
            assert forall|j: int| 0 <= j < len implies #[trigger] bit_at(words@, j) == bit_at(
                old_words,
                j,
            ) by {
                assert(mid_words[j / 64] == old_words[j / 64]);
                assert(bit_at(mid_words, j) == bit_at(old_words, j));
            }
        }
        *self = BitString::from_raw_parts(words, len);
        assert(self@ =~= init.take(len as int));
    }

    /// Clears all bits, resetting `self` to an empty bit string.
    pub fn clear(&mut self)
        ensures
            final(self)@ == Seq::<bool>::empty(),
    {
        proof {
            use_type_invariant(&*self);
        }
        let mut words = self.take_words();
        truncate_vec(&mut words, 0);
        *self = BitString::from_raw_parts(words, 0);
        assert(self@ =~= Seq::<bool>::empty());
    }
}

impl BitString {
    /// Adopts a buffer that already has exactly `ceil(bit_len / 64)` words
    /// with every bit at or above `bit_len` clear.
    pub(crate) fn from_raw_parts(words: Vec<u64>, bit_len: usize) -> (r: Self)
        requires
            words@.len() == spec_word_len(bit_len as nat),
            forall|i: int| bit_len <= i < words@.len() * 64 ==> !#[trigger] bit_at(words@, i),
        ensures
            r.wf(),
            r@ == bits_of(words@, bit_len as nat),
    {
        BitString { words, bit_len }
    }

    /// Constructs a bit string from packed little-endian words.
    ///
    /// The input must contain exactly enough words for `len`.
    /// Unused high bits in the last word are masked out.
    pub fn from_words(words: &[u64], len: usize) -> (r: Option<Self>)
        ensures
            r is Some <==> words@.len() == spec_word_len(len as nat),
            r matches Some(b) ==> b@ == bits_of(words@, len as nat),
    {
        let word_count = word_len(len);
        if words.len() != word_count {
            return None;
        }
        let owned = vstd::slice::slice_to_vec(words);
        BitString::from_owned_words(owned, len)
    }

    /// Constructs a bit string by taking ownership of packed little-endian
    /// words.
    ///
    /// The input must contain exactly enough words for `len`. Unused high bits
    /// in the last word are masked out before the vector is adopted.
    pub(crate) fn from_owned_words(words: Vec<u64>, len: usize) -> (r: Option<Self>)
        ensures
            r is Some <==> words@.len() == spec_word_len(len as nat),
            r matches Some(b) ==> b.wf() && b@ == bits_of(words@, len as nat),
    {
        let mut words = words;
        if words.len() != word_len(len) {
            return None;
        }
        let ghost old_words = words@;
        mask_unused_bits(&mut words, len);
        let r = BitString { words, bit_len: len };
        assert(r@ =~= bits_of(old_words, len as nat));
        Some(r)
    }

    /// A bit string of `bit_len` copies of `value`.
    pub fn repeat(value: bool, bit_len: usize) -> (r: Self)
        ensures
            r@ == Seq::new(bit_len as nat, |i: int| value),
    {
        let word_count = word_len(bit_len);
        let fill = if value {
            u64::MAX
        } else {
            0
        };
        let mut out = Vec::<u64>::with_capacity(word_count);
        out.resize(word_count, fill);
        proof {
            lemma_filled_bits(out@, fill, value);
        }
        mask_unused_bits(&mut out, bit_len);
        let r = BitString { words: out, bit_len };
        assert(r@ =~= Seq::new(bit_len as nat, |i: int| value));
        r
    }

    /// A bit string of `bit_len` zero bits.
    pub fn zeros(bit_len: usize) -> (r: Self)
        ensures
            r@ == Seq::new(bit_len as nat, |i: int| false),
    {
        let word_count = word_len(bit_len);
        // An all-clear buffer needs no masking.
        let mut out = Vec::<u64>::with_capacity(word_count);
        out.resize(word_count, 0);
        proof {
            lemma_filled_bits(out@, 0, false);
        }
        let r = BitString { words: out, bit_len };
        assert(r@ =~= Seq::new(bit_len as nat, |i: int| false));
        r
    }

    /// A bit string of `bit_len` one bits.
    pub fn ones(bit_len: usize) -> (r: Self)
        ensures
            r@ == Seq::new(bit_len as nat, |i: int| true),
    {
        let word_count = word_len(bit_len);
        let mut out = Vec::<u64>::with_capacity(word_count);
        out.resize(word_count, u64::MAX);
        proof {
            lemma_filled_bits(out@, u64::MAX, true);
        }
        mask_unused_bits(&mut out, bit_len);
        let r = BitString { words: out, bit_len };
        assert(r@ =~= Seq::new(bit_len as nat, |i: int| true));
        r
    }
}

/// Every bit of a buffer filled with the all-clear (all-set) word is clear
/// (set).
proof fn lemma_filled_bits(words: Seq<u64>, fill: u64, value: bool)
    requires
        fill == (if value {
            u64::MAX
        } else {
            0u64
        }),
        forall|k: int| 0 <= k < words.len() ==> #[trigger] words[k] == fill,
    ensures
        forall|j: int| 0 <= j < words.len() * 64 ==> #[trigger] bit_at(words, j) == value,
{
    assert forall|j: int| 0 <= j < words.len() * 64 implies #[trigger] bit_at(words, j) == value by {
        lemma_word_bit_constants((j % 64) as u64);
        assert(words[j / 64] == fill);
    }
}

/// Truncates a buffer to `count` words, giving memory back when the
/// allocation is more than twice what remains.
fn truncate_vec(words: &mut Vec<u64>, count: usize)
    requires
        count <= old(words)@.len(),
    ensures
        final(words)@ == old(words)@.subrange(0, count as int),
{
    words.truncate(count);
    let cap = vec_capacity(words);
    if count <= usize::MAX / 2 && cap > count * 2 {
        vec_shrink_to(words, count);
    }
}

/// Clears every bit at or above `bit_len` in a buffer of exactly
/// `ceil(bit_len / 64)` words.
pub(crate) fn mask_unused_bits(words: &mut Vec<u64>, bit_len: usize)
    requires
        old(words)@.len() == spec_word_len(bit_len as nat),
    ensures
        final(words)@.len() == old(words)@.len(),
        forall|j: int|
            0 <= j < final(words)@.len() * 64 ==> #[trigger] bit_at(final(words)@, j) == (j
                < bit_len && bit_at(old(words)@, j)),
{
    let r = bit_len % WORD_BITS;
    if r != 0 {
        let last = words.len() - 1;
        let w = words[last] & low_mask(r);
        let ghost old_words = words@;
        words.set(last, w);
        proof {
            assert forall|j: int| 0 <= j < words@.len() * 64 implies #[trigger] bit_at(words@, j) == (
            j < bit_len && bit_at(old_words, j)) by {
                if j / 64 == last {
                    lemma_word_bit_mask(old_words[last as int], r as u64, (j % 64) as u64);
                }
            }
        }
    }
}

/// The capacity of a vector's allocation.
///
/// Calls `Vec::capacity`; nothing is stated of the result, which depends on
/// the allocator.
#[verifier::external_body]
pub(crate) fn vec_capacity(v: &Vec<u64>) -> usize {
    v.capacity()
}

/// Shrinks a vector's allocation towards `min_capacity`.
///
/// Calls `Vec::shrink_to`, which by its documentation changes the capacity
/// only, never the contents.
#[verifier::external_body]
fn vec_shrink_to(v: &mut Vec<u64>, min_capacity: usize)
    ensures
        final(v)@ == old(v)@,
{
    v.shrink_to(min_capacity)
}

} // verus!
