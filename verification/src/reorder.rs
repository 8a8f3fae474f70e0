//! Operations that filter or reorder the bits of a bit string.
use vstd::prelude::*;

use crate::bit_string::BitString;
use crate::words::{
    bit_at, lemma_word_bit_constants, or_bits_into, word_bit, word_len, zero_words, WORD_BITS,
};

verus! {

/// The bits of `s` whose decision in `keep` is `true`, in order.
pub open spec fn select(s: Seq<bool>, keep: Seq<bool>) -> Seq<bool>
    decreases s.len(),
{
    if s.len() == 0 {
        Seq::empty()
    } else {
        let rest = select(s.drop_last(), keep.take(s.len() - 1));
        if keep[s.len() - 1] {
            rest.push(s.last())
        } else {
            rest
        }
    }
}

/// `s` in reverse order: bit `i` moves to position `len - 1 - i`.
pub open spec fn reversed(s: Seq<bool>) -> Seq<bool> {
    Seq::new(s.len(), |i: int| s[s.len() - 1 - i])
}

impl BitString {
    /// Retains only the bits for which `f(bit)` returns `true`.
    ///
    /// Bits are processed in order and written back contiguously, preserving
    /// the relative order of retained bits.  `f` is called once per bit, in
    /// order, and may carry mutable state.
    pub fn retain<F: FnMut(bool) -> bool>(&mut self, f: F)
        requires
            forall|b: bool| call_requires(f, (b,)),
        ensures
            exists|keep: Seq<bool>|
                {
                    &&& keep.len() == old(self)@.len()
                    &&& forall|i: int|
                        0 <= i < keep.len() ==> call_ensures(f, (old(self)@[i],), #[trigger] keep[i])
                    &&& final(self)@ == select(old(self)@, keep)
                },
    {
        proof {
            use_type_invariant(&*self);
        }
        let ghost f0 = f;
        let mut f = f;
        let len = self.bit_len();
        let ghost init = self@;
        let ghost mut keep: Seq<bool> = Seq::empty();
        let mut write: usize = 0;
        let mut read: usize = 0;
        while read < len
            invariant
                self.wf(),
                len == init.len(),
                self@.len() == len,
                write <= read <= len,
                keep.len() == read,
                forall|b: bool| call_requires(f, (b,)),
                f == f0,
                forall|i: int| 0 <= i < read ==> call_ensures(f, (init[i],), #[trigger] keep[i]),
                select(init.take(read as int), keep).len() == write,
                forall|j: int|
                    0 <= j < write ==> #[trigger] self@[j] == select(init.take(read as int), keep)[j],
                forall|j: int| read <= j < len ==> #[trigger] self@[j] == init[j],
            decreases len - read,
        {
            let value = self.read(read);
            let decision = f(value);
            proof {
                assert(init.take(read + 1).drop_last() =~= init.take(read as int));
                assert((keep.push(decision)).take(read as int) =~= keep);
                keep = keep.push(decision);
            }
            if decision {
                self.write(write, value);
                write += 1;
            }
            read += 1;
        }
        self.truncate(write);
        assert(init.take(len as int) =~= init);
        assert(self@ =~= select(init, keep));
        assert(keep.len() == init.len());
        assert(forall|i: int| 0 <= i < keep.len() ==> call_ensures(f, (init[i],), #[trigger] keep[i]));
    }

    /// Returns a new `BitString` with the bits in reverse order.
    ///
    /// Bit at position `i` moves to position `bit_len - 1 - i`.
    pub fn reverse_bits(&self) -> (r: Self)
        requires
            self@.len() + 63 <= usize::MAX,
        ensures
            r@ == reversed(self@),
    {
        proof {
            use_type_invariant(self);
        }
        let len = self.bit_len();
        if len <= 1 {
            let r = self.duplicate();
            assert(r@ =~= reversed(self@));
            return r;
        }
        let src = self.words();
        let n_words = word_len(len);
        let unused = if len % WORD_BITS == 0 {
            0
        } else {
            WORD_BITS - len % WORD_BITS
        };
        // Steps 1 and 2: reverse the bits within each word and the order of
        // the words, so that bit `p` of `words` is bit `64 * n_words - 1 - p`
        // of `src`.
        let mut words: Vec<u64> = Vec::with_capacity(n_words);
        let mut k: usize = 0;
        while k < n_words
            invariant
                n_words == src@.len(),
                k <= n_words,
                words@.len() == k,
                forall|p: int|
                    0 <= p < k * 64 ==> #[trigger] bit_at(words@, p) == bit_at(
                        src@,
                        n_words * 64 - 1 - p,
                    ),
            decreases n_words - k,
        {
            let w = reverse_word(src[n_words - 1 - k]);
            let ghost prev = words@;
            words.push(w);
            proof {
                assert forall|p: int| 0 <= p < (k + 1) * 64 implies #[trigger] bit_at(words@, p)
                    == bit_at(src@, n_words * 64 - 1 - p) by {
                    let q = p / 64;
                    let o = p % 64;
                    assert(p == q * 64 + o);
                    if q < k {
                        assert(words@[q] == prev[q]);
                        assert(bit_at(prev, p) == bit_at(src@, n_words * 64 - 1 - p));
                    } else {
                        assert(words@[q] == w);
                        let m = n_words * 64 - 1 - p;
                        assert(m == (n_words - 1 - k) * 64 + (63 - o));
                        assert(m / 64 == n_words - 1 - k && m % 64 == 63 - o);
                        assert(word_bit(w, o as u64) == word_bit(
                            src@[n_words - 1 - k],
                            (63 - o) as u64,
                        ));
                        assert(bit_at(src@, m) == word_bit(src@[n_words - 1 - k], (63 - o) as u64));
                    }
                }
            }
            k += 1;
        }
        // Step 3: shift right by `unused` to align the bits at position 0.
        let mut out = zero_words(n_words);
        or_bits_into(&mut out, 0, words.as_slice(), unused, len);
        let r = BitString::from_words(out.as_slice(), len).unwrap();
        assert(r@ =~= reversed(self@));
        r
    }

    /// Reverses the bit order in place.
    ///
    /// Bit at position `i` moves to position `bit_len - 1 - i`.
    pub fn reverse_bits_assign(&mut self)
        requires
            old(self)@.len() + 63 <= usize::MAX,
        ensures
            final(self)@ == reversed(old(self)@),
    {
        proof {
            use_type_invariant(&*self);
        }
        *self = self.reverse_bits();
    }
}

/// Setting bit `63 - k` of `r` to bit `k` of `w` changes that bit of `r`
/// only.
proof fn lemma_reverse_step(w: u64, r: u64, k: u64, j: u64)
    by (bit_vector)
    requires
        k < 64,
        j < 64,
    ensures
        word_bit(r | (((w >> k) & 1u64) << ((63 - k) as u64)), j) == (word_bit(r, j) || (j == 63 - k
            && word_bit(w, k))),
{
}

/// The word with the bits of `w` in reverse order: bit `j` of the result is
/// bit `63 - j` of `w`.
fn reverse_word(w: u64) -> (r: u64)
    ensures
        forall|j: u64| j < 64 ==> #[trigger] word_bit(r, j) == word_bit(w, (63 - j) as u64),
{
    let mut r: u64 = 0;
    let mut k: u64 = 0;
    proof {
        assert forall|j: u64| j < 64 implies !#[trigger] word_bit(0u64, j) by {
            lemma_word_bit_constants(j);
        }
    }
    while k < 64
        invariant
            k <= 64,
            forall|j: u64|
                j < 64 ==> #[trigger] word_bit(r, j) == (63 - k < j && word_bit(w, (63 - j) as u64)),
        decreases 64 - k,
    {
        let ghost prev = r;
        r = r | (((w >> k) & 1) << (63 - k));
        proof {
            assert forall|j: u64| j < 64 implies #[trigger] word_bit(r, j) == (63 - (k + 1) < j
                && word_bit(w, (63 - j) as u64)) by {
                lemma_reverse_step(w, prev, k, j);
            }
        }
        k += 1;
    }
    r
}

} // verus!
