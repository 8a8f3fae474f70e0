//! Packing sequences of bits, given as booleans or as `b'0'`/`b'1'` text,
//! into little-endian `u64` words, 64 bits per word.
use vstd::prelude::*;

use crate::text::{bits_from_bytes, is_bit_byte, ONE_BYTE, ZERO_BYTE};
use crate::words::{
    bit_at, packs, lemma_word_bit_constants, lemma_word_bit_update, spec_word_len, word_bit, word_len,
    WORD_BITS,
};

verus! {

/// Appending the word that packs bits `64 * w ..` keeps a partial packing.
proof fn lemma_pack_step(words: Seq<u64>, word: u64, bits: Seq<bool>, w: int, count: int)
    requires
        0 <= w,
        words.len() == w,
        0 < count <= 64,
        w * 64 + count <= bits.len(),
        count == 64 || w * 64 + count == bits.len(),
        forall|i: int| 0 <= i < w * 64 ==> #[trigger] bit_at(words, i) == (i < bits.len() && bits[i]),
        forall|j: int| 0 <= j < 64 ==> #[trigger] word_bit(word, j as u64) == (j < count && bits[w * 64 + j]),
    ensures
        forall|i: int|
            0 <= i < (w + 1) * 64 ==> #[trigger] bit_at(words.push(word), i) == (i < bits.len()
                && bits[i]),
{
    let pushed = words.push(word);
    assert forall|i: int| 0 <= i < (w + 1) * 64 implies #[trigger] bit_at(pushed, i) == (i
        < bits.len() && bits[i]) by {
        let q = i / 64;
        let j = i % 64;
        assert(i == q * 64 + j);
        if i < w * 64 {
            assert(q < w);
            assert(pushed[q] == words[q]);
            assert(bit_at(words, i) == (i < bits.len() && bits[i]));
        } else {
            assert(q == w);
            assert(pushed[q] == word);
            assert(word_bit(word, j as u64) == (j < count && bits[w * 64 + j]));
        }
    }
}

/// Packs `values[start..start + count]` into one word, `values[start + j]`
/// becoming bit `j`.
fn pack_word(values: &[bool], start: usize, count: usize) -> (word: u64)
    requires
        count <= 64,
        start + count <= values@.len(),
    ensures
        forall|j: int| 0 <= j < 64 ==> #[trigger] word_bit(word, j as u64) == (j < count && values@[start + j]),
{
    let total = values.len();
    let mut word: u64 = 0;
    proof {
        assert forall|j: int| 0 <= j < 64 implies !#[trigger] word_bit(0u64, j as u64) by {
            lemma_word_bit_constants(j as u64);
        }
    }
    let mut k: usize = 0;
    while k < count
        invariant
            count <= 64,
            total == values@.len(),
            start + count <= values@.len(),
            k <= count,
            forall|j: int| 0 <= j < k ==> #[trigger] word_bit(word, j as u64) == values@[start + j],
            forall|j: int| k <= j < 64 ==> !#[trigger] word_bit(word, j as u64),
        decreases count - k,
    {
        if values[start + k] {
            let ghost prev = word;
            word = word | (1u64 << (k as u64));
            proof {
                assert forall|j: int| 0 <= j < 64 implies #[trigger] word_bit(word, j as u64) == (j
                    == k || word_bit(prev, j as u64)) by {
                    lemma_word_bit_update(prev, k as u64, j as u64);
                }
            }
        }
        k += 1;
    }
    word
}

/// Packs `values` into little-endian words: value `i` becomes bit `i % 64`
/// of word `i / 64`, and the unused high bits of the last word are clear.
pub(crate) fn bools_core(values: &[bool]) -> (words: Vec<u64>)
    ensures
        packs(words@, values@),
{
    let bit_len = values.len();
    let word_count = word_len(bit_len);
    let mut out = Vec::<u64>::with_capacity(word_count);
    let mut w: usize = 0;
    while w < word_count
        invariant
            bit_len == values@.len(),
            word_count == spec_word_len(bit_len as nat),
            w <= word_count,
            out@.len() == w,
            forall|i: int|
                0 <= i < w * 64 ==> #[trigger] bit_at(out@, i) == (i < bit_len && values@[i]),
        decreases word_count - w,
    {
        let start = w * WORD_BITS;
        let rest = bit_len - start;
        let count = if rest < WORD_BITS {
            rest
        } else {
            WORD_BITS
        };
        let word = pack_word(values, start, count);
        proof {
            lemma_pack_step(out@, word, values@, w as int, count as int);
        }
        out.push(word);
        w += 1;
    }
    out
}

/// Validates a text of `b'0'`/`b'1'` bytes and packs it into little-endian
/// words, 64 bytes per word.
///
/// Returns `Err((index, byte))` for the first byte that is neither.
pub(crate) fn str_core(bytes: &[u8]) -> (r: Result<Vec<u64>, (usize, u8)>)
    ensures
        match r {
            Ok(words) => {
                &&& forall|i: int| 0 <= i < bytes@.len() ==> is_bit_byte(#[trigger] bytes@[i])
                &&& packs(words@, bits_from_bytes(bytes@))
            },
            Err((index, byte)) => {
                &&& index < bytes@.len()
                &&& byte == bytes@[index as int]
                &&& !is_bit_byte(byte)
                &&& forall|j: int| 0 <= j < index ==> is_bit_byte(#[trigger] bytes@[j])
            },
        },
{
    let bit_len = bytes.len();
    let word_count = word_len(bit_len);
    let ghost bits = bits_from_bytes(bytes@);
    let mut out = Vec::<u64>::with_capacity(word_count);
    let mut w: usize = 0;
    while w < word_count
        invariant
            bit_len == bytes@.len(),
            bits == bits_from_bytes(bytes@),
            word_count == spec_word_len(bit_len as nat),
            w <= word_count,
            out@.len() == w,
            forall|j: int| 0 <= j < w * 64 && j < bit_len ==> is_bit_byte(#[trigger] bytes@[j]),
            forall|i: int|
                0 <= i < w * 64 ==> #[trigger] bit_at(out@, i) == (i < bit_len && bits[i]),
        decreases word_count - w,
    {
        let start = w * WORD_BITS;
        let rest = bit_len - start;
        let count = if rest < WORD_BITS {
            rest
        } else {
            WORD_BITS
        };
        let mut word: u64 = 0;
        proof {
            assert forall|j: int| 0 <= j < 64 implies !#[trigger] word_bit(0u64, j as u64) by {
                lemma_word_bit_constants(j as u64);
            }
        }
        let mut k: usize = 0;
        while k < count
            invariant
                bit_len == bytes@.len(),
                bits == bits_from_bytes(bytes@),
                count <= 64,
                start == w * 64,
                start + count <= bit_len,
                k <= count,
                forall|j: int| 0 <= j < start ==> is_bit_byte(#[trigger] bytes@[j]),
                forall|j: int| start <= j < start + k ==> is_bit_byte(#[trigger] bytes@[j]),
                forall|j: int| 0 <= j < k ==> #[trigger] word_bit(word, j as u64) == bits[start + j],
                forall|j: int| k <= j < 64 ==> !#[trigger] word_bit(word, j as u64),
            decreases count - k,
        {
            let byte = bytes[start + k];
            if byte == ONE_BYTE {
                let ghost prev = word;
                word = word | (1u64 << (k as u64));
                proof {
                    assert forall|j: int| 0 <= j < 64 implies #[trigger] word_bit(word, j as u64) == (j
                        == k || word_bit(prev, j as u64)) by {
                        lemma_word_bit_update(prev, k as u64, j as u64);
                    }
                }
            } else if byte != ZERO_BYTE {
                return Err((start + k, byte));
            }
            k += 1;
        }
        proof {
            lemma_pack_step(out@, word, bits, w as int, count as int);
        }
        out.push(word);
        w += 1;
    }
    Ok(out)
}

} // verus!
