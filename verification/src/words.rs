//! Word-level storage model: bits packed little-endian into `u64` words.
//!
//! Bit `i` of a packed buffer lives in word `i / 64` at offset `i % 64`.
use vstd::prelude::*;

verus! {

/// Number of bits held by one storage word.
pub const WORD_BITS: usize = 64;

/// Bit `j` (counted from the least significant end) of the word `w`.
pub open spec fn word_bit(w: u64, j: u64) -> bool {
    (w >> j) & 1u64 == 1u64
}

/// Bit `i` of a packed buffer of words.
pub open spec fn bit_at(words: Seq<u64>, i: int) -> bool {
    word_bit(words[i / 64], (i % 64) as u64)
}

/// The bits `0..len` of a packed buffer, as a sequence.
pub open spec fn bits_of(words: Seq<u64>, len: nat) -> Seq<bool> {
    Seq::new(len, |i: int| bit_at(words, i))
}

/// Number of words needed to hold `n` bits.
pub open spec fn spec_word_len(n: nat) -> nat {
    (n + 63) / 64
}

/// The word whose low `r` bits are set and whose other bits are clear.
pub open spec fn low_mask_spec(r: u64) -> u64 {
    if r >= 64 {
        u64::MAX
    } else if r == 0 {
        0u64
    } else {
        u64::MAX >> ((64 - r) as u64)
    }
}

/// `words` is the packed form of `bits`: exactly `ceil(len / 64)` words, bit
/// `i` of the buffer equal to `bits[i]`, and every bit past the end clear.
pub open spec fn packs(words: Seq<u64>, bits: Seq<bool>) -> bool {
    &&& words.len() == spec_word_len(bits.len())
    &&& forall|i: int|
        0 <= i < words.len() * 64 ==> #[trigger] bit_at(words, i) == (i < bits.len() && bits[i])
}

/// Number of words needed to hold `bit_len` bits: `ceil(bit_len / 64)`.
pub fn word_len(bit_len: usize) -> (n: usize)
    ensures
        n == spec_word_len(bit_len as nat),
{
    if bit_len == 0 {
        0
    } else {
        (bit_len - 1) / WORD_BITS + 1
    }
}

/// The word whose low `bits` bits are set (all bits when `bits >= 64`).
pub fn low_mask(bits: usize) -> (m: u64)
    ensures
        m == low_mask_spec(bits as u64),
{
    if bits >= WORD_BITS {
        u64::MAX
    } else if bits == 0 {
        0
    } else {
        u64::MAX >> ((64 - bits) as u64)
    }
}

/// Setting and clearing one bit of a word leaves the other bits alone.
pub proof fn lemma_word_bit_update(w: u64, k: u64, j: u64)
    by (bit_vector)
    requires
        k < 64,
        j < 64,
    ensures
        word_bit(w | (1u64 << k), j) == (j == k || word_bit(w, j)),
        word_bit(w & !(1u64 << k), j) == (j != k && word_bit(w, j)),
{
}

/// The all-clear word has no bit set; the all-set word has every bit set.
pub proof fn lemma_word_bit_constants(j: u64)
    by (bit_vector)
    requires
        j < 64,
    ensures
        !word_bit(0u64, j),
        word_bit(u64::MAX, j),
{
}

/// Masking with `low_mask_spec(r)` keeps exactly the bits below `r`.
pub proof fn lemma_word_bit_mask(w: u64, r: u64, j: u64)
    by (bit_vector)
    requires
        j < 64,
    ensures
        word_bit(w & low_mask_spec(r), j) == (j < r && word_bit(w, j)),
{
}


/// Bit `j` of `low_mask_spec(r)` is set exactly when `j < r`.
pub proof fn lemma_low_mask_bit(r: u64, j: u64)
    by (bit_vector)
    requires
        j < 64,
    ensures
        word_bit(low_mask_spec(r), j) == (j < r),
{
}

/// Replacing the word that holds bit `i` by a copy with that bit updated
/// changes bit `i` and no other bit of the buffer.
pub proof fn lemma_bit_at_update(words: Seq<u64>, i: int, v: bool, w: u64)
    requires
        0 <= i < words.len() * 64,
        w == (if v {
            words[i / 64] | (1u64 << ((i % 64) as u64))
        } else {
            words[i / 64] & !(1u64 << ((i % 64) as u64))
        }),
    ensures
        words.update(i / 64, w).len() == words.len(),
        forall|j: int|
            0 <= j < words.len() * 64 ==> #[trigger] bit_at(words.update(i / 64, w), j) == (if j
                == i {
                v
            } else {
                bit_at(words, j)
            }),
{
    let nw = words.update(i / 64, w);
    assert forall|j: int| 0 <= j < words.len() * 64 implies #[trigger] bit_at(nw, j) == (if j == i {
        v
    } else {
        bit_at(words, j)
    }) by {
        if j / 64 == i / 64 {
            lemma_word_bit_update(words[i / 64], (i % 64) as u64, (j % 64) as u64);
        }
    }
}

/// Reads bit `i` of a packed buffer.
pub fn read_bit(words: &Vec<u64>, i: usize) -> (b: bool)
    requires
        i < words@.len() * 64,
    ensures
        b == bit_at(words@, i as int),
{
    (words[i / WORD_BITS] >> ((i % WORD_BITS) as u64)) & 1 == 1
}

/// Writes bit `i` of a packed buffer, leaving every other bit unchanged.
pub fn write_bit(words: &mut Vec<u64>, i: usize, v: bool)
    requires
        i < old(words)@.len() * 64,
    ensures
        final(words)@.len() == old(words)@.len(),
        forall|j: int|
            0 <= j < old(words)@.len() * 64 ==> #[trigger] bit_at(final(words)@, j) == (if j
                == i as int {
                v
            } else {
                bit_at(old(words)@, j)
            }),
{
    let q = i / WORD_BITS;
    let mask = 1u64 << ((i % WORD_BITS) as u64);
    let w = if v {
        words[q] | mask
    } else {
        words[q] & !mask
    };
    proof {
        lemma_bit_at_update(words@, i as int, v, w);
    }
    words.set(q, w);
}

/// How shifting, or-ing, and-ing and complementing act on single bits.
pub proof fn lemma_word_bit_ops(a: u64, b: u64, s: u64, j: u64)
    by (bit_vector)
    requires
        s < 64,
        j < 64,
    ensures
        word_bit(a >> s, j) == (j + s < 64 && word_bit(a, (j + s) as u64)),
        word_bit(a << s, j) == (j >= s && word_bit(a, (j - s) as u64)),
        word_bit(a | b, j) == (word_bit(a, j) || word_bit(b, j)),
        word_bit(a & b, j) == (word_bit(a, j) && word_bit(b, j)),
        word_bit(!a, j) == !word_bit(a, j),
        word_bit(a ^ b, j) == (word_bit(a, j) != word_bit(b, j)),
{
}

/// A buffer of `n` all-clear words.
pub fn zero_words(n: usize) -> (words: Vec<u64>)
    ensures
        words@.len() == n,
        forall|i: int| 0 <= i < n * 64 ==> !#[trigger] bit_at(words@, i),
{
    let mut words = Vec::with_capacity(n);
    words.resize(n, 0u64);
    proof {
        assert forall|i: int| 0 <= i < n * 64 implies !#[trigger] bit_at(words@, i) by {
            assert(words@[i / 64] == 0u64);
            lemma_word_bit_constants((i % 64) as u64);
        }
    }
    words
}

/// The `take` bits of `src` from position `pos`, bit `pos + j` becoming bit
/// `j` of the result; the result's bits from `take` on are clear.
pub fn read_chunk(src: &[u64], pos: usize, take: usize) -> (chunk: u64)
    requires
        take <= 64,
        pos + take <= src@.len() * 64,
    ensures
        forall|j: int|
            0 <= j < 64 ==> #[trigger] word_bit(chunk, j as u64) == (j < take && bit_at(
                src@,
                pos + j,
            )),
{
    if take == 0 {
        proof {
            assert forall|j: int| 0 <= j < 64 implies !#[trigger] word_bit(0u64, j as u64) by {
                lemma_word_bit_constants(j as u64);
            }
        }
        return 0;
    }
    let q = pos / WORD_BITS;
    let o = pos % WORD_BITS;
    let lo = src[q] >> (o as u64);
    let w = if o != 0 && q + 1 < src.len() {
        lo | (src[q + 1] << ((WORD_BITS - o) as u64))
    } else {
        lo
    };
    let mask = low_mask(take);
    let chunk = w & mask;
    proof {
        assert forall|j: int| 0 <= j < 64 implies #[trigger] word_bit(chunk, j as u64) == (j < take
            && bit_at(src@, pos + j)) by {
            let ju = j as u64;
            lemma_word_bit_mask(w, take as u64, ju);
            lemma_word_bit_ops(src@[q as int], 0, o as u64, ju);
            if o != 0 && q + 1 < src.len() {
                lemma_word_bit_ops(lo, src@[q + 1] << ((64 - o) as u64), 0, ju);
                lemma_word_bit_ops(src@[q + 1], 0, (64 - o) as u64, ju);
            }
            if j < take {
                let i = pos + j;
                assert(i == q * 64 + o + j);
                if j + o < 64 {
                    assert(i / 64 == q && i % 64 == o + j);
                } else {
                    assert(i / 64 == q + 1 && i % 64 == j + o - 64);
                }
            }
        }
    }
    chunk
}

/// Sets, in `dst`, every bit `pos + j` for which bit `j < take` of `chunk`
/// is set; the other bits of `dst` are unchanged.
pub fn or_chunk(dst: &mut Vec<u64>, pos: usize, chunk: u64, take: usize)
    requires
        take <= 64,
        pos + take <= old(dst)@.len() * 64,
        forall|j: int| take <= j < 64 ==> !#[trigger] word_bit(chunk, j as u64),
    ensures
        final(dst)@.len() == old(dst)@.len(),
        forall|i: int|
            0 <= i < old(dst)@.len() * 64 ==> #[trigger] bit_at(final(dst)@, i) == (bit_at(
                old(dst)@,
                i,
            ) || (pos <= i < pos + take && word_bit(chunk, (i - pos) as u64))),
{
    if take == 0 {
        return;
    }
    let ghost old_words = dst@;
    let q = pos / WORD_BITS;
    let o = pos % WORD_BITS;
    let low_part = chunk << (o as u64);
    let w0 = dst[q] | low_part;
    dst.set(q, w0);
    let spill = o != 0 && o + take > WORD_BITS;
    if spill {
        let high_part = chunk >> ((WORD_BITS - o) as u64);
        let w1 = dst[q + 1] | high_part;
        dst.set(q + 1, w1);
    }
    proof {
        assert forall|i: int| 0 <= i < old_words.len() * 64 implies #[trigger] bit_at(dst@, i) == (
        bit_at(old_words, i) || (pos <= i < pos + take && word_bit(chunk, (i - pos) as u64))) by {
            let k = i % 64;
            let ku = k as u64;
            assert(i == (i / 64) * 64 + k);
            assert(pos == q * 64 + o);
            if i / 64 == q {
                lemma_word_bit_ops(old_words[q as int], low_part, 0, ku);
                lemma_word_bit_ops(chunk, 0, o as u64, ku);
                if k >= o {
                    assert(i - pos == k - o);
                }
            } else if spill && i / 64 == q + 1 {
                lemma_word_bit_ops(old_words[q + 1], chunk >> ((64 - o) as u64), 0, ku);
                lemma_word_bit_ops(chunk, 0, (64 - o) as u64, ku);
                assert(i - pos == k + 64 - o);
            } else if i / 64 == q + 1 {
                assert(i - pos >= 64 - o);
                assert(!(pos <= i < pos + take) || !word_bit(chunk, (i - pos) as u64));
            }
        }
    }
}

/// Clears, in `dst`, the bits `pos .. pos + take` (at most one word's
/// worth); the other bits of `dst` are unchanged.
pub fn clear_chunk(dst: &mut Vec<u64>, pos: usize, take: usize)
    requires
        take <= 64,
        pos + take <= old(dst)@.len() * 64,
    ensures
        final(dst)@.len() == old(dst)@.len(),
        forall|i: int|
            0 <= i < old(dst)@.len() * 64 ==> #[trigger] bit_at(final(dst)@, i) == (bit_at(
                old(dst)@,
                i,
            ) && !(pos <= i < pos + take)),
{
    if take == 0 {
        return;
    }
    let ghost old_words = dst@;
    let q = pos / WORD_BITS;
    let o = pos % WORD_BITS;
    let mask = low_mask(take);
    let low_part = mask << (o as u64);
    let w0 = dst[q] & !low_part;
    dst.set(q, w0);
    let spill = o != 0 && o + take > WORD_BITS;
    if spill {
        let high_part = mask >> ((WORD_BITS - o) as u64);
        let w1 = dst[q + 1] & !high_part;
        dst.set(q + 1, w1);
    }
    proof {
        assert forall|i: int| 0 <= i < old_words.len() * 64 implies #[trigger] bit_at(dst@, i) == (
        bit_at(old_words, i) && !(pos <= i < pos + take)) by {
            let k = i % 64;
            let ku = k as u64;
            assert(i == (i / 64) * 64 + k);
            assert(pos == q * 64 + o);
            if i / 64 == q {
                lemma_word_bit_ops(old_words[q as int], !low_part, 0, ku);
                lemma_word_bit_ops(low_part, 0, 0, ku);
                lemma_word_bit_ops(mask, 0, o as u64, ku);
                if k >= o {
                    lemma_low_mask_bit(take as u64, (k - o) as u64);
                }
            } else if spill && i / 64 == q + 1 {
                let high_part = mask >> ((64 - o) as u64);
                lemma_word_bit_ops(old_words[q + 1], !high_part, 0, ku);
                lemma_word_bit_ops(high_part, 0, 0, ku);
                lemma_word_bit_ops(mask, 0, (64 - o) as u64, ku);
                if k + 64 - o < 64 {
                    lemma_low_mask_bit(take as u64, (k + 64 - o) as u64);
                }
                assert(i - pos == k + 64 - o);
            } else if i / 64 == q + 1 {
                assert(i - pos >= 64 - o);
            }
        }
    }
}

/// ORs `src[src_start .. src_start + len]` into `dst` at `dst_start`; the
/// other bits of `dst` are unchanged.
pub fn or_bits_into(dst: &mut Vec<u64>, dst_start: usize, src: &[u64], src_start: usize, len: usize)
    requires
        dst_start + len <= old(dst)@.len() * 64,
        src_start + len <= src@.len() * 64,
        dst_start + len <= usize::MAX,
        src_start + len <= usize::MAX,
    ensures
        final(dst)@.len() == old(dst)@.len(),
        forall|i: int|
            0 <= i < old(dst)@.len() * 64 ==> #[trigger] bit_at(final(dst)@, i) == (bit_at(
                old(dst)@,
                i,
            ) || (dst_start <= i < dst_start + len && bit_at(src@, src_start + (i - dst_start)))),
{
    let ghost init = dst@;
    let mut off: usize = 0;
    while off < len
        invariant
            dst_start + len <= init.len() * 64,
            src_start + len <= src@.len() * 64,
            dst_start + len <= usize::MAX,
            src_start + len <= usize::MAX,
            off <= len,
            dst@.len() == init.len(),
            forall|i: int|
                0 <= i < init.len() * 64 ==> #[trigger] bit_at(dst@, i) == (bit_at(init, i) || (
                dst_start <= i < dst_start + off && bit_at(src@, src_start + (i - dst_start)))),
        decreases len - off,
    {
        let rest = len - off;
        let take = if rest < WORD_BITS {
            rest
        } else {
            WORD_BITS
        };
        let chunk = read_chunk(src, src_start + off, take);
        let ghost before = dst@;
        or_chunk(dst, dst_start + off, chunk, take);
        proof {
            assert forall|i: int| 0 <= i < init.len() * 64 implies #[trigger] bit_at(dst@, i) == (
            bit_at(init, i) || (dst_start <= i < dst_start + off + take && bit_at(
                src@,
                src_start + (i - dst_start),
            ))) by {
                assert(bit_at(dst@, i) == (bit_at(before, i) || (dst_start + off <= i < dst_start
                    + off + take && word_bit(chunk, (i - (dst_start + off)) as u64))));
                if dst_start + off <= i < dst_start + off + take {
                    let j = i - (dst_start + off);
                    assert(word_bit(chunk, j as u64) == (j < take && bit_at(
                        src@,
                        src_start + off + j,
                    )));
                }
            }
        }
        off += take;
    }
}

/// Clears, in `words`, the bits `start .. start + len`; the other bits are
/// unchanged.
pub fn clear_bits_at(words: &mut Vec<u64>, start: usize, len: usize)
    requires
        start + len <= old(words)@.len() * 64,
        start + len <= usize::MAX,
    ensures
        final(words)@.len() == old(words)@.len(),
        forall|i: int|
            0 <= i < old(words)@.len() * 64 ==> #[trigger] bit_at(final(words)@, i) == (bit_at(
                old(words)@,
                i,
            ) && !(start <= i < start + len)),
{
    let ghost init = words@;
    let end = start + len;
    let mut k: usize = start;
    while k < end
        invariant
            end == start + len,
            end <= init.len() * 64,
            start <= k <= end,
            words@.len() == init.len(),
            forall|i: int|
                0 <= i < init.len() * 64 ==> #[trigger] bit_at(words@, i) == (bit_at(init, i) && !(
                start <= i < k)),
        decreases end - k,
    {
        let rest = end - k;
        let take = if rest < WORD_BITS {
            rest
        } else {
            WORD_BITS
        };
        clear_chunk(words, k, take);
        k += take;
    }
}

/// Grows a buffer to `n` words with all-clear words.
pub fn grow_words(words: &mut Vec<u64>, n: usize)
    requires
        old(words)@.len() <= n,
    ensures
        final(words)@.len() == n,
        forall|i: int|
            0 <= i < n * 64 ==> #[trigger] bit_at(final(words)@, i) == (i < old(words)@.len() * 64
                && bit_at(old(words)@, i)),
{
    let ghost init = words@;
    words.resize(n, 0u64);
    proof {
        assert forall|i: int| 0 <= i < n * 64 implies #[trigger] bit_at(words@, i) == (i < init.len()
            * 64 && bit_at(init, i)) by {
            if i >= init.len() * 64 {
                assert(words@[i / 64] == 0u64);
                lemma_word_bit_constants((i % 64) as u64);
            } else {
                assert(words@[i / 64] == init[i / 64]);
            }
        }
    }
}

/// Single-bit facts about shifting right, used to rebuild a word from its
/// bits.
proof fn lemma_word_shift_step(a: u64, k: u64)
    by (bit_vector)
    requires
        k < 64,
    ensures
        a >> 0u64 == a,
        (a >> k) & 1u64 == 0u64 || (a >> k) & 1u64 == 1u64,
        k < 63 ==> a >> k == ((a >> ((k + 1) as u64)) << 1u64) | ((a >> k) & 1u64),
        k == 63 ==> a >> k == (a >> k) & 1u64,
{
}

/// Two words that agree on bits `k..64` agree after shifting right by `k`.
proof fn lemma_word_high_bits_eq(a: u64, b: u64, k: u64)
    requires
        k < 64,
        forall|j: u64| k <= j < 64 ==> #[trigger] word_bit(a, j) == word_bit(b, j),
    ensures
        a >> k == b >> k,
    decreases 64 - k,
{
    lemma_word_shift_step(a, k);
    lemma_word_shift_step(b, k);
    assert(word_bit(a, k) == word_bit(b, k));
    if k < 63 {
        lemma_word_high_bits_eq(a, b, (k + 1) as u64);
    }
}

/// A word is determined by its 64 bits.
pub proof fn lemma_word_ext(a: u64, b: u64)
    requires
        forall|j: u64| j < 64 ==> #[trigger] word_bit(a, j) == word_bit(b, j),
    ensures
        a == b,
{
    lemma_word_high_bits_eq(a, b, 0);
    lemma_word_shift_step(a, 0);
    lemma_word_shift_step(b, 0);
}

/// A sequence of bits has exactly one packed form.
pub proof fn lemma_packs_unique(w1: Seq<u64>, w2: Seq<u64>, bits: Seq<bool>)
    requires
        packs(w1, bits),
        packs(w2, bits),
    ensures
        w1 == w2,
{
    assert forall|q: int| 0 <= q < w1.len() implies #[trigger] w1[q] == w2[q] by {
        assert forall|j: u64| j < 64 implies #[trigger] word_bit(w1[q], j) == word_bit(w2[q], j) by {
            let i = q * 64 + j;
            assert(i / 64 == q && i % 64 == j);
            assert(bit_at(w1, i) == bit_at(w2, i));
        }
        lemma_word_ext(w1[q], w2[q]);
    }
    assert(w1 =~= w2);
}

/// Moves the `tail_len` bits at `index` right by `shift` positions within
/// the buffer, a word at a time and from the back, so that no unread bit is
/// overwritten.  Bits outside the destination are unchanged.
pub fn shift_tail_right(words: &mut Vec<u64>, index: usize, tail_len: usize, shift: usize)
    requires
        index + shift + tail_len <= old(words)@.len() * 64,
        index + shift + tail_len <= usize::MAX,
    ensures
        final(words)@.len() == old(words)@.len(),
        forall|p: int|
            0 <= p < old(words)@.len() * 64 ==> #[trigger] bit_at(final(words)@, p) == (if index
                + shift <= p < index + shift + tail_len {
                bit_at(old(words)@, p - shift)
            } else {
                bit_at(old(words)@, p)
            }),
{
    let ghost init = words@;
    let mut offset = tail_len;
    while offset > 0
        invariant
            index + shift + tail_len <= init.len() * 64,
            index + shift + tail_len <= usize::MAX,
            offset <= tail_len,
            words@.len() == init.len(),
            forall|p: int|
                0 <= p < init.len() * 64 ==> #[trigger] bit_at(words@, p) == (if index + shift
                    + offset <= p < index + shift + tail_len {
                    bit_at(init, p - shift)
                } else {
                    bit_at(init, p)
                }),
        decreases offset,
    {
        let step = if offset < WORD_BITS {
            offset
        } else {
            WORD_BITS
        };
        let ghost prev_offset = offset;
        offset -= step;
        let take = step;
        let ghost before = words@;
        let chunk = read_chunk(words.as_slice(), index + offset, take);
        clear_bits_at(words, index + shift + offset, take);
        let ghost cleared = words@;
        proof {
            assert forall|j: int| take <= j < 64 implies !#[trigger] word_bit(chunk, j as u64) by {}
        }
        or_chunk(words, index + shift + offset, chunk, take);
        proof {
            assert forall|p: int| 0 <= p < init.len() * 64 implies #[trigger] bit_at(words@, p) == (
            if index + shift + offset <= p < index + shift + tail_len {
                bit_at(init, p - shift)
            } else {
                bit_at(init, p)
            }) by {
                let lo = index + shift + offset;
                assert(bit_at(cleared, p) == (bit_at(before, p) && !(lo <= p < lo + take)));
                if lo <= p < lo + take {
                    let j = p - lo;
                    assert(word_bit(chunk, j as u64) == (j < take && bit_at(
                        before,
                        index + offset + j,
                    )));
                    assert(bit_at(before, index + offset + j) == bit_at(init, index + offset + j));
                } else {
                    assert(bit_at(before, p) == (if index + shift + prev_offset <= p < index + shift
                        + tail_len {
                        bit_at(init, p - shift)
                    } else {
                        bit_at(init, p)
                    }));
                }
            }
        }
    }
}

/// Moves the `tail_len` bits at `index + shift` left by `shift` positions
/// within the buffer, to `index`, a word at a time and from the front, so
/// that no unread bit is overwritten.  Bits outside the destination are
/// unchanged.
pub fn shift_tail_left(words: &mut Vec<u64>, index: usize, tail_len: usize, shift: usize)
    requires
        index + shift + tail_len <= old(words)@.len() * 64,
        index + shift + tail_len <= usize::MAX,
    ensures
        final(words)@.len() == old(words)@.len(),
        forall|p: int|
            0 <= p < old(words)@.len() * 64 ==> #[trigger] bit_at(final(words)@, p) == (if index
                <= p < index + tail_len {
                bit_at(old(words)@, p + shift)
            } else {
                bit_at(old(words)@, p)
            }),
{
    let ghost init = words@;
    let mut offset: usize = 0;
    while offset < tail_len
        invariant
            index + shift + tail_len <= init.len() * 64,
            index + shift + tail_len <= usize::MAX,
            offset <= tail_len,
            words@.len() == init.len(),
            forall|p: int|
                0 <= p < init.len() * 64 ==> #[trigger] bit_at(words@, p) == (if index <= p < index
                    + offset {
                    bit_at(init, p + shift)
                } else {
                    bit_at(init, p)
                }),
        decreases tail_len - offset,
    {
        let rest = tail_len - offset;
        let take = if rest < WORD_BITS {
            rest
        } else {
            WORD_BITS
        };
        let ghost before = words@;
        let chunk = read_chunk(words.as_slice(), index + shift + offset, take);
        clear_bits_at(words, index + offset, take);
        let ghost cleared = words@;
        proof {
            assert forall|j: int| take <= j < 64 implies !#[trigger] word_bit(chunk, j as u64) by {}
        }
        or_chunk(words, index + offset, chunk, take);
        proof {
            assert forall|p: int| 0 <= p < init.len() * 64 implies #[trigger] bit_at(words@, p) == (
            if index <= p < index + offset + take {
                bit_at(init, p + shift)
            } else {
                bit_at(init, p)
            }) by {
                let lo = index + offset;
                assert(bit_at(cleared, p) == (bit_at(before, p) && !(lo <= p < lo + take)));
                if lo <= p < lo + take {
                    let j = p - lo;
                    assert(word_bit(chunk, j as u64) == (j < take && bit_at(
                        before,
                        index + shift + offset + j,
                    )));
                    assert(bit_at(before, index + shift + offset + j) == bit_at(
                        init,
                        index + shift + offset + j,
                    ));
                } else {
                    assert(bit_at(before, p) == (if index <= p < index + offset {
                        bit_at(init, p + shift)
                    } else {
                        bit_at(init, p)
                    }));
                }
            }
        }
        offset += take;
    }
}

} // verus!
