//! Properties that relate several operations on bit strings.
//!
//! Each law is stated over the views and spec functions that the operations'
//! own contracts use, so it applies to the results of those operations.
use vstd::prelude::*;

use vstd::string::StringSliceAdditionalSpecFns;

use crate::bit_string::BitString;
use crate::editing::clamp;
use crate::intervals::{clamped_end, clamped_start, replace_end, splice};
use crate::interval::Interval;
use crate::ops::count_true;
use crate::reorder::{reversed, select};
use crate::text::{all_bit_bytes, bits_from_bytes, display};
use crate::words::{bits_of, lemma_packs_unique, spec_word_len};

verus! {

/// Reversing twice gives back the starting bits.
pub proof fn law_reverse_bits_involution(x: BitString)
    requires
        x.wf(),
    ensures
        reversed(reversed(x@)) == x@,
{
    assert(reversed(reversed(x@)) =~= x@);
}

/// Reversing twice gives back the very same bit string, storage included.
pub proof fn law_reverse_bits_twice_same_value(x: BitString, y: BitString, z: BitString)
    requires
        x.wf(),
        y.wf(),
        z.wf(),
        y@ == reversed(x@),
        z@ == reversed(y@),
    ensures
        z@ == x@,
        z.spec_words() == x.spec_words(),
{
    law_reverse_bits_involution(x);
    law_same_bits_same_words(z, x);
}

/// Reversing in place and reversing into a new bit string give the same bit
/// string, storage included.
pub proof fn law_reverse_bits_assign_matches_reverse_bits(x: BitString, a: BitString, b: BitString)
    requires
        x.wf(),
        a.wf(),
        b.wf(),
        a@ == reversed(x@),
        b@ == reversed(x@),
    ensures
        a@ == b@,
        a.spec_words() == b.spec_words(),
{
    law_same_bits_same_words(a, b);
}

/// Reversing keeps the number of set bits.
pub proof fn law_reverse_bits_keeps_count(x: BitString)
    requires
        x.wf(),
    ensures
        count_true(reversed(x@)) == count_true(x@),
{
    lemma_count_true_reversed(x@);
}

/// Complementing twice gives back the starting bits.
pub proof fn law_not_involution(x: BitString)
    requires
        x.wf(),
    ensures
        Seq::new(x@.len(), |i: int| !Seq::new(x@.len(), |j: int| !x@[j])[i]) == x@,
{
    assert(Seq::new(x@.len(), |i: int| !Seq::new(x@.len(), |j: int| !x@[j])[i]) =~= x@);
}

/// Pushing a bit and then popping gives back that bit and the starting bits.
pub proof fn law_push_then_pop(x: BitString, value: bool)
    requires
        x.wf(),
    ensures
        x@.push(value).len() > 0,
        x@.push(value).last() == value,
        x@.push(value).drop_last() == x@,
{
    assert(x@.push(value).drop_last() =~= x@);
}

/// Inserting a bit at an index and then removing at that index gives back
/// the inserted bit and the starting bits.
pub proof fn law_insert_then_remove(x: BitString, index: usize, value: bool)
    requires
        x.wf(),
    ensures
        x@.insert(clamp(index as int, x@.len() as int), value)[clamp(
            index as int,
            x@.len() as int,
        )] == value,
        x@.insert(clamp(index as int, x@.len() as int), value).remove(
            clamp(index as int, x@.len() as int),
        ) == x@,
{
    let i = clamp(index as int, x@.len() as int);
    assert(x@.insert(i, value).remove(i) =~= x@);
}

/// Splitting at any position and appending the second part back onto the
/// first gives back the starting bits.
pub proof fn law_split_off_then_push_bit_string(x: BitString, at: usize)
    requires
        x.wf(),
    ensures
        x@.take(clamp(at as int, x@.len() as int)) + x@.skip(clamp(at as int, x@.len() as int))
            == x@,
{
    let c = clamp(at as int, x@.len() as int);
    assert(x@.take(c) + x@.skip(c) =~= x@);
}

/// Inserting a bit string at the end is appending it.
pub proof fn law_insert_bit_string_at_end_is_push(x: BitString, rhs: BitString)
    requires
        x.wf(),
        rhs.wf(),
    ensures
        x@.subrange(0, x@.len() as int) + rhs@ + x@.subrange(x@.len() as int, x@.len() as int)
            == x@ + rhs@,
{
    assert(x@.subrange(0, x@.len() as int) + rhs@ + x@.subrange(x@.len() as int, x@.len() as int)
        =~= x@ + rhs@);
}

/// The bits before an interval, the slice of the interval and the bits
/// after it make up the whole: replacing an interval by its own slice
/// changes nothing.
pub proof fn law_replace_interval_with_own_slice(x: BitString, interval: Interval)
    requires
        x.wf(),
    ensures
        splice(
            x@,
            clamped_start(interval, x@.len()),
            clamped_end(interval, x@.len()),
            x@.subrange(clamped_start(interval, x@.len()), clamped_end(interval, x@.len())),
        ) == x@,
{
    let s = clamped_start(interval, x@.len());
    let e = clamped_end(interval, x@.len());
    assert(splice(x@, s, e, x@.subrange(s, e)) =~= x@);
}

/// Slicing the replaced span out of the result of a replacement gives back
/// the replacement.
pub proof fn law_slice_of_replacement(x: BitString, interval: Interval, replacement: BitString)
    requires
        x.wf(),
        replacement.wf(),
    ensures
        splice(
            x@,
            clamped_start(interval, x@.len()),
            clamped_end(interval, x@.len()),
            replacement@,
        ).subrange(
            clamped_start(interval, x@.len()),
            clamped_start(interval, x@.len()) + replacement@.len(),
        ) == replacement@,
{
    let s = clamped_start(interval, x@.len());
    let e = clamped_end(interval, x@.len());
    assert(splice(x@, s, e, replacement@).subrange(s, s + replacement@.len()) =~= replacement@);
}

/// Inserting a bit string and then draining the inserted span gives back
/// the starting bits.
pub proof fn law_insert_bit_string_then_drain(x: BitString, index: usize, rhs: BitString)
    requires
        x.wf(),
        rhs.wf(),
        index <= x@.len(),
    ensures
        ({
            let y = x@.subrange(0, index as int) + rhs@ + x@.subrange(index as int, x@.len() as int);
            splice(y, index as int, index + rhs@.len(), Seq::empty()) == x@
        }),
{
    let y = x@.subrange(0, index as int) + rhs@ + x@.subrange(index as int, x@.len() as int);
    assert(splice(y, index as int, index + rhs@.len(), Seq::empty()) =~= x@);
}

/// Draining an interval keeps exactly the bits outside it, in order: the
/// result is as long as the input less the clamped interval.
pub proof fn law_drain_interval_length(x: BitString, interval: Interval)
    requires
        x.wf(),
    ensures
        splice(
            x@,
            clamped_start(interval, x@.len()),
            clamped_end(interval, x@.len()),
            Seq::empty(),
        ).len() == x@.len() - (clamped_end(interval, x@.len()) - clamped_start(
            interval,
            x@.len(),
        )),
{
}

/// Replacing an interval by a bit string of the same length keeps the
/// length.
pub proof fn law_replace_interval_same_length(
    x: BitString,
    interval: Interval,
    replacement: BitString,
)
    requires
        x.wf(),
        replacement.wf(),
        replacement@.len() == clamped_end(interval, x@.len()) - clamped_start(
            interval,
            x@.len(),
        ),
    ensures
        splice(
            x@,
            clamped_start(interval, x@.len()),
            clamped_end(interval, x@.len()),
            replacement@,
        ).len() == x@.len(),
{
}

/// Keeping every bit keeps the bit string; keeping none empties it.
pub proof fn law_retain_all_or_none(x: BitString)
    requires
        x.wf(),
    ensures
        select(x@, Seq::new(x@.len(), |i: int| true)) == x@,
        select(x@, Seq::new(x@.len(), |i: int| false)) == Seq::<bool>::empty(),
{
    lemma_select_constant(x@, true);
    lemma_select_constant(x@, false);
}

/// The number of set bits and the number of clear bits add up to the
/// length.
pub proof fn law_count_ones_plus_zeros(x: BitString)
    requires
        x.wf(),
    ensures
        count_true(x@) + count_true(Seq::new(x@.len(), |i: int| !x@[i])) == x@.len(),
{
    lemma_count_true_complement(x@);
}

/// A well-formed bit string is rebuilt exactly by `from_words` from its own
/// words and length.
pub proof fn law_from_words_of_words(x: BitString)
    requires
        x.wf(),
    ensures
        x.spec_words().len() == spec_word_len(x@.len()),
        bits_of(x.spec_words(), x@.len()) == x@,
{
    x.lemma_words_agree();
    assert(bits_of(x.spec_words(), x@.len()) =~= x@);
}

/// The storage is canonical: two well-formed bit strings with the same bits
/// have the same words, so comparing or hashing the storage compares or
/// hashes the bits.
pub proof fn law_same_bits_same_words(x: BitString, y: BitString)
    requires
        x.wf(),
        y.wf(),
        x@ == y@,
    ensures
        x.spec_words() == y.spec_words(),
{
    x.lemma_words_agree();
    y.lemma_words_agree();
    lemma_packs_unique(x.spec_words(), y.spec_words(), x@);
}

/// Printing a bit string and parsing the text gives back the same bits.
pub proof fn law_parse_display_round_trip(x: BitString, text: &str)
    requires
        x.wf(),
        text@ == display(x@),
    ensures
        all_bit_bytes(text.spec_bytes()),
        bits_from_bytes(text.spec_bytes()) == x@,
{
    broadcast use vstd::string::is_ascii_spec_bytes;

    assert(vstd::string::is_ascii(text));
    assert(bits_from_bytes(text.spec_bytes()) =~= x@);
}

/// Retaining bits never makes a bit string longer.
pub proof fn law_retain_does_not_grow(x: BitString, keep: Seq<bool>)
    requires
        x.wf(),
        keep.len() == x@.len(),
    ensures
        select(x@, keep).len() <= x@.len(),
{
    lemma_select_len(x@, keep);
}

/// An interval that lies inside the bit string is taken as it is: slicing
/// gives exactly its bits, draining removes exactly them, and replacing puts
/// the replacement exactly in their place.
pub proof fn law_interval_in_bounds(x: BitString, interval: Interval, replacement: BitString)
    requires
        x.wf(),
        replacement.wf(),
        interval.spec_start() < interval.spec_end_excl() <= x@.len(),
    ensures
        ({
            let (s, e) = (interval.spec_start() as int, interval.spec_end_excl() as int);
            let (cs, ce) = (clamped_start(interval, x@.len()), clamped_end(interval, x@.len()));
            &&& x@.subrange(cs, ce) == x@.subrange(s, e)
            &&& x@.subrange(cs, ce).len() == e - s
            &&& splice(x@, cs, ce, Seq::empty()) == x@.subrange(0, s) + x@.subrange(e, x@.len() as int)
            &&& splice(x@, cs, ce, Seq::empty()).len() == x@.len() - (e - s)
            &&& splice(x@, cs, ce, replacement@) == x@.subrange(0, s) + replacement@ + x@.subrange(
                e,
                x@.len() as int,
            )
        }),
{
}

/// Slicing any interval gives the bits from its start to its end, both cut
/// back to the length of the bit string: the slice is as long as the part
/// of the interval that lies inside the bit string, and bit `i` of it is bit
/// `start + i` of the bit string.
pub proof fn law_slice_is_interval_cut_to_length(x: BitString, interval: Interval)
    requires
        x.wf(),
        interval.spec_start() < interval.spec_end_excl(),
    ensures
        ({
            let len = x@.len() as int;
            let s = if interval.spec_start() < len {
                interval.spec_start() as int
            } else {
                len
            };
            let e = if interval.spec_end_excl() < len {
                interval.spec_end_excl() as int
            } else {
                len
            };
            let sliced = x@.subrange(clamped_start(interval, x@.len()), clamped_end(interval, x@.len()));
            &&& sliced.len() == e - s
            &&& forall|i: int| 0 <= i < e - s ==> #[trigger] sliced[i] == x@[s + i]
        }),
{
}

/// Replacing from a position where the replacement fits overwrites exactly
/// the replacement's length of bits: the length is kept, the bits before
/// `start` and after `start + replacement.len()` are kept, and the
/// replacement's bits stand in between.
pub proof fn law_replace_in_bounds_keeps_length(x: BitString, start: usize, replacement: BitString)
    requires
        x.wf(),
        replacement.wf(),
        start + replacement@.len() <= x@.len(),
    ensures
        ({
            let len = x@.len();
            let out = splice(
                x@,
                clamp(start as int, len as int),
                replace_end(len, clamp(start as int, len as int), replacement@.len()),
                replacement@,
            );
            &&& out.len() == len
            &&& out == x@.subrange(0, start as int) + replacement@ + x@.subrange(
                start + replacement@.len(),
                len as int,
            )
        }),
{
    let len = x@.len();
    let out = splice(
        x@,
        clamp(start as int, len as int),
        replace_end(len, clamp(start as int, len as int), replacement@.len()),
        replacement@,
    );
    assert(out =~= x@.subrange(0, start as int) + replacement@ + x@.subrange(
        start + replacement@.len(),
        len as int,
    ));
}

/// Replacing from any position overwrites bits from there on with the
/// replacement, extending the bit string only where the replacement runs
/// past its end: with `s` the start cut back to the length, the result is
/// as long as the longer of the bit string and `s + replacement.len()`, bit
/// `i` of it is the replacement's bit `i - s` inside the replaced span and
/// the bit string's own bit `i` elsewhere.
pub proof fn law_replace_overwrites_from_start(x: BitString, start: usize, replacement: BitString)
    requires
        x.wf(),
        replacement.wf(),
    ensures
        ({
            let len = x@.len() as int;
            let s = if start < len {
                start as int
            } else {
                len
            };
            let n = replacement@.len() as int;
            let out = splice(
                x@,
                clamp(start as int, len),
                replace_end(x@.len(), clamp(start as int, len), replacement@.len()),
                replacement@,
            );
            &&& out.len() == (if s + n < len {
                len
            } else {
                s + n
            })
            &&& forall|i: int|
                0 <= i < out.len() ==> #[trigger] out[i] == (if s <= i < s + n {
                    replacement@[i - s]
                } else {
                    x@[i]
                })
        }),
{
}

/// A selection is no longer than what it selects from.
proof fn lemma_select_len(s: Seq<bool>, keep: Seq<bool>)
    ensures
        select(s, keep).len() <= s.len(),
    decreases s.len(),
{
    if s.len() > 0 {
        lemma_select_len(s.drop_last(), keep.take(s.len() - 1));
    }
}

/// Counting the set bits of a reversed sequence.
proof fn lemma_count_true_reversed(s: Seq<bool>)
    ensures
        count_true(reversed(s)) == count_true(s),
    decreases s.len(),
{
    if s.len() > 0 {
        lemma_count_true_reversed(s.drop_last());
        lemma_count_true_prepend(reversed(s.drop_last()), s.last());
        assert(reversed(s) =~= seq![s.last()] + reversed(s.drop_last()));
    }
}

/// Counting the set bits of a sequence with one more bit in front.
proof fn lemma_count_true_prepend(s: Seq<bool>, b: bool)
    ensures
        count_true(seq![b] + s) == count_true(s) + (if b {
            1int
        } else {
            0int
        }),
    decreases s.len(),
{
    if s.len() > 0 {
        lemma_count_true_prepend(s.drop_last(), b);
        assert((seq![b] + s).drop_last() =~= seq![b] + s.drop_last());
        assert((seq![b] + s).last() == s.last());
    } else {
        assert((seq![b] + s) =~= seq![b]);
        assert(seq![b].drop_last() =~= Seq::<bool>::empty());
        assert(count_true(seq![b]) == count_true(Seq::<bool>::empty()) + (if b {
            1int
        } else {
            0int
        }));
    }
}

/// The set bits of a sequence and of its complement add up to its length.
proof fn lemma_count_true_complement(s: Seq<bool>)
    ensures
        count_true(s) + count_true(Seq::new(s.len(), |i: int| !s[i])) == s.len(),
    decreases s.len(),
{
    if s.len() > 0 {
        lemma_count_true_complement(s.drop_last());
        assert(Seq::new(s.len(), |i: int| !s[i]).drop_last() =~= Seq::new(
            s.drop_last().len(),
            |i: int| !s.drop_last()[i],
        ));
    }
}

/// Selecting with a constant decision keeps everything or nothing.
proof fn lemma_select_constant(s: Seq<bool>, keep_all: bool)
    ensures
        select(s, Seq::new(s.len(), |i: int| keep_all)) == (if keep_all {
            s
        } else {
            Seq::<bool>::empty()
        }),
    decreases s.len(),
{
    if s.len() > 0 {
        lemma_select_constant(s.drop_last(), keep_all);
        assert(Seq::new(s.len(), |i: int| keep_all).take(s.len() - 1) =~= Seq::new(
            s.drop_last().len(),
            |i: int| keep_all,
        ));
        if keep_all {
            assert(s.drop_last().push(s.last()) =~= s);
        }
    }
}

} // verus!
