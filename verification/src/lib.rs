//! A growable string of bits packed little-endian into `u64` words.
//!
//! [`BitString`] keeps its bits in `u64` words, bit `i` at position `i % 64`
//! of word `i / 64`, and offers construction, editing, interval, bitwise and
//! text operations.  Every operation is specified over the abstract view of a
//! bit string as a sequence of booleans.

mod bit_string;
mod editing;
mod interval;
mod intervals;
mod iter;
pub mod laws;
mod ops;
mod pack;
mod reorder;
mod text;
mod words;

pub use bit_string::BitString;
pub use editing::clamp;
pub use interval::Interval;
pub use intervals::{clamped_end, clamped_start, replace_end, splice};
pub use iter::Iter;
pub use ops::{count_true, low_bits};
pub use reorder::{reversed, select};
pub use text::{all_bit_bytes, bits_from_bytes, display, is_bit_byte, ParseBitStringError};
pub use words::{bit_at, bits_of, low_mask, spec_word_len, word_bit, word_len, WORD_BITS};
