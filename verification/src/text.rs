//! Text form of a bit string: one ASCII `'0'` or `'1'` per bit, first bit
//! first.
use vstd::prelude::*;

use vstd::string::StringSliceAdditionalSpecFns;

use crate::bit_string::BitString;
use crate::pack::str_core;

verus! {

/// The byte `b'0'`.
pub const ZERO_BYTE: u8 = 48;

/// The byte `b'1'`.
pub const ONE_BYTE: u8 = 49;

/// Whether `b` is `b'0'` or `b'1'`.
pub open spec fn is_bit_byte(b: u8) -> bool {
    b == ZERO_BYTE || b == ONE_BYTE
}

/// Whether every byte of `bytes` is `b'0'` or `b'1'`.
pub open spec fn all_bit_bytes(bytes: Seq<u8>) -> bool {
    forall|i: int| 0 <= i < bytes.len() ==> is_bit_byte(#[trigger] bytes[i])
}

/// The bits that a text of `b'0'`/`b'1'` bytes spells.
pub open spec fn bits_from_bytes(bytes: Seq<u8>) -> Seq<bool> {
    Seq::new(bytes.len(), |i: int| bytes[i] == ONE_BYTE)
}

/// The text of `bits`: `'1'` for each set bit, `'0'` for each clear one.
pub open spec fn display(bits: Seq<bool>) -> Seq<char> {
    Seq::new(
        bits.len(),
        |i: int|
            if bits[i] {
                '1'
            } else {
                '0'
            },
    )
}

/// Error returned when a text holds a byte other than `b'0'` and `b'1'`.
#[derive(Clone, Copy, Debug, PartialEq, Eq)]
pub struct ParseBitStringError {
    /// Position of the first offending byte.
    pub index: usize,
    /// The offending byte.
    pub byte: u8,
}

impl BitString {
    /// Parses a text of ASCII `'0'`/`'1'` characters, first bit first.
    ///
    /// Fails on the first byte that is neither `b'0'` nor `b'1'`, reporting
    /// its position and value.
    pub fn try_from(value: &str) -> (r: Result<Self, ParseBitStringError>)
        ensures
            r is Ok <==> all_bit_bytes(value.spec_bytes()),
            r matches Ok(b) ==> b@ == bits_from_bytes(value.spec_bytes()),
            r matches Err(e) ==> {
                &&& e.index < value.spec_bytes().len()
                &&& e.byte == value.spec_bytes()[e.index as int]
                &&& !is_bit_byte(e.byte)
                &&& forall|j: int|
                    0 <= j < e.index ==> is_bit_byte(#[trigger] value.spec_bytes()[j])
            },
    {
        let bytes = value.as_bytes();
        let bit_len = bytes.len();
        match str_core(bytes) {
            Ok(words) => {
                let r = BitString::from_raw_parts(words, bit_len);
                assert(r@ =~= bits_from_bytes(value.spec_bytes()));
                Ok(r)
            },
            Err((index, byte)) => Err(ParseBitStringError { index, byte }),
        }
    }

    /// The text of the bit string: `'1'` for each set bit and `'0'` for each
    /// clear one, first bit first.
    pub fn to_string(&self) -> (r: String)
        ensures
            r@ == display(self@),
    {
        proof {
            use_type_invariant(self);
        }
        let len = self.bit_len();
        let mut out = String::new();
        let mut k: usize = 0;
        while k < len
            invariant
                self.wf(),
                len == self@.len(),
                k <= len,
                out@ == display(self@).take(k as int),
            decreases len - k,
        {
            proof {
                reveal_strlit("1");
                reveal_strlit("0");
            }
            if self.read(k) {
                out.append("1");
            } else {
                out.append("0");
            }
            k += 1;
            assert(out@ =~= display(self@).take(k as int));
        }
        assert(display(self@).take(len as int) =~= display(self@));
        out
    }
}

impl core::str::FromStr for BitString {
    type Err = ParseBitStringError;

    /// Parses `'0'`/`'1'` text exactly as [`BitString::try_from`] does.
    fn from_str(s: &str) -> (r: Result<Self, Self::Err>)
        ensures
            r is Ok <==> all_bit_bytes(s.spec_bytes()),
            r matches Ok(b) ==> b@ == bits_from_bytes(s.spec_bytes()),
            r matches Err(e) ==> {
                &&& e.index < s.spec_bytes().len()
                &&& e.byte == s.spec_bytes()[e.index as int]
                &&& !is_bit_byte(e.byte)
                &&& forall|j: int| 0 <= j < e.index ==> is_bit_byte(#[trigger] s.spec_bytes()[j])
            },
    {
        BitString::try_from(s)
    }
}

impl Default for BitString {
    fn default() -> (r: Self)
        ensures
            r@ == Seq::<bool>::empty(),
    {
        BitString::new()
    }
}

} // verus!
