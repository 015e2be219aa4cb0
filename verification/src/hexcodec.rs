//! Hex decoding, through the `hex` crate.

use vstd::prelude::*;
use vstd::string::StringSliceAdditionalSpecFns;

verus! {

/// Why a hex string could not be decoded.
#[derive(Debug, Clone, Copy, PartialEq, Eq, Structural)]
pub enum HexError {
    /// The byte at `index` is not a hex digit; `c` is that byte as a char.
    InvalidHexCharacter { c: char, index: usize },
    /// The string has an odd number of bytes.
    OddLength,
    /// The string's length does not fit a fixed-size output.
    InvalidStringLength,
}

/// The value of a hex digit (`0-9`, `a-f`, `A-F`), if the byte is one.
pub open spec fn hex_digit(b: u8) -> Option<u8> {
    if 0x30 <= b <= 0x39 {
        Some((b - 0x30) as u8)
    } else if 0x61 <= b <= 0x66 {
        Some((b - 0x61 + 10) as u8)
    } else if 0x41 <= b <= 0x46 {
        Some((b - 0x41 + 10) as u8)
    } else {
        None
    }
}

/// Decodes the digit pairs of `s` from byte `i` on; the first byte that is
/// not a hex digit decides the error.
pub open spec fn hex_pairs_from(s: Seq<u8>, i: nat) -> Result<Seq<u8>, HexError>
    decreases s.len() - i,
{
    if i + 1 >= s.len() {
        Ok(Seq::empty())
    } else {
        match (hex_digit(s[i as int]), hex_digit(s[i + 1int])) {
            (Some(hi), Some(lo)) => match hex_pairs_from(s, i + 2) {
                Ok(rest) => Ok(seq![(hi * 16 + lo) as u8] + rest),
                Err(e) => Err(e),
            },
            (None, _) => Err(HexError::InvalidHexCharacter { c: s[i as int] as char, index: i as usize }),
            (Some(_), None) => Err(
                HexError::InvalidHexCharacter { c: s[i + 1int] as char, index: (i + 1) as usize },
            ),
        }
    }
}

/// The bytes that a hex string of these (UTF-8) bytes stands for, two digits
/// per byte, high digit first.
pub open spec fn hex_decoding(s: Seq<u8>) -> Result<Seq<u8>, HexError> {
    if s.len() % 2 != 0 {
        Err(HexError::OddLength)
    } else {
        hex_pairs_from(s, 0)
    }
}

/// Calls `hex::decode`, which fails with `OddLength` on an odd number of
/// bytes, else with the first byte that is not a hex digit, and otherwise
/// returns one byte per pair of digits. The outside error is moved variant
/// for variant into [`HexError`].
#[verifier::external_body]
pub(crate) fn hex_decode(s: &str) -> (r: Result<Vec<u8>, HexError>)
    ensures
        match hex_decoding(s.spec_bytes()) {
            Ok(b) => r matches Ok(v) && v@ == b,
            Err(e) => r matches Err(x) && x == e,
        },
{
    match hex::decode(s) {
        Ok(v) => Ok(v),
        Err(hex::FromHexError::InvalidHexCharacter { c, index }) => Err(
            HexError::InvalidHexCharacter { c, index },
        ),
        Err(hex::FromHexError::OddLength) => Err(HexError::OddLength),
        Err(hex::FromHexError::InvalidStringLength) => Err(HexError::InvalidStringLength),
    }
}

} // verus!
