//! Lossy UTF-8 encoding and decoding of Unicode code points.
//!
//! Encoding never fails: a value that is not a Unicode scalar value is
//! encoded as U+FFFD. Decoding never fails either: every malformed,
//! overlong, truncated or out-of-range sequence yields U+FFFD.
use vstd::prelude::*;

pub mod decode;
pub mod encode;
pub mod laws;
pub mod layout;

pub use decode::utf8_decode_lossy;
pub use encode::utf8_encode_lossy;

verus! {

/// The code point that stands for anything that cannot be encoded or decoded.
pub const REPLACEMENT_CHAR_0X: u32 = 0xFFFD;

/// The UTF-8 encoding of U+FFFD.
pub const REPLACEMENT_CHAR_OCTETS: [u8; 3] = [0b11101111, 0b10111111, 0b10111101];

/// A Unicode scalar value: at most U+10FFFF and not a UTF-16 surrogate half.
pub open spec fn is_scalar_value(cp: u32) -> bool {
    cp <= 0x10FFFF && !(0xD800 <= cp <= 0xDFFF)
}

} // verus!
