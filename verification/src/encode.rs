//! Encoding of one code point as UTF-8 octets.
use vstd::prelude::*;

use crate::{is_scalar_value, REPLACEMENT_CHAR_OCTETS};

verus! {

/// The octets of U+FFFD in UTF-8.
pub open spec fn replacement_octets() -> Seq<u8> {
    seq![0xEFu8, 0xBFu8, 0xBDu8]
}

/// A fresh copy of the octets of U+FFFD.
fn replacement_vec() -> (res: Vec<u8>)
    ensures
        res@ == replacement_octets(),
{
    let res = vstd::slice::slice_to_vec(REPLACEMENT_CHAR_OCTETS.as_slice());
    assert(res@ =~= replacement_octets()) by {
        assert(res@[0] == REPLACEMENT_CHAR_OCTETS[0]);
        assert(res@[1] == REPLACEMENT_CHAR_OCTETS[1]);
        assert(res@[2] == REPLACEMENT_CHAR_OCTETS[2]);
    }
    res
}

/// The UTF-8 encoding of `cp`, where `cp` is first replaced by U+FFFD when it
/// is not a Unicode scalar value.
pub open spec fn spec_encode(cp: u32) -> Seq<u8> {
    if !is_scalar_value(cp) {
        replacement_octets()
    } else if cp <= 0x7F {
        seq![cp as u8]
    } else if cp <= 0x7FF {
        seq![(0xC0 | (cp >> 6)) as u8, (0x80 | (cp & 0x3F)) as u8]
    } else if cp <= 0xFFFF {
        seq![
            (0xE0 | (cp >> 12)) as u8,
            (0x80 | ((cp >> 6) & 0x3F)) as u8,
            (0x80 | (cp & 0x3F)) as u8,
        ]
    } else {
        seq![
            (0xF0 | (cp >> 18)) as u8,
            (0x80 | ((cp >> 12) & 0x3F)) as u8,
            (0x80 | ((cp >> 6) & 0x3F)) as u8,
            (0x80 | (cp & 0x3F)) as u8,
        ]
    }
}

/// Encodes `codepoint` as UTF-8. "Lossy" because it does not fail on a value
/// that is not a Unicode scalar value: it returns the encoding of U+FFFD.
pub fn utf8_encode_lossy(codepoint: u32) -> (res: Vec<u8>)
    ensures
        res@ == spec_encode(codepoint),
{
    if 0xD800 <= codepoint && codepoint <= 0xDFFF {
        return replacement_vec();
    }
    if codepoint <= 0x7F {
        // ASCII
        return vec![codepoint as u8];
    }
    let continuation_octet: u8 = 0b1000_0000;
    let continuation_mask: u8 = 0b0011_1111;

    if codepoint <= 0x7FF {
        let continuation_result: u8 = continuation_octet | (continuation_mask & codepoint as u8);
        let leading_octet: u8 = 0b1100_0000;
        let leading_mask: u8 = !leading_octet;
        // the low six bits went into the continuation octet
        let leading_result: u8 = leading_octet | (leading_mask & (codepoint >> 6) as u8);
        assert(continuation_result == (0x80 | (codepoint & 0x3F)) as u8) by (bit_vector)
            requires
                continuation_result == 0x80u8 | (0x3Fu8 & codepoint as u8),
        ;
        assert(leading_result == (0xC0 | (codepoint >> 6)) as u8) by (bit_vector)
            requires
                leading_result == 0xC0u8 | (!0xC0u8 & (codepoint >> 6) as u8),
                codepoint <= 0x7FF,
        ;
        return vec![leading_result, continuation_result];
    }
    if codepoint <= 0xFFFF {
        let last: u8 = continuation_octet | (continuation_mask & codepoint as u8);
        let first: u8 = continuation_octet | (continuation_mask & (codepoint >> 6) as u8);
        let leading_octet: u8 = 0b1110_0000;
        let leading_mask: u8 = !leading_octet;
        let leading_result: u8 = leading_octet | (leading_mask & (codepoint >> 12) as u8);
        assert(last == (0x80 | (codepoint & 0x3F)) as u8) by (bit_vector)
            requires
                last == 0x80u8 | (0x3Fu8 & codepoint as u8),
        ;
        assert(first == (0x80 | ((codepoint >> 6) & 0x3F)) as u8) by (bit_vector)
            requires
                first == 0x80u8 | (0x3Fu8 & (codepoint >> 6) as u8),
        ;
        assert(leading_result == (0xE0 | (codepoint >> 12)) as u8) by (bit_vector)
            requires
                leading_result == 0xE0u8 | (!0xE0u8 & (codepoint >> 12) as u8),
                codepoint <= 0xFFFF,
        ;
        return vec![leading_result, first, last];
    }
    if codepoint <= 0x10FFFF {
        let last: u8 = continuation_octet | (continuation_mask & codepoint as u8);
        let second: u8 = continuation_octet | (continuation_mask & (codepoint >> 6) as u8);
        let first: u8 = continuation_octet | (continuation_mask & (codepoint >> 12) as u8);
        let leading_octet: u8 = 0b1111_0000;
        let leading_mask: u8 = !leading_octet;
        let leading_result: u8 = leading_octet | (leading_mask & (codepoint >> 18) as u8);
        assert(last == (0x80 | (codepoint & 0x3F)) as u8) by (bit_vector)
            requires
                last == 0x80u8 | (0x3Fu8 & codepoint as u8),
        ;
        assert(second == (0x80 | ((codepoint >> 6) & 0x3F)) as u8) by (bit_vector)
            requires
                second == 0x80u8 | (0x3Fu8 & (codepoint >> 6) as u8),
        ;
        assert(first == (0x80 | ((codepoint >> 12) & 0x3F)) as u8) by (bit_vector)
            requires
                first == 0x80u8 | (0x3Fu8 & (codepoint >> 12) as u8),
        ;
        assert(leading_result == (0xF0 | (codepoint >> 18)) as u8) by (bit_vector)
            requires
                leading_result == 0xF0u8 | (!0xF0u8 & (codepoint >> 18) as u8),
                codepoint <= 0x10FFFF,
        ;
        return vec![leading_result, first, second, last];
    }
    replacement_vec()
}

} // verus!
