//! The UTF-8 octet layout, stated arithmetically on octets and code points:
//! what each code point is encoded as, and what each sequence of octets
//! decodes to.
use vstd::prelude::*;

use crate::decode::{decode_run, initial_state, spec_decode};
use crate::encode::spec_encode;
use crate::laws::{
    encode_all, is_broken_sequence, is_continuation, is_truncated_sequence, lead_width,
    lemma_decode_after_broken, lemma_decode_split, lemma_decode_truncated, lemma_run_one,
    lemma_run_push,
};
use crate::REPLACEMENT_CHAR_0X;

verus! {

/// The encoding of every Unicode scalar value, octet by octet: the leading
/// octet holds the high bits after its length marker, each continuation octet
/// 0x80 plus the next six bits.
pub proof fn lemma_encode_layout(cp: u32)
    ensures
        cp <= 0x7F ==> spec_encode(cp) == seq![cp as u8],
        0x80 <= cp <= 0x7FF ==> spec_encode(cp) == seq![(0xC0 + cp / 64) as u8, (0x80 + cp % 64) as u8],
        0x800 <= cp <= 0xFFFF && !(0xD800 <= cp <= 0xDFFF) ==> spec_encode(cp) == seq![
            (0xE0 + cp / 4096) as u8,
            (0x80 + (cp / 64) % 64) as u8,
            (0x80 + cp % 64) as u8,
        ],
        0x10000 <= cp <= 0x10FFFF ==> spec_encode(cp) == seq![
            (0xF0 + cp / 262144) as u8,
            (0x80 + (cp / 4096) % 64) as u8,
            (0x80 + (cp / 64) % 64) as u8,
            (0x80 + cp % 64) as u8,
        ],
{
    if 0x80 <= cp <= 0x7FF {
        assert((0xC0 | (cp >> 6)) as u8 == (0xC0 + cp / 64) as u8 && (0x80 | (cp & 0x3F)) as u8
            == (0x80 + cp % 64) as u8) by (bit_vector)
            requires
                0x80 <= cp <= 0x7FF,
        ;
    } else if 0x800 <= cp <= 0xFFFF {
        assert((0xE0 | (cp >> 12)) as u8 == (0xE0 + cp / 4096) as u8 && (0x80 | ((cp >> 6)
            & 0x3F)) as u8 == (0x80 + (cp / 64) % 64) as u8 && (0x80 | (cp & 0x3F)) as u8 == (
        0x80 + cp % 64) as u8) by (bit_vector)
            requires
                0x800 <= cp <= 0xFFFF,
        ;
    } else if 0x10000 <= cp <= 0x10FFFF {
        assert((0xF0 | (cp >> 18)) as u8 == (0xF0 + cp / 262144) as u8 && (0x80 | ((cp >> 12)
            & 0x3F)) as u8 == (0x80 + (cp / 4096) % 64) as u8 && (0x80 | ((cp >> 6) & 0x3F)) as u8
            == (0x80 + (cp / 64) % 64) as u8 && (0x80 | (cp & 0x3F)) as u8 == (0x80 + cp % 64)
            as u8) by (bit_vector)
            requires
                0x10000 <= cp <= 0x10FFFF,
        ;
    }
}

/// A leading octet 0xC0..=0xDF and one continuation octet decode to the 11
/// bits they carry, or to U+FFFD when that value would fit in one octet
/// (an overlong form); an accepted value is encoded as these very octets.
/// Decoding goes on afresh after them.
pub proof fn lemma_decode_two_octets(b0: u8, b1: u8, rest: Seq<u8>)
    requires
        0xC0 <= b0 <= 0xDF,
        0x80 <= b1 <= 0xBF,
    ensures
        ({
            let v = (b0 - 0xC0) * 64 + (b1 - 0x80);
            let result = if v >= 0x80 {
                seq![v as u32]
            } else {
                seq![REPLACEMENT_CHAR_0X]
            };
            &&& spec_decode(seq![b0, b1]) == result
            &&& spec_decode(seq![b0, b1] + rest) == result + spec_decode(rest)
            &&& v >= 0x80 ==> spec_encode(v as u32) == seq![b0, b1]
        }),
{
    let st = initial_state();
    lemma_run_one(st, b0);
    lemma_run_push(st, seq![b0], b1);
    assert(seq![b0].push(b1) == seq![b0, b1]);
    let acc: u32 = ((b1 as u32 & 0x3F) << 0u32) | ((((b0 & 0x1F) as u32) << 6u32) | 0u32);
    assert(b0 & 0xE0 == 0xC0 && b1 & 0xC0 == 0x80 && acc == ((b0 - 0xC0) * 64 + (b1 - 0x80))
        as u32 && (acc >= 0x80 ==> (0xC0 | (acc >> 6)) as u8 == b0 && (0x80 | (acc & 0x3F)) as u8
        == b1)) by (bit_vector)
        requires
            0xC0 <= b0 <= 0xDF,
            0x80 <= b1 <= 0xBF,
            acc == ((b1 as u32 & 0x3F) << 0u32) | ((((b0 & 0x1F) as u32) << 6u32) | 0u32),
    ;
    lemma_decode_split(seq![b0, b1], rest);
}

/// A leading octet 0xE0..=0xEF and two continuation octets decode to the 16
/// bits they carry, or to U+FFFD when that value is an overlong form (below
/// U+0800) or a surrogate half; an accepted value is encoded as these very
/// octets. Decoding goes on afresh after them.
pub proof fn lemma_decode_three_octets(b0: u8, b1: u8, b2: u8, rest: Seq<u8>)
    requires
        0xE0 <= b0 <= 0xEF,
        0x80 <= b1 <= 0xBF,
        0x80 <= b2 <= 0xBF,
    ensures
        ({
            let v = (b0 - 0xE0) * 4096 + (b1 - 0x80) * 64 + (b2 - 0x80);
            let accepted = v >= 0x800 && !(0xD800 <= v <= 0xDFFF);
            let result = if accepted {
                seq![v as u32]
            } else {
                seq![REPLACEMENT_CHAR_0X]
            };
            &&& spec_decode(seq![b0, b1, b2]) == result
            &&& spec_decode(seq![b0, b1, b2] + rest) == result + spec_decode(rest)
            &&& accepted ==> spec_encode(v as u32) == seq![b0, b1, b2]
        }),
{
    let st = initial_state();
    lemma_run_one(st, b0);
    lemma_run_push(st, seq![b0], b1);
    lemma_run_push(st, seq![b0, b1], b2);
    assert(seq![b0].push(b1) == seq![b0, b1]);
    assert(seq![b0, b1].push(b2) == seq![b0, b1, b2]);
    let acc: u32 = ((b2 as u32 & 0x3F) << 0u32) | (((b1 as u32 & 0x3F) << 6u32) | (((b0 & 0x1F)
        as u32) << 12u32 | 0u32));
    assert(b0 & 0xE0 != 0xC0 && b0 & 0xF0 == 0xE0 && b1 & 0xC0 == 0x80 && b2 & 0xC0 == 0x80
        && acc == ((b0 - 0xE0) * 4096 + (b1 - 0x80) * 64 + (b2 - 0x80)) as u32 && (0xE0 | (acc
        >> 12)) as u8 == b0 && (0x80 | ((acc >> 6) & 0x3F)) as u8 == b1 && (0x80 | (acc & 0x3F))
        as u8 == b2) by (bit_vector)
        requires
            0xE0 <= b0 <= 0xEF,
            0x80 <= b1 <= 0xBF,
            0x80 <= b2 <= 0xBF,
            acc == ((b2 as u32 & 0x3F) << 0u32) | (((b1 as u32 & 0x3F) << 6u32) | (((b0 & 0x1F)
                as u32) << 12u32 | 0u32)),
    ;
    lemma_decode_split(seq![b0, b1, b2], rest);
}

/// A leading octet 0xF0..=0xFF and three continuation octets decode to the
/// bits they carry, or to U+FFFD when that value is an overlong form (below
/// U+10000) or beyond U+10FFFF; an accepted value is encoded as these very
/// octets. Decoding goes on afresh after them.
pub proof fn lemma_decode_four_octets(b0: u8, b1: u8, b2: u8, b3: u8, rest: Seq<u8>)
    requires
        0xF0 <= b0,
        0x80 <= b1 <= 0xBF,
        0x80 <= b2 <= 0xBF,
        0x80 <= b3 <= 0xBF,
    ensures
        ({
            let v = (b0 - 0xF0) * 262144 + (b1 - 0x80) * 4096 + (b2 - 0x80) * 64 + (b3 - 0x80);
            let accepted = 0x10000 <= v <= 0x10FFFF;
            let result = if accepted {
                seq![v as u32]
            } else {
                seq![REPLACEMENT_CHAR_0X]
            };
            &&& spec_decode(seq![b0, b1, b2, b3]) == result
            &&& spec_decode(seq![b0, b1, b2, b3] + rest) == result + spec_decode(rest)
            &&& accepted ==> spec_encode(v as u32) == seq![b0, b1, b2, b3]
        }),
{
    let st = initial_state();
    lemma_run_one(st, b0);
    lemma_run_push(st, seq![b0], b1);
    lemma_run_push(st, seq![b0, b1], b2);
    lemma_run_push(st, seq![b0, b1, b2], b3);
    assert(seq![b0].push(b1) == seq![b0, b1]);
    assert(seq![b0, b1].push(b2) == seq![b0, b1, b2]);
    assert(seq![b0, b1, b2].push(b3) == seq![b0, b1, b2, b3]);
    let acc: u32 = ((b3 as u32 & 0x3F) << 0u32) | (((b2 as u32 & 0x3F) << 6u32) | (((b1 as u32
        & 0x3F) << 12u32) | (((b0 & 0x0F) as u32) << 18u32 | 0u32)));
    assert(b0 & 0xE0 != 0xC0 && b0 & 0xF0 != 0xE0 && b0 & 0xF0 == 0xF0 && b1 & 0xC0 == 0x80
        && b2 & 0xC0 == 0x80 && b3 & 0xC0 == 0x80 && acc == ((b0 - 0xF0) * 262144 + (b1 - 0x80)
        * 4096 + (b2 - 0x80) * 64 + (b3 - 0x80)) as u32 && (acc <= 0x10FFFF ==> (0xF0 | (acc
        >> 18)) as u8 == b0) && (0x80 | ((acc >> 12) & 0x3F)) as u8 == b1 && (0x80 | ((acc >> 6)
        & 0x3F)) as u8 == b2 && (0x80 | (acc & 0x3F)) as u8 == b3) by (bit_vector)
        requires
            0xF0 <= b0,
            0x80 <= b1 <= 0xBF,
            0x80 <= b2 <= 0xBF,
            0x80 <= b3 <= 0xBF,
            acc == ((b3 as u32 & 0x3F) << 0u32) | (((b2 as u32 & 0x3F) << 6u32) | (((b1 as u32
                & 0x3F) << 12u32) | (((b0 & 0x0F) as u32) << 18u32 | 0u32))),
    ;
    lemma_decode_split(seq![b0, b1, b2, b3], rest);
}

/// An ASCII octet decodes to itself, and decoding goes on afresh after it.
pub proof fn lemma_decode_ascii_octet(b: u8, rest: Seq<u8>)
    requires
        b < 0x80,
    ensures
        spec_decode(seq![b] + rest) == seq![b as u32] + spec_decode(rest),
{
    lemma_run_one(initial_state(), b);
    assert(b & 0xE0 != 0xC0 && b & 0xF0 != 0xE0 && b & 0xF0 != 0xF0) by (bit_vector)
        requires
            b < 0x80,
    ;
    lemma_decode_split(seq![b], rest);
}

/// An octet 0x80..=0xFF on its own decodes to U+FFFD: a continuation octet
/// with no sequence to continue, or a leading octet with nothing after it.
pub proof fn lemma_decode_lone_octet(b: u8)
    requires
        0x80 <= b,
    ensures
        spec_decode(seq![b]) == seq![REPLACEMENT_CHAR_0X],
{
    lemma_run_one(initial_state(), b);
    assert(b & 0xE0 == 0xC0 || b & 0xF0 == 0xE0 || b & 0xF0 == 0xF0 || b & 0xC0 == 0x80)
        by (bit_vector)
        requires
            0x80 <= b,
    ;
}

proof fn lemma_encode_all_prepend(x: u32, xs: Seq<u32>)
    ensures
        encode_all(seq![x] + xs) == spec_encode(x) + encode_all(xs),
    decreases xs.len(),
{
    if xs.len() == 0 {
        assert(seq![x] + xs == seq![x]);
        assert(seq![x].drop_last() == Seq::<u32>::empty());
        assert(seq![x].last() == x);
        assert(encode_all(Seq::<u32>::empty()) == Seq::<u8>::empty());
        assert(encode_all(seq![x]) == encode_all(Seq::<u32>::empty()) + spec_encode(x));
        assert(Seq::<u8>::empty() + spec_encode(x) == spec_encode(x));
        assert(spec_encode(x) + Seq::<u8>::empty() == spec_encode(x));
    } else {
        lemma_encode_all_prepend(x, xs.drop_last());
        assert((seq![x] + xs).drop_last() == seq![x] + xs.drop_last());
        assert((seq![x] + xs).last() == xs.last());
        assert(spec_encode(x) + encode_all(xs.drop_last()) + spec_encode(xs.last()) == spec_encode(
            x,
        ) + (encode_all(xs.drop_last()) + spec_encode(xs.last())));
    }
}

proof fn lemma_no_replacement_tail(x: u32, xs: Seq<u32>)
    requires
        !(seq![x] + xs).contains(REPLACEMENT_CHAR_0X),
    ensures
        !xs.contains(REPLACEMENT_CHAR_0X),
        x != REPLACEMENT_CHAR_0X,
{
    assert((seq![x] + xs)[0] == x);
    if xs.contains(REPLACEMENT_CHAR_0X) {
        let i = choose|i: int| 0 <= i < xs.len() && xs[i] == REPLACEMENT_CHAR_0X;
        assert((seq![x] + xs)[i + 1] == xs[i]);
    }
}

/// Every code point that decoding yields comes from its own encoding: when
/// decoding `s` yields no U+FFFD, encoding what it yields gives back `s`
/// octet for octet. No octet is skipped, reinterpreted or read as anything
/// but the UTF-8 encoding of the code point it yields.
pub proof fn lemma_decode_faithful(s: Seq<u8>)
    requires
        !spec_decode(s).contains(REPLACEMENT_CHAR_0X),
    ensures
        encode_all(spec_decode(s)) == s,
    decreases s.len(),
{
    if s.len() == 0 {
        assert(spec_decode(s) == Seq::<u32>::empty());
        assert(encode_all(Seq::<u32>::empty()) == s);
    } else {
        let b0 = s[0];
        let w = lead_width(b0);
        assert((b0 & 0xE0 == 0xC0 ==> 0xC0 <= b0 <= 0xDF) && (b0 & 0xE0 != 0xC0 && b0 & 0xF0
            == 0xE0 ==> 0xE0 <= b0 <= 0xEF) && (b0 & 0xE0 != 0xC0 && b0 & 0xF0 == 0xF0 ==> 0xF0
            <= b0) && (b0 & 0xE0 != 0xC0 && b0 & 0xF0 != 0xE0 && b0 & 0xF0 != 0xF0 ==> (b0 < 0x80
            || b0 & 0xC0 == 0x80))) by (bit_vector);
        assert forall|b: u8| is_continuation(b) implies 0x80 <= b <= 0xBF by {
            assert(b & 0xC0 == 0x80 ==> 0x80 <= b <= 0xBF) by (bit_vector);
        }
        if w == 0 {
            let rest = s.drop_first();
            assert(s == seq![b0] + rest);
            lemma_run_one(initial_state(), b0);
            lemma_decode_split(seq![b0], rest);
            if b0 < 0x80 {
                lemma_decode_ascii_octet(b0, rest);
                lemma_no_replacement_tail(b0 as u32, spec_decode(rest));
                lemma_decode_faithful(rest);
                lemma_encode_all_prepend(b0 as u32, spec_decode(rest));
                lemma_encode_layout(b0 as u32);
            } else {
                assert(spec_decode(seq![b0]) == seq![REPLACEMENT_CHAR_0X]);
                lemma_no_replacement_tail(REPLACEMENT_CHAR_0X, spec_decode(rest));
            }
        } else if s.len() >= 2 && !is_continuation(s[1]) {
            assert(is_broken_sequence(s.take(2)));
            assert(s == s.take(2) + s.skip(2));
            lemma_decode_after_broken(s.take(2), s.skip(2));
            lemma_no_replacement_tail(REPLACEMENT_CHAR_0X, spec_decode(s.skip(2)));
        } else if w >= 3 && s.len() >= 3 && !is_continuation(s[2]) {
            assert(is_broken_sequence(s.take(3)));
            assert(s == s.take(3) + s.skip(3));
            lemma_decode_after_broken(s.take(3), s.skip(3));
            lemma_no_replacement_tail(REPLACEMENT_CHAR_0X, spec_decode(s.skip(3)));
        } else if w == 4 && s.len() >= 4 && !is_continuation(s[3]) {
            assert(is_broken_sequence(s.take(4)));
            assert(s == s.take(4) + s.skip(4));
            lemma_decode_after_broken(s.take(4), s.skip(4));
            lemma_no_replacement_tail(REPLACEMENT_CHAR_0X, spec_decode(s.skip(4)));
        } else if s.len() < w {
            assert(is_truncated_sequence(s));
            lemma_decode_truncated(s);
            assert(spec_decode(s)[0] == REPLACEMENT_CHAR_0X);
        } else {
            let rest = s.skip(w);
            assert(s == s.take(w) + rest);
            let v: u32;
            if w == 2 {
                assert(s.take(2) == seq![s[0], s[1]]);
                lemma_decode_two_octets(s[0], s[1], rest);
                v = ((s[0] - 0xC0) * 64 + (s[1] - 0x80)) as u32;
            } else if w == 3 {
                assert(s.take(3) == seq![s[0], s[1], s[2]]);
                lemma_decode_three_octets(s[0], s[1], s[2], rest);
                v = ((s[0] - 0xE0) * 4096 + (s[1] - 0x80) * 64 + (s[2] - 0x80)) as u32;
            } else {
                assert(s.take(4) == seq![s[0], s[1], s[2], s[3]]);
                lemma_decode_four_octets(s[0], s[1], s[2], s[3], rest);
                v = ((s[0] - 0xF0) * 262144 + (s[1] - 0x80) * 4096 + (s[2] - 0x80) * 64 + (s[3]
                    - 0x80)) as u32;
            }
            let head = spec_decode(s.take(w));
            assert(head.len() == 1);
            assert(spec_decode(s) == seq![head[0]] + spec_decode(rest));
            lemma_no_replacement_tail(head[0], spec_decode(rest));
            assert(head[0] == v);
            assert(spec_encode(v) == s.take(w));
            lemma_decode_faithful(rest);
            lemma_encode_all_prepend(v, spec_decode(rest));
        }
    }
}

} // verus!
