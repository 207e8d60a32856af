//! Properties that relate encoding and decoding, and that hold of every input.
use vstd::prelude::*;

use crate::decode::{
    decode_run, decode_step, initial_state, lemma_run_wf, spec_decode, state_wf, DecoderState,
};
use crate::encode::{replacement_octets, spec_encode};
use crate::{is_scalar_value, REPLACEMENT_CHAR_0X};

verus! {

/// What decoding the encoding of `cp` gives back: `cp` itself for a Unicode
/// scalar value, U+FFFD for anything else, which was encoded as U+FFFD.
pub open spec fn lossy_code_point(cp: u32) -> u32 {
    if is_scalar_value(cp) {
        cp
    } else {
        REPLACEMENT_CHAR_0X
    }
}

/// A state between two complete sequences: nothing pending, nothing gathered.
pub open spec fn is_clean(st: DecoderState) -> bool {
    st.pending == 0 && st.acc == 0
}

/// The encodings of `cps`, one after the other.
pub open spec fn encode_all(cps: Seq<u32>) -> Seq<u8>
    decreases cps.len(),
{
    if cps.len() == 0 {
        seq![]
    } else {
        encode_all(cps.drop_last()) + spec_encode(cps.last())
    }
}

pub(crate) proof fn lemma_run_push(st: DecoderState, s: Seq<u8>, b: u8)
    ensures
        decode_run(st, s.push(b)) == (
        decode_step(decode_run(st, s).0, b).0,
        decode_run(st, s).1 + decode_step(decode_run(st, s).0, b).1),
{
    assert(s.push(b).drop_last() == s);
}

/// Reading `a` then `b` is reading `a + b`.
pub proof fn lemma_run_concat(st: DecoderState, a: Seq<u8>, b: Seq<u8>)
    ensures
        decode_run(st, a + b) == (
        decode_run(decode_run(st, a).0, b).0,
        decode_run(st, a).1 + decode_run(decode_run(st, a).0, b).1),
    decreases b.len(),
{
    if b.len() == 0 {
        assert(a + b == a);
        assert(decode_run(st, a).1 + Seq::<u32>::empty() == decode_run(st, a).1);
    } else {
        lemma_run_concat(st, a, b.drop_last());
        assert((a + b).drop_last() == a + b.drop_last());
        assert((a + b).last() == b.last());
        let mid = decode_run(st, a);
        let rest = decode_run(mid.0, b.drop_last());
        let last = decode_step(rest.0, b.last());
        assert(mid.1 + rest.1 + last.1 == mid.1 + (rest.1 + last.1));
    }
}

pub(crate) proof fn lemma_run_one(st: DecoderState, b0: u8)
    ensures
        decode_run(st, seq![b0]) == decode_step(st, b0),
{
    lemma_run_push(st, seq![], b0);
    assert(seq![b0] == Seq::<u8>::empty().push(b0));
    assert(Seq::<u32>::empty() + decode_step(st, b0).1 == decode_step(st, b0).1);
}

/// Reading the encoding of `cp` from a clean state gives `lossy_code_point(cp)`
/// and ends in a clean state.
pub proof fn lemma_encoding_from_clean(st: DecoderState, cp: u32)
    requires
        is_clean(st),
    ensures
        decode_run(st, spec_encode(cp)).1 == seq![lossy_code_point(cp)],
        is_clean(decode_run(st, spec_encode(cp)).0),
{
    let e = spec_encode(cp);
    if !is_scalar_value(cp) {
        let b0 = 0xEFu8;
        let b1 = 0xBFu8;
        let b2 = 0xBDu8;
        assert(b0 & 0xE0 != 0xC0 && b0 & 0xF0 == 0xE0 && b1 & 0xC0 == 0x80 && b2 & 0xC0 == 0x80
            && (((b2 as u32 & 0x3F) << 0u32) | (((b1 as u32 & 0x3F) << 6u32) | (((b0 & 0x1F)
            as u32) << 12u32 | 0u32))) == 0xFFFD) by (bit_vector)
            requires
                b0 == 0xEFu8,
                b1 == 0xBFu8,
                b2 == 0xBDu8,
        ;
        lemma_run_one(st, b0);
        lemma_run_push(st, seq![b0], b1);
        lemma_run_push(st, seq![b0, b1], b2);
        assert(seq![b0].push(b1) == seq![b0, b1]);
        assert(seq![b0, b1].push(b2) == e);
    } else if cp <= 0x7F {
        let b0 = cp as u8;
        assert(b0 & 0xE0 != 0xC0 && b0 & 0xF0 != 0xE0 && b0 & 0xF0 != 0xF0 && b0 < 0x80 && b0
            as u32 == cp) by (bit_vector)
            requires
                cp <= 0x7F,
                b0 == cp as u8,
        ;
        lemma_run_one(st, b0);
    } else if cp <= 0x7FF {
        let b0 = (0xC0 | (cp >> 6)) as u8;
        let b1 = (0x80 | (cp & 0x3F)) as u8;
        assert(b0 & 0xE0 == 0xC0 && b1 & 0xC0 == 0x80 && (((b1 as u32 & 0x3F) << 0u32) | (((
        (b0 & 0x1F) as u32) << 6u32) | 0u32)) == cp) by (bit_vector)
            requires
                0x80 <= cp <= 0x7FF,
                b0 == (0xC0 | (cp >> 6)) as u8,
                b1 == (0x80 | (cp & 0x3F)) as u8,
        ;
        lemma_run_one(st, b0);
        lemma_run_push(st, seq![b0], b1);
        assert(seq![b0].push(b1) == e);
    } else if cp <= 0xFFFF {
        let b0 = (0xE0 | (cp >> 12)) as u8;
        let b1 = (0x80 | ((cp >> 6) & 0x3F)) as u8;
        let b2 = (0x80 | (cp & 0x3F)) as u8;
        assert(b0 & 0xE0 != 0xC0 && b0 & 0xF0 == 0xE0 && b1 & 0xC0 == 0x80 && b2 & 0xC0 == 0x80
            && (((b2 as u32 & 0x3F) << 0u32) | (((b1 as u32 & 0x3F) << 6u32) | (((b0 & 0x1F)
            as u32) << 12u32 | 0u32))) == cp) by (bit_vector)
            requires
                0x800 <= cp <= 0xFFFF,
                b0 == (0xE0 | (cp >> 12)) as u8,
                b1 == (0x80 | ((cp >> 6) & 0x3F)) as u8,
                b2 == (0x80 | (cp & 0x3F)) as u8,
        ;
        lemma_run_one(st, b0);
        lemma_run_push(st, seq![b0], b1);
        lemma_run_push(st, seq![b0, b1], b2);
        assert(seq![b0].push(b1) == seq![b0, b1]);
        assert(seq![b0, b1].push(b2) == e);
    } else {
        let b0 = (0xF0 | (cp >> 18)) as u8;
        let b1 = (0x80 | ((cp >> 12) & 0x3F)) as u8;
        let b2 = (0x80 | ((cp >> 6) & 0x3F)) as u8;
        let b3 = (0x80 | (cp & 0x3F)) as u8;
        assert(b0 & 0xE0 != 0xC0 && b0 & 0xF0 == 0xF0 && b1 & 0xC0 == 0x80 && b2 & 0xC0 == 0x80
            && b3 & 0xC0 == 0x80 && (((b3 as u32 & 0x3F) << 0u32) | (((b2 as u32 & 0x3F)
            << 6u32) | (((b1 as u32 & 0x3F) << 12u32) | (((b0 & 0x0F) as u32) << 18u32
            | 0u32)))) == cp) by (bit_vector)
            requires
                0x10000 <= cp <= 0x10FFFF,
                b0 == (0xF0 | (cp >> 18)) as u8,
                b1 == (0x80 | ((cp >> 12) & 0x3F)) as u8,
                b2 == (0x80 | ((cp >> 6) & 0x3F)) as u8,
                b3 == (0x80 | (cp & 0x3F)) as u8,
        ;
        lemma_run_one(st, b0);
        lemma_run_push(st, seq![b0], b1);
        lemma_run_push(st, seq![b0, b1], b2);
        lemma_run_push(st, seq![b0, b1, b2], b3);
        assert(seq![b0].push(b1) == seq![b0, b1]);
        assert(seq![b0, b1].push(b2) == seq![b0, b1, b2]);
        assert(seq![b0, b1, b2].push(b3) == e);
    }
}

/// Decoding the encoding of any `cp` gives back `cp` when it is a Unicode
/// scalar value, and U+FFFD otherwise.
pub proof fn lemma_decode_encode(cp: u32)
    ensures
        spec_decode(spec_encode(cp)) == seq![lossy_code_point(cp)],
        is_scalar_value(cp) ==> spec_decode(spec_encode(cp)) == seq![cp],
{
    lemma_encoding_from_clean(initial_state(), cp);
}

proof fn lemma_run_encode_all(cps: Seq<u32>)
    ensures
        decode_run(initial_state(), encode_all(cps)).1 == cps.map_values(
            |cp: u32| lossy_code_point(cp),
        ),
        is_clean(decode_run(initial_state(), encode_all(cps)).0),
    decreases cps.len(),
{
    if cps.len() > 0 {
        let front = encode_all(cps.drop_last());
        lemma_run_encode_all(cps.drop_last());
        lemma_run_concat(initial_state(), front, spec_encode(cps.last()));
        lemma_encoding_from_clean(decode_run(initial_state(), front).0, cps.last());
        assert(cps.map_values(|cp: u32| lossy_code_point(cp)) == cps.drop_last().map_values(
            |cp: u32| lossy_code_point(cp),
        ) + seq![lossy_code_point(cps.last())]);
    }
}

/// Decoding the encodings of `cps`, one after the other, gives back each code
/// point that is a Unicode scalar value, and U+FFFD for each other value.
pub proof fn lemma_decode_encode_all(cps: Seq<u32>)
    ensures
        spec_decode(encode_all(cps)) == cps.map_values(|cp: u32| lossy_code_point(cp)),
{
    lemma_run_encode_all(cps);
}

/// Well-formed UTF-8, the encodings of scalar values one after the other,
/// decodes to exactly those scalar values, and encoding them again gives the
/// same octets.
pub proof fn lemma_roundtrip(cps: Seq<u32>)
    requires
        forall|i: int| 0 <= i < cps.len() ==> is_scalar_value(#[trigger] cps[i]),
    ensures
        spec_decode(encode_all(cps)) == cps,
        encode_all(spec_decode(encode_all(cps))) == encode_all(cps),
{
    lemma_decode_encode_all(cps);
    assert(cps.map_values(|cp: u32| lossy_code_point(cp)) =~= cps);
}

/// A value that is not a Unicode scalar value is encoded as U+FFFD is.
pub proof fn lemma_encode_invalid(cp: u32)
    requires
        !is_scalar_value(cp),
    ensures
        spec_encode(cp) == spec_encode(REPLACEMENT_CHAR_0X),
        spec_encode(cp) == replacement_octets(),
{
    assert(spec_encode(REPLACEMENT_CHAR_0X) == replacement_octets()) by {
        let cp2 = REPLACEMENT_CHAR_0X;
        assert(((0xE0 | (cp2 >> 12)) as u8) == 0xEFu8 && ((0x80 | ((cp2 >> 6) & 0x3F)) as u8)
            == 0xBFu8 && ((0x80 | (cp2 & 0x3F)) as u8) == 0xBDu8) by (bit_vector)
            requires
                cp2 == 0xFFFDu32,
        ;
    }
}

/// The encoding of a scalar value takes one octet up to U+007F, two up to
/// U+07FF, three up to U+FFFF and four above; anything else takes three.
pub proof fn lemma_encode_len(cp: u32)
    ensures
        spec_encode(cp).len() == (if !is_scalar_value(cp) {
            3int
        } else if cp <= 0x7F {
            1int
        } else if cp <= 0x7FF {
            2int
        } else if cp <= 0xFFFF {
            3int
        } else {
            4int
        }),
{
}

/// One step emits at most one code point, and at most none when it leaves a
/// sequence in progress.
proof fn lemma_step_len(st: DecoderState, b: u8)
    ensures
        decode_step(st, b).1.len() + (if decode_step(st, b).0.pending > 0 {
            1int
        } else {
            0int
        }) <= 1 + (if st.pending > 0 {
            1int
        } else {
            0int
        }),
{
}

proof fn lemma_run_len(s: Seq<u8>)
    ensures
        decode_run(initial_state(), s).1.len() + (if decode_run(initial_state(), s).0.pending
            > 0 {
            1int
        } else {
            0int
        }) <= s.len(),
    decreases s.len(),
{
    if s.len() > 0 {
        lemma_run_len(s.drop_last());
        lemma_step_len(decode_run(initial_state(), s.drop_last()).0, s.last());
    }
}

/// Decoding never yields more code points than there are octets.
pub proof fn lemma_decode_len(s: Seq<u8>)
    ensures
        spec_decode(s).len() <= s.len(),
{
    lemma_run_len(s);
}

proof fn lemma_run_scalar(s: Seq<u8>)
    ensures
        forall|i: int|
            0 <= i < decode_run(initial_state(), s).1.len() ==> is_scalar_value(
                #[trigger] decode_run(initial_state(), s).1[i],
            ),
    decreases s.len(),
{
    if s.len() > 0 {
        lemma_run_scalar(s.drop_last());
        let prev = decode_run(initial_state(), s.drop_last());
        let next = decode_step(prev.0, s.last());
        assert(forall|i: int| 0 <= i < next.1.len() ==> is_scalar_value(#[trigger] next.1[i]));
        assert forall|i: int| 0 <= i < prev.1.len() + next.1.len() implies is_scalar_value(
            #[trigger] (prev.1 + next.1)[i],
        ) by {
            if i < prev.1.len() {
                assert((prev.1 + next.1)[i] == prev.1[i]);
            } else {
                assert((prev.1 + next.1)[i] == next.1[i - prev.1.len()]);
            }
        }
    }
}

/// Every code point that decoding yields is a Unicode scalar value: what
/// cannot be decoded becomes U+FFFD.
pub proof fn lemma_decode_yields_scalar_values(s: Seq<u8>)
    ensures
        forall|i: int| 0 <= i < spec_decode(s).len() ==> is_scalar_value(#[trigger] spec_decode(s)[i]),
{
    lemma_run_scalar(s);
}

proof fn lemma_run_ascii(s: Seq<u8>)
    requires
        forall|i: int| 0 <= i < s.len() ==> #[trigger] s[i] < 0x80,
    ensures
        decode_run(initial_state(), s) == (initial_state(), s.map_values(|b: u8| b as u32)),
    decreases s.len(),
{
    if s.len() > 0 {
        let front = s.drop_last();
        assert forall|i: int| 0 <= i < front.len() implies #[trigger] front[i] < 0x80 by {
            assert(front[i] == s[i]);
        }
        lemma_run_ascii(front);
        let b = s.last();
        assert(s[s.len() - 1] < 0x80);
        assert(b & 0xE0 != 0xC0 && b & 0xF0 != 0xE0 && b & 0xF0 != 0xF0) by (bit_vector)
            requires
                b < 0x80,
        ;
        assert(s.map_values(|b: u8| b as u32) == front.map_values(|b: u8| b as u32).push(
            b as u32,
        ));
    }
}

/// Decoding ASCII octets gives each octet back as a code point.
pub proof fn lemma_decode_ascii(s: Seq<u8>)
    requires
        forall|i: int| 0 <= i < s.len() ==> #[trigger] s[i] < 0x80,
    ensures
        spec_decode(s) == s.map_values(|b: u8| b as u32),
{
    lemma_run_ascii(s);
}

/// Two states that differ at most in a width that neither reads.
pub open spec fn same_but_width(s1: DecoderState, s2: DecoderState) -> bool {
    &&& s1.acc == s2.acc
    &&& s1.pending == s2.pending
    &&& s1.pending > 0 ==> s1.width == s2.width
}

proof fn lemma_run_same_but_width(s1: DecoderState, s2: DecoderState, s: Seq<u8>)
    requires
        same_but_width(s1, s2),
    ensures
        same_but_width(decode_run(s1, s).0, decode_run(s2, s).0),
        decode_run(s1, s).1 == decode_run(s2, s).1,
    decreases s.len(),
{
    if s.len() > 0 {
        lemma_run_same_but_width(s1, s2, s.drop_last());
    }
}

/// Input read up to the end of a sequence (nothing pending) can be decoded on
/// its own: decoding `a + b` is decoding `a`, then decoding `b` afresh.
pub proof fn lemma_decode_split(a: Seq<u8>, b: Seq<u8>)
    requires
        decode_run(initial_state(), a).0.pending == 0,
    ensures
        spec_decode(a + b) == spec_decode(a) + spec_decode(b),
{
    let mid = decode_run(initial_state(), a).0;
    lemma_run_wf(initial_state(), a);
    lemma_run_concat(initial_state(), a, b);
    lemma_run_same_but_width(mid, initial_state(), b);
    let tail = decode_run(initial_state(), b);
    if tail.0.pending > 0 {
        assert(decode_run(initial_state(), a).1 + tail.1.push(REPLACEMENT_CHAR_0X) == (
        decode_run(initial_state(), a).1 + tail.1).push(REPLACEMENT_CHAR_0X));
    }
}

/// Well-formed UTF-8 followed by anything: its scalar values come out first,
/// then the decoding of the rest, as if decoded alone.
pub proof fn lemma_decode_after_well_formed(cps: Seq<u32>, b: Seq<u8>)
    requires
        forall|i: int| 0 <= i < cps.len() ==> is_scalar_value(#[trigger] cps[i]),
    ensures
        spec_decode(encode_all(cps) + b) == cps + spec_decode(b),
{
    lemma_run_encode_all(cps);
    lemma_decode_split(encode_all(cps), b);
    lemma_roundtrip(cps);
}

/// A continuation octet: 0b10xx_xxxx.
pub open spec fn is_continuation(b: u8) -> bool {
    b & 0xC0 == 0x80
}

/// The number of octets that a leading octet announces, or 0 for an octet
/// that leads no sequence of two or more. The octets 0xF8..=0xFF, which no
/// well-formed sequence starts with, are taken to announce four octets, as
/// 0xF0..=0xF7 do: such a sequence never yields a code point.
pub open spec fn lead_width(b: u8) -> int {
    if b & 0xE0 == 0xC0 {
        2
    } else if b & 0xF0 == 0xE0 {
        3
    } else if b & 0xF0 == 0xF0 {
        4
    } else {
        0
    }
}

/// A sequence cut short: a leading octet, fewer continuation octets than it
/// announces, then an octet that is not a continuation octet.
pub open spec fn is_broken_sequence(a: Seq<u8>) -> bool {
    &&& 2 <= a.len() <= lead_width(a[0])
    &&& forall|i: int| 1 <= i < a.len() - 1 ==> is_continuation(#[trigger] a[i])
    &&& !is_continuation(a.last())
}

/// A sequence cut short by the end of the input: a leading octet and fewer
/// continuation octets than it announces.
pub open spec fn is_truncated_sequence(a: Seq<u8>) -> bool {
    &&& 1 <= a.len() < lead_width(a[0])
    &&& forall|i: int| 1 <= i < a.len() ==> is_continuation(#[trigger] a[i])
}

proof fn lemma_partial_sequence(a: Seq<u8>, k: int)
    requires
        1 <= k <= a.len(),
        k < lead_width(a[0]),
        forall|i: int| 1 <= i < k ==> is_continuation(#[trigger] a[i]),
    ensures
        decode_run(initial_state(), a.take(k)).1 == Seq::<u32>::empty(),
        decode_run(initial_state(), a.take(k)).0.pending == lead_width(a[0]) - k,
        decode_run(initial_state(), a.take(k)).0.width == lead_width(a[0]),
    decreases k,
{
    let b0 = a[0];
    if k == 1 {
        assert(a.take(1) == seq![b0]);
        lemma_run_one(initial_state(), b0);
        assert(b0 & 0xF0 == 0xE0 ==> b0 & 0xE0 != 0xC0) by (bit_vector);
    } else {
        lemma_partial_sequence(a, k - 1);
        assert(a.take(k) == a.take(k - 1).push(a[k - 1]));
        lemma_run_push(initial_state(), a.take(k - 1), a[k - 1]);
        assert(is_continuation(a[k - 1]));
    }
}

/// A broken sequence decodes to one U+FFFD, and decoding starts afresh after
/// it: decoding `a + b` is U+FFFD followed by the decoding of `b`.
pub proof fn lemma_decode_after_broken(a: Seq<u8>, b: Seq<u8>)
    requires
        is_broken_sequence(a),
    ensures
        spec_decode(a) == seq![REPLACEMENT_CHAR_0X],
        spec_decode(a + b) == seq![REPLACEMENT_CHAR_0X] + spec_decode(b),
{
    let n = a.len();
    lemma_partial_sequence(a, n - 1);
    assert(a == a.take(n - 1).push(a.last()));
    lemma_run_push(initial_state(), a.take(n - 1), a.last());
    assert(decode_run(initial_state(), a).1 == seq![REPLACEMENT_CHAR_0X]);
    lemma_decode_split(a, b);
}

/// Input that ends inside a sequence decodes to one U+FFFD for it.
pub proof fn lemma_decode_truncated(a: Seq<u8>)
    requires
        is_truncated_sequence(a),
    ensures
        spec_decode(a) == seq![REPLACEMENT_CHAR_0X],
{
    lemma_partial_sequence(a, a.len() as int);
    assert(a.take(a.len() as int) == a);
    assert(Seq::<u32>::empty().push(REPLACEMENT_CHAR_0X) == seq![REPLACEMENT_CHAR_0X]);
}

/// An octet 0x80..=0xBF read between sequences, continuing nothing, yields
/// U+FFFD, and decoding goes on afresh after it.
pub proof fn lemma_decode_stray_continuation(a: Seq<u8>, b: u8, c: Seq<u8>)
    requires
        decode_run(initial_state(), a).0.pending == 0,
        0x80 <= b <= 0xBF,
    ensures
        spec_decode(a + seq![b] + c) == spec_decode(a) + seq![REPLACEMENT_CHAR_0X] + spec_decode(c),
{
    lemma_run_one(initial_state(), b);
    assert(b & 0xE0 != 0xC0 && b & 0xF0 != 0xE0 && b & 0xF0 != 0xF0) by (bit_vector)
        requires
            0x80 <= b <= 0xBF,
    ;
    lemma_run_concat(initial_state(), a, seq![b]);
    lemma_run_wf(initial_state(), a);
    lemma_run_same_but_width(decode_run(initial_state(), a).0, initial_state(), seq![b]);
    lemma_decode_split(a + seq![b], c);
    lemma_decode_split(a, seq![b]);
}

/// A sequence in progress has read `width - pending` octets, at most three.
spec fn octets_held(st: DecoderState) -> int {
    if st.pending > 0 {
        st.width - st.pending
    } else {
        0
    }
}

proof fn lemma_run_len_lower(s: Seq<u8>)
    ensures
        4 * decode_run(initial_state(), s).1.len() + octets_held(decode_run(initial_state(), s).0)
            >= s.len(),
        state_wf(decode_run(initial_state(), s).0),
    decreases s.len(),
{
    lemma_run_wf(initial_state(), s);
    if s.len() > 0 {
        lemma_run_len_lower(s.drop_last());
    }
}

/// Decoding yields at least one code point for every four octets.
pub proof fn lemma_decode_len_lower(s: Seq<u8>)
    ensures
        4 * spec_decode(s).len() >= s.len(),
{
    lemma_run_len_lower(s);
}

} // verus!
