//! Decoding of UTF-8 octets into code points.
//!
//! The decoder reads one octet at a time and carries a small state from one
//! octet to the next; `decode_step` says what one octet does to that state
//! and which code points it emits.
use vstd::prelude::*;

use crate::REPLACEMENT_CHAR_0X;

verus! {

/// What the decoder carries from one octet to the next.
pub struct DecoderState {
    /// The bits of the code point gathered so far; 0 between sequences.
    pub acc: u32,
    /// The number of octets of the sequence in progress (2, 3 or 4). Between
    /// sequences it is not read: 0 at the start and after a broken sequence,
    /// else the width of the last sequence.
    pub width: u32,
    /// The number of continuation octets still expected.
    pub pending: u32,
}

/// The state before the first octet.
pub open spec fn initial_state() -> DecoderState {
    DecoderState { acc: 0, width: 0, pending: 0 }
}

/// A sequence in progress always expects fewer continuation octets than
/// its width, and its width is 2, 3 or 4; between sequences no bits are kept.
pub open spec fn state_wf(st: DecoderState) -> bool {
    &&& st.pending > 0 ==> 2 <= st.width <= 4 && st.pending < st.width
    &&& st.pending == 0 ==> st.acc == 0
}

/// How far a continuation octet is shifted, by the number of continuation
/// octets that were still expected when it came.
pub open spec fn continuation_shift(pending: u32) -> u32 {
    if pending == 1 {
        0
    } else if pending == 2 {
        6
    } else {
        12
    }
}

/// The code points that a sequence of `width` octets may encode without
/// being overlong or beyond U+10FFFF.
pub open spec fn in_width_range(cp: u32, width: u32) -> bool {
    if width == 2 {
        0x80 <= cp <= 0x7FF
    } else if width == 3 {
        0x800 <= cp <= 0xFFFF
    } else {
        0x10000 <= cp <= 0x10FFFF
    }
}

/// One octet `b` read in state `st`: the next state and the code points emitted.
pub open spec fn decode_step(st: DecoderState, b: u8) -> (DecoderState, Seq<u32>) {
    if st.pending > 0 {
        if b & 0xC0 != 0x80 {
            // not a continuation octet: the sequence is dropped, and so is this octet
            (initial_state(), seq![REPLACEMENT_CHAR_0X])
        } else {
            let acc = ((b as u32 & 0x3F) << continuation_shift(st.pending)) | st.acc;
            if st.pending > 1 {
                (DecoderState { acc, width: st.width, pending: (st.pending - 1) as u32 }, seq![])
            } else {
                let done = DecoderState { acc: 0, width: st.width, pending: 0 };
                if 0xD800 <= acc <= 0xDFFF {
                    (done, seq![REPLACEMENT_CHAR_0X])
                } else if in_width_range(acc, st.width) {
                    (done, seq![acc])
                } else {
                    (done, seq![REPLACEMENT_CHAR_0X])
                }
            }
        }
    } else if b & 0xE0 == 0xC0 {
        (DecoderState { acc: (((b & 0x1F) as u32) << 6) | st.acc, width: 2, pending: 1 }, seq![])
    } else if b & 0xF0 == 0xE0 {
        (DecoderState { acc: (((b & 0x1F) as u32) << 12) | st.acc, width: 3, pending: 2 }, seq![])
    } else if b & 0xF0 == 0xF0 {
        (DecoderState { acc: (((b & 0x0F) as u32) << 18) | st.acc, width: 4, pending: 3 }, seq![])
    } else if b < 0x80 {
        (st, seq![b as u32])
    } else {
        (st, seq![REPLACEMENT_CHAR_0X])
    }
}

/// The octets `s` read one by one from state `st`: the final state and all
/// code points emitted, in order.
pub open spec fn decode_run(st: DecoderState, s: Seq<u8>) -> (DecoderState, Seq<u32>)
    decreases s.len(),
{
    if s.len() == 0 {
        (st, seq![])
    } else {
        let prev = decode_run(st, s.drop_last());
        let next = decode_step(prev.0, s.last());
        (next.0, prev.1 + next.1)
    }
}

/// What decoding `s` yields: the code points emitted while reading it from
/// the initial state, and U+FFFD more when it ends inside a sequence.
pub open spec fn spec_decode(s: Seq<u8>) -> Seq<u32> {
    let end = decode_run(initial_state(), s);
    if end.0.pending > 0 {
        end.1.push(REPLACEMENT_CHAR_0X)
    } else {
        end.1
    }
}

/// One step keeps the state well formed.
pub proof fn lemma_step_wf(st: DecoderState, b: u8)
    requires
        state_wf(st),
    ensures
        state_wf(decode_step(st, b).0),
{
}

/// Reading any octets keeps the state well formed.
pub proof fn lemma_run_wf(st: DecoderState, s: Seq<u8>)
    requires
        state_wf(st),
    ensures
        state_wf(decode_run(st, s).0),
    decreases s.len(),
{
    if s.len() > 0 {
        lemma_run_wf(st, s.drop_last());
        lemma_step_wf(decode_run(st, s.drop_last()).0, s.last());
    }
}

/// Decodes UTF-8 octets into code points. "Lossy" because it does not fail on
/// an invalid sequence: each one yields U+FFFD.
pub fn utf8_decode_lossy(s: Vec<u8>) -> (res: Vec<u32>)
    ensures
        res@ == spec_decode(s@),
{
    let mut output: Vec<u32> = Vec::new();
    let mut curr_output: u32 = 0;
    let mut total_n_octets: u32 = 0;
    let mut continuing_octet: u32 = 0;
    let mut i: usize = 0;

    while i < s.len()
        invariant
            i <= s.len(),
            decode_run(initial_state(), s@.take(i as int)) == (
            DecoderState { acc: curr_output, width: total_n_octets, pending: continuing_octet },
            output@),
            state_wf(
                DecoderState { acc: curr_output, width: total_n_octets, pending: continuing_octet },
            ),
        decreases s.len() - i,
    {
        let b: u8 = s[i];
        proof {
            assert(s@.take(i + 1).drop_last() == s@.take(i as int));
            assert(s@.take(i + 1).last() == b);
        }
        if continuing_octet > 0 {
            if (b & 0b1100_0000) != 0b1000_0000 {
                // not a continuation octet
                output.push(REPLACEMENT_CHAR_0X);
                curr_output = 0;
                continuing_octet = 0;
                total_n_octets = 0;
            } else {
                let shift: u32 = if continuing_octet == 1 {
                    0
                } else if continuing_octet == 2 {
                    6
                } else {
                    12
                };
                let val: u32 = (b as u32 & 0b0011_1111) << shift;
                curr_output = val | curr_output;
                if continuing_octet > 1 {
                    continuing_octet = continuing_octet - 1;
                } else {
                    if 0xD800 <= curr_output && curr_output <= 0xDFFF {
                        output.push(REPLACEMENT_CHAR_0X);
                    } else {
                        let in_range: bool = if total_n_octets == 2 {
                            0x80 <= curr_output && curr_output <= 0x7FF
                        } else if total_n_octets == 3 {
                            0x800 <= curr_output && curr_output <= 0xFFFF
                        } else {
                            0x10000 <= curr_output && curr_output <= 0x10FFFF
                        };
                        if in_range {
                            output.push(curr_output);
                        } else {
                            output.push(REPLACEMENT_CHAR_0X);
                        }
                    }
                    curr_output = 0;
                    continuing_octet = continuing_octet - 1;
                }
            }
        } else {
            let n_octets: u8 = b & 0b1111_0000;
            if (b & 0b1110_0000) == 0b1100_0000 {
                let val: u32 = (b & 0b0001_1111) as u32;
                curr_output = (val << 6) | curr_output;
                continuing_octet = 1;
                total_n_octets = 2;
            } else if n_octets == 0b1110_0000 {
                let val: u32 = (b & 0b0001_1111) as u32;
                curr_output = (val << 12) | curr_output;
                continuing_octet = 2;
                total_n_octets = 3;
            } else if n_octets == 0b1111_0000 {
                let val: u32 = (b & 0b0000_1111) as u32;
                curr_output = (val << 18) | curr_output;
                continuing_octet = 3;
                total_n_octets = 4;
            } else if b < 0x80 {
                output.push(b as u32);
            } else {
                output.push(REPLACEMENT_CHAR_0X);
            }
        }
        i = i + 1;
    }
    proof {
        assert(s@.take(s@.len() as int) == s@);
    }
    // input that ends inside a sequence
    if continuing_octet > 0 {
        output.push(REPLACEMENT_CHAR_0X);
    }
    output
}

} // verus!
