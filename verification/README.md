# utf8_lossy

Lossy UTF-8 encoding (`utf8_encode_lossy`) and decoding (`utf8_decode_lossy`)
of Unicode code points, verified with Verus.

- `src/encode.rs`: `spec_encode`, the UTF-8 encoding of a code point (U+FFFD
  for a value that is not a scalar value), and the encoder proved against it.
- `src/decode.rs`: the decoder as a state machine over octets
  (`decode_step`, `decode_run`, `spec_decode`) and the decoder proved against it.
- `src/laws.rs`: proof functions relating the two: every scalar value, and
  every sequence of them, survives encoding and decoding; decoding restarts
  cleanly after a complete or a broken sequence; decoding yields only scalar
  values, at most one per octet and at least one per four octets; ASCII decodes
  to itself.
- `tests/`: executable tests of both functions.
