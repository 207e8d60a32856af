use utf8_lossy::{utf8_decode_lossy, utf8_encode_lossy, REPLACEMENT_CHAR_0X};

const R: u32 = REPLACEMENT_CHAR_0X;

fn is_scalar(cp: u32) -> bool {
    cp <= 0x10FFFF && !(0xD800..=0xDFFF).contains(&cp)
}

#[test]
fn encode_matches_std_for_scalar_values() {
    for cp in [0u32, 0x24, 0x7F, 0x80, 0xA2, 0x3FF, 0x400, 0x7FF, 0x800, 0x20AC, 0xD7FF, 0xE000, 0xFFFF, 0x10000, 0x10348, 0x10FFFF] {
        let c = char::from_u32(cp).unwrap();
        let mut buf = [0u8; 4];
        let expected = c.encode_utf8(&mut buf).as_bytes().to_vec();
        assert_eq!(utf8_encode_lossy(cp), expected, "code point {:x}", cp);
    }
}

#[test]
fn encode_invalid_is_replacement() {
    for cp in [0xD800u32, 0xDBFF, 0xDC00, 0xDFFF, 0x110000, 0x200000, u32::MAX] {
        assert_eq!(utf8_encode_lossy(cp), utf8_encode_lossy(0xFFFD));
        assert_eq!(utf8_encode_lossy(cp), vec![0xEF, 0xBF, 0xBD]);
    }
}

#[test]
fn encode_lengths() {
    assert_eq!(utf8_encode_lossy(0x7F).len(), 1);
    assert_eq!(utf8_encode_lossy(0x80).len(), 2);
    assert_eq!(utf8_encode_lossy(0x7FF).len(), 2);
    assert_eq!(utf8_encode_lossy(0x800).len(), 3);
    assert_eq!(utf8_encode_lossy(0xFFFF).len(), 3);
    assert_eq!(utf8_encode_lossy(0x10000).len(), 4);
    assert_eq!(utf8_encode_lossy(0x10FFFF).len(), 4);
    assert_eq!(utf8_encode_lossy(0x110000).len(), 3);
}

#[test]
fn roundtrip_single_code_points() {
    for cp in [0u32, 0x41, 0x7F, 0x80, 0x3FF, 0x800, 0x20AC, 0xFFFF, 0x10000, 0x10FFFF] {
        assert_eq!(utf8_decode_lossy(utf8_encode_lossy(cp)), vec![cp]);
    }
}

#[test]
fn roundtrip_two_octet_high_range() {
    // U+0400..=U+07FF start with the leading octets 0xD0..=0xDF
    assert_eq!(utf8_encode_lossy(0x400), vec![0xD0, 0x80]);
    assert_eq!(utf8_decode_lossy(vec![0xD0, 0x80]), vec![0x400]);
    assert_eq!(utf8_decode_lossy(vec![0xDF, 0xBF]), vec![0x7FF]);
    for cp in [0x400u32, 0x500, 0x5D0, 0x7FF] {
        assert_eq!(utf8_decode_lossy(utf8_encode_lossy(cp)), vec![cp]);
    }
}

#[test]
fn roundtrip_invalid_code_points() {
    assert_eq!(utf8_decode_lossy(utf8_encode_lossy(0xD800)), vec![R]);
    assert_eq!(utf8_decode_lossy(utf8_encode_lossy(0x110000)), vec![R]);
}

#[test]
fn roundtrip_sequence() {
    let cps = vec![0x68u32, 0xE9, 0x20AC, 0x1F600, 0x3FF, 0x430, 0x7FF, 0x10FFFF, 0x0];
    let bytes: Vec<u8> = cps.iter().flat_map(|&cp| utf8_encode_lossy(cp)).collect();
    assert_eq!(utf8_decode_lossy(bytes), cps);
}

#[test]
fn roundtrip_sequence_lossy() {
    let cps = vec![0x41u32, 0xD800, 0x500, 0x42];
    let bytes: Vec<u8> = cps.iter().flat_map(|&cp| utf8_encode_lossy(cp)).collect();
    assert_eq!(utf8_decode_lossy(bytes), vec![0x41, R, 0x500, 0x42]);
}

#[test]
fn decode_ascii_identity() {
    let bytes: Vec<u8> = (0u8..0x80).collect();
    let expected: Vec<u32> = (0u32..0x80).collect();
    assert_eq!(utf8_decode_lossy(bytes), expected);
}

#[test]
fn decode_output_scalar_and_bounded() {
    let inputs: Vec<Vec<u8>> = vec![
        vec![0xF7, 0xBF, 0xBF, 0xBF],
        vec![0xFF, 0x80, 0x80, 0x80],
        vec![0xED, 0xBF, 0xBF, 0xC0, 0x80, 0xE0],
        vec![0x80, 0x80, 0x80],
        vec![0xF4, 0x90, 0x80, 0x80],
    ];
    for input in inputs {
        let n = input.len();
        let out = utf8_decode_lossy(input);
        assert!(out.len() <= n);
        assert!(out.iter().all(|&cp| is_scalar(cp)));
    }
}

#[test]
fn decode_beyond_max_is_replacement() {
    // 0xF4 0x90 0x80 0x80 would be U+110000
    assert_eq!(utf8_decode_lossy(vec![0xF4, 0x90, 0x80, 0x80]), vec![R]);
    // 0xF8 leads a four-octet sequence whose value is out of range
    assert_eq!(utf8_decode_lossy(vec![0xF8, 0x80, 0x80, 0x80]), vec![R]);
}

#[test]
fn decode_invalid_continuation_consumes_octet() {
    // the non-continuation octet 0x41 is dropped together with the sequence
    assert_eq!(utf8_decode_lossy(vec![0xC2, 0x41, 0x42]), vec![R, 0x42]);
}

#[test]
fn decode_restarts_after_broken_sequence() {
    // the octets gathered before the break do not reach the next sequence
    assert_eq!(utf8_decode_lossy(vec![0xC3, 0x41, 0xC2, 0x80]), vec![R, 0x80]);
    assert_eq!(utf8_decode_lossy(vec![0xE0, 0xA0, 0x41, 0xC2, 0x80]), vec![R, 0x80]);
    assert_eq!(utf8_decode_lossy(vec![0xF0, 0x90, 0x80, 0x41, 0xE2, 0x82, 0xAC]), vec![R, 0x20AC]);
    // a surrogate at the end of a sequence
    assert_eq!(utf8_decode_lossy(vec![0xED, 0xA0, 0x80, 0xC2, 0x80]), vec![R, 0x80]);
}

#[test]
fn decode_well_formed_matches_std() {
    let text = "h\u{e9}llo \u{416}\u{44f} \u{7ff} \u{20ac} \u{1f600} \u{10ffff}";
    let expected: Vec<u32> = text.chars().map(|c| c as u32).collect();
    assert_eq!(utf8_decode_lossy(text.as_bytes().to_vec()), expected);
}

#[test]
fn decode_at_least_one_per_four_octets() {
    for input in [vec![0xF0u8, 0x90, 0x80, 0x80], vec![0xC2, 0x41], vec![0xF8, 0x80, 0x80, 0x80, 0xF8]] {
        let n = input.len();
        assert!(4 * utf8_decode_lossy(input).len() >= n);
    }
}
