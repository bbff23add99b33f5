//! Tests for C string literal byte encoding and decoding.

use qubit_codec_misc::{CStringLiteralCodec, DecodeFailure, MiscCodecError};

fn invalid_source(failure: DecodeFailure) -> MiscCodecError {
    match failure {
        DecodeFailure::Invalid { source, .. } => source,
        other => panic!("expected invalid decode failure: {other:?}"),
    }
}

fn invalid_consumed(failure: DecodeFailure) -> Option<usize> {
    match failure {
        DecodeFailure::Invalid { consumed, .. } => consumed,
        DecodeFailure::Incomplete { .. } => None,
    }
}

fn incomplete_required(failure: DecodeFailure) -> usize {
    match failure {
        DecodeFailure::Incomplete { required_total } => required_total,
        other => panic!("expected incomplete decode failure: {other:?}"),
    }
}

/// Decodes a complete fragment one streaming unit at a time.
fn decode_complete_fragment_through_units(
    codec: &CStringLiteralCodec,
    input: &str,
) -> Result<Vec<u8>, MiscCodecError> {
    let mut output = Vec::with_capacity(input.len());
    let bytes = input.as_bytes();
    let mut input_index = 0;
    while input_index < bytes.len() {
        let (decoded, consumed) = codec.decode_unit(bytes, input_index).map_err(|failure| {
            match failure {
                DecodeFailure::Invalid { source, .. } => source,
                DecodeFailure::Incomplete { required_total } => MiscCodecError::Incomplete {
                    required: required_total,
                    available: bytes.len().saturating_sub(input_index),
                },
            }
        })?;
        output.push(decoded);
        input_index += consumed;
    }
    Ok(output)
}

#[test]
fn test_decode_plain_text_and_simple_escapes() {
    let codec = CStringLiteralCodec::new();

    assert_eq!(
        b"PK\x03\x04".to_vec(),
        codec.decode(r"PK\003\004").expect("mixed text and octal escapes should decode")
    );
    assert_eq!(
        b"line\nquote\"slash\\tab\tbell\x07backspace\x08".to_vec(),
        codec
            .decode(r#"line\nquote\"slash\\tab\tbell\abackspace\b"#)
            .expect("simple C escapes should decode")
    );
    assert_eq!(
        b"?'\x0b\x0c\r".to_vec(),
        codec.decode(r"\?\'\v\f\r").expect("remaining simple escapes should decode")
    );
    assert_eq!(
        b"<!DOCTYPE xbel".to_vec(),
        codec.decode(r"<!DOCTYPE\ xbel").expect("escaped space should match Java CStringLiteral")
    );
    assert_eq!(
        b"\t\n\x0b\x0c".to_vec(),
        codec
            .decode("\t\n\u{0b}\u{0c}")
            .expect("allowed raw whitespace source characters should decode")
    );
}

#[test]
fn test_decode_hex_octal_and_universal_escapes() {
    let codec = CStringLiteralCodec::new();

    assert_eq!(
        vec![0xd0, 0xcf, 0x11, 0xe0, 0xa1, 0xb1, 0x1a, 0xe1],
        codec.decode(r"\xd0\xcf\x11\xe0\xa1\xb1\x1a\xe1").expect("hex byte escapes should decode")
    );
    assert_eq!(
        vec![0x89, b'P', b'N', b'G', b'\r', b'\n', 0x1a, b'\n'],
        codec.decode(r"\211PNG\r\n\032\n").expect("freedesktop magic escapes should decode")
    );
    assert_eq!(
        b"A\"!".to_vec(),
        codec.decode(r"\x41\u0022\U00000021").expect("hex and universal byte escapes should decode")
    );
    assert_eq!(
        vec![0x01, b'Z'],
        codec.decode(r"\x1Z").expect("hex escape should consume at most two hex digits")
    );
    assert_eq!(
        vec![0x0a],
        codec.decode(r"\xA").expect("hex escape should allow one digit at end of input")
    );
    assert_eq!(
        vec![0x0b],
        codec.decode(r"\XB").expect("uppercase hex escape marker should decode")
    );
    assert_eq!(
        vec![0x07],
        codec.decode(r"\7").expect("short octal escape at end of input should decode")
    );
}

#[test]
fn test_decode_matches_java_c_string_literal_cases() {
    let codec = CStringLiteralCodec::new();

    assert_eq!(
        b"hello, world.".to_vec(),
        codec.decode("hello, world.").expect("plain Java fixture should decode")
    );
    assert_eq!(
        b"hello, \"world\".".to_vec(),
        codec.decode(r#"hello, \"world\"."#).expect("quoted Java fixture should decode")
    );
    assert_eq!(
        b"hello, \"world\".".to_vec(),
        codec.decode(r"hello, \x22world\x22.").expect("hex Java fixture should decode")
    );
    assert_eq!(
        b"hello, \"world\"@123.".to_vec(),
        codec.decode(r"hello, \42world\42\100123.").expect("octal Java fixture should decode")
    );
    assert_eq!(
        b"hello, \"world\".".to_vec(),
        codec
            .decode(r"hello, \u0022world\u0022.")
            .expect("short universal Java fixture should decode")
    );
    assert_eq!(
        b"hello, \"world\".".to_vec(),
        codec
            .decode(r"hello, \U00000022world\U00000022.")
            .expect("long universal Java fixture should decode")
    );
}

#[test]
fn test_decode_reports_invalid_escape_and_character_errors() {
    let trailing = CStringLiteralCodec::new()
        .decode(r"abc\")
        .expect_err("trailing escape marker should fail");
    assert!(matches!(trailing, MiscCodecError::InvalidEscape { index: 3, escape: _, reason: _ }));

    let invalid_escape =
        CStringLiteralCodec::new().decode(r"\z").expect_err("unsupported escape should fail");
    assert!(matches!(
        invalid_escape,
        MiscCodecError::InvalidEscape { index: 0, escape: _, reason: _ }
    ));

    let missing_hex_digit = CStringLiteralCodec::new()
        .decode(r"\xz")
        .expect_err("hex escape without digits should fail");
    assert!(matches!(
        missing_hex_digit,
        MiscCodecError::InvalidEscape { index: 0, escape: _, reason: _ }
    ));

    let incomplete_universal = CStringLiteralCodec::new()
        .decode(r"\u12")
        .expect_err("incomplete universal escape should fail");
    assert!(matches!(
        incomplete_universal,
        MiscCodecError::InvalidEscape { index: 0, escape: _, reason: _ }
    ));

    let invalid_universal_digit = CStringLiteralCodec::new()
        .decode(r"\u00zz")
        .expect_err("invalid universal escape digit should fail");
    assert!(matches!(
        invalid_universal_digit,
        MiscCodecError::InvalidDigit { radix: 16, index: 4, character: 'z' }
    ));

    let unicode = CStringLiteralCodec::new()
        .decode("snowman: ☃")
        .expect_err("non-ASCII source character should fail");
    assert!(matches!(
        unicode,
        MiscCodecError::InvalidCharacter { index: 9, character: '☃', .. }
    ));

    let oversized = CStringLiteralCodec::new()
        .decode(r"\u0100")
        .expect_err("universal byte escape must fit in one byte");
    assert!(matches!(oversized, MiscCodecError::InvalidEscape { index: 0, escape: _, reason: _ }));
}

#[test]
fn test_encode_uses_simple_escapes_and_hex_bytes() {
    let codec = CStringLiteralCodec::new();

    assert_eq!(
        r#"quote\"apos\'question\?slash\\line\n"#,
        codec.encode(b"quote\"apos'question?slash\\line\n")
    );
    assert_eq!(
        r"\xD0\xCF\x11\xE0\xA1\xB1\x1A\xE1",
        codec.encode(&[0xd0, 0xcf, 0x11, 0xe0, 0xa1, 0xb1, 0x1a, 0xe1])
    );
    assert_eq!(r"\a\b\f\r\t\v", codec.encode(&[0x07, 0x08, 0x0c, b'\r', b'\t', 0x0b]));
    assert_eq!("", codec.encode(&[]));
    assert_eq!(r"\x02\x05\x06\x17\x18\x19", codec.encode(&[0x02, 0x05, 0x06, 0x17, 0x18, 0x19]));
}

#[test]
fn test_c_string_literal_codec_can_be_used_through_traits() {
    let codec = CStringLiteralCodec::new();
    let encoded = codec.encode(b"PK\x03\x04");
    let decoded = codec.decode(&encoded).expect("C string literal decode should succeed");

    assert_eq!(r"PK\x03\x04", encoded);
    assert_eq!(b"PK\x03\x04".to_vec(), decoded);
}

#[test]
fn test_decode_matches_codec_trait_path_for_complete_fragments() {
    let codec = CStringLiteralCodec::new();
    let cases = [
        "",
        "plain text",
        r"PK\003\004",
        r#"quote\"apos\'question\?slash\\"#,
        r"\a\b\f\n\r\t\v",
        r"\xd0\xcf\x11\xe0\xa1\xb1\x1a\xe1",
        r"\x41\u0022\U00000021",
        r"\x1Z\7\377",
        "<!DOCTYPE\\ xbel",
    ];

    for input in cases {
        let owned =
            codec.decode(input).expect("owned C string literal decoder should accept fixture");
        let through_units = decode_complete_fragment_through_units(&codec, input)
            .expect("Codec trait path should accept fixture");

        assert_eq!(owned, through_units, "input {input:?}");
    }
}

#[test]
fn test_codec_trait_decodes_and_encodes_c_string_literal_byte() {
    let codec = CStringLiteralCodec::new();
    let mut escaped = [0u8; 4];
    let mut simple = [0u8; 2];

    let (decoded_hex, hex_units) =
        codec.decode_unit(br"\xD0", 0).expect("hex byte escape should decode");
    let (decoded_newline, newline_units) =
        codec.decode_unit(br"\n", 0).expect("simple escape should decode");
    let escaped_units = codec.encode_unit(0xd0, &mut escaped, 0);
    let simple_units = codec.encode_unit(b'\n', &mut simple, 0);

    assert_eq!(0xd0, decoded_hex);
    assert_eq!(4, hex_units);
    assert_eq!(b'\n', decoded_newline);
    assert_eq!(2, newline_units);
    assert_eq!(4, escaped_units);
    assert_eq!(br"\xD0", &escaped);
    assert_eq!(2, simple_units);
    assert_eq!(br"\n", &simple);
    assert_eq!(1, CStringLiteralCodec::MIN_UNITS_PER_VALUE);
    assert_eq!(4, CStringLiteralCodec::MAX_ENCODE_UNITS_PER_VALUE);
    assert_eq!(10, CStringLiteralCodec::MAX_DECODE_UNITS_PER_VALUE);
}

#[test]
fn test_codec_trait_decodes_available_c_string_literal_byte() {
    let codec = CStringLiteralCodec::new();

    let (decoded, consumed) = codec.decode_unit(br"A", 0).expect("raw C string byte should decode");
    assert_eq!(b'A', decoded);
    assert_eq!(1, consumed);

    let (decoded, consumed) =
        codec.decode_unit(br"\n", 0).expect("simple C escape should decode");
    assert_eq!(b'\n', decoded);
    assert_eq!(2, consumed);

    let (decoded, consumed) =
        codec.decode_unit_eof(br"\xA", 0).expect("EOF-closed hex escape should decode");
    assert_eq!(0x0a, decoded);
    assert_eq!(3, consumed);

    let (decoded, consumed) =
        codec.decode_unit(br"\xAG", 0).expect("terminated hex escape should decode");
    assert_eq!(0x0a, decoded);
    assert_eq!(3, consumed);

    let (decoded, consumed) =
        codec.decode_unit_eof(br"\12", 0).expect("EOF-closed octal escape should decode");
    assert_eq!(0o12, decoded);
    assert_eq!(3, consumed);

    let (decoded, consumed) =
        codec.decode_unit(br"\12G", 0).expect("terminated octal escape should decode");
    assert_eq!(0o12, decoded);
    assert_eq!(3, consumed);

    let malformed = codec.decode_unit(br"\z", 0).expect_err("unsupported C escape should fail");
    assert_eq!(Some(2), invalid_consumed(malformed));
    let malformed = codec.decode_unit(br"\z", 0).expect_err("unsupported C escape should fail");
    let malformed = invalid_source(malformed);
    assert!(matches!(malformed, MiscCodecError::InvalidEscape { index: 0, .. }));
}

#[test]
fn test_codec_trait_decodes_c_string_literal_escape_variants() {
    let codec = CStringLiteralCodec::new();
    let cases: &[(&[u8], u8, usize)] = &[
        (br"A", b'A', 1),
        (br"\ ", b' ', 2),
        (br"\'", b'\'', 2),
        (br#"\""#, b'"', 2),
        (br"\?", b'?', 2),
        (br"\\", b'\\', 2),
        (br"\a", 0x07, 2),
        (br"\b", 0x08, 2),
        (br"\f", 0x0c, 2),
        (br"\r", b'\r', 2),
        (br"\t", b'\t', 2),
        (br"\v", 0x0b, 2),
        (br"\x1Z", 0x01, 3),
        (br"\u0022", b'"', 6),
        (br"\U00000021", b'!', 10),
        (br"\377", 0xff, 4),
    ];

    for (input, expected, expected_units) in cases {
        let (decoded, consumed) = codec.decode_unit(input, 0).expect("C escape should decode");
        assert_eq!(*expected, decoded, "input {input:?}");
        assert_eq!(*expected_units, consumed, "input {input:?}");
    }

    for (input, expected, expected_units) in
        [(br"\xA" as &[u8], 0x0a, 3), (br"\7" as &[u8], 0x07, 2)]
    {
        let (decoded, consumed) =
            codec.decode_unit_eof(input, 0).expect("EOF C escape should decode");
        assert_eq!(expected, decoded, "input {input:?}");
        assert_eq!(expected_units, consumed, "input {input:?}");
    }
}

#[test]
fn test_codec_trait_reports_c_string_literal_byte_errors() {
    let codec = CStringLiteralCodec::new();
    let invalid_raw = codec.decode_unit(&[0xff], 0).expect_err("invalid raw byte should fail");
    let unsupported = codec.decode_unit(br"\z", 0).expect_err("unsupported escape should fail");
    let trailing_escape =
        codec.decode_unit(br"\", 0).expect_err("trailing escape should be incomplete");
    let short_hex_marker =
        codec.decode_unit(br"\x", 0).expect_err("short hex marker should be incomplete");
    let missing_hex = codec.decode_unit(br"\xz", 0).expect_err("missing hex digit should fail");
    let incomplete_universal =
        codec.decode_unit(br"\u12", 0).expect_err("incomplete universal escape should fail");
    let incomplete_hex =
        codec.decode_unit(br"\xA", 0).expect_err("extendable hex escape should be incomplete");
    let incomplete_octal =
        codec.decode_unit(br"\7", 0).expect_err("extendable octal escape should be incomplete");
    let invalid_universal_digit =
        codec.decode_unit(br"\u00zz", 0).expect_err("invalid universal digit should fail");
    let oversized_universal =
        codec.decode_unit(br"\u0100", 0).expect_err("oversized universal escape should fail");
    let eof_invalid =
        codec.decode_unit_eof(br"\z", 0).expect_err("EOF unsupported C escape should fail");

    let invalid_raw = invalid_source(invalid_raw);
    let unsupported = invalid_source(unsupported);
    let missing_hex = invalid_source(missing_hex);
    let invalid_universal_digit = invalid_source(invalid_universal_digit);
    let oversized_universal = invalid_source(oversized_universal);
    let eof_invalid = invalid_source(eof_invalid);
    assert!(matches!(invalid_raw, MiscCodecError::InvalidCharacter { index: 0, .. }));
    assert!(matches!(unsupported, MiscCodecError::InvalidEscape { index: 0, .. }));
    assert_eq!(2, incomplete_required(trailing_escape));
    assert_eq!(3, incomplete_required(short_hex_marker));
    assert!(matches!(missing_hex, MiscCodecError::InvalidEscape { index: 0, .. }));
    assert_eq!(6, incomplete_required(incomplete_universal));
    assert_eq!(4, incomplete_required(incomplete_hex));
    assert_eq!(3, incomplete_required(incomplete_octal));
    assert!(matches!(
        invalid_universal_digit,
        MiscCodecError::InvalidDigit { radix: 16, index: 4, character: 'z' }
    ));
    assert!(matches!(oversized_universal, MiscCodecError::InvalidEscape { index: 0, .. }));
    assert!(matches!(eof_invalid, MiscCodecError::InvalidEscape { index: 0, .. }));
}

#[test]
fn test_codec_trait_encodes_c_string_literal_escape_variants() {
    let codec = CStringLiteralCodec::new();
    let cases: &[(u8, &[u8])] = &[
        (b'A', b"A"),
        (b'\'', br"\'"),
        (b'"', br#"\""#),
        (b'?', br"\?"),
        (b'\\', br"\\"),
        (0x07, br"\a"),
        (0x08, br"\b"),
        (0x0c, br"\f"),
        (b'\r', br"\r"),
        (b'\t', br"\t"),
        (0x0b, br"\v"),
        (0xff, br"\xFF"),
    ];

    for (byte, expected) in cases {
        let mut output = [0u8; 4];
        let written = codec.encode_unit(*byte, &mut output, 0);
        assert_eq!(expected.len(), codec.encode_len(*byte));
        assert_eq!(*expected, &output[..written], "byte {byte:#04x}");
    }
}

#[test]
fn test_c_string_literal_roundtrip_of_every_byte() {
    let codec = CStringLiteralCodec::new();
    let all: Vec<u8> = (0..=255u8).collect();
    let encoded = codec.encode(&all);

    assert!(encoded.is_ascii());
    assert_eq!(all, codec.decode(&encoded).expect("encoded bytes should decode"));
}

#[test]
fn test_c_string_literal_error_details() {
    let trailing = CStringLiteralCodec::new().decode(r"abc\").expect_err("trailing escape");
    assert!(matches!(
        trailing,
        MiscCodecError::InvalidEscape { index: 3, ref escape, .. } if escape == "\\"
    ));
    let unicode = CStringLiteralCodec::new().decode("snowman: ☃").expect_err("non-ASCII");
    match unicode {
        MiscCodecError::InvalidCharacter { index, character, reason } => {
            assert_eq!(9, index);
            assert_eq!('☃', character);
            assert!(!reason.is_empty());
        }
        other => panic!("unexpected error: {other:?}"),
    }
}

/// Feeds encoded units to the streaming unit decoder in chunks of varying
/// width, waiting for more units whenever it asks for them.
fn decode_in_chunks(encoded: &[u8], chunk_seed: &[u8]) -> Vec<u8> {
    let codec = CStringLiteralCodec::new();
    let mut pending: Vec<u8> = Vec::new();
    let mut output = Vec::new();
    let mut offset = 0usize;
    let mut seed_index = 0usize;
    while offset < encoded.len() {
        let seed = chunk_seed.get(seed_index).copied().unwrap_or(1);
        seed_index += 1;
        let width = usize::from(seed % 5).max(1);
        let end = (offset + width).min(encoded.len());
        pending.extend_from_slice(&encoded[offset..end]);
        offset = end;
        while !pending.is_empty() {
            match codec.decode_unit(&pending, 0) {
                Ok((value, consumed)) => {
                    output.push(value);
                    pending.drain(..consumed);
                }
                Err(DecodeFailure::Incomplete { .. }) => break,
                Err(DecodeFailure::Invalid { .. }) => return output,
            }
        }
    }
    while !pending.is_empty() {
        match codec.decode_unit_eof(&pending, 0) {
            Ok((value, consumed)) => {
                output.push(value);
                pending.drain(..consumed);
            }
            Err(_) => break,
        }
    }
    output
}

#[test]
fn test_c_string_streaming_decode_in_chunks_roundtrips() {
    let codec = CStringLiteralCodec::new();
    let samples: [&[u8]; 5] = [
        b"",
        b"PK\x03\x04",
        b"quote\"apos'question?slash\\line\n\xd0\xcf",
        &[0x00, 0x7f, 0x80, 0xff, b'A', b'0', b'f'],
        &[0xaa; 17],
    ];
    for data in samples {
        let encoded = codec.encode(data);
        for seed in [&[1u8][..], &[2, 3, 4], &[4, 4, 1, 0, 3], data] {
            assert_eq!(data, decode_in_chunks(encoded.as_bytes(), seed).as_slice());
        }
    }
}

#[test]
fn test_streaming_unit_is_stable_under_appended_input() {
    let codec = CStringLiteralCodec::new();
    let inputs: [&[u8]; 9] =
        [b"A", br"\n", br"\x4", br"\x41", br"\u0041", br"\U00000041", br"\1", br"\12", br"\123"];
    for input in inputs {
        match codec.decode_unit(input, 0) {
            Ok((value, width)) => {
                assert!(1 <= width && width <= input.len());
                for suffix in [&b""[..], b"0", b"7f", b"zz"] {
                    let longer = [input, suffix].concat();
                    assert_eq!((value, width), codec.decode_unit(&longer, 0).expect("stable"));
                }
            }
            Err(DecodeFailure::Incomplete { required_total }) => {
                assert!(input.len() < required_total && required_total <= 10, "input {input:?}");
            }
            Err(other) => panic!("unexpected failure {other:?}"),
        }
    }
}

#[test]
fn test_streaming_unit_is_stable_under_more_input() {
    let codec = CStringLiteralCodec::new();
    let inputs: [&[u8]; 6] = [br"A", br"\n", br"\12G", br"\xAG", br"\x41\x42", br"\?"];
    let tails: [&[u8]; 3] = [b"", b"7", br"\x00zz"];
    for input in inputs {
        let first = codec.decode_unit(input, 0).expect("unit should decode");
        assert!(1 <= first.1 && first.1 <= input.len());
        for tail in tails {
            let longer = [input, tail].concat();
            assert_eq!(first, codec.decode_unit(&longer, 0).expect("longer input should decode"));
        }
    }

    for short in [&br"\"[..], br"\1", br"\12", br"\x", br"\x4"] {
        match codec.decode_unit(short, 0).expect_err("open escape should ask for more") {
            DecodeFailure::Incomplete { required_total } => {
                assert!(short.len() < required_total && required_total <= 10);
            }
            other => panic!("expected incomplete: {other:?}"),
        }
    }
}
