//! Tests for complete Base64 quantum encoding and decoding.

use qubit_codec_misc::{Base64Codec, Base64QuantumCodec, DecodeFailure, MiscCodecError};

fn invalid_source(failure: DecodeFailure) -> MiscCodecError {
    match failure {
        DecodeFailure::Invalid { source, .. } => source,
        other => panic!("expected invalid decode failure: {other:?}"),
    }
}

fn invalid_consumed(failure: DecodeFailure) -> Option<usize> {
    match failure {
        DecodeFailure::Invalid { consumed, .. } => consumed,
        DecodeFailure::Incomplete { .. } => None,
    }
}

#[test]
fn test_base64_quantum_standard_roundtrip() {
    let codec = Base64QuantumCodec::standard();
    let mut output = [0u8; 4];

    let (decoded, consumed) = codec.decode_quantum(b"YWJj", 0).expect("base64 quantum should decode");
    let written = codec.encode_quantum(*b"abc", &mut output, 0);

    assert_eq!(*b"abc", decoded);
    assert_eq!(4, consumed);
    assert_eq!(4, written);
    assert_eq!(b"YWJj", &output);
}

#[test]
fn test_base64_quantum_url_safe_roundtrip() {
    let codec = Base64QuantumCodec::url_safe();
    let mut output = [0u8; 4];

    let (decoded, consumed) =
        codec.decode_quantum(b"-__u", 0).expect("URL-safe quantum should decode");
    let written = codec.encode_quantum([0xfb, 0xff, 0xee], &mut output, 0);

    assert_eq!([0xfb, 0xff, 0xee], decoded);
    assert_eq!(4, consumed);
    assert_eq!(4, written);
    assert_eq!(b"-__u", &output);
}

#[test]
fn test_base64_quantum_alphabet_and_errors() {
    let standard = Base64QuantumCodec::default();
    let url_safe = Base64QuantumCodec::url_safe();

    let (decoded, _) = standard.decode_quantum(b"++//", 0).expect("standard symbols should decode");
    assert_eq!([0xfb, 0xef, 0xff], decoded);

    let (decoded, _) = standard.decode_quantum(b"0123", 0).expect("digit symbols should decode");
    assert_eq!([0xd3, 0x5d, 0xb7], decoded);
    let invalid = url_safe.decode_quantum(b"@@@@", 0).expect_err("invalid Base64 quantum should fail");
    assert_eq!(Some(4), invalid_consumed(invalid));
    let invalid = url_safe.decode_quantum(b"@@@@", 0).expect_err("invalid Base64 quantum should fail");
    assert!(matches!(
        invalid_source(invalid),
        MiscCodecError::InvalidInput { codec: "base64-quantum", .. }
    ));
}

#[test]
fn test_base64_quantum_reports_invalid_units_at_each_position() {
    let invalid_inputs = [b"A@AA".as_slice(), b"AA@A", b"AAA@"];

    for input in invalid_inputs {
        let invalid = Base64QuantumCodec::standard()
            .decode_quantum(input, 0)
            .expect_err("invalid Base64 unit should fail");
        assert_eq!(Some(4), invalid_consumed(invalid));

        let invalid = Base64QuantumCodec::standard()
            .decode_quantum(input, 0)
            .expect_err("invalid Base64 unit should fail");
        assert!(matches!(
            invalid_source(invalid),
            MiscCodecError::InvalidInput { codec: "base64-quantum", .. }
        ));
    }
}

#[test]
fn test_base64_quantum_error_reason_names_unit_and_index() {
    let codec = Base64QuantumCodec::standard();
    let cases: [(&[u8], &str); 3] = [
        (b"xxA@AA", "invalid Base64 unit '@' at index 3"),
        (b"-AAA", "invalid Base64 unit '-' at index 0"),
        (b"AAA\xe9", "invalid Base64 unit '\u{e9}' at index 3"),
    ];
    for (input, expected) in cases {
        let start = input.len() - 4;
        match invalid_source(codec.decode_quantum(input, start).expect_err("invalid unit")) {
            MiscCodecError::InvalidInput { codec: "base64-quantum", reason } => {
                assert_eq!(expected, reason)
            }
            other => panic!("unexpected error: {other:?}"),
        }
    }
    assert!(Base64QuantumCodec::url_safe().decode_quantum(b"AA+A", 0).is_err());
    assert!(Base64QuantumCodec::standard().decode_quantum(b"AA_A", 0).is_err());
}

#[test]
fn test_base64_quantum_matches_engine_on_every_chunk() {
    for (quantum, engine) in [
        (Base64QuantumCodec::standard(), Base64Codec::standard()),
        (Base64QuantumCodec::url_safe(), Base64Codec::url_safe()),
    ] {
        for first in (0..=255u8).step_by(7) {
            let value = [first, first.wrapping_mul(31), !first];
            let mut output = [0u8; 4];
            quantum.encode_quantum(value, &mut output, 0);
            assert_eq!(engine.encode(&value).as_bytes(), &output);
            assert_eq!((value, 4), quantum.decode_quantum(&output, 0).expect("quantum decodes"));
        }
    }
}
