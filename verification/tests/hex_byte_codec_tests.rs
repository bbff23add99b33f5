//! Tests for the single-byte hexadecimal codec.

use qubit_codec_misc::{DecodeFailure, HexByteCodec, MiscCodecError};

fn invalid_source(failure: DecodeFailure) -> MiscCodecError {
    match failure {
        DecodeFailure::Invalid { source, .. } => source,
        other => panic!("expected invalid decode failure: {other:?}"),
    }
}

#[test]
fn test_hex_byte_codec_roundtrips_one_byte() {
    let codec = HexByteCodec::upper();
    let mut output = [0u8; 2];

    let (decoded, consumed) = codec.decode_unit(b"Af", 0).expect("single hex byte should decode");
    let written = codec.encode_unit(0xaf, &mut output, 0);

    assert_eq!(0xaf, decoded);
    assert_eq!(2, consumed);
    assert_eq!(2, written);
    assert_eq!(b"AF", &output);
    assert_eq!(2, HexByteCodec::MIN_UNITS_PER_VALUE);
    assert_eq!(2, HexByteCodec::MAX_ENCODE_UNITS_PER_VALUE);
    assert_eq!(2, HexByteCodec::MAX_DECODE_UNITS_PER_VALUE);
    assert!(codec.is_uppercase());
    assert!(!HexByteCodec::upper().with_uppercase(false).is_uppercase());
}

#[test]
fn test_hex_byte_codec_reports_digit_positions() {
    let codec = HexByteCodec::new();
    let high = codec.decode_unit(b"xf", 0).expect_err("invalid high hex digit should fail");
    let low = codec.decode_unit(b"fx", 0).expect_err("invalid low hex digit should fail");

    assert!(matches!(
        invalid_source(high),
        MiscCodecError::InvalidDigit { radix: 16, index: 0, character: 'x' }
    ));
    assert!(matches!(
        invalid_source(low),
        MiscCodecError::InvalidDigit { radix: 16, index: 1, character: 'x' }
    ));
}

#[test]
fn test_hex_byte_codec_lowercase_offsets_and_width() {
    let codec = HexByteCodec::new();
    let mut output = [0u8; 5];

    assert!(!codec.is_uppercase());
    assert_eq!(2, codec.encode_unit(0x3c, &mut output, 3));
    assert_eq!(&[0, 0, 0, b'3', b'c'], &output);
    assert_eq!((0x3c, 2), codec.decode_unit(b"zz3C", 2).expect("offset digits should decode"));
    match codec.decode_unit(b"..g0", 2).expect_err("invalid digit at offset") {
        DecodeFailure::Invalid { source, consumed } => {
            assert_eq!(Some(2), consumed);
            assert!(matches!(
                source,
                MiscCodecError::InvalidDigit { radix: 16, index: 2, character: 'g' }
            ));
        }
        other => panic!("unexpected failure: {other:?}"),
    }
}

#[test]
fn test_hex_byte_codec_roundtrips_every_byte() {
    for uppercase in [false, true] {
        let codec = HexByteCodec::new().with_uppercase(uppercase);
        for byte in 0..=255u8 {
            let mut output = [0u8; 2];
            codec.encode_unit(byte, &mut output, 0);
            assert_eq!((byte, 2), codec.decode_unit(&output, 0).expect("encoded byte decodes"));
        }
    }
}
