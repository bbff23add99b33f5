//! Tests for the C integer literal decoder.

use qubit_codec_misc::{CIntegerLiteralCodec, MiscCodecError};

#[test]
fn test_decode_decimal_octal_and_hex_literals() {
    let codec = CIntegerLiteralCodec::new();

    assert_eq!(0, codec.decode("0").expect("zero should decode"));
    assert_eq!(123, codec.decode("123").expect("decimal should decode"));
    assert_eq!(83, codec.decode("0123").expect("octal should decode"));
    assert_eq!(0xbeef_c0de, codec.decode("0xBEEFC0DE").expect("hex should decode"));
    assert_eq!(0xbeef_c0de, codec.decode("0Xbeefc0de").expect("uppercase prefix should decode"));
}

#[test]
fn test_decode_trims_surrounding_ascii_and_unicode_whitespace() {
    let codec = CIntegerLiteralCodec::new();

    assert_eq!(42, codec.decode(" \t42\n").expect("ASCII whitespace should trim"));
    assert_eq!(42, codec.decode("\u{2003}42\u{2003}").expect("Unicode whitespace should trim"));
}

#[test]
fn test_decode_reports_invalid_digits_with_original_index() {
    let octal = CIntegerLiteralCodec::new().decode(" 09").expect_err("invalid octal digit should fail");
    assert!(matches!(octal, MiscCodecError::InvalidDigit { radix: 8, index: 2, character: '9' }));

    let hex = CIntegerLiteralCodec::new().decode(" 0xg").expect_err("invalid hex digit should fail");
    assert!(matches!(hex, MiscCodecError::InvalidDigit { radix: 16, index: 3, character: 'g' }));

    let decimal =
        CIntegerLiteralCodec::new().decode("+1").expect_err("signed literals are not supported");
    assert!(matches!(
        decimal,
        MiscCodecError::InvalidDigit { radix: 10, index: 0, character: '+' }
    ));
}

#[test]
fn test_decode_reports_empty_missing_digits_and_overflow() {
    let empty = CIntegerLiteralCodec::new().decode(" \t\n").expect_err("empty input should fail");
    assert!(matches!(empty, MiscCodecError::InvalidInput { codec: "c-integer-literal", .. }));

    let missing_hex =
        CIntegerLiteralCodec::new().decode("0x").expect_err("hex prefix without digits should fail");
    assert!(matches!(missing_hex, MiscCodecError::InvalidInput { codec: "c-integer-literal", .. }));

    let overflow = CIntegerLiteralCodec::new()
        .decode("18446744073709551616")
        .expect_err("overflow should fail");
    assert!(matches!(overflow, MiscCodecError::InvalidInput { codec: "c-integer-literal", .. }));
}

#[test]
fn test_c_integer_literal_codec_can_be_used_through_decoder_trait() {
    let codec = CIntegerLiteralCodec::new();
    let decoded = codec.decode("0x2a").expect("C integer literal should decode through trait");

    assert_eq!(42, decoded);
}

#[test]
fn test_c_integer_literal_edges() {
    let codec = CIntegerLiteralCodec::default();

    assert_eq!(u64::MAX, codec.decode("18446744073709551615").expect("largest decimal"));
    assert_eq!(u64::MAX, codec.decode("0xFFFFFFFFFFFFFFFF").expect("largest hex"));
    assert_eq!(u64::MAX, codec.decode("01777777777777777777777").expect("largest octal"));
    assert_eq!(0, codec.decode("00").expect("octal zero"));
    assert_eq!(7, codec.decode("\u{3000}\u{85}07\u{a0}\u{2029}").expect("Unicode spaces trim"));
    assert!(codec.decode("0x10000000000000000").is_err());
    match codec.decode("").expect_err("empty text") {
        MiscCodecError::InvalidInput { codec, reason } => {
            assert_eq!("c-integer-literal", codec);
            assert_eq!("expected at least one digit", reason);
        }
        other => panic!("unexpected error: {other:?}"),
    }
    match codec.decode("99999999999999999999").expect_err("overflow") {
        MiscCodecError::InvalidInput { reason, .. } => assert_eq!(
            "integer literal is out of range: number too large to fit in target type",
            reason
        ),
        other => panic!("unexpected error: {other:?}"),
    }
    match codec.decode("0X").expect_err("bare prefix") {
        MiscCodecError::InvalidInput { reason, .. } => {
            assert_eq!("hexadecimal literal requires at least one digit", reason)
        }
        other => panic!("unexpected error: {other:?}"),
    }
    assert!(matches!(
        codec.decode("\u{2003}12é"),
        Err(MiscCodecError::InvalidDigit { radix: 10, index: 5, character: 'é' })
    ));
    assert!(matches!(
        codec.decode("1 2"),
        Err(MiscCodecError::InvalidDigit { radix: 10, index: 1, character: ' ' })
    ));
    assert!(matches!(
        codec.decode("9z99999999999999999999"),
        Err(MiscCodecError::InvalidDigit { radix: 10, index: 1, character: 'z' })
    ));
}
