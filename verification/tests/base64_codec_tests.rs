//! Tests for Base64 encoding variants and Base64 error categories.

use qubit_codec_misc::{Base64Codec, Base64DecodeError, Base64ErrorKind, HexCodec, MiscCodecError};

#[test]
fn test_standard_base64_roundtrip_with_padding() {
    let codec = Base64Codec::standard();
    let encoded = codec.encode(b"hello world");

    assert_eq!("aGVsbG8gd29ybGQ=", encoded);
    assert_eq!(b"hello world".to_vec(), codec.decode(&encoded).expect("base64 should decode"));
}

#[test]
fn test_url_safe_base64_roundtrip_without_padding() {
    let codec = Base64Codec::url_safe_no_pad();
    let bytes = [0xfb, 0xff, 0xee, 0x00];
    let encoded = codec.encode(&bytes);

    assert_eq!("-__uAA", encoded);
    assert_eq!(bytes.to_vec(), codec.decode(&encoded).expect("url-safe base64 should decode"));
}

#[test]
fn test_base64_constructors_cover_padding_and_alphabet_variants() {
    assert_eq!("aGk", Base64Codec::standard_no_pad().encode(b"hi"));
    assert_eq!("++8=", Base64Codec::standard().encode(&[0xfb, 0xef]));
    assert_eq!("--8=", Base64Codec::url_safe().encode(&[0xfb, 0xef]));
    assert_eq!(
        b"hi".to_vec(),
        Base64Codec::standard_no_pad().decode("aGk").expect("standard no-pad base64 should decode")
    );
    assert_eq!(
        vec![0xfb, 0xef],
        Base64Codec::url_safe().decode("--8=").expect("url-safe padded base64 should decode")
    );
    assert_eq!(
        b"hi".to_vec(),
        Base64Codec::default().decode("aGk=").expect("default base64 should decode")
    );
}

#[test]
fn test_decode_rejects_invalid_base64() {
    let error = Base64Codec::standard().decode("not base64!").expect_err("invalid base64 should fail");

    assert!(matches!(error, MiscCodecError::InvalidInput { codec: "base64", .. }));
}

#[test]
fn test_base64_codec_can_be_used_through_traits() {
    let codec = Base64Codec::standard();
    let encoded = codec.encode(b"abc");
    let decoded = codec.decode(&encoded).expect("base64 decode should succeed");

    assert_eq!("YWJj", encoded);
    assert_eq!(b"abc".to_vec(), decoded);
}

#[test]
fn test_base64_error_kind_variants_are_distinct() {
    assert_ne!(Base64ErrorKind::InvalidByte, Base64ErrorKind::InvalidLength);
    assert_ne!(Base64ErrorKind::InvalidLastSymbol, Base64ErrorKind::InvalidPadding);
}

#[test]
fn test_decoder_trait_preserves_concrete_error_type() {
    let error = Base64Codec::standard().decode("@@@").expect_err("invalid base64 should fail");

    assert!(matches!(error, MiscCodecError::InvalidInput { codec: "base64", .. }));
}

#[test]
fn test_encoder_trait_dispatches_to_binary_codecs() {
    let bytes = [0xfb, 0xef];

    let hex = HexCodec::upper().encode(&bytes);
    let base64 = Base64Codec::url_safe().encode(&bytes);

    assert_eq!("FBEF", hex);
    assert_eq!("--8=", base64);
}

#[test]
fn test_base64_error_messages_come_from_the_engine() {
    let reason = |codec: Base64Codec, text: &str| match codec.decode(text) {
        Err(MiscCodecError::InvalidInput { codec: "base64", reason }) => reason,
        other => panic!("unexpected result: {other:?}"),
    };

    assert_eq!("Invalid symbol 32, offset 3.", reason(Base64Codec::standard(), "not base64!"));
    assert_eq!("Invalid padding", reason(Base64Codec::standard(), "aGk"));
    assert_eq!("Invalid padding", reason(Base64Codec::standard_no_pad(), "aGk="));
    assert_eq!("Invalid last symbol 108, offset 2.", reason(Base64Codec::standard(), "aGl="));
    assert_eq!("Invalid input length: 5", reason(Base64Codec::standard_no_pad(), "aGVsb"));
    assert_eq!("Invalid symbol 43, offset 0.", reason(Base64Codec::url_safe(), "++8="));
}

#[test]
fn test_base64_roundtrips_every_length_and_variant() {
    let codecs = [
        Base64Codec::standard(),
        Base64Codec::standard_no_pad(),
        Base64Codec::url_safe(),
        Base64Codec::url_safe_no_pad(),
    ];
    let data: Vec<u8> = (0..=255u8).rev().collect();
    for codec in codecs {
        for len in 0..10 {
            let encoded = codec.encode(&data[..len]);
            assert_eq!(data[..len].to_vec(), codec.decode(&encoded).expect("roundtrip"));
        }
    }
    assert_eq!(Base64Codec::default(), Base64Codec::standard());
    assert_ne!(Base64Codec::url_safe(), Base64Codec::standard());
}

#[test]
fn test_base64_error_kind_classifies_each_error() {
    let byte = Base64DecodeError::InvalidByte(3, 32);
    let length = Base64DecodeError::InvalidLength(5);
    let last = Base64DecodeError::InvalidLastSymbol(2, 108);
    let padding = Base64DecodeError::InvalidPadding;

    assert_eq!(Base64ErrorKind::InvalidByte, Base64ErrorKind::from_decode_error(&byte));
    assert_eq!(Base64ErrorKind::InvalidLength, Base64ErrorKind::from_decode_error(&length));
    assert_eq!(Base64ErrorKind::InvalidLastSymbol, Base64ErrorKind::from_decode_error(&last));
    assert_eq!(Base64ErrorKind::InvalidPadding, Base64ErrorKind::from_decode_error(&padding));
    assert_eq!(Some(3), Base64ErrorKind::input_index(&byte));
    assert_eq!(Some(2), Base64ErrorKind::input_index(&last));
    assert_eq!(None, Base64ErrorKind::input_index(&length));
    assert_eq!(Some(32), Base64ErrorKind::symbol(&byte));
    assert_eq!(Some(108), Base64ErrorKind::symbol(&last));
    assert_eq!(None, Base64ErrorKind::symbol(&padding));
    assert_eq!(Some(5), Base64ErrorKind::input_length(&length));
    assert_eq!(None, Base64ErrorKind::input_length(&byte));
}
