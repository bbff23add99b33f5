//! The usage examples of the project's documentation, as tests.

use qubit_codec_misc::{
    Base64Codec, CIntegerLiteralCodec, CStringLiteralCodec, FormUrlencodedCodec, HexByteCodec,
    HexCodec, MiscCodecError, PercentCodec,
};

#[test]
fn test_readme_hexadecimal_bytes() {
    let codec = HexCodec::upper().with_prefix("0x").with_separator(" ");

    let encoded = codec.encode(&[0x1f, 0x8b, 0x00, 0xff]);
    assert_eq!("0x1F 8B 00 FF", encoded);

    let decoded = codec.decode("0x1F 8B 00 FF").expect("hex text should decode");
    assert_eq!(vec![0x1f, 0x8b, 0x00, 0xff], decoded);
}

#[test]
fn test_readme_base64_bytes() {
    let codec = Base64Codec::standard();

    let encoded = codec.encode(b"hello");
    assert_eq!("aGVsbG8=", encoded);

    let decoded = codec.decode("aGVsbG8=").expect("Base64 text should decode");
    assert_eq!(b"hello".to_vec(), decoded);
}

#[test]
fn test_readme_url_safe_base64_without_padding() {
    let codec = Base64Codec::url_safe_no_pad();

    let encoded = codec.encode(&[251, 255, 239]);
    assert_eq!("-__v", encoded);

    let decoded = codec.decode("-__v").expect("URL-safe Base64 text should decode");
    assert_eq!(vec![251, 255, 239], decoded);
}

#[test]
fn test_readme_c_string_literal_bytes() {
    let codec = CStringLiteralCodec::new();

    let decoded = codec.decode(r"PK\003\004").expect("C string literal should decode");
    assert_eq!(b"PK\x03\x04".to_vec(), decoded);

    let encoded = codec.encode(&[0xd0, 0xcf, 0x11, 0xe0]);
    assert_eq!(r"\xD0\xCF\x11\xE0", encoded);
}

#[test]
fn test_readme_c_integer_literals() {
    let codec = CIntegerLiteralCodec::new();

    assert_eq!(123, codec.decode("123").expect("decimal should decode"));
    assert_eq!(83, codec.decode("0123").expect("octal should decode"));
    assert_eq!(0xbeef_c0de, codec.decode("0xBEEFC0DE").expect("hex should decode"));
}

#[test]
fn test_readme_percent_encoding_utf8_text() {
    let codec = PercentCodec::new();

    let encoded = codec.encode("a b/中");
    assert_eq!("a%20b%2F%E4%B8%AD", encoded);

    let decoded = codec.decode("a%20b%2F%E4%B8%AD").expect("percent-encoded text should decode");
    assert_eq!("a b/中", decoded);
}

#[test]
fn test_readme_form_url_encoding() {
    let codec = FormUrlencodedCodec::new();

    let encoded = codec.encode("name=Qubit Codec");
    assert_eq!("name%3DQubit+Codec", encoded);

    let decoded = codec.decode("name%3DQubit+Codec").expect("form-url-encoded text should decode");
    assert_eq!("name=Qubit Codec", decoded);
}

#[test]
fn test_readme_generic_encoding() {
    fn encode_payload(codec: &HexCodec, payload: &[u8]) -> Result<String, MiscCodecError> {
        Ok(codec.encode(payload))
    }

    let text = encode_payload(&HexCodec::new(), &[0xab, 0xcd]).expect("hex encoding should not fail");
    assert_eq!("abcd", text);
}

#[test]
fn test_form_and_percent_agree_without_plus() {
    for text in ["a%20b", "%E4%B8%AD", "plain", "%zz", "%4", "%FF"] {
        let form = FormUrlencodedCodec::new().decode(text).map_err(|e| e.to_string());
        let percent = PercentCodec::new().decode(text).map_err(|e| e.to_string());
        assert_eq!(form, percent, "input {text:?}");
    }
}

#[test]
fn test_hex_roundtrip_under_many_configurations() {
    let bytes: Vec<u8> = (0..=255u8).step_by(5).collect();
    for flags in 0..64u8 {
        let mut codec = HexCodec::new()
            .with_uppercase(flags & 1 != 0)
            .with_ignored_ascii_whitespace(flags & 16 != 0)
            .with_ignore_prefix_case(flags & 32 != 0);
        if flags & 2 != 0 {
            codec = codec.with_prefix("#");
        }
        if flags & 4 != 0 {
            codec = codec.with_byte_prefix("\\x");
        }
        if flags & 8 != 0 {
            codec = codec.with_separator(", ");
        }
        for len in [0, 1, 2, bytes.len()] {
            let encoded = codec.encode(&bytes[..len]);
            assert_eq!(bytes[..len].to_vec(), codec.decode(&encoded).expect("hex roundtrip"));
        }
    }
}

#[test]
fn test_hex_roundtrip_exception_for_whitespace_led_byte_prefix() {
    let codec = HexCodec::new().with_byte_prefix(" x").with_ignored_ascii_whitespace(true);
    let encoded = codec.encode(&[0x1f]);

    assert_eq!(" x1f", encoded);
    assert!(matches!(codec.decode(&encoded), Err(MiscCodecError::MissingPrefix { .. })));
    assert_eq!(Vec::<u8>::new(), codec.decode(&codec.encode(&[])).expect("empty roundtrip"));

    let strict = HexCodec::new().with_byte_prefix(" x");
    assert_eq!(vec![0x1f, 0x20], strict.decode(&strict.encode(&[0x1f, 0x20])).expect("roundtrip"));
    let unicode = HexCodec::upper().with_prefix("«").with_byte_prefix("é").with_separator("·");
    let bytes = [0x00, 0xab, 0xff];
    assert_eq!(bytes.to_vec(), unicode.decode(&unicode.encode(&bytes)).expect("roundtrip"));
}

#[test]
fn test_hex_ignored_whitespace_equals_stripped_text() {
    let codec = HexCodec::new().with_ignored_ascii_whitespace(true);
    for (text, stripped) in
        [("1f \n8B", "1f8B"), (" \t0a\r\x0cFF ", "0aFF"), ("1 f 2", "1f2"), ("1 g", "1g")]
    {
        let spaced = codec.decode(text);
        let plain = codec.decode(stripped);
        assert_eq!(spaced.is_ok(), plain.is_ok(), "input {text:?}");
        if let (Ok(a), Ok(b)) = (spaced, plain) {
            assert_eq!(a, b);
        }
    }
    assert_eq!(vec![0x1f, 0x8b], codec.decode("1f \n8B").expect("spaced hex decodes"));
}

#[test]
fn test_derived_defaults_match_constructors() {
    assert!(!HexByteCodec::default().is_uppercase());
    assert_eq!(HexByteCodec::new(), HexByteCodec::default());
    assert_eq!(CStringLiteralCodec::new(), CStringLiteralCodec::default());
    assert_eq!(PercentCodec::new(), PercentCodec::default());
    assert_eq!(FormUrlencodedCodec::new(), FormUrlencodedCodec::default());
    assert_eq!(CIntegerLiteralCodec::new(), CIntegerLiteralCodec::default());
}
