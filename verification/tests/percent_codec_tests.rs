//! Tests for percent and form-url-encoded text codecs.

use qubit_codec_misc::{DecodeFailure, FormUrlencodedCodec, MiscCodecError, PercentCodec};

fn invalid_source(failure: DecodeFailure) -> MiscCodecError {
    match failure {
        DecodeFailure::Invalid { source, .. } => source,
        other => panic!("expected invalid decode failure: {other:?}"),
    }
}

fn invalid_consumed(failure: DecodeFailure) -> Option<usize> {
    match failure {
        DecodeFailure::Invalid { consumed, .. } => consumed,
        DecodeFailure::Incomplete { .. } => None,
    }
}

fn incomplete_required(failure: DecodeFailure) -> usize {
    match failure {
        DecodeFailure::Incomplete { required_total } => required_total,
        other => panic!("expected incomplete decode failure: {other:?}"),
    }
}

#[test]
fn test_percent_codec_encodes_utf8_and_leaves_unreserved_ascii() {
    let codec = PercentCodec::new();

    assert_eq!("a-z_A.Z~0%201%2F%E4%B8%AD", codec.encode("a-z_A.Z~0 1/中"));
    assert_eq!("%01%09%1C", codec.encode("\u{0001}\t\u{001c}"));
}

#[test]
fn test_percent_codec_decodes_utf8_text() {
    let decoded = PercentCodec::new()
        .decode("a%20b%2Fc%E4%B8%AD")
        .expect("percent text should decode");

    assert_eq!("a b/c中", decoded);
}

#[test]
fn test_percent_codec_default_and_trait_methods() {
    let codec = PercentCodec;
    let encoded = codec.encode("a b");
    let decoded = codec.decode(&encoded).expect("percent decode should succeed");

    assert_eq!("a%20b", encoded);
    assert_eq!("a b", decoded);
}

#[test]
fn test_complete_percent_decode_exposes_format_error_not_stream_state() {
    assert!(matches!(
        PercentCodec::new().decode("%"),
        Err(MiscCodecError::InvalidEscape { index: 0, .. })
    ));
}

#[test]
fn test_percent_policy_regressions_are_covered_by_public_form_tests() {
    assert_eq!("*%7E", FormUrlencodedCodec::new().encode("*~"));
}

#[test]
fn test_percent_codec_reports_bad_escape_and_utf8() {
    // Complete-text decoding reports an escape cut short by the end of the
    // text as `InvalidEscape`, as `test_complete_percent_decode_exposes_format_error_not_stream_state`
    // also expects; an `Incomplete` error here would contradict the decoder.
    let short = PercentCodec::new().decode("abc%").expect_err("truncated escape should fail");
    assert!(matches!(short, MiscCodecError::InvalidEscape { index: 3, escape: _, reason: _ }));

    let bad_hex = PercentCodec::new().decode("%zz").expect_err("bad hex escape should fail");
    assert!(matches!(bad_hex, MiscCodecError::InvalidEscape { index: 0, escape: _, reason: _ }));

    let bad_low_hex = PercentCodec::new().decode("%0z").expect_err("bad low hex digit should fail");
    assert!(matches!(
        bad_low_hex,
        MiscCodecError::InvalidEscape { index: 0, escape: _, reason: _ }
    ));

    let bad_utf8 = PercentCodec::new().decode("%FF").expect_err("invalid utf-8 should fail");
    assert!(matches!(bad_utf8, MiscCodecError::InvalidUtf8 { .. }));
}

#[test]
fn test_percent_codec_reports_truncated_escape_text() {
    let truncated = PercentCodec::new().decode("abc%4").expect_err("truncated escape should fail");
    match truncated {
        MiscCodecError::InvalidEscape { index, escape, reason } => {
            assert_eq!(3, index);
            assert_eq!("%4", escape);
            assert_eq!("expected two hexadecimal digits", reason);
        }
        other => panic!("unexpected error {other:?}"),
    }
}

#[test]
fn test_percent_codec_roundtrips_text() {
    let codec = PercentCodec::new();
    for text in ["", "a b/中", "100% ~_.-", "\u{1F600}+"] {
        assert_eq!(text, codec.decode(&codec.encode(text)).expect("roundtrip"));
    }
    let form = FormUrlencodedCodec::new();
    for text in ["", "a b+c", "name=Qubit Codec", "上海*~"] {
        assert_eq!(text, form.decode(&form.encode(text)).expect("roundtrip"));
    }
}

#[test]
fn test_codec_trait_decodes_and_encodes_percent_byte() {
    let codec = PercentCodec::new();
    let mut escaped = [0u8; 3];
    let mut raw = [0u8; 1];

    let (decoded_escape, escape_units) =
        codec.decode_unit(b"%E4", 0).expect("percent escape should decode");
    let (decoded_raw, raw_units) = codec.decode_unit(b"~", 0).expect("unreserved byte should decode");
    let escaped_units = codec.encode_unit(0xe4, &mut escaped, 0);
    let unreserved_units = codec.encode_unit(b'~', &mut raw, 0);

    assert_eq!(0xe4, decoded_escape);
    assert_eq!(3, escape_units);
    assert_eq!(b'~', decoded_raw);
    assert_eq!(1, raw_units);
    assert_eq!(3, escaped_units);
    assert_eq!(b"%E4", &escaped);
    assert_eq!(1, unreserved_units);
    assert_eq!(b"~", &raw);
    assert_eq!(1, PercentCodec::MIN_UNITS_PER_VALUE);
    assert_eq!(3, PercentCodec::MAX_ENCODE_UNITS_PER_VALUE);
    assert_eq!(3, PercentCodec::MAX_DECODE_UNITS_PER_VALUE);
}

#[test]
fn test_codec_trait_decodes_available_percent_byte() {
    let codec = PercentCodec::new();

    let (decoded, consumed) = codec.decode_unit(b"A", 0).expect("raw byte should decode");
    assert_eq!(b'A', decoded);
    assert_eq!(1, consumed);

    let incomplete = codec.decode_unit(b"%E", 0).expect_err("partial percent escape should be incomplete");
    assert_eq!(3, incomplete_required(incomplete));

    let malformed = codec.decode_unit(b"%Ez", 0).expect_err("malformed percent escape should fail");
    assert_eq!(Some(3), invalid_consumed(malformed));
    let malformed = codec.decode_unit(b"%Ez", 0).expect_err("malformed percent escape should fail");
    let malformed = invalid_source(malformed);
    assert!(matches!(malformed, MiscCodecError::InvalidEscape { index: 0, .. }));
}

#[test]
fn test_codec_trait_uses_exact_percent_widths_and_eof_rules() {
    let percent = PercentCodec::new();
    assert_eq!(1, percent.encode_len(b'A'));
    assert_eq!(3, percent.encode_len(0xe4));

    let (decoded, consumed) = percent.decode_unit_eof(b"A", 0).expect("EOF raw percent byte should decode");
    assert_eq!(b'A', decoded);
    assert_eq!(1, consumed);

    let invalid = percent.decode_unit_eof(b"%A", 0).expect_err("EOF truncated percent escape should fail");
    assert!(matches!(invalid_source(invalid), MiscCodecError::InvalidEscape { index: 0, .. }));
    let invalid = percent.decode_unit_eof(b"%", 0).expect_err("EOF percent marker should fail");
    assert_eq!(Some(1), invalid_consumed(invalid));
    let invalid = percent.decode_unit_eof(b"%A", 0).expect_err("EOF partial percent escape should fail");
    assert_eq!(Some(2), invalid_consumed(invalid));
}

#[test]
fn test_codec_trait_decodes_and_encodes_form_urlencoded_byte() {
    let codec = FormUrlencodedCodec::new();
    let mut plus_output = [0u8; 1];
    let mut raw_output = [0u8; 3];
    let mut escaped_output = [0u8; 3];

    let (decoded_plus, consumed) = codec.decode_unit(b"+", 0).expect("form plus should decode as space");
    let (decoded_escape, escape_consumed) = codec.decode_unit(b"%E4", 0).expect("form escape should decode");
    let (decoded_raw, raw_consumed) = codec.decode_unit(b"~", 0).expect("form raw byte should decode");
    let plus_written = codec.encode_unit(b' ', &mut plus_output, 0);
    let raw_written = codec.encode_unit(b'~', &mut raw_output, 0);
    let escaped_written = codec.encode_unit(0xe4, &mut escaped_output, 0);

    assert_eq!(b' ', decoded_plus);
    assert_eq!(1, consumed);
    assert_eq!(0xe4, decoded_escape);
    assert_eq!(3, escape_consumed);
    assert_eq!(b'~', decoded_raw);
    assert_eq!(1, raw_consumed);
    assert_eq!(1, plus_written);
    assert_eq!(b"+", &plus_output);
    assert_eq!(3, raw_written);
    assert_eq!(b"%7E", &raw_output);
    assert_eq!(3, escaped_written);
    assert_eq!(b"%E4", &escaped_output);
    assert_eq!(1, FormUrlencodedCodec::MIN_UNITS_PER_VALUE);
    assert_eq!(3, FormUrlencodedCodec::MAX_ENCODE_UNITS_PER_VALUE);
    assert_eq!(3, FormUrlencodedCodec::MAX_DECODE_UNITS_PER_VALUE);
}

#[test]
fn test_codec_trait_decodes_available_form_urlencoded_byte() {
    let codec = FormUrlencodedCodec::new();

    let (decoded, consumed) = codec.decode_unit(b"+", 0).expect("plus should decode to space");
    assert_eq!(b' ', decoded);
    assert_eq!(1, consumed);

    let incomplete = codec.decode_unit(b"%", 0).expect_err("partial form escape should be incomplete");
    assert_eq!(3, incomplete_required(incomplete));

    let eof = codec.decode_unit_eof(b"%", 0).expect_err("EOF form escape should be invalid");
    assert_eq!(Some(1), invalid_consumed(eof));
    let eof = codec.decode_unit_eof(b"%", 0).expect_err("EOF form escape should be invalid");
    assert!(matches!(invalid_source(eof), MiscCodecError::InvalidEscape { index: 0, .. }));
    let eof = codec.decode_unit_eof(b"%A", 0).expect_err("EOF partial form escape should be invalid");
    assert_eq!(Some(2), invalid_consumed(eof));
}

#[test]
fn test_form_codec_uses_exact_widths_and_eof_rules() {
    let codec = FormUrlencodedCodec::new();
    assert_eq!(1, codec.encode_len(b'*'));
    assert_eq!(3, codec.encode_len(b'~'));

    let (decoded, consumed) = codec.decode_unit_eof(b"+", 0).expect("EOF form plus should decode");
    assert_eq!(b' ', decoded);
    assert_eq!(1, consumed);

    let invalid = codec.decode_unit_eof(b"%z0", 0).expect_err("EOF malformed form escape should fail");
    assert_eq!(Some(3), invalid_consumed(invalid));
    let invalid = codec.decode_unit_eof(b"%z0", 0).expect_err("EOF malformed form escape should fail");
    assert!(matches!(invalid_source(invalid), MiscCodecError::InvalidEscape { index: 0, .. }));
}

#[test]
fn test_form_urlencoded_codec_uses_plus_for_spaces() {
    let codec = FormUrlencodedCodec::new();

    assert_eq!(
        "name%3Da+b%2Bc%26city%3D%E4%B8%8A%E6%B5%B7",
        codec.encode("name=a b+c&city=上海")
    );
    assert_eq!(
        "name=a b+c&city=上海",
        codec
            .decode("name%3Da+b%2Bc%26city%3D%E4%B8%8A%E6%B5%B7")
            .expect("form text should decode")
    );
}

#[test]
fn test_form_urlencoded_codec_matches_whatwg_byte_serializer() {
    let codec = FormUrlencodedCodec::new();
    let text = "*~-._!\'() +/\u{4e2d}";
    let expected: String = form_urlencoded::byte_serialize(text.as_bytes()).collect();

    assert_eq!(expected, codec.encode(text));
    assert_eq!("*%7E-._%21%27%28%29+%2B%2F%E4%B8%AD", expected);
}

#[test]
fn test_form_urlencoded_codec_uses_form_unescaped_set_for_low_level_encode() {
    let codec = FormUrlencodedCodec::new();
    let mut output = [0u8; 3];

    let written = codec.encode_unit(b'*', &mut output, 0);
    assert_eq!(1, written);
    assert_eq!(b'*', output[0]);

    let written = codec.encode_unit(b'~', &mut output, 0);
    assert_eq!(3, written);
    assert_eq!(b"%7E", &output);
}

#[test]
fn test_form_urlencoded_codec_reports_truncated_escape_at_eof() {
    let error = FormUrlencodedCodec::new()
        .decode("field=%A")
        .expect_err("truncated form escape should fail");

    assert!(matches!(
        error,
        MiscCodecError::InvalidEscape {
            index: 6,
            escape,
            reason: _
        } if escape == "%A"
    ));
}

#[test]
fn test_encoder_trait_dispatches_to_text_codecs() {
    let encoded = PercentCodec::new().encode("a b/中");

    assert_eq!("a%20b%2F%E4%B8%AD", encoded);
}

#[test]
fn test_value_traits_accept_text_codecs() {
    let percent = PercentCodec::new();
    let form = FormUrlencodedCodec::new();
    assert_eq!("a b", percent.decode(&percent.encode("a b")).expect("text should decode"));
    assert_eq!("a b", form.decode(&form.encode("a b")).expect("text should decode"));
}

#[test]
fn test_malformed_escape_text_is_the_escape_as_written() {
    let error = FormUrlencodedCodec::new().decode("field=%A").expect_err("short escape should fail");
    match error {
        MiscCodecError::InvalidEscape { index, escape, reason } => {
            assert_eq!(6, index);
            assert_eq!("%A", escape);
            assert_eq!("expected two hexadecimal digits", reason);
        }
        other => panic!("expected invalid escape: {other:?}"),
    }

    let error = PercentCodec::new().decode("x%g\u{e9}y").expect_err("bad escape should fail");
    match error {
        MiscCodecError::InvalidEscape { index, escape, .. } => {
            assert_eq!(1, index);
            assert_eq!("%g\u{fffd}", escape);
        }
        other => panic!("expected invalid escape: {other:?}"),
    }
}
