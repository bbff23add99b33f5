//! Sweeps over many inputs: every public codec call returns instead of
//! panicking, and whole-text C string decoding agrees with the unit decoder.

use qubit_codec_misc::{
    Base64Codec, Base64QuantumCodec, CIntegerLiteralCodec, CStringLiteralCodec, DecodeFailure,
    FormUrlencodedCodec, HexByteCodec, HexCodec, MiscCodecError, PercentCodec,
};

const FRAGMENTS: [&str; 24] = [
    "", "a", "0", "9", "%", "%4", "%41", "%zz", "+", " ", "\\", "\\x", "\\x4", "\\xz", "\\u00",
    "\\U0000004", "\\7", "\\777", "0x", "0X1f", "中", "☃", "=", "==",
];

fn corpus() -> Vec<String> {
    let mut inputs = Vec::new();
    for first in FRAGMENTS {
        for second in FRAGMENTS {
            inputs.push(format!("{first}{second}"));
        }
    }
    inputs
}

/// Decodes a complete fragment one streaming unit at a time, finishing with
/// the end-of-input rules.
fn decode_through_units(codec: &CStringLiteralCodec, bytes: &[u8]) -> Result<Vec<u8>, usize> {
    let mut output = Vec::new();
    let mut index = 0;
    while index < bytes.len() {
        let step = match codec.decode_unit(bytes, index) {
            Ok(step) => step,
            Err(DecodeFailure::Incomplete { .. }) => match codec.decode_unit_eof(bytes, index) {
                Ok(step) => step,
                Err(_) => return Err(index),
            },
            Err(DecodeFailure::Invalid { .. }) => return Err(index),
        };
        output.push(step.0);
        index += step.1;
    }
    Ok(output)
}

#[test]
fn test_production_code_does_not_use_panic_helpers() {
    let hex_codecs = [
        HexCodec::new(),
        HexCodec::upper().with_prefix("0x").with_separator(" "),
        HexCodec::new().with_byte_prefix("0x").with_ignored_ascii_whitespace(true),
        HexCodec::new().with_prefix("#").with_byte_prefix("\\x").with_ignore_prefix_case(true),
    ];
    let base64_codecs = [
        Base64Codec::standard(),
        Base64Codec::standard_no_pad(),
        Base64Codec::url_safe(),
        Base64Codec::url_safe_no_pad(),
    ];
    for input in corpus() {
        let bytes = input.as_bytes();
        let _ = PercentCodec::new().decode(&input);
        let _ = PercentCodec::new().encode(&input);
        let _ = FormUrlencodedCodec::new().decode(&input);
        let _ = FormUrlencodedCodec::new().encode(&input);
        let _ = CStringLiteralCodec::new().decode(&input);
        let _ = CStringLiteralCodec::new().encode(bytes);
        let _ = CIntegerLiteralCodec::new().decode(&input);
        for codec in &hex_codecs {
            let _ = codec.decode(&input);
            let _ = codec.encode(bytes);
            let mut output = vec![0xa5];
            let _ = codec.decode_into(&input, &mut output);
        }
        for codec in &base64_codecs {
            let _ = codec.decode(&input);
            let _ = codec.encode(bytes);
        }
        for index in 0..bytes.len() {
            let _ = PercentCodec::new().decode_unit(bytes, index);
            let _ = PercentCodec::new().decode_unit_eof(bytes, index);
            let _ = FormUrlencodedCodec::new().decode_unit(bytes, index);
            let _ = FormUrlencodedCodec::new().decode_unit_eof(bytes, index);
            let _ = CStringLiteralCodec::new().decode_unit(bytes, index);
            let _ = CStringLiteralCodec::new().decode_unit_eof(bytes, index);
            if index + 2 <= bytes.len() {
                let _ = HexByteCodec::new().decode_unit(bytes, index);
            }
            if index + 4 <= bytes.len() {
                let _ = Base64QuantumCodec::standard().decode_quantum(bytes, index);
                let _ = Base64QuantumCodec::url_safe().decode_quantum(bytes, index);
            }
        }
    }
}

#[test]
fn test_c_string_literal_codec_uses_shared_parser_core() {
    let codec = CStringLiteralCodec::new();
    for input in corpus() {
        match (codec.decode(&input), decode_through_units(&codec, input.as_bytes())) {
            (Ok(whole), Ok(units)) => assert_eq!(whole, units, "input {input:?}"),
            (Err(MiscCodecError::InvalidEscape { index, .. }), Err(at)) => {
                assert_eq!(index, at, "input {input:?}")
            }
            (Err(MiscCodecError::InvalidDigit { .. }), Err(_)) => {}
            (Err(MiscCodecError::InvalidCharacter { index, .. }), Err(at)) => {
                assert_eq!(index, at, "input {input:?}")
            }
            (whole, units) => panic!("decoders disagree on {input:?}: {whole:?} / {units:?}"),
        }
    }
}
