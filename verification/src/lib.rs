//! Reusable byte and text codecs: hexadecimal, Base64, C literals, percent
//! encoding and `application/x-www-form-urlencoded` text, each with a
//! machine-checked contract.

pub mod base64_codec;
pub mod base64_error_kind;
pub mod base64_quantum_codec;
pub mod c_integer_literal_codec;
pub mod c_string_literal_codec;
pub mod form_urlencoded_codec;
pub mod hex_byte_codec;
pub mod hex_codec;
pub mod hex_codec_config;
pub mod hex_roundtrip;
mod internal;
pub mod misc_codec_error;
pub mod percent_codec;
mod seq_support;
pub mod text_support;

pub use base64_codec::Base64Codec;
pub use base64_error_kind::{Base64DecodeError, Base64ErrorKind};
pub use base64_quantum_codec::Base64QuantumCodec;
pub use c_integer_literal_codec::CIntegerLiteralCodec;
pub use c_string_literal_codec::CStringLiteralCodec;
pub use form_urlencoded_codec::FormUrlencodedCodec;
pub use hex_byte_codec::HexByteCodec;
pub use hex_codec::HexCodec;
pub use hex_codec_config::HexCodecConfig;
pub use internal::PercentEncodingMode;
pub use misc_codec_error::{
    DecodeFailure, DecodeFailureModel, ErrorModel, MiscCodecError, MiscCodecResult,
};
pub use percent_codec::PercentCodec;
