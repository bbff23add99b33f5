//! `application/x-www-form-urlencoded` text codec.

use crate::internal::percent_encoding_mode::PercentEncodingMode;
use crate::misc_codec_error::{DecodeFailure, DecodeFailureModel, MiscCodecResult, result_model};
use crate::percent_codec::{
    decode_percent_text, invalid_percent_escape_model, percent_decode_unit,
    percent_decode_unit_eof, percent_encode_byte, percent_encode_bytes, percent_encode_len,
    percent_invalid_width, percent_unit_bytes, spec_percent_decode_from, spec_percent_decode_text,
    spec_percent_encode_text, spec_percent_unit,
};
use vstd::prelude::*;
use vstd::string::*;

verus! {

/// Without `+` in the input, form decoding reads every unit as percent
/// decoding does.
proof fn lemma_form_percent_from(input: Seq<u8>, i: int)
    requires
        0 <= i,
        forall|k: int| 0 <= k < input.len() ==> #[trigger] input[k] != 0x2b,
    ensures
        spec_percent_decode_from(input, i, true) == spec_percent_decode_from(input, i, false),
    decreases input.len() - i,
{
    if i < input.len() {
        assert(input[i] != 0x2b);
        assert(spec_percent_unit(input, i, true) == spec_percent_unit(input, i, false));
        match spec_percent_unit(input, i, false) {
            Ok((value, width)) => {
                lemma_form_percent_from(input, i + width);
            },
            Err(_) => {},
        }
    }
}

/// Form decoding shares percent decoding's escape and UTF-8 checks: on
/// input without `+` both decode alike, result and error.
pub proof fn lemma_form_matches_percent_without_plus(input: Seq<u8>)
    requires
        forall|k: int| 0 <= k < input.len() ==> #[trigger] input[k] != 0x2b,
    ensures
        spec_percent_decode_text(input, true) == spec_percent_decode_text(input, false),
{
    lemma_form_percent_from(input, 0);
}

/// Encodes and decodes `application/x-www-form-urlencoded` text fragments:
/// space is written as `+` and `+` reads back as space.
#[derive(Debug, Clone, Copy, PartialEq, Eq, Structural)]
pub struct FormUrlencodedCodec;

impl FormUrlencodedCodec {
    /// Fewest units one decoded byte can take.
    pub const MIN_UNITS_PER_VALUE: usize = 1;

    /// Most units one encoded byte can take.
    pub const MAX_ENCODE_UNITS_PER_VALUE: usize = 3;

    /// Most units one decoded byte can take.
    pub const MAX_DECODE_UNITS_PER_VALUE: usize = 3;

    /// Creates a form-url-encoded codec.
    pub fn new() -> (r: Self)
        ensures
            r == FormUrlencodedCodec,
    {
        FormUrlencodedCodec
    }

    /// Encodes text, using `+` for spaces.
    pub fn encode(&self, text: &str) -> (r: String)
        ensures
            r@ == spec_percent_encode_text(text@, PercentEncodingMode::FormUrlencoded),
    {
        percent_encode_bytes(text.as_bytes(), PercentEncodingMode::FormUrlencoded)
    }

    /// Decodes text, treating `+` as space.
    ///
    /// Fails with `InvalidEscape` at the first malformed `%XX` escape, or with
    /// `InvalidUtf8` when the decoded bytes are not UTF-8.
    pub fn decode(&self, text: &str) -> (r: MiscCodecResult<String>)
        ensures
            result_model(r) == spec_percent_decode_text(text.spec_bytes(), true),
    {
        decode_percent_text(text, true)
    }

    /// Returns the exact form-url-encoded width for one byte.
    pub fn encode_len(&self, value: u8) -> (r: usize)
        ensures
            r == percent_unit_bytes(PercentEncodingMode::FormUrlencoded, value).len(),
    {
        percent_encode_len(value, PercentEncodingMode::FormUrlencoded)
    }

    /// Decodes one raw byte, `+`, or `%XX` escape at `input_index` of an open stream.
    pub fn decode_unit(&self, input: &[u8], input_index: usize) -> (r: Result<
        (u8, usize),
        DecodeFailure,
    >)
        requires
            input_index < input@.len(),
        ensures
            match spec_percent_unit(input@, input_index as int, true) {
                Ok((value, width)) => r matches Ok((v, w)) && v == value && w == width,
                Err(true) => r matches Err(f) && f@ == DecodeFailureModel::Incomplete {
                    required_total: 3,
                },
                Err(false) => r matches Err(f) && f@ == DecodeFailureModel::Invalid {
                    source: invalid_percent_escape_model(input@, input_index as int),
                    consumed: Some(3),
                },
            },
    {
        percent_decode_unit(input, input_index, true)
    }

    /// Decodes one value after end of input has been confirmed.
    pub fn decode_unit_eof(&self, input: &[u8], input_index: usize) -> (r: Result<
        (u8, usize),
        DecodeFailure,
    >)
        requires
            input_index < input@.len(),
        ensures
            match spec_percent_unit(input@, input_index as int, true) {
                Ok((value, width)) => r matches Ok((v, w)) && v == value && w == width,
                Err(_) => r matches Err(f) && f@ == DecodeFailureModel::Invalid {
                    source: invalid_percent_escape_model(input@, input_index as int),
                    consumed: Some(percent_invalid_width(input@, input_index as int)),
                },
            },
    {
        percent_decode_unit_eof(input, input_index, true)
    }

    /// Encodes one byte into `output` at `output_index`; returns the units written.
    pub fn encode_unit(&self, value: u8, output: &mut [u8], output_index: usize) -> (r: usize)
        requires
            output_index + percent_unit_bytes(PercentEncodingMode::FormUrlencoded, value).len()
                <= old(output)@.len(),
        ensures
            r == percent_unit_bytes(PercentEncodingMode::FormUrlencoded, value).len(),
            final(output)@ == old(output)@.update_subrange_with(
                output_index as int,
                percent_unit_bytes(PercentEncodingMode::FormUrlencoded, value),
            ),
    {
        percent_encode_byte(value, output, output_index, PercentEncodingMode::FormUrlencoded)
    }
}

impl Default for FormUrlencodedCodec {
    /// The form-url-encoded codec.
    fn default() -> (r: Self)
        ensures
            r == FormUrlencodedCodec,
    {
        FormUrlencodedCodec
    }
}

} // verus!
