//! One byte as two ASCII hexadecimal digits, for streaming call sites.

use crate::hex_codec::{hex_digit, hex_value, invalid_hex_digit};
use crate::misc_codec_error::{DecodeFailure, DecodeFailureModel, ErrorModel};
use crate::text_support::{hex_digit_byte, spec_hex_value};
use vstd::prelude::*;

verus! {

/// Result of decoding the two digits at `i` of `input`: the byte, or the
/// error for the first digit that is not hexadecimal.
pub open spec fn spec_hex_byte_unit(input: Seq<u8>, i: int) -> Result<u8, ErrorModel> {
    let high = input[i];
    let low = input[i + 1];
    match (spec_hex_value(high as u32), spec_hex_value(low as u32)) {
        (Some(h), Some(l)) => Ok((h * 16 + l) as u8),
        (None, _) => Err(
            ErrorModel::InvalidDigit { radix: 16, index: i as nat, character: high as char },
        ),
        (Some(_), None) => Err(
            ErrorModel::InvalidDigit { radix: 16, index: (i + 1) as nat, character: low as char },
        ),
    }
}

/// The two ASCII digits that encode `value`.
pub open spec fn hex_byte_units(value: u8, uppercase: bool) -> Seq<u8> {
    seq![hex_digit_byte(value / 16, uppercase), hex_digit_byte(value % 16, uppercase)]
}

/// Decoding the two digits that encode a byte gives the byte back, in
/// either digit case.
pub proof fn lemma_hex_byte_roundtrip(value: u8, uppercase: bool)
    ensures
        spec_hex_byte_unit(hex_byte_units(value, uppercase), 0) == Ok::<u8, ErrorModel>(value),
{
    let high = value / 16;
    let low = value % 16;
    assert(spec_hex_value(hex_digit_byte(high, uppercase) as u32) == Some(high));
    assert(spec_hex_value(hex_digit_byte(low, uppercase) as u32) == Some(low));
    assert((high * 16 + low) as u8 == value);
}

/// Encodes and decodes one byte as two ASCII hexadecimal units. It knows no
/// prefixes, separators or whitespace; `HexCodec` handles those.
#[derive(Debug, Clone, Copy, PartialEq, Eq, Structural)]
pub struct HexByteCodec {
    uppercase: bool,
}

impl View for HexByteCodec {
    type V = bool;

    /// Whether encoded digits are uppercase.
    closed spec fn view(&self) -> bool {
        self.uppercase
    }
}

impl HexByteCodec {
    /// Fewest units one decoded byte takes.
    pub const MIN_UNITS_PER_VALUE: usize = 2;

    /// Units one encoded byte takes.
    pub const MAX_ENCODE_UNITS_PER_VALUE: usize = 2;

    /// Units one decoded byte takes.
    pub const MAX_DECODE_UNITS_PER_VALUE: usize = 2;

    /// Creates a lowercase single-byte hexadecimal codec.
    pub fn new() -> (r: Self)
        ensures
            r@ == false,
    {
        HexByteCodec { uppercase: false }
    }

    /// Creates an uppercase single-byte hexadecimal codec.
    pub fn upper() -> (r: Self)
        ensures
            r@ == true,
    {
        HexByteCodec { uppercase: true }
    }

    /// Sets whether encoded digits are uppercase.
    pub fn with_uppercase(self, uppercase: bool) -> (r: Self)
        ensures
            r@ == uppercase,
    {
        HexByteCodec { uppercase }
    }

    /// Returns whether this codec emits uppercase digits.
    pub fn is_uppercase(self) -> (r: bool)
        ensures
            r == self@,
    {
        self.uppercase
    }

    /// Decodes one byte from the two digits at `input_index`.
    pub fn decode_unit(&self, input: &[u8], input_index: usize) -> (r: Result<
        (u8, usize),
        DecodeFailure,
    >)
        requires
            input_index + 2 <= input@.len(),
        ensures
            match spec_hex_byte_unit(input@, input_index as int) {
                Ok(value) => r == Ok::<(u8, usize), DecodeFailure>((value, 2usize)),
                Err(e) => r matches Err(f) && f@ == DecodeFailureModel::Invalid {
                    source: e,
                    consumed: Some(2),
                },
            },
    {
        let high_char = input[input_index] as char;
        let low_char = input[input_index + 1] as char;
        let high = match hex_value(high_char) {
            Some(h) => h,
            None => {
                return Err(DecodeFailure::Invalid {
                    source: invalid_hex_digit(input_index, high_char),
                    consumed: Some(2),
                });
            },
        };
        let low = match hex_value(low_char) {
            Some(l) => l,
            None => {
                return Err(DecodeFailure::Invalid {
                    source: invalid_hex_digit(input_index + 1, low_char),
                    consumed: Some(2),
                });
            },
        };
        Ok((high * 16 + low, 2))
    }

    /// Encodes `value` as two digits into `output` at `output_index`;
    /// returns the units written.
    pub fn encode_unit(&self, value: u8, output: &mut [u8], output_index: usize) -> (r: usize)
        requires
            output_index + 2 <= old(output)@.len(),
        ensures
            r == 2,
            final(output)@ == old(output)@.update_subrange_with(
                output_index as int,
                hex_byte_units(value, self@),
            ),
    {
        let high = hex_digit(value / 16, self.uppercase) as u8;
        let low = hex_digit(value % 16, self.uppercase) as u8;
        output[output_index] = high;
        output[output_index + 1] = low;
        assert(output@ =~= old(output)@.update_subrange_with(
            output_index as int,
            hex_byte_units(value, self@),
        ));
        2
    }
}

impl Default for HexByteCodec {
    /// The lowercase single-byte codec.
    fn default() -> (r: Self)
        ensures
            r@ == false,
    {
        HexByteCodec::new()
    }
}

} // verus!
