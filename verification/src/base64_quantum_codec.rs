//! One complete Base64 quantum: three raw bytes as four Base64 units.

use crate::misc_codec_error::{
    map_misc_decode_failure_with_consumed, DecodeFailure, DecodeFailureModel, ErrorModel,
    MiscCodecError, MiscCodecResult,
};
use crate::text_support::{decimal_chars, push_char, push_decimal};
use vstd::prelude::*;

verus! {

/// The Base64 symbol (RFC 4648) for a sextet below 64: `A`-`Z`, `a`-`z`,
/// `0`-`9`, then `+` `/` for the standard alphabet or `-` `_` for the
/// URL-safe one.
pub open spec fn base64_symbol(sextet: u8, url_safe: bool) -> u8 {
    if sextet < 26 {
        (0x41 + sextet) as u8
    } else if sextet < 52 {
        (0x61 + sextet - 26) as u8
    } else if sextet < 62 {
        (0x30 + sextet - 52) as u8
    } else if sextet == 62 {
        if url_safe { 0x2du8 } else { 0x2bu8 }
    } else {
        if url_safe { 0x5fu8 } else { 0x2fu8 }
    }
}

/// The sextet that a Base64 unit stands for in the chosen alphabet.
pub open spec fn base64_sextet(unit: u8, url_safe: bool) -> Option<u8> {
    if 0x41 <= unit <= 0x5a {
        Some((unit - 0x41) as u8)
    } else if 0x61 <= unit <= 0x7a {
        Some((unit - 0x61 + 26) as u8)
    } else if 0x30 <= unit <= 0x39 {
        Some((unit - 0x30 + 52) as u8)
    } else if (unit == 0x2b && !url_safe) || (unit == 0x2d && url_safe) {
        Some(62u8)
    } else if (unit == 0x2f && !url_safe) || (unit == 0x5f && url_safe) {
        Some(63u8)
    } else {
        None
    }
}

/// The four sextets of three bytes, most significant bits first.
pub open spec fn quantum_sextets(b0: u8, b1: u8, b2: u8) -> Seq<u8> {
    seq![
        b0 / 4,
        ((b0 % 4) * 16 + b1 / 16) as u8,
        ((b1 % 16) * 4 + b2 / 64) as u8,
        b2 % 64,
    ]
}

/// The four units that encode three bytes.
pub open spec fn quantum_units(b0: u8, b1: u8, b2: u8, url_safe: bool) -> Seq<u8> {
    quantum_sextets(b0, b1, b2).map_values(|s: u8| base64_symbol(s, url_safe))
}

/// The three bytes that four sextets (each below 64) carry.
pub open spec fn quantum_bytes(s0: u8, s1: u8, s2: u8, s3: u8) -> Seq<u8> {
    seq![
        (s0 * 4 + s1 / 16) as u8,
        ((s1 % 16) * 16 + s2 / 4) as u8,
        ((s2 % 4) * 64 + s3) as u8,
    ]
}

/// Reason text for a unit outside the alphabet.
pub open spec fn invalid_unit_reason(unit: u8, index: nat) -> Seq<char> {
    "invalid Base64 unit '"@ + seq![unit as char] + "' at index "@ + decimal_chars(index)
}

/// Error for a unit outside the alphabet at `index`.
pub open spec fn invalid_unit_model(unit: u8, index: nat) -> ErrorModel {
    ErrorModel::InvalidInput { codec: "base64-quantum"@, reason: invalid_unit_reason(unit, index) }
}

/// Result of decoding the quantum at `i`: the three bytes, or the error for
/// the first unit outside the alphabet.
pub open spec fn spec_quantum_decode(input: Seq<u8>, i: int, url_safe: bool) -> Result<
    Seq<u8>,
    ErrorModel,
> {
    match (
        base64_sextet(input[i], url_safe),
        base64_sextet(input[i + 1], url_safe),
        base64_sextet(input[i + 2], url_safe),
        base64_sextet(input[i + 3], url_safe),
    ) {
        (Some(s0), Some(s1), Some(s2), Some(s3)) => Ok(quantum_bytes(s0, s1, s2, s3)),
        (None, _, _, _) => Err(invalid_unit_model(input[i], i as nat)),
        (Some(_), None, _, _) => Err(invalid_unit_model(input[i + 1], (i + 1) as nat)),
        (Some(_), Some(_), None, _) => Err(invalid_unit_model(input[i + 2], (i + 2) as nat)),
        (Some(_), Some(_), Some(_), None) => Err(invalid_unit_model(input[i + 3], (i + 3) as nat)),
    }
}

/// Every sextet's symbol reads back as that sextet, in either alphabet.
proof fn lemma_symbol_sextet(sextet: u8, url_safe: bool)
    requires
        sextet < 64,
    ensures
        base64_sextet(base64_symbol(sextet, url_safe), url_safe) == Some(sextet),
{
}

/// Every unit of the alphabet is the symbol of the sextet it stands for.
proof fn lemma_sextet_symbol(unit: u8, url_safe: bool)
    requires
        base64_sextet(unit, url_safe) is Some,
    ensures
        base64_sextet(unit, url_safe)->0 < 64,
        base64_symbol(base64_sextet(unit, url_safe)->0, url_safe) == unit,
{
}

/// Splitting three bytes into sextets and joining them again is the identity.
proof fn lemma_sextets_bytes(b0: u8, b1: u8, b2: u8)
    ensures
        ({
            let s = quantum_sextets(b0, b1, b2);
            &&& s[0] < 64 && s[1] < 64 && s[2] < 64 && s[3] < 64
            &&& quantum_bytes(s[0], s[1], s[2], s[3]) == seq![b0, b1, b2]
        }),
{
    assert(b0 / 4 < 64 && (b0 % 4) * 16 + b1 / 16 < 64 && (b1 % 16) * 4 + b2 / 64 < 64
        && b2 % 64 < 64) by (nonlinear_arith);
    assert((b0 / 4) * 4 + ((b0 % 4) * 16 + b1 / 16) / 16 == b0) by (nonlinear_arith);
    assert((((b0 % 4) * 16 + b1 / 16) % 16) * 16 + ((b1 % 16) * 4 + b2 / 64) / 4 == b1)
        by (nonlinear_arith);
    assert((((b1 % 16) * 4 + b2 / 64) % 4) * 64 + b2 % 64 == b2) by (nonlinear_arith);
    assert(quantum_bytes(
        quantum_sextets(b0, b1, b2)[0],
        quantum_sextets(b0, b1, b2)[1],
        quantum_sextets(b0, b1, b2)[2],
        quantum_sextets(b0, b1, b2)[3],
    ) =~= seq![b0, b1, b2]);
}

/// Joining four sextets into bytes and splitting them again is the identity.
proof fn lemma_bytes_sextets(s0: u8, s1: u8, s2: u8, s3: u8)
    requires
        s0 < 64,
        s1 < 64,
        s2 < 64,
        s3 < 64,
    ensures
        ({
            let b = quantum_bytes(s0, s1, s2, s3);
            quantum_sextets(b[0], b[1], b[2]) == seq![s0, s1, s2, s3]
        }),
{
    let b0: int = s0 * 4 + s1 / 16;
    let b1: int = (s1 % 16) * 16 + s2 / 4;
    let b2: int = (s2 % 4) * 64 + s3;
    assert(0 <= b0 < 256 && 0 <= b1 < 256 && 0 <= b2 < 256) by (nonlinear_arith)
        requires
            s0 < 64 && s1 < 64 && s2 < 64 && s3 < 64,
            b0 == s0 * 4 + s1 / 16,
            b1 == (s1 % 16) * 16 + s2 / 4,
            b2 == (s2 % 4) * 64 + s3,
    ;
    assert(b0 / 4 == s0 && (b0 % 4) * 16 + b1 / 16 == s1 && (b1 % 16) * 4 + b2 / 64 == s2 && b2
        % 64 == s3) by (nonlinear_arith)
        requires
            s0 < 64 && s1 < 64 && s2 < 64 && s3 < 64,
            b0 == s0 * 4 + s1 / 16,
            b1 == (s1 % 16) * 16 + s2 / 4,
            b2 == (s2 % 4) * 64 + s3,
    ;
    let b = quantum_bytes(s0, s1, s2, s3);
    assert(b[0] == b0 && b[1] == b1 && b[2] == b2);
    assert(quantum_sextets(b[0], b[1], b[2]) =~= seq![s0, s1, s2, s3]);
}

/// Decoding the four units that encode three bytes gives those bytes back.
pub proof fn lemma_quantum_roundtrip(b0: u8, b1: u8, b2: u8, url_safe: bool)
    ensures
        spec_quantum_decode(quantum_units(b0, b1, b2, url_safe), 0, url_safe) == Ok::<
            Seq<u8>,
            ErrorModel,
        >(seq![b0, b1, b2]),
{
    let s = quantum_sextets(b0, b1, b2);
    lemma_sextets_bytes(b0, b1, b2);
    lemma_symbol_sextet(s[0], url_safe);
    lemma_symbol_sextet(s[1], url_safe);
    lemma_symbol_sextet(s[2], url_safe);
    lemma_symbol_sextet(s[3], url_safe);
}

/// Four units of the alphabet decode to bytes that encode back to exactly
/// those units.
pub proof fn lemma_quantum_units_roundtrip(input: Seq<u8>, url_safe: bool)
    requires
        input.len() == 4,
        spec_quantum_decode(input, 0, url_safe) is Ok,
    ensures
        ({
            let b = spec_quantum_decode(input, 0, url_safe)->Ok_0;
            quantum_units(b[0], b[1], b[2], url_safe) == input
        }),
{
    lemma_sextet_symbol(input[0], url_safe);
    lemma_sextet_symbol(input[1], url_safe);
    lemma_sextet_symbol(input[2], url_safe);
    lemma_sextet_symbol(input[3], url_safe);
    let s0 = base64_sextet(input[0], url_safe)->0;
    let s1 = base64_sextet(input[1], url_safe)->0;
    let s2 = base64_sextet(input[2], url_safe)->0;
    let s3 = base64_sextet(input[3], url_safe)->0;
    lemma_bytes_sextets(s0, s1, s2, s3);
    let b = quantum_bytes(s0, s1, s2, s3);
    assert(quantum_units(b[0], b[1], b[2], url_safe) =~= input);
}

/// Encodes and decodes one complete Base64 quantum. Short final groups and
/// `=` padding are not its concern.
#[derive(Debug, Clone, Copy, PartialEq, Eq, Structural)]
pub struct Base64QuantumCodec {
    url_safe: bool,
}

impl View for Base64QuantumCodec {
    type V = bool;

    /// Whether the codec uses the URL-safe alphabet.
    closed spec fn view(&self) -> bool {
        self.url_safe
    }
}

impl Base64QuantumCodec {
    /// Units one quantum takes, whichever way.
    pub const MIN_UNITS_PER_VALUE: usize = 4;

    /// Units one quantum takes, whichever way.
    pub const MAX_UNITS_PER_VALUE: usize = 4;

    /// Creates a standard-alphabet quantum codec.
    pub fn standard() -> (r: Self)
        ensures
            r@ == false,
    {
        Base64QuantumCodec { url_safe: false }
    }

    /// Creates a URL-safe-alphabet quantum codec.
    pub fn url_safe() -> (r: Self)
        ensures
            r@ == true,
    {
        Base64QuantumCodec { url_safe: true }
    }

    /// The alphabet's symbol for `sextet`.
    fn alphabet(&self, sextet: u8) -> (r: u8)
        requires
            sextet < 64,
        ensures
            r == base64_symbol(sextet, self@),
    {
        if sextet < 26 {
            0x41 + sextet
        } else if sextet < 52 {
            0x61 + sextet - 26
        } else if sextet < 62 {
            0x30 + sextet - 52
        } else if sextet == 62 {
            if self.url_safe { 0x2d } else { 0x2b }
        } else {
            if self.url_safe { 0x5f } else { 0x2f }
        }
    }

    /// Converts the unit found at `index` to its sextet.
    fn decode_unit(&self, unit: u8, index: usize) -> (r: MiscCodecResult<u8>)
        ensures
            match base64_sextet(unit, self@) {
                Some(s) => r matches Ok(v) && v == s,
                None => r matches Err(e) && e@ == invalid_unit_model(unit, index as nat),
            },
    {
        if 0x41 <= unit && unit <= 0x5a {
            Ok(unit - 0x41)
        } else if 0x61 <= unit && unit <= 0x7a {
            Ok(unit - 0x61 + 26)
        } else if 0x30 <= unit && unit <= 0x39 {
            Ok(unit - 0x30 + 52)
        } else if (unit == 0x2b && !self.url_safe) || (unit == 0x2d && self.url_safe) {
            Ok(62)
        } else if (unit == 0x2f && !self.url_safe) || (unit == 0x5f && self.url_safe) {
            Ok(63)
        } else {
            let mut reason = "invalid Base64 unit '".to_owned();
            push_char(&mut reason, unit as char);
            reason.append("' at index ");
            push_decimal(&mut reason, index);
            proof {
                reveal_strlit("invalid Base64 unit '");
                reveal_strlit("' at index ");
                assert(reason@ =~= invalid_unit_reason(unit, index as nat));
            }
            Err(MiscCodecError::InvalidInput { codec: "base64-quantum", reason })
        }
    }

    /// Decodes the four-unit quantum at `input_index`; a unit outside the
    /// alphabet fails the whole quantum.
    pub fn decode_quantum(&self, input: &[u8], input_index: usize) -> (r: Result<
        ([u8; 3], usize),
        DecodeFailure,
    >)
        requires
            input_index + 4 <= input@.len(),
        ensures
            match spec_quantum_decode(input@, input_index as int, self@) {
                Ok(bytes) => r matches Ok((v, w)) && v@ == bytes && w == 4,
                Err(e) => r matches Err(f) && f@ == DecodeFailureModel::Invalid {
                    source: e,
                    consumed: Some(4),
                },
            },
    {
        let first = match self.decode_unit(input[input_index], input_index) {
            Ok(s) => s,
            Err(e) => {
                return Err(map_misc_decode_failure_with_consumed(e, 4));
            },
        };
        let second = match self.decode_unit(input[input_index + 1], input_index + 1) {
            Ok(s) => s,
            Err(e) => {
                return Err(map_misc_decode_failure_with_consumed(e, 4));
            },
        };
        let third = match self.decode_unit(input[input_index + 2], input_index + 2) {
            Ok(s) => s,
            Err(e) => {
                return Err(map_misc_decode_failure_with_consumed(e, 4));
            },
        };
        let fourth = match self.decode_unit(input[input_index + 3], input_index + 3) {
            Ok(s) => s,
            Err(e) => {
                return Err(map_misc_decode_failure_with_consumed(e, 4));
            },
        };
        let value: [u8; 3] = [
            first * 4 + second / 16,
            (second % 16) * 16 + third / 4,
            (third % 4) * 64 + fourth,
        ];
        assert(value@ =~= quantum_bytes(first, second, third, fourth));
        Ok((value, 4))
    }

    /// Encodes three bytes as four units into `output` at `output_index`;
    /// returns the units written.
    pub fn encode_quantum(&self, value: [u8; 3], output: &mut [u8], output_index: usize) -> (r:
        usize)
        requires
            output_index + 4 <= old(output)@.len(),
        ensures
            r == 4,
            final(output)@ == old(output)@.update_subrange_with(
                output_index as int,
                quantum_units(value[0], value[1], value[2], self@),
            ),
            quantum_units(value[0], value[1], value[2], self@)
                == crate::base64_codec::base64_encode_spec(value@, self@, true),
            spec_quantum_decode(final(output)@, output_index as int, self@) == Ok::<
                Seq<u8>,
                ErrorModel,
            >(value@),
    {
        let b0 = value[0];
        let b1 = value[1];
        let b2 = value[2];
        output[output_index] = self.alphabet(b0 / 4);
        output[output_index + 1] = self.alphabet((b0 % 4) * 16 + b1 / 16);
        output[output_index + 2] = self.alphabet((b1 % 16) * 4 + b2 / 64);
        output[output_index + 3] = self.alphabet(b2 % 64);
        assert(output@ =~= old(output)@.update_subrange_with(
            output_index as int,
            quantum_units(b0, b1, b2, self@),
        ));
        proof {
            let units = quantum_units(b0, b1, b2, self@);
            assert(value@ =~= seq![b0, b1, b2]);
            crate::base64_codec::lemma_quantum_matches_engine(b0, b1, b2, self@, true);
            lemma_quantum_roundtrip(b0, b1, b2, self@);
            let k = output_index as int;
            assert(output@[k] == units[0] && output@[k + 1] == units[1] && output@[k + 2]
                == units[2] && output@[k + 3] == units[3]);
            assert(spec_quantum_decode(output@, k, self@) == spec_quantum_decode(units, 0, self@));
        }
        4
    }
}

impl Default for Base64QuantumCodec {
    /// The standard-alphabet quantum codec.
    fn default() -> (r: Self)
        ensures
            r@ == false,
    {
        Base64QuantumCodec::standard()
    }
}

} // verus!
