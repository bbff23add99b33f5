//! Whole-text Base64 encoding (RFC 4648) through the `base64` crate's
//! general-purpose engines, and the categories of its decode errors.

use crate::base64_quantum_codec::{
    base64_sextet, base64_symbol, lemma_quantum_roundtrip, quantum_bytes, quantum_units,
    spec_quantum_decode,
};
use crate::base64_error_kind::{Base64DecodeError, Base64ErrorKind};
use crate::misc_codec_error::{ErrorModel, MiscCodecError, MiscCodecResult};
use crate::text_support::{ascii_chars, decimal_chars, push_decimal};
use base64::engine::general_purpose::{STANDARD, STANDARD_NO_PAD, URL_SAFE, URL_SAFE_NO_PAD};
use base64::{DecodeError, Engine};
use vstd::prelude::*;
use vstd::string::*;

verus! {

/// The padding unit `=`.
pub open spec fn pad_unit() -> u8 {
    0x3d
}

/// The RFC 4648 Base64 encoding of `bytes`: whole quanta, then a final group
/// of two or three units, padded with `=` to four when `padded`.
pub open spec fn base64_encode_spec(bytes: Seq<u8>, url_safe: bool, padded: bool) -> Seq<u8>
    decreases bytes.len(),
{
    if bytes.len() >= 3 {
        quantum_units(bytes[0], bytes[1], bytes[2], url_safe) + base64_encode_spec(
            bytes.skip(3),
            url_safe,
            padded,
        )
    } else if bytes.len() == 2 {
        quantum_units(bytes[0], bytes[1], 0, url_safe).take(3) + if padded {
            seq![pad_unit()]
        } else {
            Seq::empty()
        }
    } else if bytes.len() == 1 {
        quantum_units(bytes[0], 0, 0, url_safe).take(2) + if padded {
            seq![pad_unit(), pad_unit()]
        } else {
            Seq::empty()
        }
    } else {
        Seq::empty()
    }
}

/// Length of the Base64 encoding of `n` bytes.
pub open spec fn base64_encoded_len(n: nat, padded: bool) -> nat {
    4 * (n / 3) + if n % 3 == 0 {
        0
    } else if padded {
        4
    } else {
        n % 3 + 1
    }
}

/// Bytes carried by the units of a canonical Base64 text: whole quanta,
/// then a final group of three units (two bytes) or two units (one byte).
pub open spec fn base64_decode_spec(t: Seq<u8>, url_safe: bool) -> Seq<u8>
    decreases t.len(),
{
    if t.len() >= 4 && !(t.len() == 4 && t[3] == pad_unit()) {
        spec_quantum_decode(t, 0, url_safe)->Ok_0 + base64_decode_spec(t.skip(4), url_safe)
    } else if t.len() >= 3 && t[2] != pad_unit() {
        quantum_bytes(
            base64_sextet(t[0], url_safe)->0,
            base64_sextet(t[1], url_safe)->0,
            base64_sextet(t[2], url_safe)->0,
            0,
        ).take(2)
    } else if t.len() >= 2 {
        quantum_bytes(base64_sextet(t[0], url_safe)->0, base64_sextet(t[1], url_safe)->0, 0, 0).take(
            1,
        )
    } else {
        Seq::empty()
    }
}

/// Length of the encoding, group by group.
proof fn lemma_base64_encoded_len(bytes: Seq<u8>, url_safe: bool, padded: bool)
    ensures
        base64_encode_spec(bytes, url_safe, padded).len() == base64_encoded_len(
            bytes.len(),
            padded,
        ),
    decreases bytes.len(),
{
    if bytes.len() >= 3 {
        lemma_base64_encoded_len(bytes.skip(3), url_safe, padded);
    }
}

/// No symbol of either alphabet is the padding unit.
proof fn lemma_symbol_not_pad(sextet: u8, url_safe: bool)
    ensures
        base64_symbol(sextet, url_safe) != pad_unit(),
{
}

/// Reading back a text that starts with a whole quantum.
proof fn lemma_decode_leading_quantum(b0: u8, b1: u8, b2: u8, rest: Seq<u8>, url_safe: bool)
    ensures
        base64_decode_spec(quantum_units(b0, b1, b2, url_safe) + rest, url_safe) == seq![b0, b1, b2]
            + base64_decode_spec(rest, url_safe),
{
    let q = quantum_units(b0, b1, b2, url_safe);
    let t = q + rest;
    lemma_quantum_roundtrip(b0, b1, b2, url_safe);
    let s = crate::base64_quantum_codec::quantum_sextets(b0, b1, b2);
    lemma_symbol_not_pad(s[3], url_safe);
    assert(t[3] == q[3]);
    assert(t.skip(4) =~= rest);
    assert(t[0] == q[0] && t[1] == q[1] && t[2] == q[2]);
    assert(spec_quantum_decode(t, 0, url_safe) == spec_quantum_decode(q, 0, url_safe));
}

/// Reading back the final group of two bytes.
proof fn lemma_decode_tail_two(b0: u8, b1: u8, url_safe: bool, padded: bool)
    ensures
        base64_decode_spec(base64_encode_spec(seq![b0, b1], url_safe, padded), url_safe) == seq![
            b0,
            b1,
        ],
{
    let bytes = seq![b0, b1];
    let t = base64_encode_spec(bytes, url_safe, padded);
    let q = quantum_units(b0, b1, 0, url_safe);
    lemma_quantum_roundtrip(b0, b1, 0, url_safe);
    let s = crate::base64_quantum_codec::quantum_sextets(b0, b1, 0);
    lemma_symbol_not_pad(s[2], url_safe);
    assert(t[0] == q[0] && t[1] == q[1] && t[2] == q[2]);
    assert(s[3] == 0);
    assert(base64_decode_spec(t, url_safe) =~= seq![b0, b1]);
}

/// Reading back the final group of one byte.
proof fn lemma_decode_tail_one(b0: u8, url_safe: bool, padded: bool)
    ensures
        base64_decode_spec(base64_encode_spec(seq![b0], url_safe, padded), url_safe) == seq![b0],
{
    let bytes = seq![b0];
    let t = base64_encode_spec(bytes, url_safe, padded);
    let q = quantum_units(b0, 0, 0, url_safe);
    lemma_quantum_roundtrip(b0, 0, 0, url_safe);
    let s = crate::base64_quantum_codec::quantum_sextets(b0, 0, 0);
    assert(s[2] == 0 && s[3] == 0);
    assert(t[0] == q[0] && t[1] == q[1]);
    assert(padded ==> t[2] == pad_unit());
    assert(base64_decode_spec(t, url_safe) =~= seq![b0]);
}

/// Reading a canonical encoding back gives the encoded bytes.
pub proof fn lemma_base64_decode_encode(bytes: Seq<u8>, url_safe: bool, padded: bool)
    ensures
        base64_decode_spec(base64_encode_spec(bytes, url_safe, padded), url_safe) == bytes,
    decreases bytes.len(),
{
    if bytes.len() >= 3 {
        lemma_base64_decode_encode(bytes.skip(3), url_safe, padded);
        lemma_decode_leading_quantum(
            bytes[0],
            bytes[1],
            bytes[2],
            base64_encode_spec(bytes.skip(3), url_safe, padded),
            url_safe,
        );
        assert(bytes =~= seq![bytes[0], bytes[1], bytes[2]] + bytes.skip(3));
    } else if bytes.len() == 2 {
        lemma_decode_tail_two(bytes[0], bytes[1], url_safe, padded);
        assert(bytes =~= seq![bytes[0], bytes[1]]);
    } else if bytes.len() == 1 {
        lemma_decode_tail_one(bytes[0], url_safe, padded);
        assert(bytes =~= seq![bytes[0]]);
    } else {
        assert(bytes =~= Seq::<u8>::empty());
    }
}

/// The encoding is one-to-one: two byte sequences with the same encoding
/// are equal.
pub proof fn lemma_base64_encode_injective(a: Seq<u8>, b: Seq<u8>, url_safe: bool, padded: bool)
    requires
        base64_encode_spec(a, url_safe, padded) == base64_encode_spec(b, url_safe, padded),
    ensures
        a == b,
{
    lemma_base64_decode_encode(a, url_safe, padded);
    lemma_base64_decode_encode(b, url_safe, padded);
}

/// One complete quantum is encoded as the engine encodes three bytes.
pub proof fn lemma_quantum_matches_engine(b0: u8, b1: u8, b2: u8, url_safe: bool, padded: bool)
    ensures
        base64_encode_spec(seq![b0, b1, b2], url_safe, padded) == quantum_units(
            b0,
            b1,
            b2,
            url_safe,
        ),
{
    let bytes = seq![b0, b1, b2];
    assert(bytes.skip(3) =~= Seq::<u8>::empty());
    assert(base64_encode_spec(bytes.skip(3), url_safe, padded) =~= Seq::<u8>::empty());
    assert(base64_encode_spec(bytes, url_safe, padded) =~= quantum_units(b0, b1, b2, url_safe));
}

/// What the `base64` crate's `Engine::decode` returns for `text` on the
/// general-purpose engine with the given alphabet and padding.
pub uninterp spec fn base64_engine_decode(text: Seq<u8>, url_safe: bool, padded: bool) -> Result<
    Seq<u8>,
    Base64DecodeError,
>;

/// The decode result with the bytes seen as a sequence.
pub open spec fn bytes_result(r: Result<Vec<u8>, Base64DecodeError>) -> Result<
    Seq<u8>,
    Base64DecodeError,
> {
    match r {
        Ok(v) => Ok(v@),
        Err(e) => Err(e),
    }
}

/// `text` is the canonical encoding of some bytes.
pub open spec fn is_canonical_base64(text: Seq<u8>, url_safe: bool, padded: bool) -> bool {
    exists|v: Seq<u8>| #[trigger] base64_encode_spec(v, url_safe, padded) == text
}

/// `Engine::encode` of the `base64` crate on `STANDARD` (standard alphabet,
/// padded): the RFC 4648 encoding. It panics when the encoded length does
/// not fit in `usize`, which `requires` rules out.
#[verifier::external_body]
fn encode_standard(bytes: &[u8]) -> (r: String)
    requires
        base64_encoded_len(bytes@.len(), true) <= usize::MAX,
    ensures
        r@ == ascii_chars(base64_encode_spec(bytes@, false, true)),
{
    STANDARD.encode(bytes)
}

/// `Engine::encode` on `STANDARD_NO_PAD` (standard alphabet, no padding).
#[verifier::external_body]
fn encode_standard_no_pad(bytes: &[u8]) -> (r: String)
    requires
        base64_encoded_len(bytes@.len(), false) <= usize::MAX,
    ensures
        r@ == ascii_chars(base64_encode_spec(bytes@, false, false)),
{
    STANDARD_NO_PAD.encode(bytes)
}

/// `Engine::encode` on `URL_SAFE` (URL-safe alphabet, padded).
#[verifier::external_body]
fn encode_url_safe(bytes: &[u8]) -> (r: String)
    requires
        base64_encoded_len(bytes@.len(), true) <= usize::MAX,
    ensures
        r@ == ascii_chars(base64_encode_spec(bytes@, true, true)),
{
    URL_SAFE.encode(bytes)
}

/// `Engine::encode` on `URL_SAFE_NO_PAD` (URL-safe alphabet, no padding).
#[verifier::external_body]
fn encode_url_safe_no_pad(bytes: &[u8]) -> (r: String)
    requires
        base64_encoded_len(bytes@.len(), false) <= usize::MAX,
    ensures
        r@ == ascii_chars(base64_encode_spec(bytes@, true, false)),
{
    URL_SAFE_NO_PAD.encode(bytes)
}

/// `Engine::decode` of the `base64` crate on `STANDARD`, with its error
/// moved field for field into `Base64DecodeError`. The engine requires
/// canonical padding and no trailing bits, so it succeeds exactly on the
/// canonical encodings, and then with the bytes they encode. Which error a
/// rejected text gets is named, not stated.
#[verifier::external_body]
fn decode_standard(text: &str) -> (r: Result<Vec<u8>, Base64DecodeError>)
    ensures
        bytes_result(r) == base64_engine_decode(text.spec_bytes(), false, true),
        r is Ok <==> is_canonical_base64(text.spec_bytes(), false, true),
        r matches Ok(v) ==> base64_encode_spec(v@, false, true) == text.spec_bytes(),
{
    match STANDARD.decode(text) {
        Ok(bytes) => Ok(bytes),
        Err(DecodeError::InvalidByte(index, byte)) => Err(Base64DecodeError::InvalidByte(index, byte)),
        Err(DecodeError::InvalidLength(length)) => Err(Base64DecodeError::InvalidLength(length)),
        Err(DecodeError::InvalidLastSymbol(index, byte)) => Err(
            Base64DecodeError::InvalidLastSymbol(index, byte),
        ),
        Err(DecodeError::InvalidPadding) => Err(Base64DecodeError::InvalidPadding),
    }
}

/// `Engine::decode` on `STANDARD_NO_PAD`, which rejects any padding; as
/// `decode_standard` otherwise.
#[verifier::external_body]
fn decode_standard_no_pad(text: &str) -> (r: Result<Vec<u8>, Base64DecodeError>)
    ensures
        bytes_result(r) == base64_engine_decode(text.spec_bytes(), false, false),
        r is Ok <==> is_canonical_base64(text.spec_bytes(), false, false),
        r matches Ok(v) ==> base64_encode_spec(v@, false, false) == text.spec_bytes(),
{
    match STANDARD_NO_PAD.decode(text) {
        Ok(bytes) => Ok(bytes),
        Err(DecodeError::InvalidByte(index, byte)) => Err(Base64DecodeError::InvalidByte(index, byte)),
        Err(DecodeError::InvalidLength(length)) => Err(Base64DecodeError::InvalidLength(length)),
        Err(DecodeError::InvalidLastSymbol(index, byte)) => Err(
            Base64DecodeError::InvalidLastSymbol(index, byte),
        ),
        Err(DecodeError::InvalidPadding) => Err(Base64DecodeError::InvalidPadding),
    }
}

/// `Engine::decode` on `URL_SAFE`; as `decode_standard`.
#[verifier::external_body]
fn decode_url_safe(text: &str) -> (r: Result<Vec<u8>, Base64DecodeError>)
    ensures
        bytes_result(r) == base64_engine_decode(text.spec_bytes(), true, true),
        r is Ok <==> is_canonical_base64(text.spec_bytes(), true, true),
        r matches Ok(v) ==> base64_encode_spec(v@, true, true) == text.spec_bytes(),
{
    match URL_SAFE.decode(text) {
        Ok(bytes) => Ok(bytes),
        Err(DecodeError::InvalidByte(index, byte)) => Err(Base64DecodeError::InvalidByte(index, byte)),
        Err(DecodeError::InvalidLength(length)) => Err(Base64DecodeError::InvalidLength(length)),
        Err(DecodeError::InvalidLastSymbol(index, byte)) => Err(
            Base64DecodeError::InvalidLastSymbol(index, byte),
        ),
        Err(DecodeError::InvalidPadding) => Err(Base64DecodeError::InvalidPadding),
    }
}

/// `Engine::decode` on `URL_SAFE_NO_PAD`; as `decode_standard_no_pad`.
#[verifier::external_body]
fn decode_url_safe_no_pad(text: &str) -> (r: Result<Vec<u8>, Base64DecodeError>)
    ensures
        bytes_result(r) == base64_engine_decode(text.spec_bytes(), true, false),
        r is Ok <==> is_canonical_base64(text.spec_bytes(), true, false),
        r matches Ok(v) ==> base64_encode_spec(v@, true, false) == text.spec_bytes(),
{
    match URL_SAFE_NO_PAD.decode(text) {
        Ok(bytes) => Ok(bytes),
        Err(DecodeError::InvalidByte(index, byte)) => Err(Base64DecodeError::InvalidByte(index, byte)),
        Err(DecodeError::InvalidLength(length)) => Err(Base64DecodeError::InvalidLength(length)),
        Err(DecodeError::InvalidLastSymbol(index, byte)) => Err(
            Base64DecodeError::InvalidLastSymbol(index, byte),
        ),
        Err(DecodeError::InvalidPadding) => Err(Base64DecodeError::InvalidPadding),
    }
}

/// The message the `base64` crate gives for a decoding error.
pub open spec fn base64_error_text(error: Base64DecodeError) -> Seq<char> {
    match error {
        Base64DecodeError::InvalidByte(index, byte) => "Invalid symbol "@ + decimal_chars(
            byte as nat,
        ) + ", offset "@ + decimal_chars(index as nat) + "."@,
        Base64DecodeError::InvalidLength(length) => "Invalid input length: "@ + decimal_chars(
            length as nat,
        ),
        Base64DecodeError::InvalidLastSymbol(index, byte) => "Invalid last symbol "@
            + decimal_chars(byte as nat) + ", offset "@ + decimal_chars(index as nat) + "."@,
        Base64DecodeError::InvalidPadding => "Invalid padding"@,
    }
}

/// Error for a text that the engine rejected.
pub open spec fn invalid_base64_model(error: Base64DecodeError) -> ErrorModel {
    ErrorModel::InvalidInput { codec: "base64"@, reason: base64_error_text(error) }
}

/// Writes the message for a decoding error.
pub fn base64_error_reason(error: &Base64DecodeError) -> (r: String)
    ensures
        r@ == base64_error_text(*error),
{
    let kind = Base64ErrorKind::from_decode_error(error);
    let mut out = String::new();
    match kind {
        Base64ErrorKind::InvalidByte | Base64ErrorKind::InvalidLastSymbol => {
            let (index, symbol) = match (
                Base64ErrorKind::input_index(error),
                Base64ErrorKind::symbol(error),
            ) {
                (Some(index), Some(symbol)) => (index, symbol),
                _ => {
                    assert(false);
                    (0, 0)
                },
            };
            if kind == Base64ErrorKind::InvalidByte {
                out.append("Invalid symbol ");
            } else {
                out.append("Invalid last symbol ");
            }
            push_decimal(&mut out, symbol as usize);
            out.append(", offset ");
            push_decimal(&mut out, index);
            out.append(".");
            proof {
                reveal_strlit("Invalid symbol ");
                reveal_strlit("Invalid last symbol ");
                reveal_strlit(", offset ");
                reveal_strlit(".");
                assert(out@ =~= base64_error_text(*error));
            }
        },
        Base64ErrorKind::InvalidLength => {
            let length = match Base64ErrorKind::input_length(error) {
                Some(length) => length,
                None => {
                    assert(false);
                    0
                },
            };
            out.append("Invalid input length: ");
            push_decimal(&mut out, length);
            proof {
                reveal_strlit("Invalid input length: ");
                assert(out@ =~= base64_error_text(*error));
            }
        },
        Base64ErrorKind::InvalidPadding => {
            out.append("Invalid padding");
            proof {
                reveal_strlit("Invalid padding");
                assert(out@ =~= base64_error_text(*error));
            }
        },
    }
    out
}

/// Encodes and decodes whole texts as Base64, with the standard or URL-safe
/// alphabet, padded or not.
#[derive(Debug, Clone, Copy, PartialEq, Eq, Structural)]
pub struct Base64Codec {
    url_safe: bool,
    padded: bool,
}

impl View for Base64Codec {
    /// The alphabet (URL-safe or not) and whether `=` padding is used.
    type V = (bool, bool);

    closed spec fn view(&self) -> (bool, bool) {
        (self.url_safe, self.padded)
    }
}

impl Base64Codec {
    /// Creates a standard Base64 codec with padding.
    pub fn standard() -> (r: Self)
        ensures
            r@ == (false, true),
    {
        Base64Codec { url_safe: false, padded: true }
    }

    /// Creates a standard Base64 codec without padding.
    pub fn standard_no_pad() -> (r: Self)
        ensures
            r@ == (false, false),
    {
        Base64Codec { url_safe: false, padded: false }
    }

    /// Creates a URL-safe Base64 codec with padding.
    pub fn url_safe() -> (r: Self)
        ensures
            r@ == (true, true),
    {
        Base64Codec { url_safe: true, padded: true }
    }

    /// Creates a URL-safe Base64 codec without padding.
    pub fn url_safe_no_pad() -> (r: Self)
        ensures
            r@ == (true, false),
    {
        Base64Codec { url_safe: true, padded: false }
    }

    /// Length of the encoding of `len` bytes, if it fits in `usize`; when it
    /// does not, `encode` cannot be called.
    pub fn encoded_len(&self, len: usize) -> (r: Option<usize>)
        ensures
            r == if base64_encoded_len(len as nat, self@.1) <= usize::MAX {
                Some(base64_encoded_len(len as nat, self@.1) as usize)
            } else {
                None::<usize>
            },
    {
        let rem = len % 3;
        let whole = match (len / 3).checked_mul(4) {
            Some(w) => w,
            None => {
                return None;
            },
        };
        if rem == 0 {
            Some(whole)
        } else if self.padded {
            whole.checked_add(4)
        } else {
            whole.checked_add(rem + 1)
        }
    }

    /// Encodes bytes into Base64 text.
    pub fn encode(&self, bytes: &[u8]) -> (r: String)
        requires
            base64_encoded_len(bytes@.len(), self@.1) <= usize::MAX,
        ensures
            r@ == ascii_chars(base64_encode_spec(bytes@, self@.0, self@.1)),
    {
        if self.url_safe {
            if self.padded {
                encode_url_safe(bytes)
            } else {
                encode_url_safe_no_pad(bytes)
            }
        } else {
            if self.padded {
                encode_standard(bytes)
            } else {
                encode_standard_no_pad(bytes)
            }
        }
    }

    /// Decodes Base64 text into bytes; fails with `InvalidInput` (codec
    /// `base64`, the engine's message as reason) unless `text` is the
    /// canonical encoding of some bytes, and then gives exactly those bytes.
    pub fn decode(&self, text: &str) -> (r: MiscCodecResult<Vec<u8>>)
        ensures
            match base64_engine_decode(text.spec_bytes(), self@.0, self@.1) {
                Ok(v) => r matches Ok(w) && w@ == v,
                Err(e) => r matches Err(err) && err@ == invalid_base64_model(e),
            },
            r is Ok <==> is_canonical_base64(text.spec_bytes(), self@.0, self@.1),
            forall|v: Seq<u8>| #[trigger]
                base64_encode_spec(v, self@.0, self@.1) == text.spec_bytes() ==> (r matches Ok(w)
                    && w@ == v),
    {
        let decoded = if self.url_safe {
            if self.padded {
                decode_url_safe(text)
            } else {
                decode_url_safe_no_pad(text)
            }
        } else {
            if self.padded {
                decode_standard(text)
            } else {
                decode_standard_no_pad(text)
            }
        };
        match decoded {
            Ok(bytes) => {
                assert forall|v: Seq<u8>| #[trigger]
                    base64_encode_spec(v, self@.0, self@.1) == text.spec_bytes() implies v
                    == bytes@ by {
                    lemma_base64_encode_injective(v, bytes@, self@.0, self@.1);
                }
                Ok(bytes)
            },
            Err(error) => {
                let reason = base64_error_reason(&error);
                Err(MiscCodecError::InvalidInput { codec: "base64", reason })
            },
        }
    }
}

impl Default for Base64Codec {
    /// The standard padded codec.
    fn default() -> (r: Self)
        ensures
            r@ == (false, true),
    {
        Base64Codec::standard()
    }
}

} // verus!
