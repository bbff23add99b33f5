//! Percent text codec.

use crate::internal::parse_error::{spec_failure_with_consumed, ParseError, ParseErrorModel};
use crate::internal::percent_encoding_mode::{
    spec_is_space_plus, spec_is_unescaped, PercentEncodingMode,
};
use crate::misc_codec_error::{
    map_misc_decode_failure_with_consumed, DecodeFailure, DecodeFailureModel, ErrorModel,
    MiscCodecError, MiscCodecResult, result_model,
};
use crate::text_support::{
    upper_hex_digit,
    push_char, string_from_utf8, string_from_utf8_lossy, all_ascii, ascii_chars, hex_digit_byte, lemma_ascii_chars_encode, spec_hex_value, utf8_lossy,
};
use crate::seq_support::{lemma_flat_map_add, lemma_flat_map_first};
use vstd::prelude::*;
use vstd::slice::*;
use vstd::string::*;
use vstd::utf8::*;

verus! {

broadcast use vstd::utf8::group_utf8_lib;

/// The percent escape `%XX` of `byte`, with uppercase digits.
pub open spec fn percent_escape_bytes(byte: u8) -> Seq<u8> {
    seq![0x25u8, hex_digit_byte(byte / 16, true), hex_digit_byte(byte % 16, true)]
}

/// Units written for one byte under `mode`.
pub open spec fn percent_unit_bytes(mode: PercentEncodingMode, byte: u8) -> Seq<u8> {
    if spec_is_space_plus(mode, byte) {
        seq![0x2bu8]
    } else if spec_is_unescaped(mode, byte) {
        seq![byte]
    } else {
        percent_escape_bytes(byte)
    }
}

/// `percent_unit_bytes` as a function value.
pub open spec fn percent_unit_fn(mode: PercentEncodingMode) -> spec_fn(u8) -> Seq<u8> {
    |b: u8| percent_unit_bytes(mode, b)
}

/// Percent encoding of `bytes` under `mode`.
pub open spec fn spec_percent_encode(bytes: Seq<u8>, mode: PercentEncodingMode) -> Seq<u8> {
    bytes.flat_map(percent_unit_fn(mode))
}

/// Reads one raw byte, `+` (when `plus_as_space`) or `%XX` escape at `i`.
/// `Ok((value, width))`; `Err(true)` when the escape is cut short by the end
/// of input (three units are needed); `Err(false)` when a digit is not hex.
pub open spec fn spec_percent_unit(input: Seq<u8>, i: int, plus_as_space: bool) -> Result<
    (u8, int),
    bool,
> {
    if input[i] == 0x25 {
        if input.len() - i < 3 {
            Err(true)
        } else {
            match (spec_hex_value(input[i + 1] as u32), spec_hex_value(input[i + 2] as u32)) {
                (Some(high), Some(low)) => Ok(((high * 16 + low) as u8, 3)),
                _ => Err(false),
            }
        }
    } else if input[i] == 0x2b && plus_as_space {
        Ok((0x20u8, 1))
    } else {
        Ok((input[i], 1))
    }
}

/// Decodes `input` from byte `i` on: the decoded bytes, or the byte index of
/// the first malformed escape.
pub open spec fn spec_percent_decode_from(input: Seq<u8>, i: int, plus_as_space: bool) -> Result<
    Seq<u8>,
    int,
>
    decreases input.len() - i,
{
    if i < 0 || i >= input.len() {
        Ok(Seq::empty())
    } else {
        match spec_percent_unit(input, i, plus_as_space) {
            Err(_) => Err(i),
            Ok((value, width)) => match spec_percent_decode_from(input, i + width, plus_as_space) {
                Ok(rest) => Ok(seq![value] + rest),
                Err(j) => Err(j),
            },
        }
    }
}

/// Percent decoding of the whole input.
pub open spec fn spec_percent_decode(input: Seq<u8>, plus_as_space: bool) -> Result<Seq<u8>, int> {
    spec_percent_decode_from(input, 0, plus_as_space)
}

/// Reason given for a malformed percent escape.
pub open spec fn percent_escape_reason() -> Seq<char> {
    "expected two hexadecimal digits"@
}

/// Text of the escape bytes: their decoded characters where they are valid
/// UTF-8, and the lossy reading otherwise.
pub open spec fn escape_text(bytes: Seq<u8>) -> Seq<char> {
    if valid_utf8(bytes) {
        decode_utf8(bytes)
    } else {
        utf8_lossy(bytes)
    }
}

/// Error for a malformed escape at `i`: the escape shows at most three units.
pub open spec fn invalid_percent_escape_model(input: Seq<u8>, i: int) -> ErrorModel {
    let end = if i + 3 <= input.len() {
        i + 3
    } else {
        input.len() as int
    };
    ErrorModel::InvalidEscape {
        index: i as nat,
        escape: escape_text(input.subrange(i, end)),
        reason: percent_escape_reason(),
    }
}

/// Width of a malformed escape at `i`: the available units, from one to three.
pub open spec fn percent_invalid_width(input: Seq<u8>, i: int) -> nat {
    let available = input.len() - i;
    if available < 1 {
        1
    } else if available > 3 {
        3
    } else {
        available as nat
    }
}

/// Prepends decoded bytes to a decoding outcome.
pub open spec fn prepend_decoded<E>(prefix: Seq<u8>, r: Result<Seq<u8>, E>) -> Result<Seq<u8>, E> {
    match r {
        Ok(rest) => Ok(prefix + rest),
        Err(e) => Err(e),
    }
}

/// Returns the percent escape of `byte`; wraps `percent_encoding::percent_encode_byte`,
/// whose result is `%` and the two uppercase hexadecimal digits of `byte`.
#[verifier::external_body]
fn percent_escape(byte: u8) -> (r: &'static str)
    ensures
        r@ == ascii_chars(percent_escape_bytes(byte)),
{
    percent_encoding::percent_encode_byte(byte)
}

/// Converts one ASCII hex byte to its nibble value.
pub fn percent_hex_value(byte: u8) -> (r: Option<u8>)
    ensures
        r == spec_hex_value(byte as u32),
{
    if 0x30 <= byte && byte <= 0x39 {
        Some(byte - 0x30)
    } else if 0x61 <= byte && byte <= 0x66 {
        Some(byte - 0x61 + 10)
    } else if 0x41 <= byte && byte <= 0x46 {
        Some(byte - 0x41 + 10)
    } else {
        None
    }
}

/// Returns the encoded width for one byte under `mode`.
pub fn percent_encode_len(byte: u8, mode: PercentEncodingMode) -> (r: usize)
    ensures
        r == percent_unit_bytes(mode, byte).len(),
{
    if mode.is_space_plus(byte) || mode.is_unescaped(byte) {
        1
    } else {
        3
    }
}

proof fn lemma_percent_escape_ascii(byte: u8)
    ensures
        all_ascii(percent_escape_bytes(byte)),
        percent_escape_bytes(byte).len() == 3,
{
    assert(byte / 16 < 16 && byte % 16 < 16);
}

/// Percent-encodes one byte into `output` at `index`, returning the number
/// of units written.
pub fn percent_encode_byte(byte: u8, output: &mut [u8], index: usize, mode: PercentEncodingMode)
    -> (r: usize)
    requires
        index + percent_unit_bytes(mode, byte).len() <= old(output)@.len(),
    ensures
        r == percent_unit_bytes(mode, byte).len(),
        final(output)@ == old(output)@.update_subrange_with(
            index as int,
            percent_unit_bytes(mode, byte),
        ),
{
    if mode.is_space_plus(byte) {
        output[index] = 0x2b;
        assert(final(output)@ =~= old(output)@.update_subrange_with(
            index as int,
            percent_unit_bytes(mode, byte),
        ));
        return 1;
    }
    if mode.is_unescaped(byte) {
        output[index] = byte;
        assert(final(output)@ =~= old(output)@.update_subrange_with(
            index as int,
            percent_unit_bytes(mode, byte),
        ));
        return 1;
    }
    proof {
        lemma_percent_escape_ascii(byte);
        lemma_ascii_chars_encode(percent_escape_bytes(byte));
    }
    assert(percent_unit_bytes(mode, byte) == percent_escape_bytes(byte));
    let escape = percent_escape(byte).as_bytes();
    output[index] = escape[0];
    output[index + 1] = escape[1];
    output[index + 2] = escape[2];
    assert(final(output)@ =~= old(output)@.update_subrange_with(
        index as int,
        percent_unit_bytes(mode, byte),
    ));
    3
}

proof fn lemma_percent_unit_ascii(mode: PercentEncodingMode, byte: u8)
    requires
        !spec_is_unescaped(mode, byte) || byte < 0x80,
    ensures
        all_ascii(percent_unit_bytes(mode, byte)),
{
    lemma_percent_escape_ascii(byte);
}

/// The percent encoding of any bytes is ASCII.
pub proof fn lemma_percent_encode_ascii(bytes: Seq<u8>, mode: PercentEncodingMode)
    ensures
        all_ascii(spec_percent_encode(bytes, mode)),
    decreases bytes.len(),
{
    if bytes.len() > 0 {
        let n = (bytes.len() - 1) as int;
        lemma_percent_encode_ascii(bytes.take(n), mode);
        bytes.lemma_flat_map_take_append(percent_unit_fn(mode), n);
        assert(bytes.take(n + 1) =~= bytes);
        lemma_percent_unit_ascii(mode, bytes[n]);
        let a = spec_percent_encode(bytes.take(n), mode);
        let b = percent_unit_bytes(mode, bytes[n]);
        assert forall|i| 0 <= i < (a + b).len() implies #[trigger] (a + b)[i] < 0x80 by {
            if i < a.len() {
                assert(a[i] < 0x80);
            } else {
                assert(b[i - a.len()] < 0x80);
            }
        }
    }
}

/// Percent-encodes UTF-8 bytes into text.
pub fn percent_encode_bytes(bytes: &[u8], mode: PercentEncodingMode) -> (r: String)
    ensures
        r@ == ascii_chars(spec_percent_encode(bytes@, mode)),
{
    let mut output = String::new();
    let mut i: usize = 0;
    while i < bytes.len()
        invariant
            i <= bytes@.len(),
            output@ == ascii_chars(spec_percent_encode(bytes@.take(i as int), mode)),
        decreases bytes@.len() - i,
    {
        let byte = bytes[i];
        proof {
            bytes@.lemma_flat_map_take_append(percent_unit_fn(mode), i as int);
            lemma_percent_escape_ascii(byte);
        }
        let ghost before = output@;
        if mode.is_space_plus(byte) {
            push_char(&mut output, '+');
        } else if mode.is_unescaped(byte) {
            push_char(&mut output, byte as char);
        } else {
            let escape = percent_escape(byte);
            assert(escape@.len() == 3);
            push_char(&mut output, escape.get_char(0));
            push_char(&mut output, escape.get_char(1));
            push_char(&mut output, escape.get_char(2));
        }
        proof {
            let unit = percent_unit_bytes(mode, byte);
            let prev = spec_percent_encode(bytes@.take(i as int), mode);
            assert(ascii_chars(prev + unit) =~= ascii_chars(prev) + ascii_chars(unit));
            assert(output@ =~= before + ascii_chars(unit));
        }
        i = i + 1;
    }
    assert(bytes@.take(bytes@.len() as int) =~= bytes@);
    output
}

/// Decodes one raw byte, `+` (when `plus_as_space`) or `%XX` escape at `index`.
pub fn percent_decode_byte(input: &[u8], index: usize, plus_as_space: bool) -> (r: Result<
    (u8, usize),
    ParseError,
>)
    requires
        index < input@.len(),
    ensures
        match spec_percent_unit(input@, index as int, plus_as_space) {
            Ok((value, width)) => r matches Ok((v, w)) && v == value && w == width,
            Err(true) => r matches Err(e) && e@ == ParseErrorModel::Incomplete { required: 3 },
            Err(false) => r matches Err(e) && e@ == ParseErrorModel::Invalid(
                invalid_percent_escape_model(input@, index as int),
            ),
        },
{
    let available = input.len() - index;
    let byte = input[index];
    if byte == 0x25 {
        if available < 3 {
            return Err(ParseError::Incomplete { required: 3 });
        }
        let high = percent_hex_value(input[index + 1]);
        let low = percent_hex_value(input[index + 2]);
        match (high, low) {
            (Some(high), Some(low)) => Ok((high * 16 + low, 3)),
            _ => Err(ParseError::Invalid(invalid_percent_escape(input, index))),
        }
    } else if byte == 0x2b && plus_as_space {
        Ok((0x20, 1))
    } else {
        Ok((byte, 1))
    }
}

/// Builds a malformed percent escape error for the escape at `index`.
fn invalid_percent_escape(input: &[u8], index: usize) -> (r: MiscCodecError)
    requires
        index < input@.len(),
    ensures
        r@ == invalid_percent_escape_model(input@, index as int),
{
    let end = if input.len() - index >= 3 {
        index + 3
    } else {
        input.len()
    };
    MiscCodecError::InvalidEscape {
        index,
        escape: string_from_utf8_lossy(slice_subrange(input, index, end)),
        reason: "expected two hexadecimal digits".to_owned(),
    }
}

/// Converts an open-stream parse outcome into a complete-input error.
fn percent_parse_error_to_misc(error: ParseError, input: &[u8], index: usize) -> (r:
    MiscCodecError)
    requires
        index < input@.len(),
        error@ is Incomplete || error@ == ParseErrorModel::Invalid(
            invalid_percent_escape_model(input@, index as int),
        ),
    ensures
        r@ == invalid_percent_escape_model(input@, index as int),
{
    match error {
        ParseError::Incomplete { .. } => invalid_percent_escape(input, index),
        ParseError::Invalid(error) => error,
    }
}

/// Percent-decodes the bytes of `text`.
pub fn percent_decode_bytes(text: &str, plus_as_space: bool) -> (r: MiscCodecResult<Vec<u8>>)
    ensures
        match spec_percent_decode(text.spec_bytes(), plus_as_space) {
            Ok(decoded) => r matches Ok(v) && v@ == decoded,
            Err(i) => r matches Err(e) && e@ == invalid_percent_escape_model(text.spec_bytes(), i),
        },
{
    let bytes = text.as_bytes();
    let ghost input = bytes@;
    let mut output: Vec<u8> = Vec::new();
    let mut index: usize = 0;
    while index < bytes.len()
        invariant
            input == bytes@,
            input == text.spec_bytes(),
            index <= input.len(),
            spec_percent_decode(input, plus_as_space) == prepend_decoded(
                output@,
                spec_percent_decode_from(input, index as int, plus_as_space),
            ),
        decreases input.len() - index,
    {
        let ghost before = output@;
        match percent_decode_byte(bytes, index, plus_as_space) {
            Ok((decoded, consumed)) => {
                output.push(decoded);
                proof {
                    let rest = spec_percent_decode_from(input, index + consumed, plus_as_space);
                    match rest {
                        Ok(v) => {
                            assert(before + (seq![decoded] + v) =~= output@ + v);
                        },
                        Err(_) => {},
                    }
                }
                index = index + consumed;
            },
            Err(error) => {
                assert(spec_percent_decode_from(input, index as int, plus_as_space) == Err::<
                    Seq<u8>,
                    int,
                >(index as int));
                return Err(percent_parse_error_to_misc(error, bytes, index));
            },
        }
    }
    assert(output@ + Seq::<u8>::empty() =~= output@);
    Ok(output)
}

/// Percent encoding of UTF-8 text under `mode`, as characters.
pub open spec fn spec_percent_encode_text(text: Seq<char>, mode: PercentEncodingMode) -> Seq<
    char,
> {
    ascii_chars(spec_percent_encode(encode_utf8(text), mode))
}

/// Percent decoding of the bytes of a text into text.
pub open spec fn spec_percent_decode_text(input: Seq<u8>, plus_as_space: bool) -> Result<
    Seq<char>,
    ErrorModel,
> {
    match spec_percent_decode(input, plus_as_space) {
        Ok(v) => if valid_utf8(v) {
            Ok(decode_utf8(v))
        } else {
            Err(ErrorModel::InvalidUtf8)
        },
        Err(i) => Err(invalid_percent_escape_model(input, i)),
    }
}

/// Shifted decoding outcome: error indices move by `offset`.
pub open spec fn shift_decoded(r: Result<Seq<u8>, int>, offset: int) -> Result<Seq<u8>, int> {
    match r {
        Ok(v) => Ok(v),
        Err(j) => Err(j + offset),
    }
}

/// Decoding after a prefix is decoding the rest, with shifted error indices.
proof fn lemma_percent_decode_shift(p: Seq<u8>, q: Seq<u8>, k: int, plus_as_space: bool)
    requires
        0 <= k,
    ensures
        spec_percent_decode_from(p + q, p.len() + k, plus_as_space) == shift_decoded(
            spec_percent_decode_from(q, k, plus_as_space),
            p.len() as int,
        ),
    decreases q.len() - k,
{
    let s = p + q;
    let i = p.len() + k;
    if k < q.len() {
        assert(s[i] == q[k]);
        if q[k] == 0x25 && q.len() - k >= 3 {
            assert(s[i + 1] == q[k + 1]);
            assert(s[i + 2] == q[k + 2]);
        }
        assert(spec_percent_unit(s, i, plus_as_space) == spec_percent_unit(q, k, plus_as_space));
        match spec_percent_unit(q, k, plus_as_space) {
            Ok((v, w)) => {
                lemma_percent_decode_shift(p, q, k + w, plus_as_space);
            },
            Err(_) => {},
        }
    }
}

/// Decoding the encoding of one byte, followed by anything, reads that byte.
proof fn lemma_percent_unit_roundtrip(byte: u8, rest: Seq<u8>, mode: PercentEncodingMode)
    ensures
        spec_percent_unit(
            percent_unit_bytes(mode, byte) + rest,
            0,
            mode == PercentEncodingMode::FormUrlencoded,
        ) == Ok::<(u8, int), bool>((byte, percent_unit_bytes(mode, byte).len() as int)),
{
    let u = percent_unit_bytes(mode, byte);
    let s = u + rest;
    let plus = mode == PercentEncodingMode::FormUrlencoded;
    if spec_is_space_plus(mode, byte) {
        assert(s[0] == 0x2b);
    } else if spec_is_unescaped(mode, byte) {
        assert(s[0] == byte);
    } else {
        let h = byte / 16;
        let l = byte % 16;
        assert(s[0] == 0x25 && s[1] == hex_digit_byte(h, true) && s[2] == hex_digit_byte(l, true));
        assert(spec_hex_value(hex_digit_byte(h, true) as u32) == Some(h));
        assert(spec_hex_value(hex_digit_byte(l, true) as u32) == Some(l));
        assert(h * 16 + l == byte);
    }
}

/// Percent decoding inverts percent encoding, at the byte level.
pub proof fn lemma_percent_bytes_roundtrip(bytes: Seq<u8>, mode: PercentEncodingMode)
    ensures
        spec_percent_decode(
            spec_percent_encode(bytes, mode),
            mode == PercentEncodingMode::FormUrlencoded,
        ) == Ok::<Seq<u8>, int>(bytes),
    decreases bytes.len(),
{
    let plus = mode == PercentEncodingMode::FormUrlencoded;
    let e = spec_percent_encode(bytes, mode);
    if bytes.len() == 0 {
        assert(e =~= Seq::<u8>::empty()) by {
            assert(bytes.map_values(percent_unit_fn(mode)) =~= Seq::<Seq<u8>>::empty());
        }
        assert(bytes =~= Seq::<u8>::empty());
    } else {
        let u = percent_unit_bytes(mode, bytes[0]);
        let tail = bytes.drop_first();
        let rest = spec_percent_encode(tail, mode);
        lemma_flat_map_first(bytes, percent_unit_fn(mode));
        assert(e == u + rest);
        lemma_percent_unit_roundtrip(bytes[0], rest, mode);
        lemma_percent_bytes_roundtrip(tail, mode);
        lemma_percent_decode_shift(u, rest, 0, plus);
        assert(u.len() + 0 == u.len());
        assert(seq![bytes[0]] + tail =~= bytes);
    }
}

/// Law: decoding what percent encoding produced gives the original text back,
/// for both the RFC 3986 codec and the form codec.
pub proof fn lemma_percent_text_roundtrip(text: Seq<char>, mode: PercentEncodingMode)
    ensures
        spec_percent_decode_text(
            encode_utf8(spec_percent_encode_text(text, mode)),
            mode == PercentEncodingMode::FormUrlencoded,
        ) == Ok::<Seq<char>, ErrorModel>(text),
{
    let bytes = encode_utf8(text);
    lemma_percent_encode_ascii(bytes, mode);
    lemma_ascii_chars_encode(spec_percent_encode(bytes, mode));
    lemma_percent_bytes_roundtrip(bytes, mode);
}

/// An ASCII hexadecimal digit, `0`-`9`, `A`-`F` or `a`-`f`.
pub open spec fn is_ascii_hex_digit_byte(b: u8) -> bool {
    (0x30 <= b <= 0x39) || (0x41 <= b <= 0x46) || (0x61 <= b <= 0x66)
}

/// The value of an ASCII hexadecimal digit.
pub open spec fn ascii_hex_digit_value(b: u8) -> int {
    if b <= 0x39 {
        b - 0x30
    } else if b <= 0x46 {
        b - 0x41 + 10
    } else {
        b - 0x61 + 10
    }
}

/// Law: a `%` followed by two hexadecimal digits, lowercase or uppercase,
/// reads as three units holding the byte sixteen times the first digit's
/// value plus the second's.
pub proof fn lemma_percent_escape_value(input: Seq<u8>, i: int, plus_as_space: bool)
    requires
        0 <= i,
        i + 3 <= input.len(),
        input[i] == 0x25,
        is_ascii_hex_digit_byte(input[i + 1]),
        is_ascii_hex_digit_byte(input[i + 2]),
    ensures
        spec_percent_unit(input, i, plus_as_space) == Ok::<(u8, int), bool>(
            (
                (16 * ascii_hex_digit_value(input[i + 1]) + ascii_hex_digit_value(
                    input[i + 2],
                )) as u8,
                3,
            ),
        ),
{
}

/// Law: any byte other than `%`, and other than `+` when it stands for a
/// space, reads as itself in one unit; `+` reads as a space exactly when
/// `plus_as_space`; a `%` not followed by two hexadecimal digits is malformed,
/// or cut short when fewer than three units are left.
pub proof fn lemma_percent_unit_cases(input: Seq<u8>, i: int, plus_as_space: bool)
    requires
        0 <= i < input.len(),
    ensures
        input[i] != 0x25 && !(input[i] == 0x2b && plus_as_space) ==> spec_percent_unit(
            input,
            i,
            plus_as_space,
        ) == Ok::<(u8, int), bool>((input[i], 1)),
        input[i] == 0x2b && plus_as_space ==> spec_percent_unit(input, i, plus_as_space) == Ok::<
            (u8, int),
            bool,
        >((0x20u8, 1)),
        input[i] == 0x25 && i + 3 <= input.len() && !(is_ascii_hex_digit_byte(input[i + 1])
            && is_ascii_hex_digit_byte(input[i + 2])) ==> spec_percent_unit(
            input,
            i,
            plus_as_space,
        ) == Err::<(u8, int), bool>(false),
        input[i] == 0x25 && i + 3 > input.len() ==> spec_percent_unit(input, i, plus_as_space)
            == Err::<(u8, int), bool>(true),
{
}

/// Decoding from `i` of a text that decodes from `i`, followed by more
/// units: the decoded bytes, then the decoding of what follows.
proof fn lemma_percent_decode_concat_from(a: Seq<u8>, b: Seq<u8>, i: int, plus_as_space: bool)
    requires
        0 <= i <= a.len(),
        spec_percent_decode_from(a, i, plus_as_space) is Ok,
    ensures
        spec_percent_decode_from(a + b, i, plus_as_space) == prepend_decoded(
            spec_percent_decode_from(a, i, plus_as_space)->Ok_0,
            shift_decoded(spec_percent_decode(b, plus_as_space), a.len() as int),
        ),
    decreases a.len() - i,
{
    let s = a + b;
    if i == a.len() {
        lemma_percent_decode_shift(a, b, 0, plus_as_space);
        assert(a.len() + 0 == a.len());
        match shift_decoded(spec_percent_decode(b, plus_as_space), a.len() as int) {
            Ok(v) => {
                assert(Seq::<u8>::empty() + v =~= v);
            },
            Err(_) => {},
        }
    } else {
        assert(s[i] == a[i]);
        if a[i] == 0x25 && a.len() - i >= 3 {
            assert(s[i + 1] == a[i + 1]);
            assert(s[i + 2] == a[i + 2]);
        }
        assert(spec_percent_unit(s, i, plus_as_space) == spec_percent_unit(a, i, plus_as_space));
        let (v, w) = spec_percent_unit(a, i, plus_as_space)->Ok_0;
        lemma_percent_decode_concat_from(a, b, i + w, plus_as_space);
        let rest = spec_percent_decode_from(a, i + w, plus_as_space)->Ok_0;
        match shift_decoded(spec_percent_decode(b, plus_as_space), a.len() as int) {
            Ok(t) => {
                assert(seq![v] + (rest + t) =~= (seq![v] + rest) + t);
            },
            Err(_) => {},
        }
    }
}

/// Law: once a text decodes, what follows it decodes on its own: the
/// decoded bytes are joined, and an error in what follows is reported at
/// its place in the whole text.
pub proof fn lemma_percent_decode_concat(a: Seq<u8>, b: Seq<u8>, plus_as_space: bool)
    requires
        spec_percent_decode(a, plus_as_space) is Ok,
    ensures
        spec_percent_decode(a + b, plus_as_space) == prepend_decoded(
            spec_percent_decode(a, plus_as_space)->Ok_0,
            shift_decoded(spec_percent_decode(b, plus_as_space), a.len() as int),
        ),
{
    lemma_percent_decode_concat_from(a, b, 0, plus_as_space);
}

/// Law: in a text whose beginning decodes, an escape `%` `h` `l` with
/// hexadecimal digits of either case decodes to the byte `16 * h + l`, and
/// decoding goes on with the rest of the text.
pub proof fn lemma_percent_decode_hex_escape(
    pre: Seq<u8>,
    h: u8,
    l: u8,
    post: Seq<u8>,
    plus_as_space: bool,
)
    requires
        spec_percent_decode(pre, plus_as_space) is Ok,
        is_ascii_hex_digit_byte(h),
        is_ascii_hex_digit_byte(l),
    ensures
        spec_percent_decode(pre + seq![0x25u8, h, l] + post, plus_as_space) == prepend_decoded(
            spec_percent_decode(pre, plus_as_space)->Ok_0 + seq![
                (16 * ascii_hex_digit_value(h) + ascii_hex_digit_value(l)) as u8,
            ],
            shift_decoded(spec_percent_decode(post, plus_as_space), pre.len() + 3int),
        ),
{
    let e = seq![0x25u8, h, l];
    let value = (16 * ascii_hex_digit_value(h) + ascii_hex_digit_value(l)) as u8;
    lemma_percent_escape_value(e, 0, plus_as_space);
    assert(spec_percent_decode_from(e, 3, plus_as_space) == Ok::<Seq<u8>, int>(Seq::empty()));
    assert(spec_percent_decode(e, plus_as_space) == Ok::<Seq<u8>, int>(seq![value] + Seq::<u8>::empty()));
    assert(seq![value] + Seq::<u8>::empty() =~= seq![value]);
    lemma_percent_decode_concat(pre, e, plus_as_space);
    let a = pre + e;
    assert(spec_percent_decode(a, plus_as_space) == Ok::<Seq<u8>, int>(
        spec_percent_decode(pre, plus_as_space)->Ok_0 + seq![value],
    ));
    lemma_percent_decode_concat(a, post, plus_as_space);
    assert(a.len() == pre.len() + 3);
}

/// Encoding one byte among others: the encoding of what comes before, the
/// byte's own units, then the encoding of what comes after.
proof fn lemma_percent_encode_split(
    pre: Seq<u8>,
    b: u8,
    post: Seq<u8>,
    mode: PercentEncodingMode,
)
    ensures
        spec_percent_encode(pre + seq![b] + post, mode) == spec_percent_encode(pre, mode)
            + percent_unit_bytes(mode, b) + spec_percent_encode(post, mode),
{
    let f = percent_unit_fn(mode);
    lemma_flat_map_add(pre + seq![b], post, f);
    lemma_flat_map_add(pre, seq![b], f);
    lemma_flat_map_first(seq![b], f);
    assert(seq![b].drop_first() =~= Seq::<u8>::empty());
    assert(Seq::<u8>::empty().flat_map(f) =~= Seq::<u8>::empty()) by {
        assert(Seq::<u8>::empty().map_values(f) =~= Seq::<Seq<u8>>::empty());
    }
    assert(f(b) + Seq::<u8>::empty() =~= f(b));
}

/// Law: in RFC 3986 mode a byte is written as itself exactly when it is an
/// ASCII letter, digit, `-`, `.`, `_` or `~`; every other byte is written as
/// `%` and its two uppercase hexadecimal digits, in its place in the text.
pub proof fn lemma_rfc3986_encode_byte(pre: Seq<u8>, b: u8, post: Seq<u8>)
    ensures
        spec_percent_encode(pre + seq![b] + post, PercentEncodingMode::Rfc3986)
            == spec_percent_encode(pre, PercentEncodingMode::Rfc3986) + (if (0x41 <= b <= 0x5a)
            || (0x61 <= b <= 0x7a) || (0x30 <= b <= 0x39) || b == 0x2d || b == 0x2e || b == 0x5f
            || b == 0x7e {
            seq![b]
        } else {
            seq![0x25u8, upper_hex_digit(b as int / 16), upper_hex_digit(b as int % 16)]
        }) + spec_percent_encode(post, PercentEncodingMode::Rfc3986),
{
    lemma_percent_encode_split(pre, b, post, PercentEncodingMode::Rfc3986);
}

/// Law: in form-urlencoded mode a byte is written as itself exactly when it
/// is an ASCII letter, digit, `*`, `-`, `.` or `_`; a space is written as
/// `+`; every other byte is written as `%` and its two uppercase hexadecimal
/// digits, in its place in the text.
pub proof fn lemma_form_encode_byte(pre: Seq<u8>, b: u8, post: Seq<u8>)
    ensures
        spec_percent_encode(pre + seq![b] + post, PercentEncodingMode::FormUrlencoded)
            == spec_percent_encode(pre, PercentEncodingMode::FormUrlencoded) + (if (0x41 <= b
            <= 0x5a) || (0x61 <= b <= 0x7a) || (0x30 <= b <= 0x39) || b == 0x2a || b == 0x2d || b
            == 0x2e || b == 0x5f {
            seq![b]
        } else if b == 0x20 {
            seq![0x2bu8]
        } else {
            seq![0x25u8, upper_hex_digit(b as int / 16), upper_hex_digit(b as int % 16)]
        }) + spec_percent_encode(post, PercentEncodingMode::FormUrlencoded),
{
    lemma_percent_encode_split(pre, b, post, PercentEncodingMode::FormUrlencoded);
}

/// Decodes one value after end of input has been confirmed: a cut-short
/// escape is malformed rather than incomplete.
pub fn percent_decode_unit_eof(input: &[u8], index: usize, plus_as_space: bool) -> (r: Result<
    (u8, usize),
    DecodeFailure,
>)
    requires
        index < input@.len(),
    ensures
        match spec_percent_unit(input@, index as int, plus_as_space) {
            Ok((value, width)) => r matches Ok((v, w)) && v == value && w == width,
            Err(_) => r matches Err(f) && f@ == DecodeFailureModel::Invalid {
                source: invalid_percent_escape_model(input@, index as int),
                consumed: Some(percent_invalid_width(input@, index as int)),
            },
        },
{
    match percent_decode_byte_eof(input, index, plus_as_space) {
        Ok(decoded) => Ok(decoded),
        Err(source) => Err(map_misc_decode_failure_with_consumed(
            source,
            percent_invalid_consumed(input, index),
        )),
    }
}

/// Decodes one percent value under end-of-input rules, with a cut-short or
/// malformed escape reported as a complete-input error.
fn percent_decode_byte_eof(input: &[u8], index: usize, plus_as_space: bool) -> (r: Result<
    (u8, usize),
    MiscCodecError,
>)
    requires
        index < input@.len(),
    ensures
        match spec_percent_unit(input@, index as int, plus_as_space) {
            Ok((value, width)) => r matches Ok((v, w)) && v == value && w == width,
            Err(_) => r matches Err(e) && e@ == invalid_percent_escape_model(input@, index as int),
        },
{
    match percent_decode_byte(input, index, plus_as_space) {
        Ok(decoded) => Ok(decoded),
        Err(error) => Err(percent_parse_error_to_misc(error, input, index)),
    }
}

/// Decodes one value from an open stream: a cut-short escape asks for three
/// units, a malformed one spans three units.
pub fn percent_decode_unit(input: &[u8], index: usize, plus_as_space: bool) -> (r: Result<
    (u8, usize),
    DecodeFailure,
>)
    requires
        index < input@.len(),
    ensures
        match spec_percent_unit(input@, index as int, plus_as_space) {
            Ok((value, width)) => r matches Ok((v, w)) && v == value && w == width,
            Err(true) => r matches Err(f) && f@ == DecodeFailureModel::Incomplete {
                required_total: 3,
            },
            Err(false) => r matches Err(f) && f@ == DecodeFailureModel::Invalid {
                source: invalid_percent_escape_model(input@, index as int),
                consumed: Some(3),
            },
        },
{
    match percent_decode_byte(input, index, plus_as_space) {
        Ok(decoded) => Ok(decoded),
        Err(error) => Err(error.into_decode_failure_with_consumed(3)),
    }
}

/// Returns the available width of a malformed percent escape, capped at the
/// three-unit escape width.
pub fn percent_invalid_consumed(input: &[u8], index: usize) -> (r: usize)
    requires
        index < input@.len(),
    ensures
        r == percent_invalid_width(input@, index as int),
{
    let available = input.len() - index;
    if available > 3 {
        3
    } else {
        available
    }
}

/// Encodes and decodes percent-encoded UTF-8 text (RFC 3986 unreserved set,
/// uppercase escapes).
#[derive(Debug, Clone, Copy, PartialEq, Eq, Structural)]
pub struct PercentCodec;

impl PercentCodec {
    /// Fewest units one decoded byte can take.
    pub const MIN_UNITS_PER_VALUE: usize = 1;

    /// Most units one encoded byte can take.
    pub const MAX_ENCODE_UNITS_PER_VALUE: usize = 3;

    /// Most units one decoded byte can take.
    pub const MAX_DECODE_UNITS_PER_VALUE: usize = 3;

    /// Creates a percent codec.
    pub fn new() -> (r: Self)
        ensures
            r == PercentCodec,
    {
        PercentCodec
    }

    /// Encodes text using percent encoding.
    pub fn encode(&self, text: &str) -> (r: String)
        ensures
            r@ == spec_percent_encode_text(text@, PercentEncodingMode::Rfc3986),
    {
        percent_encode_bytes(text.as_bytes(), PercentEncodingMode::Rfc3986)
    }

    /// Decodes percent-encoded UTF-8 text.
    ///
    /// Fails with `InvalidEscape` at the first malformed `%XX` escape, or with
    /// `InvalidUtf8` when the decoded bytes are not UTF-8.
    pub fn decode(&self, text: &str) -> (r: MiscCodecResult<String>)
        ensures
            result_model(r) == spec_percent_decode_text(text.spec_bytes(), false),
    {
        decode_percent_text(text, false)
    }

    /// Returns the exact percent-encoded width for one byte.
    pub fn encode_len(&self, value: u8) -> (r: usize)
        ensures
            r == percent_unit_bytes(PercentEncodingMode::Rfc3986, value).len(),
    {
        percent_encode_len(value, PercentEncodingMode::Rfc3986)
    }

    /// Decodes one raw byte or `%XX` escape at `input_index` of an open stream.
    pub fn decode_unit(&self, input: &[u8], input_index: usize) -> (r: Result<
        (u8, usize),
        DecodeFailure,
    >)
        requires
            input_index < input@.len(),
        ensures
            match spec_percent_unit(input@, input_index as int, false) {
                Ok((value, width)) => r matches Ok((v, w)) && v == value && w == width,
                Err(true) => r matches Err(f) && f@ == DecodeFailureModel::Incomplete {
                    required_total: 3,
                },
                Err(false) => r matches Err(f) && f@ == DecodeFailureModel::Invalid {
                    source: invalid_percent_escape_model(input@, input_index as int),
                    consumed: Some(3),
                },
            },
    {
        percent_decode_unit(input, input_index, false)
    }

    /// Decodes one value after end of input has been confirmed.
    pub fn decode_unit_eof(&self, input: &[u8], input_index: usize) -> (r: Result<
        (u8, usize),
        DecodeFailure,
    >)
        requires
            input_index < input@.len(),
        ensures
            match spec_percent_unit(input@, input_index as int, false) {
                Ok((value, width)) => r matches Ok((v, w)) && v == value && w == width,
                Err(_) => r matches Err(f) && f@ == DecodeFailureModel::Invalid {
                    source: invalid_percent_escape_model(input@, input_index as int),
                    consumed: Some(percent_invalid_width(input@, input_index as int)),
                },
            },
    {
        percent_decode_unit_eof(input, input_index, false)
    }

    /// Encodes one byte into `output` at `output_index`; returns the units written.
    pub fn encode_unit(&self, value: u8, output: &mut [u8], output_index: usize) -> (r: usize)
        requires
            output_index + percent_unit_bytes(PercentEncodingMode::Rfc3986, value).len()
                <= old(output)@.len(),
        ensures
            r == percent_unit_bytes(PercentEncodingMode::Rfc3986, value).len(),
            final(output)@ == old(output)@.update_subrange_with(
                output_index as int,
                percent_unit_bytes(PercentEncodingMode::Rfc3986, value),
            ),
    {
        percent_encode_byte(value, output, output_index, PercentEncodingMode::Rfc3986)
    }
}

/// Percent-decodes `text` and checks that the result is UTF-8.
pub fn decode_percent_text(text: &str, plus_as_space: bool) -> (r: MiscCodecResult<String>)
    ensures
        result_model(r) == spec_percent_decode_text(text.spec_bytes(), plus_as_space),
{
    match percent_decode_bytes(text, plus_as_space) {
        Ok(bytes) => match string_from_utf8(bytes) {
            Ok(s) => Ok(s),
            Err(source) => Err(MiscCodecError::InvalidUtf8 { source }),
        },
        Err(e) => Err(e),
    }
}

impl Default for PercentCodec {
    /// The percent codec.
    fn default() -> (r: Self)
        ensures
            r == PercentCodec,
    {
        PercentCodec
    }
}

} // verus!
