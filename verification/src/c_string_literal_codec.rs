//! C string literal byte codec.

use crate::internal::c_string_literal_parse_context::{
    context_describes, spec_escape_fragment, spec_raw_source_reason, spec_source_character,
    spec_trailing_escape_error, CStringLiteralParseContext, ParseContextModel,
};
use crate::internal::parse_error::{ParseError, ParseErrorModel};
use crate::misc_codec_error::{
    DecodeFailure, DecodeFailureModel, ErrorModel, MiscCodecError, MiscCodecResult, result_model,
};
use crate::seq_support::{lemma_flat_map_add, lemma_flat_map_first};
use crate::text_support::{
    lemma_ascii_chars_encode, lemma_flat_map_ascii, all_ascii, ascii_chars, decimal_chars, hex_digit_byte, latin1_chars, latin1_string, push_char,
    push_decimal, spec_hex_value, upper_hex_digit,
};
use vstd::prelude::*;
use vstd::string::*;
use vstd::utf8::*;

verus! {

/// Raw bytes allowed in a literal: tab, newline, vertical tab, form feed and
/// printable ASCII.
pub open spec fn is_allowed_source_byte(b: u8) -> bool {
    b == 0x09 || b == 0x0a || b == 0x0b || b == 0x0c || (0x20 <= b <= 0x7e)
}

/// Byte denoted by the simple escape `\e`, if `e` names one.
pub open spec fn simple_escape_value(e: u8) -> Option<u8> {
    if e == 0x20 || e == 0x27 || e == 0x22 || e == 0x3f || e == 0x5c {
        Some(e)
    } else if e == 0x61 {
        Some(0x07u8)
    } else if e == 0x62 {
        Some(0x08u8)
    } else if e == 0x66 {
        Some(0x0cu8)
    } else if e == 0x6e {
        Some(0x0au8)
    } else if e == 0x72 {
        Some(0x0du8)
    } else if e == 0x74 {
        Some(0x09u8)
    } else if e == 0x76 {
        Some(0x0bu8)
    } else {
        None
    }
}

/// Number of hexadecimal digit bytes starting at `start`, at most `max`.
pub open spec fn hex_run(input: Seq<u8>, start: int, max: nat) -> nat
    decreases max,
{
    if max == 0 || start < 0 || start >= input.len() || spec_hex_value(input[start] as u32) is None {
        0
    } else {
        1 + hex_run(input, start + 1, (max - 1) as nat)
    }
}

/// Value of the `n` hexadecimal digit bytes starting at `start`.
pub open spec fn hex_run_value(input: Seq<u8>, start: int, n: nat) -> nat
    decreases n,
{
    if n == 0 {
        0
    } else {
        (hex_run_value(input, start, (n - 1) as nat) * 16 + spec_hex_value(
            input[start + n - 1] as u32,
        )->0) as nat
    }
}

/// Value of an octal digit byte, if it is one.
pub open spec fn spec_octal_value(b: u8) -> Option<u8> {
    if 0x30 <= b <= 0x37 {
        Some((b - 0x30) as u8)
    } else {
        None
    }
}

/// Number of octal digit bytes starting at `start`, at most `max`.
pub open spec fn octal_run(input: Seq<u8>, start: int, max: nat) -> nat
    decreases max,
{
    if max == 0 || start < 0 || start >= input.len() || spec_octal_value(input[start]) is None {
        0
    } else {
        1 + octal_run(input, start + 1, (max - 1) as nat)
    }
}

/// Value of the `n` octal digit bytes starting at `start`.
pub open spec fn octal_run_value(input: Seq<u8>, start: int, n: nat) -> nat
    decreases n,
{
    if n == 0 {
        0
    } else {
        (octal_run_value(input, start, (n - 1) as nat) * 8 + spec_octal_value(
            input[start + n - 1],
        )->0) as nat
    }
}

/// Error for an escape at `index` rejected for `reason`.
pub open spec fn escape_error(index: int, escape: Seq<char>, reason: Seq<char>) -> ErrorModel {
    ErrorModel::InvalidEscape { index: index as nat, escape, reason }
}

/// Reads the `\x` escape at `marker`: one or two hexadecimal digits.
pub open spec fn spec_variable_hex_escape(input: Seq<u8>, marker: int) -> Result<
    (u8, int),
    ParseErrorModel,
> {
    let count = hex_run(input, marker + 2, 2);
    if count == 0 {
        Err(
            ParseErrorModel::Invalid(
                escape_error(marker, "\\x"@, "expected at least one hexadecimal digit"@),
            ),
        )
    } else {
        Ok((hex_run_value(input, marker + 2, count) as u8, 2 + count as int))
    }
}

/// On an open stream, whether the `\x` escape at `marker` cannot be decided yet.
pub open spec fn spec_variable_hex_pending(input: Seq<u8>, marker: int) -> Option<nat> {
    if input.len() - marker < 3 {
        Some(3)
    } else if hex_run(input, marker + 2, 2) == 1 && marker + 3 == input.len() {
        Some(4)
    } else {
        None
    }
}

/// Scans the fixed-width digits of a universal escape from digit `k` on,
/// with `value` accumulated so far.
pub open spec fn spec_fixed_hex_digits(
    ctx: ParseContextModel,
    input: Seq<u8>,
    marker: int,
    digits: nat,
    k: nat,
    value: nat,
) -> Result<nat, ErrorModel>
    decreases digits - k,
{
    if k >= digits {
        Ok(value)
    } else {
        let index = marker + 2 + k;
        if index >= input.len() {
            Err(
                escape_error(
                    marker,
                    spec_escape_fragment(ctx, input, marker, input.len() as int),
                    "incomplete universal character escape"@,
                ),
            )
        } else {
            let character = spec_source_character(ctx, input, index);
            match spec_hex_value(character as u32) {
                None => Err(
                    ErrorModel::InvalidDigit { radix: 16, index: index as nat, character },
                ),
                Some(d) => spec_fixed_hex_digits(ctx, input, marker, digits, k + 1, (value * 16 + d) as nat),
            }
        }
    }
}

/// Reads the universal escape at `marker` with `digits` hexadecimal digits.
pub open spec fn spec_fixed_hex_escape(
    ctx: ParseContextModel,
    input: Seq<u8>,
    marker: int,
    digits: nat,
) -> Result<(u8, int), ParseErrorModel> {
    match spec_fixed_hex_digits(ctx, input, marker, digits, 0, 0) {
        Err(e) => Err(ParseErrorModel::Invalid(e)),
        Ok(value) => if value > 255 {
            Err(
                ParseErrorModel::Invalid(
                    escape_error(
                        marker,
                        spec_escape_fragment(ctx, input, marker, marker + 2 + digits),
                        "universal character value must fit in one byte"@,
                    ),
                ),
            )
        } else {
            Ok((value as u8, 2 + digits as int))
        },
    }
}

/// Reads the octal escape at `marker`: up to three digits, value truncated
/// to its low byte.
pub open spec fn spec_octal_escape(input: Seq<u8>, marker: int) -> (u8, int) {
    let count = octal_run(input, marker + 1, 3);
    ((octal_run_value(input, marker + 1, count) % 256) as u8, 1 + count as int)
}

/// Reads one raw byte or one C escape at `i` under `ctx`.
pub open spec fn spec_c_string_unit(ctx: ParseContextModel, input: Seq<u8>, i: int) -> Result<
    (u8, int),
    ParseErrorModel,
> {
    let byte = input[i];
    let available = input.len() - i;
    if byte != 0x5c {
        if is_allowed_source_byte(byte) {
            Ok((byte, 1))
        } else {
            Err(
                ParseErrorModel::Invalid(
                    ErrorModel::InvalidCharacter {
                        index: i as nat,
                        character: spec_source_character(ctx, input, i),
                        reason: spec_raw_source_reason(ctx),
                    },
                ),
            )
        }
    } else if available < 2 {
        Err(spec_trailing_escape_error(ctx, i))
    } else {
        let escape = input[i + 1];
        if simple_escape_value(escape) is Some {
            Ok((simple_escape_value(escape)->0, 2))
        } else if escape == 0x78 || escape == 0x58 {
            if ctx is StreamingBytes && spec_variable_hex_pending(input, i) is Some {
                Err(
                    ParseErrorModel::Incomplete {
                        required: spec_variable_hex_pending(input, i)->0,
                    },
                )
            } else {
                spec_variable_hex_escape(input, i)
            }
        } else if escape == 0x75 {
            if !(ctx is EofBytes) && available < 6 {
                Err(ParseErrorModel::Incomplete { required: 6 })
            } else {
                spec_fixed_hex_escape(ctx, input, i, 4)
            }
        } else if escape == 0x55 {
            if !(ctx is EofBytes) && available < 10 {
                Err(ParseErrorModel::Incomplete { required: 10 })
            } else {
                spec_fixed_hex_escape(ctx, input, i, 8)
            }
        } else if 0x30 <= escape <= 0x37 {
            let count = octal_run(input, i + 1, 3);
            if ctx is StreamingBytes && count < 3 && i + 1 + count == input.len() {
                Err(ParseErrorModel::Incomplete { required: 2 + count })
            } else {
                Ok(spec_octal_escape(input, i))
            }
        } else {
            Err(
                ParseErrorModel::Invalid(
                    escape_error(
                        i,
                        spec_escape_fragment(ctx, input, i, i + 2),
                        "unsupported escape sequence"@,
                    ),
                ),
            )
        }
    }
}

/// Converts one hexadecimal character to its nibble value.
fn hex_value(character: char) -> (r: Option<u8>)
    ensures
        r == spec_hex_value(character as u32),
{
    if '0' <= character && character <= '9' {
        Some((character as u8) - 0x30)
    } else if 'a' <= character && character <= 'f' {
        Some((character as u8) - 0x61 + 10)
    } else if 'A' <= character && character <= 'F' {
        Some((character as u8) - 0x41 + 10)
    } else {
        None
    }
}

/// Converts one octal character to its value.
fn octal_value(character: char) -> (r: Option<u8>)
    ensures
        (character as u32) < 256 ==> r == spec_octal_value(character as u32 as u8),
        r is Some ==> (character as u32) < 256,
{
    if '0' <= character && character <= '7' {
        Some((character as u8) - 0x30)
    } else {
        None
    }
}

/// Counts hexadecimal digit bytes starting at `start`, at most `max`.
fn count_hex_run(input: &[u8], start: usize, max: usize) -> (r: usize)
    requires
        start <= input@.len(),
    ensures
        r == hex_run(input@, start as int, max as nat),
        r <= max,
        start + r <= input@.len(),
{
    let mut count: usize = 0;
    let mut index = start;
    while count < max && index < input.len() && hex_value(input[index] as char).is_some()
        invariant
            index == start + count,
            count <= max,
            index <= input@.len(),
            hex_run(input@, start as int, max as nat) == count + hex_run(
                input@,
                index as int,
                (max - count) as nat,
            ),
        decreases max - count,
    {
        index = index + 1;
        count = count + 1;
    }
    count
}

/// Counts octal digit bytes starting at `start`, at most `max`.
fn count_octal_run(input: &[u8], start: usize, max: usize) -> (r: usize)
    requires
        start <= input@.len(),
    ensures
        r == octal_run(input@, start as int, max as nat),
        r <= max,
        start + r <= input@.len(),
{
    let mut count: usize = 0;
    let mut index = start;
    while count < max && index < input.len() && octal_value(input[index] as char).is_some()
        invariant
            index == start + count,
            count <= max,
            index <= input@.len(),
            octal_run(input@, start as int, max as nat) == count + octal_run(
                input@,
                index as int,
                (max - count) as nat,
            ),
        decreases max - count,
    {
        index = index + 1;
        count = count + 1;
    }
    count
}

/// Ensures a variable-width `\x` escape has enough units to decide one value.
fn ensure_variable_hex_escape_complete(input: &[u8], index: usize, available: usize) -> (r:
    Result<(), ParseError>)
    requires
        index < input@.len(),
        available == input@.len() - index,
    ensures
        match spec_variable_hex_pending(input@, index as int) {
            Some(required) => r matches Err(e) && e@ == ParseErrorModel::Incomplete { required },
            None => r is Ok,
        },
{
    let len = input.len();
    if available < 3 {
        return Err(ParseError::Incomplete { required: 3 });
    }
    let digit_count = count_hex_run(input, index + 2, 2);
    if digit_count == 1 && index + 3 == input.len() {
        return Err(ParseError::Incomplete { required: 4 });
    }
    Ok(())
}

/// Ensures a fixed-width universal byte escape has enough units.
fn ensure_fixed_escape_complete(available: usize, required: usize) -> (r: Result<(), ParseError>)
    ensures
        available < required ==> (r matches Err(e) && e@ == (ParseErrorModel::Incomplete {
            required: required as nat,
        })),
        available >= required ==> r is Ok,
{
    if available < required {
        return Err(ParseError::Incomplete { required });
    }
    Ok(())
}

/// Ensures an octal escape has enough units to decide one value.
fn ensure_octal_escape_complete(input: &[u8], index: usize, _available: usize) -> (r: Result<
    (),
    ParseError,
>)
    requires
        index < input@.len(),
    ensures
        ({
            let count = octal_run(input@, index + 1, 3);
            if count < 3 && index + 1 + count == input@.len() {
                r matches Err(e) && e@ == ParseErrorModel::Incomplete { required: 2 + count }
            } else {
                r is Ok
            }
        }),
{
    let len = input.len();
    let digit_count = count_octal_run(input, index + 1, 3);
    if digit_count < 3 && index + 1 + digit_count == input.len() {
        return Err(ParseError::Incomplete { required: 2 + digit_count });
    }
    Ok(())
}

/// Builds an invalid escape error.
pub fn invalid_escape(index: usize, escape: &str, reason: &str) -> (r: MiscCodecError)
    ensures
        r@ == escape_error(index as int, escape@, reason@),
{
    MiscCodecError::InvalidEscape { index, escape: escape.to_owned(), reason: reason.to_owned() }
}

/// Validates a raw source unit.
fn validate_source_unit(
    input: &[u8],
    index: usize,
    byte: u8,
    context: CStringLiteralParseContext,
) -> (r: Result<(), ParseError>)
    requires
        context_describes(context, input@),
        index < input@.len(),
        byte == input@[index as int],
    ensures
        is_allowed_source_byte(byte) ==> r is Ok,
        !is_allowed_source_byte(byte) ==> (r matches Err(e) && e@ == ParseErrorModel::Invalid(
            (ErrorModel::InvalidCharacter {
                index: index as nat,
                character: spec_source_character(context@, input@, index as int),
                reason: spec_raw_source_reason(context@),
            }),
        )),
{
    if byte == 0x09 || byte == 0x0a || byte == 0x0b || byte == 0x0c || (0x20 <= byte && byte
        <= 0x7e) {
        return Ok(());
    }
    Err(
        ParseError::Invalid(
            MiscCodecError::InvalidCharacter {
                index,
                character: context.source_character(input, index),
                reason: context.raw_source_reason().to_owned(),
            },
        ),
    )
}

/// Parses a byte-oriented `\x` escape from `input`.
fn parse_variable_hex_escape_units(input: &[u8], marker_index: usize) -> (r: Result<
    (u8, usize),
    ParseError,
>)
    requires
        marker_index + 2 <= input@.len(),
    ensures
        match spec_variable_hex_escape(input@, marker_index as int) {
            Ok((value, width)) => r matches Ok((v, w)) && v == value && w == width,
            Err(e) => r matches Err(pe) && pe@ == e,
        },
{
    let len = input.len();
    let mut value: u8 = 0;
    let mut digit_count: usize = 0;
    let mut index = marker_index + 2;
    let ghost start = marker_index + 2;
    while digit_count < 2 && index < input.len() && hex_value(input[index] as char).is_some()
        invariant
            index == start + digit_count,
            start == marker_index + 2,
            digit_count <= 2,
            index <= input@.len(),
            hex_run(input@, start as int, 2) == digit_count + hex_run(
                input@,
                index as int,
                (2 - digit_count) as nat,
            ),
            value == hex_run_value(input@, start as int, digit_count as nat),
            digit_count == 0 ==> value == 0,
            digit_count == 1 ==> value < 16,
        decreases 2 - digit_count,
    {
        let digit = match hex_value(input[index] as char) {
            Some(d) => d,
            None => 0,
        };
        value = value * 16 + digit;
        index = index + 1;
        digit_count = digit_count + 1;
    }
    if digit_count == 0 {
        return Err(
            ParseError::Invalid(
                invalid_escape(marker_index, "\\x", "expected at least one hexadecimal digit"),
            ),
        );
    }
    Ok((value, 2 + digit_count))
}

/// Powers of sixteen.
pub open spec fn pow16(k: nat) -> nat
    decreases k,
{
    if k == 0 {
        1
    } else {
        16 * pow16((k - 1) as nat)
    }
}

proof fn lemma_pow16_bound(k: nat)
    requires
        k <= 8,
    ensures
        pow16(k) <= 0x1_0000_0000,
    decreases k,
{
    reveal_with_fuel(pow16, 9);
}

/// Parses a fixed-width universal byte escape from `input`.
fn parse_fixed_hex_escape_units(
    input: &[u8],
    marker_index: usize,
    digits: usize,
    context: CStringLiteralParseContext,
) -> (r: Result<(u8, usize), ParseError>)
    requires
        context_describes(context, input@),
        marker_index + 2 <= input@.len(),
        digits == 4 || digits == 8,
    ensures
        match spec_fixed_hex_escape(context@, input@, marker_index as int, digits as nat) {
            Ok((value, width)) => r matches Ok((v, w)) && v == value && w == width,
            Err(e) => r matches Err(pe) && pe@ == e,
        },
{
    let len = input.len();
    let mut value: u32 = 0;
    let mut index = marker_index + 2;
    let mut k: usize = 0;
    while k < digits
        invariant
            context_describes(context, input@),
            digits == 4 || digits == 8,
            marker_index + 2 <= input@.len(),
            index == marker_index + 2 + k,
            k <= digits,
            value < pow16(k as nat),
            spec_fixed_hex_digits(context@, input@, marker_index as int, digits as nat, 0, 0)
                == spec_fixed_hex_digits(
                context@,
                input@,
                marker_index as int,
                digits as nat,
                k as nat,
                value as nat,
            ),
        decreases digits - k,
    {
        if index >= input.len() {
            let fragment = context.escape_fragment(input, marker_index, input.len());
            return Err(
                ParseError::Invalid(
                    invalid_escape(
                        marker_index,
                        fragment.as_str(),
                        "incomplete universal character escape",
                    ),
                ),
            );
        }
        let character = context.source_character(input, index);
        let digit = match hex_value(character) {
            Some(digit) => digit,
            None => {
                return Err(
                    ParseError::Invalid(
                        MiscCodecError::InvalidDigit { radix: 16, index, character },
                    ),
                );
            },
        };
        proof {
            lemma_pow16_bound((k + 1) as nat);
            assert(pow16((k + 1) as nat) == 16 * pow16(k as nat));
        }
        value = value * 16 + digit as u32;
        index = index + 1;
        k = k + 1;
    }
    if value > 255 {
        let fragment = context.escape_fragment(input, marker_index, index);
        return Err(
            ParseError::Invalid(
                invalid_escape(
                    marker_index,
                    fragment.as_str(),
                    "universal character value must fit in one byte",
                ),
            ),
        );
    }
    Ok((value as u8, 2 + digits))
}

/// Parses an octal byte escape from `input`; values above `0o377` keep
/// their low byte.
fn parse_octal_escape_units(input: &[u8], marker_index: usize) -> (r: (u8, usize))
    requires
        marker_index + 1 <= input@.len(),
    ensures
        r.0 == spec_octal_escape(input@, marker_index as int).0,
        r.1 == spec_octal_escape(input@, marker_index as int).1,
{
    let len = input.len();
    let mut value: u16 = 0;
    let mut digit_count: usize = 0;
    let mut index = marker_index + 1;
    let ghost start = marker_index + 1;
    while digit_count < 3 && index < input.len() && octal_value(input[index] as char).is_some()
        invariant
            index == start + digit_count,
            start == marker_index + 1,
            digit_count <= 3,
            index <= input@.len(),
            octal_run(input@, start as int, 3) == digit_count + octal_run(
                input@,
                index as int,
                (3 - digit_count) as nat,
            ),
            value == octal_run_value(input@, start as int, digit_count as nat),
            digit_count == 0 ==> value == 0,
            digit_count <= 1 ==> value < 8,
            digit_count <= 2 ==> value < 64,
        decreases 3 - digit_count,
    {
        let digit = match octal_value(input[index] as char) {
            Some(d) => d,
            None => 0,
        };
        value = value * 8 + digit as u16;
        index = index + 1;
        digit_count = digit_count + 1;
    }
    ((value % 256) as u8, 1 + digit_count)
}

/// Decodes one C string literal unit from `input`.
fn decode_c_string_literal_unit(
    input: &[u8],
    index: usize,
    context: CStringLiteralParseContext,
) -> (r: Result<(u8, usize), ParseError>)
    requires
        context_describes(context, input@),
        index < input@.len(),
    ensures
        match spec_c_string_unit(context@, input@, index as int) {
            Ok((value, width)) => r matches Ok((v, w)) && v == value && w == width,
            Err(e) => r matches Err(pe) && pe@ == e,
        },
{
    let available = input.len() - index;
    let byte = input[index];
    if byte != 0x5c {
        match validate_source_unit(input, index, byte, context) {
            Ok(()) => {},
            Err(e) => {
                return Err(e);
            },
        }
        return Ok((byte, 1));
    }
    if available < 2 {
        return Err(context.trailing_escape_error(index, available));
    }
    let escape = input[index + 1];
    if escape == 0x20 || escape == 0x27 || escape == 0x22 || escape == 0x3f || escape == 0x5c {
        Ok((escape, 2))
    } else if escape == 0x61 {
        Ok((0x07, 2))
    } else if escape == 0x62 {
        Ok((0x08, 2))
    } else if escape == 0x66 {
        Ok((0x0c, 2))
    } else if escape == 0x6e {
        Ok((0x0a, 2))
    } else if escape == 0x72 {
        Ok((0x0d, 2))
    } else if escape == 0x74 {
        Ok((0x09, 2))
    } else if escape == 0x76 {
        Ok((0x0b, 2))
    } else if escape == 0x78 || escape == 0x58 {
        if !context.is_complete_text() {
            match ensure_variable_hex_escape_complete(input, index, available) {
                Ok(()) => {},
                Err(e) => {
                    return Err(e);
                },
            }
        }
        parse_variable_hex_escape_units(input, index)
    } else if escape == 0x75 {
        if !matches!(context, CStringLiteralParseContext::EofBytes) {
            match ensure_fixed_escape_complete(available, 6) {
                Ok(()) => {},
                Err(e) => {
                    return Err(e);
                },
            }
        }
        parse_fixed_hex_escape_units(input, index, 4, context)
    } else if escape == 0x55 {
        if !matches!(context, CStringLiteralParseContext::EofBytes) {
            match ensure_fixed_escape_complete(available, 10) {
                Ok(()) => {},
                Err(e) => {
                    return Err(e);
                },
            }
        }
        parse_fixed_hex_escape_units(input, index, 8, context)
    } else if 0x30 <= escape && escape <= 0x37 {
        if context.is_streaming() {
            match ensure_octal_escape_complete(input, index, available) {
                Ok(()) => {},
                Err(e) => {
                    return Err(e);
                },
            }
        }
        Ok(parse_octal_escape_units(input, index))
    } else {
        let fragment = context.escape_fragment(input, index, index + 2);
        Err(
            ParseError::Invalid(
                invalid_escape(index, fragment.as_str(), "unsupported escape sequence"),
            ),
        )
    }
}

proof fn lemma_hex_run_bound(input: Seq<u8>, start: int, max: nat)
    requires
        0 <= start <= input.len(),
    ensures
        hex_run(input, start, max) <= input.len() - start,
        hex_run(input, start, max) <= max,
    decreases max,
{
    if max > 0 && start < input.len() {
        lemma_hex_run_bound(input, start + 1, (max - 1) as nat);
    }
}

proof fn lemma_octal_run_bound(input: Seq<u8>, start: int, max: nat)
    requires
        0 <= start <= input.len(),
    ensures
        octal_run(input, start, max) <= input.len() - start,
        octal_run(input, start, max) <= max,
    decreases max,
{
    if max > 0 && start < input.len() {
        lemma_octal_run_bound(input, start + 1, (max - 1) as nat);
    }
}

proof fn lemma_fixed_hex_digits_present(
    ctx: ParseContextModel,
    input: Seq<u8>,
    marker: int,
    digits: nat,
    k: nat,
    value: nat,
)
    requires
        spec_fixed_hex_digits(ctx, input, marker, digits, k, value) is Ok,
        k <= digits,
        marker + 2 + k <= input.len(),
    ensures
        marker + 2 + digits <= input.len(),
    decreases digits - k,
{
    if k < digits {
        let index = marker + 2 + k;
        let character = spec_source_character(ctx, input, index);
        let d = spec_hex_value(character as u32)->0;
        lemma_fixed_hex_digits_present(ctx, input, marker, digits, k + 1, (value * 16 + d) as nat);
    }
}

/// A unit that reads successfully spans at least one and at most the
/// available units.
pub proof fn lemma_c_string_unit_width(ctx: ParseContextModel, input: Seq<u8>, i: int)
    requires
        0 <= i < input.len(),
    ensures
        spec_c_string_unit(ctx, input, i) matches Ok((v, w)) ==> 1 <= w <= input.len() - i,
{
    if input[i] == 0x5c && input.len() - i >= 2 {
        lemma_hex_run_bound(input, i + 2, 2);
        lemma_octal_run_bound(input, i + 1, 3);
        if spec_fixed_hex_digits(ctx, input, i, 4, 0, 0) is Ok {
            lemma_fixed_hex_digits_present(ctx, input, i, 4, 0, 0);
        }
        if spec_fixed_hex_digits(ctx, input, i, 8, 0, 0) is Ok {
            lemma_fixed_hex_digits_present(ctx, input, i, 8, 0, 0);
        }
    }
}

/// Reason given when a complete fragment ends inside an escape that needs
/// `required` units.
pub open spec fn incomplete_escape_reason(required: nat) -> Seq<char> {
    "incomplete escape sequence; expected at least "@ + decimal_chars(required) + " units"@
}

/// Error reported by the whole-fragment decoder for a unit outcome at `i`.
pub open spec fn c_string_complete_error(input: Seq<u8>, i: int, e: ParseErrorModel) -> ErrorModel {
    match e {
        ParseErrorModel::Incomplete { required } => escape_error(
            i,
            latin1_chars(input.subrange(i, input.len() as int)),
            incomplete_escape_reason(required),
        ),
        ParseErrorModel::Invalid(m) => m,
    }
}

/// Decodes a complete fragment from byte `i` on.
pub open spec fn spec_c_string_decode_from(input: Seq<u8>, i: int) -> Result<Seq<u8>, ErrorModel>
    decreases input.len() - i,
{
    if i < 0 || i >= input.len() {
        Ok(Seq::empty())
    } else {
        match spec_c_string_unit(ParseContextModel::CompleteText, input, i) {
            Err(e) => Err(c_string_complete_error(input, i, e)),
            Ok((value, width)) => {
                proof {
                    lemma_c_string_unit_width(ParseContextModel::CompleteText, input, i);
                }
                match spec_c_string_decode_from(input, i + width) {
                    Ok(rest) => Ok(seq![value] + rest),
                    Err(e) => Err(e),
                }
            },
        }
    }
}

/// Decodes a complete fragment.
pub open spec fn spec_c_string_decode(input: Seq<u8>) -> Result<Seq<u8>, ErrorModel> {
    spec_c_string_decode_from(input, 0)
}

/// Units that belong to a malformed value at `i`: the whole escape for
/// `\u` and `\U`, two units for another escape, else one unit; never more
/// than what is available.
pub open spec fn c_string_invalid_width(input: Seq<u8>, i: int) -> nat {
    let available = input.len() - i;
    let width: int = if i + 2 <= input.len() && input[i] == 0x5c {
        if input[i + 1] == 0x75 {
            6
        } else if input[i + 1] == 0x55 {
            10
        } else {
            2
        }
    } else {
        1
    };
    let bounded = if width < available {
        width
    } else {
        available
    };
    if bounded < 1 {
        1
    } else {
        bounded as nat
    }
}

/// The one-unit decode failure for a unit outcome at `i`.
pub open spec fn c_string_unit_failure(input: Seq<u8>, i: int, e: ParseErrorModel)
    -> DecodeFailureModel {
    match e {
        ParseErrorModel::Incomplete { required } => DecodeFailureModel::Incomplete {
            required_total: required,
        },
        ParseErrorModel::Invalid(m) => DecodeFailureModel::Invalid {
            source: m,
            consumed: Some(c_string_invalid_width(input, i)),
        },
    }
}

/// Letter of the two-unit escape written for `b`, if `b` has one.
pub open spec fn c_escape_letter(b: u8) -> Option<u8> {
    if b == 0x27 || b == 0x22 || b == 0x3f || b == 0x5c {
        Some(b)
    } else if b == 0x07 {
        Some(0x61u8)
    } else if b == 0x08 {
        Some(0x62u8)
    } else if b == 0x0c {
        Some(0x66u8)
    } else if b == 0x0a {
        Some(0x6eu8)
    } else if b == 0x0d {
        Some(0x72u8)
    } else if b == 0x09 {
        Some(0x74u8)
    } else if b == 0x0b {
        Some(0x76u8)
    } else {
        None
    }
}

/// Units written for one byte: a simple escape, the printable byte itself,
/// or `\xHH` with uppercase digits.
pub open spec fn c_string_unit_bytes(b: u8) -> Seq<u8> {
    match c_escape_letter(b) {
        Some(letter) => seq![0x5cu8, letter],
        None => if 0x20 <= b <= 0x7e {
            seq![b]
        } else {
            seq![0x5cu8, 0x78u8, hex_digit_byte(b / 16, true), hex_digit_byte(b % 16, true)]
        },
    }
}

/// `c_string_unit_bytes` as a function value.
pub open spec fn c_string_unit_fn() -> spec_fn(u8) -> Seq<u8> {
    |b: u8| c_string_unit_bytes(b)
}

/// C string literal fragment of `bytes`, as units.
pub open spec fn spec_c_string_encode(bytes: Seq<u8>) -> Seq<u8> {
    bytes.flat_map(c_string_unit_fn())
}

/// Law: encoding writes each byte's units in its place. The quote, double
/// quote, question mark and backslash get a backslash before them; BEL, BS,
/// FF, LF, CR, TAB and VT are written `\a`, `\b`, `\f`, `\n`, `\r`, `\t`,
/// `\v`; every other printable ASCII byte, space included, is written as
/// itself; every other byte is `\x` and its two uppercase hexadecimal digits.
pub proof fn lemma_c_string_encode_byte(pre: Seq<u8>, b: u8, post: Seq<u8>)
    ensures
        spec_c_string_encode(pre + seq![b] + post) == spec_c_string_encode(pre) + (if b == 0x27
            || b == 0x22 || b == 0x3f || b == 0x5c {
            seq![0x5cu8, b]
        } else if b == 0x07 {
            seq![0x5cu8, 0x61u8]
        } else if b == 0x08 {
            seq![0x5cu8, 0x62u8]
        } else if b == 0x0c {
            seq![0x5cu8, 0x66u8]
        } else if b == 0x0a {
            seq![0x5cu8, 0x6eu8]
        } else if b == 0x0d {
            seq![0x5cu8, 0x72u8]
        } else if b == 0x09 {
            seq![0x5cu8, 0x74u8]
        } else if b == 0x0b {
            seq![0x5cu8, 0x76u8]
        } else if 0x20 <= b <= 0x7e {
            seq![b]
        } else {
            seq![0x5cu8, 0x78u8, upper_hex_digit(b as int / 16), upper_hex_digit(b as int % 16)]
        }) + spec_c_string_encode(post),
{
    let f = c_string_unit_fn();
    lemma_flat_map_add(pre + seq![b], post, f);
    lemma_flat_map_add(pre, seq![b], f);
    lemma_flat_map_first(seq![b], f);
    assert(seq![b].drop_first() =~= Seq::<u8>::empty());
    assert(Seq::<u8>::empty().flat_map(f) =~= Seq::<u8>::empty()) by {
        assert(Seq::<u8>::empty().map_values(f) =~= Seq::<Seq<u8>>::empty());
    }
    assert(f(b) + Seq::<u8>::empty() =~= f(b));
}

/// Converts a parser outcome into an owned complete-input error.
fn c_string_parse_error_to_misc(error: ParseError, input: &[u8], index: usize) -> (r:
    MiscCodecError)
    requires
        index < input@.len(),
    ensures
        r@ == c_string_complete_error(input@, index as int, error@),
{
    match error {
        ParseError::Incomplete { required } => {
            let mut reason = "incomplete escape sequence; expected at least ".to_owned();
            push_decimal(&mut reason, required);
            reason.append(" units");
            MiscCodecError::InvalidEscape {
                index,
                escape: escape_fragment(input, index, input.len()),
                reason,
            }
        },
        ParseError::Invalid(error) => error,
    }
}

/// Builds a byte-wise escape fragment from encoded units.
fn escape_fragment(input: &[u8], start: usize, end: usize) -> (r: String)
    requires
        start <= end <= input@.len(),
    ensures
        r@ == latin1_chars(input@.subrange(start as int, end as int)),
{
    latin1_string(vstd::slice::slice_subrange(input, start, end))
}

/// Returns the number of units belonging to a malformed C string fragment.
fn c_string_invalid_consumed(input: &[u8], index: usize) -> (r: usize)
    requires
        index < input@.len(),
    ensures
        r == c_string_invalid_width(input@, index as int),
{
    let available = input.len() - index;
    let width: usize = if available >= 2 && input[index] == 0x5c {
        if input[index + 1] == 0x75 {
            6
        } else if input[index + 1] == 0x55 {
            10
        } else {
            2
        }
    } else {
        1
    };
    let bounded = if width < available {
        width
    } else {
        available
    };
    if bounded < 1 {
        1
    } else {
        bounded
    }
}

/// Maps a C string parser outcome while retaining the malformed fragment width.
fn map_c_string_parse_error_to_decode_failure(error: ParseError, input: &[u8], index: usize) -> (r:
    DecodeFailure)
    requires
        index < input@.len(),
    ensures
        r@ == c_string_unit_failure(input@, index as int, error@),
{
    match error {
        ParseError::Incomplete { required } => DecodeFailure::Incomplete {
            required_total: required,
        },
        ParseError::Invalid(error) => DecodeFailure::Invalid {
            source: error,
            consumed: Some(c_string_invalid_consumed(input, index)),
        },
    }
}

/// Decodes one byte-oriented unit for a streaming caller.
fn decode_c_string_literal_byte(input: &[u8], index: usize) -> (r: Result<(u8, usize), ParseError>)
    requires
        index < input@.len(),
    ensures
        match spec_c_string_unit(ParseContextModel::StreamingBytes, input@, index as int) {
            Ok((value, width)) => r matches Ok((v, w)) && v == value && w == width,
            Err(e) => r matches Err(pe) && pe@ == e,
        },
{
    decode_c_string_literal_unit(input, index, CStringLiteralParseContext::StreamingBytes)
}

/// Returns the encoded width for one byte.
fn encoded_byte_len(byte: u8) -> (r: usize)
    ensures
        r == c_string_unit_bytes(byte).len(),
{
    if byte == 0x27 || byte == 0x22 || byte == 0x3f || byte == 0x5c || byte == 0x07 || byte
        == 0x08 || byte == 0x0c || byte == 0x0a || byte == 0x0d || byte == 0x09 || byte == 0x0b {
        2
    } else if 0x20 <= byte && byte <= 0x7e {
        1
    } else {
        4
    }
}

/// Converts one nibble to an uppercase hexadecimal digit.
fn uppercase_hex_digit(value: u8) -> (r: u8)
    ensures
        r == hex_digit_byte(value % 16, true),
{
    let nibble = value % 16;
    if nibble < 10 {
        0x30 + nibble
    } else {
        0x41 + nibble - 10
    }
}

/// Writes a two-unit backslash escape.
fn write_ascii_escape(output: &mut [u8], index: usize, escape: u8) -> (r: usize)
    requires
        index + 2 <= old(output)@.len(),
    ensures
        r == 2,
        final(output)@ == old(output)@.update_subrange_with(index as int, seq![0x5cu8, escape]),
{
    output[index] = 0x5c;
    output[index + 1] = escape;
    assert(final(output)@ =~= old(output)@.update_subrange_with(
        index as int,
        seq![0x5cu8, escape],
    ));
    2
}

/// Escape letter for `byte`, or 0 when it has none.
fn escape_letter(byte: u8) -> (r: u8)
    ensures
        c_escape_letter(byte) is Some ==> r == c_escape_letter(byte)->0,
        c_escape_letter(byte) is None ==> r == 0,
{
    if byte == 0x27 || byte == 0x22 || byte == 0x3f || byte == 0x5c {
        byte
    } else if byte == 0x07 {
        0x61
    } else if byte == 0x08 {
        0x62
    } else if byte == 0x0c {
        0x66
    } else if byte == 0x0a {
        0x6e
    } else if byte == 0x0d {
        0x72
    } else if byte == 0x09 {
        0x74
    } else if byte == 0x0b {
        0x76
    } else {
        0
    }
}

/// Encodes one byte into `output` at `index`; returns the units written.
fn write_encoded_byte(byte: u8, output: &mut [u8], index: usize) -> (r: usize)
    requires
        index + c_string_unit_bytes(byte).len() <= old(output)@.len(),
    ensures
        r == c_string_unit_bytes(byte).len(),
        final(output)@ == old(output)@.update_subrange_with(
            index as int,
            c_string_unit_bytes(byte),
        ),
{
    let letter = escape_letter(byte);
    if letter != 0 {
        write_ascii_escape(output, index, letter)
    } else if 0x20 <= byte && byte <= 0x7e {
        output[index] = byte;
        assert(final(output)@ =~= old(output)@.update_subrange_with(
            index as int,
            c_string_unit_bytes(byte),
        ));
        1
    } else {
        output[index] = 0x5c;
        output[index + 1] = 0x78;
        output[index + 2] = uppercase_hex_digit(byte / 16);
        output[index + 3] = uppercase_hex_digit(byte % 16);
        assert(final(output)@ =~= old(output)@.update_subrange_with(
            index as int,
            c_string_unit_bytes(byte),
        ));
        4
    }
}

proof fn lemma_c_string_unit_ascii(b: u8)
    ensures
        all_ascii(c_string_unit_bytes(b)),
{
    assert(b / 16 < 16 && b % 16 < 16);
}

/// Encodes one byte into the destination string.
fn push_encoded_byte(byte: u8, output: &mut String)
    ensures
        final(output)@ == old(output)@ + ascii_chars(c_string_unit_bytes(byte)),
{
    let letter = escape_letter(byte);
    if letter != 0 {
        push_char(output, '\\');
        push_char(output, letter as char);
    } else if 0x20 <= byte && byte <= 0x7e {
        push_char(output, byte as char);
    } else {
        push_char(output, '\\');
        push_char(output, 'x');
        push_char(output, uppercase_hex_digit(byte / 16) as char);
        push_char(output, uppercase_hex_digit(byte % 16) as char);
    }
    assert(final(output)@ =~= old(output)@ + ascii_chars(c_string_unit_bytes(byte)));
}

/// Encodes and decodes byte-oriented C string literal fragments such as
/// `PK\003\004` or `\xd0\xcf`, without surrounding quotes.
#[derive(Debug, Clone, Copy, PartialEq, Eq, Structural)]
pub struct CStringLiteralCodec;

impl CStringLiteralCodec {
    /// Fewest units one decoded byte can take.
    pub const MIN_UNITS_PER_VALUE: usize = 1;

    /// Most units one encoded byte can take.
    pub const MAX_ENCODE_UNITS_PER_VALUE: usize = 4;

    /// Most units one decoded byte can take.
    pub const MAX_DECODE_UNITS_PER_VALUE: usize = 10;

    /// Creates a C string literal codec.
    pub fn new() -> (r: Self)
        ensures
            r == CStringLiteralCodec,
    {
        CStringLiteralCodec
    }

    /// Encodes bytes into a C string literal fragment.
    pub fn encode(&self, bytes: &[u8]) -> (r: String)
        ensures
            r@ == ascii_chars(spec_c_string_encode(bytes@)),
    {
        let mut output = String::new();
        let mut i: usize = 0;
        while i < bytes.len()
            invariant
                i <= bytes@.len(),
                output@ == ascii_chars(spec_c_string_encode(bytes@.take(i as int))),
            decreases bytes@.len() - i,
        {
            let ghost before = output@;
            push_encoded_byte(bytes[i], &mut output);
            proof {
                bytes@.lemma_flat_map_take_append(c_string_unit_fn(), i as int);
                let prev = spec_c_string_encode(bytes@.take(i as int));
                let unit = c_string_unit_bytes(bytes@[i as int]);
                assert(ascii_chars(prev + unit) =~= ascii_chars(prev) + ascii_chars(unit));
            }
            i = i + 1;
        }
        assert(bytes@.take(bytes@.len() as int) =~= bytes@);
        output
    }

    /// Decodes a C string literal fragment into bytes.
    ///
    /// Fails with `InvalidEscape` for a malformed escape, `InvalidDigit` for a
    /// bad digit of a universal escape and `InvalidCharacter` for a raw
    /// character outside printable ASCII and the allowed whitespace.
    pub fn decode(&self, text: &str) -> (r: MiscCodecResult<Vec<u8>>)
        ensures
            result_model(r) == spec_c_string_decode(text.spec_bytes()),
    {
        let input = text.as_bytes();
        let mut output: Vec<u8> = Vec::new();
        let mut index: usize = 0;
        while index < input.len()
            invariant
                input@ == text.spec_bytes(),
                index <= input@.len(),
                spec_c_string_decode(input@) == (match spec_c_string_decode_from(
                    input@,
                    index as int,
                ) {
                    Ok(rest) => Ok(output@ + rest),
                    Err(e) => Err(e),
                }),
            decreases input@.len() - index,
        {
            match decode_c_string_literal_unit(
                input,
                index,
                CStringLiteralParseContext::CompleteText(text),
            ) {
                Ok((decoded, consumed)) => {
                    proof {
                        lemma_c_string_unit_width(
                            ParseContextModel::CompleteText,
                            input@,
                            index as int,
                        );
                    }
                    let ghost before = output@;
                    output.push(decoded);
                    proof {
                        match spec_c_string_decode_from(input@, index + consumed) {
                            Ok(v) => {
                                assert(before + (seq![decoded] + v) =~= output@ + v);
                            },
                            Err(_) => {},
                        }
                    }
                    index = index + consumed;
                },
                Err(error) => {
                    return Err(c_string_parse_error_to_misc(error, input, index));
                },
            }
        }
        assert(output@ + Seq::<u8>::empty() =~= output@);
        Ok(output)
    }

    /// Returns the exact C string literal width for one byte.
    pub fn encode_len(&self, value: u8) -> (r: usize)
        ensures
            r == c_string_unit_bytes(value).len(),
    {
        encoded_byte_len(value)
    }

    /// Decodes one raw byte or one C escape at `input_index` of an open stream.
    /// A decoded unit keeps its byte and width whatever input follows, and a
    /// request for more input asks for more units than are left, never more
    /// than ten.
    pub fn decode_unit(&self, input: &[u8], input_index: usize) -> (r: Result<
        (u8, usize),
        DecodeFailure,
    >)
        requires
            input_index < input@.len(),
        ensures
            match spec_c_string_unit(
                ParseContextModel::StreamingBytes,
                input@,
                input_index as int,
            ) {
                Ok((value, width)) => r matches Ok((v, w)) && v == value && w == width,
                Err(e) => r matches Err(f) && f@ == c_string_unit_failure(
                    input@,
                    input_index as int,
                    e,
                ),
            },
            r matches Ok((b, n)) ==> 1 <= n <= input@.len() - input_index && forall|s: Seq<u8>|
                #[trigger] spec_c_string_unit(
                    ParseContextModel::StreamingBytes,
                    input@ + s,
                    input_index as int,
                ) == Ok::<(u8, int), ParseErrorModel>((b, n as int)),
            r matches Err(f) ==> (f@ matches DecodeFailureModel::Incomplete { required_total }
                ==> input@.len() - input_index < required_total <= 10),
    {
        let r = match decode_c_string_literal_byte(input, input_index) {
            Ok(decoded) => Ok(decoded),
            Err(error) => Err(map_c_string_parse_error_to_decode_failure(error, input, input_index)),
        };
        proof {
            assert forall|s: Seq<u8>|
                r is Ok implies #[trigger] spec_c_string_unit(
                    ParseContextModel::StreamingBytes,
                    input@ + s,
                    input_index as int,
                ) == spec_c_string_unit(
                    ParseContextModel::StreamingBytes,
                    input@,
                    input_index as int,
                ) by {
                lemma_c_string_streaming_stable(input@, input_index as int, s);
            }
            lemma_c_string_streaming_stable(input@, input_index as int, Seq::empty());
        }
        r
    }

    /// Decodes one value after end of input has been confirmed.
    pub fn decode_unit_eof(&self, input: &[u8], input_index: usize) -> (r: Result<
        (u8, usize),
        DecodeFailure,
    >)
        requires
            input_index < input@.len(),
        ensures
            match spec_c_string_unit(ParseContextModel::EofBytes, input@, input_index as int) {
                Ok((value, width)) => r matches Ok((v, w)) && v == value && w == width,
                Err(e) => r matches Err(f) && f@ == c_string_unit_failure(
                    input@,
                    input_index as int,
                    e,
                ),
            },
    {
        match decode_c_string_literal_unit(
            input,
            input_index,
            CStringLiteralParseContext::EofBytes,
        ) {
            Ok(decoded) => Ok(decoded),
            Err(error) => Err(map_c_string_parse_error_to_decode_failure(error, input, input_index)),
        }
    }

    /// Encodes one byte as a raw byte or C escape into `output` at
    /// `output_index`; returns the units written.
    pub fn encode_unit(&self, value: u8, output: &mut [u8], output_index: usize) -> (r: usize)
        requires
            output_index + c_string_unit_bytes(value).len() <= old(output)@.len(),
        ensures
            r == c_string_unit_bytes(value).len(),
            final(output)@ == old(output)@.update_subrange_with(
                output_index as int,
                c_string_unit_bytes(value),
            ),
    {
        write_encoded_byte(value, output, output_index)
    }
}

/// Reading the encoding of one byte, wherever it stands in a complete
/// fragment or in input whose end has been reached, gives that byte back
/// and consumes exactly its units.
proof fn lemma_c_string_unit_roundtrip(ctx: ParseContextModel, p: Seq<u8>, b: u8, r: Seq<u8>)
    requires
        !(ctx is StreamingBytes),
    ensures
        spec_c_string_unit(ctx, p + c_string_unit_bytes(b) + r, p.len() as int) == Ok::<
            (u8, int),
            ParseErrorModel,
        >((b, c_string_unit_bytes(b).len() as int)),
{
    let u = c_string_unit_bytes(b);
    let s = p + u + r;
    let i = p.len() as int;
    assert(s[i] == u[0]);
    if u.len() >= 2 {
        assert(s[i + 1] == u[1]);
    }
    if c_escape_letter(b) is None && !(0x20 <= b <= 0x7e) {
        let h = b / 16;
        let l = b % 16;
        assert(s[i + 2] == u[2] && s[i + 3] == u[3]);
        assert(spec_hex_value(hex_digit_byte(h, true) as u32) == Some(h));
        assert(spec_hex_value(hex_digit_byte(l, true) as u32) == Some(l));
        reveal_with_fuel(hex_run, 3);
        reveal_with_fuel(hex_run_value, 3);
        assert(hex_run(s, i + 2, 2) == 2);
        assert(hex_run_value(s, i + 2, 2) == h * 16 + l);
    }
}

/// Streaming decoding of encoded units: once the units received so far
/// reach past the start of a byte's encoding, the streaming unit decoder
/// gives that byte and its width when all its units are there, and
/// otherwise asks for more units than it has; it never reports invalid
/// input. With the end of input confirmed, the unit decoder gives the byte.
pub proof fn lemma_c_string_streaming(p: Seq<u8>, b: u8, r: Seq<u8>, end: int)
    requires
        p.len() < end <= p.len() + c_string_unit_bytes(b).len() + r.len(),
    ensures
        ({
            let u = c_string_unit_bytes(b);
            let s = (p + u + r).take(end);
            let i = p.len() as int;
            if end >= i + u.len() {
                spec_c_string_unit(ParseContextModel::StreamingBytes, s, i) == Ok::<
                    (u8, int),
                    ParseErrorModel,
                >((b, u.len() as int))
            } else {
                spec_c_string_unit(ParseContextModel::StreamingBytes, s, i) matches Err(
                    ParseErrorModel::Incomplete { required },
                ) && i + required > end
            }
        }),
        spec_c_string_unit(
            ParseContextModel::EofBytes,
            p + c_string_unit_bytes(b) + r,
            p.len() as int,
        ) == Ok::<(u8, int), ParseErrorModel>((b, c_string_unit_bytes(b).len() as int)),
{
    lemma_c_string_unit_roundtrip(ParseContextModel::EofBytes, p, b, r);
    let u = c_string_unit_bytes(b);
    let full = p + u + r;
    let s = full.take(end);
    let i = p.len() as int;
    assert(s[i] == u[0]);
    if u.len() >= 2 && end >= i + 2 {
        assert(s[i + 1] == u[1]);
    }
    if c_escape_letter(b) is None && !(0x20 <= b <= 0x7e) {
        let h = b / 16;
        let l = b % 16;
        assert(spec_hex_value(hex_digit_byte(h, true) as u32) == Some(h));
        assert(spec_hex_value(hex_digit_byte(l, true) as u32) == Some(l));
        reveal_with_fuel(hex_run, 3);
        reveal_with_fuel(hex_run_value, 3);
        if end >= i + 3 {
            assert(s[i + 2] == u[2]);
        }
        if end >= i + 4 {
            assert(s[i + 3] == u[3]);
            assert(hex_run(s, i + 2, 2) == 2);
            assert(hex_run_value(s, i + 2, 2) == h * 16 + l);
        } else if end == i + 3 {
            assert(hex_run(s, i + 2, 2) == 1);
        }
    }
}

proof fn lemma_c_string_decode_encoded(p: Seq<u8>, bytes: Seq<u8>)
    ensures
        spec_c_string_decode_from(p + spec_c_string_encode(bytes), p.len() as int) == Ok::<
            Seq<u8>,
            ErrorModel,
        >(bytes),
    decreases bytes.len(),
{
    let e = spec_c_string_encode(bytes);
    if bytes.len() == 0 {
        assert(e =~= Seq::<u8>::empty()) by {
            assert(bytes.map_values(c_string_unit_fn()) =~= Seq::<Seq<u8>>::empty());
        }
        assert(bytes =~= Seq::<u8>::empty());
    } else {
        let u = c_string_unit_bytes(bytes[0]);
        let tail = bytes.drop_first();
        let rest = spec_c_string_encode(tail);
        lemma_flat_map_first(bytes, c_string_unit_fn());
        assert(p + e =~= p + u + rest);
        lemma_c_string_unit_roundtrip(ParseContextModel::CompleteText, p, bytes[0], rest);
        assert(p + u + rest =~= (p + u) + rest);
        lemma_c_string_decode_encoded(p + u, tail);
        assert(seq![bytes[0]] + tail =~= bytes);
    }
}

/// The encoding of any bytes is ASCII.
pub proof fn lemma_c_string_encode_ascii(bytes: Seq<u8>)
    ensures
        all_ascii(spec_c_string_encode(bytes)),
{
    assert forall|b: u8| #[trigger] all_ascii(c_string_unit_fn()(b)) by {
        lemma_c_string_unit_ascii(b);
    }
    lemma_flat_map_ascii(bytes, c_string_unit_fn());
}

/// Law: decoding the text that `CStringLiteralCodec::encode` produced gives
/// the original bytes back, for every byte sequence.
pub proof fn lemma_c_string_roundtrip(bytes: Seq<u8>)
    ensures
        spec_c_string_decode(encode_utf8(ascii_chars(spec_c_string_encode(bytes)))) == Ok::<
            Seq<u8>,
            ErrorModel,
        >(bytes),
{
    lemma_c_string_encode_ascii(bytes);
    lemma_ascii_chars_encode(spec_c_string_encode(bytes));
    let empty = Seq::<u8>::empty();
    lemma_c_string_decode_encoded(empty, bytes);
    assert(empty + spec_c_string_encode(bytes) =~= spec_c_string_encode(bytes));
}

/// Decodes a fragment unit by unit with the end-of-input unit decoder, as a
/// caller of `decode_unit_eof` does: the bytes, or nothing when a unit fails.
pub open spec fn spec_c_string_decode_units_from(input: Seq<u8>, i: int) -> Option<Seq<u8>>
    decreases input.len() - i,
{
    if i < 0 || i >= input.len() {
        Some(Seq::empty())
    } else {
        match spec_c_string_unit(ParseContextModel::EofBytes, input, i) {
            Err(_) => None,
            Ok((value, width)) => {
                proof {
                    lemma_c_string_unit_width(ParseContextModel::EofBytes, input, i);
                }
                match spec_c_string_decode_units_from(input, i + width) {
                    Some(rest) => Some(seq![value] + rest),
                    None => None,
                }
            },
        }
    }
}

/// In UTF-8 text, a digit is read alike whether the whole character or the
/// byte is looked at.
proof fn lemma_source_char_hex(input: Seq<u8>, index: int)
    requires
        valid_utf8(input),
        0 <= index < input.len(),
    ensures
        spec_hex_value(spec_source_character(ParseContextModel::CompleteText, input, index) as u32)
            == spec_hex_value(input[index] as u32),
        spec_source_character(ParseContextModel::EofBytes, input, index) as u32 == input[index]
            as u32,
{
    crate::hex_codec::lemma_char_shown_ascii(input, index);
    assert(spec_source_character(ParseContextModel::CompleteText, input, index)
        == crate::hex_codec::char_shown(input, index));
}

/// The fixed-width digits of a universal escape read alike in a complete
/// text and at the end of input.
proof fn lemma_fixed_digits_agree(input: Seq<u8>, marker: int, digits: nat, k: nat, value: nat)
    requires
        valid_utf8(input),
        0 <= marker,
    ensures
        spec_fixed_hex_digits(ParseContextModel::CompleteText, input, marker, digits, k, value)
            is Ok <==> spec_fixed_hex_digits(
            ParseContextModel::EofBytes,
            input,
            marker,
            digits,
            k,
            value,
        ) is Ok,
        spec_fixed_hex_digits(ParseContextModel::CompleteText, input, marker, digits, k, value)
            is Ok ==> spec_fixed_hex_digits(
            ParseContextModel::CompleteText,
            input,
            marker,
            digits,
            k,
            value,
        ) == spec_fixed_hex_digits(ParseContextModel::EofBytes, input, marker, digits, k, value),
    decreases digits - k,
{
    if k < digits {
        let index = marker + 2 + k;
        if index < input.len() {
            lemma_source_char_hex(input, index);
            let d = spec_hex_value(input[index] as u32);
            if d is Some {
                lemma_fixed_digits_agree(
                    input,
                    marker,
                    digits,
                    k + 1,
                    (value * 16 + d->0) as nat,
                );
            }
        }
    }
}

/// A universal escape cut short by the end of input fails.
proof fn lemma_fixed_digits_short(
    ctx: ParseContextModel,
    input: Seq<u8>,
    marker: int,
    digits: nat,
    k: nat,
    value: nat,
)
    requires
        k <= digits,
        marker + 2 + k <= input.len() < marker + 2 + digits,
    ensures
        spec_fixed_hex_digits(ctx, input, marker, digits, k, value) is Err,
    decreases digits - k,
{
    if k < digits && marker + 2 + k < input.len() {
        let index = marker + 2 + k;
        let character = spec_source_character(ctx, input, index);
        if spec_hex_value(character as u32) is Some {
            let d = spec_hex_value(character as u32)->0;
            lemma_fixed_digits_short(ctx, input, marker, digits, k + 1, (value * 16 + d) as nat);
        }
    }
}

/// On UTF-8 input, the whole-text unit reader and the end-of-input unit
/// reader succeed on the same units, with the same byte and width.
proof fn lemma_unit_contexts_agree(input: Seq<u8>, i: int)
    requires
        valid_utf8(input),
        0 <= i < input.len(),
    ensures
        spec_c_string_unit(ParseContextModel::CompleteText, input, i) is Ok <==> spec_c_string_unit(
            ParseContextModel::EofBytes,
            input,
            i,
        ) is Ok,
        spec_c_string_unit(ParseContextModel::CompleteText, input, i) is Ok ==> spec_c_string_unit(
            ParseContextModel::CompleteText,
            input,
            i,
        ) == spec_c_string_unit(ParseContextModel::EofBytes, input, i),
{
    lemma_fixed_digits_agree(input, i, 4, 0, 0);
    lemma_fixed_digits_agree(input, i, 8, 0, 0);
    if i + 2 <= input.len() < i + 6 {
        lemma_fixed_digits_short(ParseContextModel::EofBytes, input, i, 4, 0, 0);
    }
    if i + 2 <= input.len() < i + 10 {
        lemma_fixed_digits_short(ParseContextModel::EofBytes, input, i, 8, 0, 0);
    }
}

/// Decoding from byte `i` on agrees between the two readers.
proof fn lemma_decode_units_agree(input: Seq<u8>, i: int)
    requires
        valid_utf8(input),
        0 <= i,
    ensures
        match spec_c_string_decode_from(input, i) {
            Ok(v) => spec_c_string_decode_units_from(input, i) == Some(v),
            Err(_) => spec_c_string_decode_units_from(input, i) is None,
        },
    decreases input.len() - i,
{
    if i < input.len() {
        lemma_unit_contexts_agree(input, i);
        lemma_c_string_unit_width(ParseContextModel::CompleteText, input, i);
        match spec_c_string_unit(ParseContextModel::CompleteText, input, i) {
            Ok((value, width)) => {
                lemma_decode_units_agree(input, i + width);
            },
            Err(_) => {},
        }
    }
}

/// Whole-text decoding and unit-by-unit decoding with end-of-input rules
/// share one parser: on UTF-8 text, one succeeds exactly when the other
/// does, with the same bytes.
pub proof fn lemma_c_string_shared_core(input: Seq<u8>)
    requires
        valid_utf8(input),
    ensures
        match spec_c_string_decode(input) {
            Ok(v) => spec_c_string_decode_units_from(input, 0) == Some(v),
            Err(_) => spec_c_string_decode_units_from(input, 0) is None,
        },
{
    lemma_decode_units_agree(input, 0);
}

impl Default for CStringLiteralCodec {
    /// The C string literal codec.
    fn default() -> (r: Self)
        ensures
            r == CStringLiteralCodec,
    {
        CStringLiteralCodec
    }
}

/// Appending units does not change a run of hex digits that stopped inside
/// the input.
proof fn lemma_hex_run_append(input: Seq<u8>, s: Seq<u8>, start: int, max: nat)
    requires
        0 <= start,
        hex_run(input, start, max) == max || start + hex_run(input, start, max) < input.len(),
    ensures
        hex_run(input + s, start, max) == hex_run(input, start, max),
    decreases max,
{
    if max > 0 && start < input.len() {
        assert((input + s)[start] == input[start]);
        if spec_hex_value(input[start] as u32) is Some {
            lemma_hex_run_append(input, s, start + 1, (max - 1) as nat);
        }
    }
}

/// Appending units does not change the value of digits inside the input.
proof fn lemma_hex_run_value_append(input: Seq<u8>, s: Seq<u8>, start: int, n: nat)
    requires
        0 <= start,
        start + n <= input.len(),
    ensures
        hex_run_value(input + s, start, n) == hex_run_value(input, start, n),
    decreases n,
{
    if n > 0 {
        assert((input + s)[start + n - 1] == input[start + n - 1]);
        lemma_hex_run_value_append(input, s, start, (n - 1) as nat);
    }
}

/// Appending units does not change a run of octal digits that stopped
/// inside the input.
proof fn lemma_octal_run_append(input: Seq<u8>, s: Seq<u8>, start: int, max: nat)
    requires
        0 <= start,
        octal_run(input, start, max) == max || start + octal_run(input, start, max)
            < input.len(),
    ensures
        octal_run(input + s, start, max) == octal_run(input, start, max),
    decreases max,
{
    if max > 0 && start < input.len() {
        assert((input + s)[start] == input[start]);
        if spec_octal_value(input[start]) is Some {
            lemma_octal_run_append(input, s, start + 1, (max - 1) as nat);
        }
    }
}

/// Appending units does not change the value of octal digits inside the
/// input.
proof fn lemma_octal_run_value_append(input: Seq<u8>, s: Seq<u8>, start: int, n: nat)
    requires
        0 <= start,
        start + n <= input.len(),
    ensures
        octal_run_value(input + s, start, n) == octal_run_value(input, start, n),
    decreases n,
{
    if n > 0 {
        assert((input + s)[start + n - 1] == input[start + n - 1]);
        lemma_octal_run_value_append(input, s, start, (n - 1) as nat);
    }
}

/// On an open stream, the digits of a universal escape that lie inside the
/// input read alike after more units arrive.
proof fn lemma_fixed_digits_append(
    input: Seq<u8>,
    s: Seq<u8>,
    marker: int,
    digits: nat,
    k: nat,
    value: nat,
)
    requires
        0 <= marker,
        marker + 2 + digits <= input.len(),
    ensures
        spec_fixed_hex_digits(ParseContextModel::StreamingBytes, input + s, marker, digits, k, value)
            == spec_fixed_hex_digits(
            ParseContextModel::StreamingBytes,
            input,
            marker,
            digits,
            k,
            value,
        ),
    decreases digits - k,
{
    if k < digits {
        let index = marker + 2 + k;
        assert((input + s)[index] == input[index]);
        let d = spec_hex_value(input[index] as u32);
        if d is Some {
            lemma_fixed_digits_append(input, s, marker, digits, k + 1, (value * 16 + d->0) as nat);
        }
    }
}

/// On an open stream, a unit that decodes keeps its byte and width however
/// many units arrive after it, and a unit that asks for more units asks for
/// more than it has and at most ten.
pub proof fn lemma_c_string_streaming_stable(input: Seq<u8>, i: int, s: Seq<u8>)
    requires
        0 <= i < input.len(),
    ensures
        spec_c_string_unit(ParseContextModel::StreamingBytes, input, i) matches Ok((b, n)) ==> 1
            <= n <= input.len() - i && spec_c_string_unit(
            ParseContextModel::StreamingBytes,
            input + s,
            i,
        ) == Ok::<(u8, int), ParseErrorModel>((b, n)),
        spec_c_string_unit(ParseContextModel::StreamingBytes, input, i) matches Err(
            ParseErrorModel::Incomplete { required },
        ) ==> input.len() - i < required <= 10,
{
    let ctx = ParseContextModel::StreamingBytes;
    let t = input + s;
    lemma_c_string_unit_width(ctx, input, i);
    assert(t[i] == input[i]);
    lemma_octal_run_bound(input, i + 1, 3);
    if input[i] == 0x5c && input.len() - i >= 2 {
        lemma_hex_run_bound(input, i + 2, 2);
        assert(t[i + 1] == input[i + 1]);
        let escape = input[i + 1];
        if escape == 0x78 || escape == 0x58 {
            if input.len() - i >= 3 {
                let count = hex_run(input, i + 2, 2);
                if spec_variable_hex_pending(input, i) is None {
                    if count > 0 {
                        lemma_hex_run_append(input, s, i + 2, 2);
                        lemma_hex_run_value_append(input, s, i + 2, count);
                        lemma_hex_run_bound(t, i + 2, 2);
                    }
                }
            }
        } else if escape == 0x75 && input.len() - i >= 6 {
            lemma_fixed_digits_append(input, s, i, 4, 0, 0);
        } else if escape == 0x55 && input.len() - i >= 10 {
            lemma_fixed_digits_append(input, s, i, 8, 0, 0);
        } else if 0x30 <= escape <= 0x37 {
            let count = octal_run(input, i + 1, 3);
            if !(count < 3 && i + 1 + count == input.len()) {
                lemma_octal_run_append(input, s, i + 1, 3);
                lemma_octal_run_value_append(input, s, i + 1, count);
            }
        }
    }
}

/// Decodes a fragment unit by unit with the open-stream unit decoder, as a
/// caller of `decode_unit` does on complete input: the bytes, or nothing
/// when a unit fails or asks for more.
pub open spec fn spec_c_string_decode_stream_from(input: Seq<u8>, i: int) -> Option<Seq<u8>>
    decreases input.len() - i,
{
    if i < 0 || i >= input.len() {
        Some(Seq::empty())
    } else {
        match spec_c_string_unit(ParseContextModel::StreamingBytes, input, i) {
            Err(_) => None,
            Ok((value, width)) => {
                proof {
                    lemma_c_string_unit_width(ParseContextModel::StreamingBytes, input, i);
                }
                match spec_c_string_decode_stream_from(input, i + width) {
                    Some(rest) => Some(seq![value] + rest),
                    None => None,
                }
            },
        }
    }
}

/// Universal-escape digits read alike on an open stream and at the end of
/// input.
proof fn lemma_fixed_digits_stream_eof(
    input: Seq<u8>,
    marker: int,
    digits: nat,
    k: nat,
    value: nat,
)
    ensures
        spec_fixed_hex_digits(ParseContextModel::StreamingBytes, input, marker, digits, k, value)
            == spec_fixed_hex_digits(ParseContextModel::EofBytes, input, marker, digits, k, value),
    decreases digits - k,
{
    if k < digits {
        let index = marker + 2 + k;
        if index < input.len() {
            let d = spec_hex_value(input[index] as u32);
            if d is Some {
                lemma_fixed_digits_stream_eof(input, marker, digits, k + 1, (value * 16 + d->0) as nat);
            }
        }
    }
}

/// A unit that the open-stream decoder reads is read alike at the end of
/// input.
proof fn lemma_stream_unit_is_eof_unit(input: Seq<u8>, i: int)
    requires
        0 <= i < input.len(),
    ensures
        spec_c_string_unit(ParseContextModel::StreamingBytes, input, i) is Ok
            ==> spec_c_string_unit(ParseContextModel::EofBytes, input, i) == spec_c_string_unit(
            ParseContextModel::StreamingBytes,
            input,
            i,
        ),
{
    lemma_fixed_digits_stream_eof(input, i, 4, 0, 0);
    lemma_fixed_digits_stream_eof(input, i, 8, 0, 0);
}

/// Where unit-by-unit open-stream decoding succeeds from byte `i` on, the
/// whole-text decoder gives the same bytes.
proof fn lemma_decode_stream_agrees(input: Seq<u8>, i: int)
    requires
        valid_utf8(input),
        0 <= i,
    ensures
        spec_c_string_decode_stream_from(input, i) matches Some(v) ==> spec_c_string_decode_from(
            input,
            i,
        ) == Ok::<Seq<u8>, ErrorModel>(v),
    decreases input.len() - i,
{
    if i < input.len() {
        lemma_stream_unit_is_eof_unit(input, i);
        lemma_unit_contexts_agree(input, i);
        lemma_c_string_unit_width(ParseContextModel::StreamingBytes, input, i);
        match spec_c_string_unit(ParseContextModel::StreamingBytes, input, i) {
            Ok((value, width)) => {
                lemma_decode_stream_agrees(input, i + width);
            },
            Err(_) => {},
        }
    }
}

/// The whole-text decoder agrees with unit-by-unit open-stream decoding
/// wherever the latter succeeds on UTF-8 text.
pub proof fn lemma_c_string_complete_matches_stream(input: Seq<u8>)
    requires
        valid_utf8(input),
    ensures
        spec_c_string_decode_stream_from(input, 0) matches Some(v) ==> spec_c_string_decode(input)
            == Ok::<Seq<u8>, ErrorModel>(v),
{
    lemma_decode_stream_agrees(input, 0);
}

} // verus!
