//! Decoder of unsigned C integer literals: decimal, octal and hexadecimal.

use crate::internal::literal_components::{invalid_c_integer_model, literal_parts};
use crate::internal::LiteralComponents;
use crate::misc_codec_error::{ErrorModel, MiscCodecError, MiscCodecResult};
use crate::text_support::{
    lemma_encode_utf8_append, lemma_encode_utf8_split, lemma_utf8_len_strict, next_char, str_slice, utf8_len,
};
use vstd::prelude::*;
use vstd::utf8::is_ascii_chars_encode_utf8;

verus! {

/// The Unicode `White_Space` characters, the ones `char::is_whitespace`
/// accepts and `str::trim` removes.
pub open spec fn unicode_white_space(c: char) -> bool {
    let u = c as u32;
    ||| 0x09 <= u <= 0x0d
    ||| u == 0x20
    ||| u == 0x85
    ||| u == 0xa0
    ||| u == 0x1680
    ||| 0x2000 <= u <= 0x200a
    ||| u == 0x2028
    ||| u == 0x2029
    ||| u == 0x202f
    ||| u == 0x205f
    ||| u == 0x3000
}

/// Number of white-space characters at the start of `cs`.
pub open spec fn leading_ws(cs: Seq<char>) -> nat
    decreases cs.len(),
{
    if cs.len() > 0 && unicode_white_space(cs[0]) {
        1 + leading_ws(cs.drop_first())
    } else {
        0
    }
}

/// Number of white-space characters at the end of `cs`.
pub open spec fn trailing_ws(cs: Seq<char>) -> nat
    decreases cs.len(),
{
    if cs.len() > 0 && unicode_white_space(cs.last()) {
        1 + trailing_ws(cs.drop_last())
    } else {
        0
    }
}

/// `cs` without surrounding white space.
pub open spec fn trimmed_chars(cs: Seq<char>) -> Seq<char> {
    let rest = cs.skip(leading_ws(cs) as int);
    rest.take(rest.len() - trailing_ws(rest))
}

/// Value of digit `c` in `radix` (at most 36), as `char::to_digit` gives it.
pub open spec fn digit_value(c: char, radix: u32) -> Option<u32> {
    let u = c as u32;
    let v: u32 = if 0x30 <= u <= 0x39 {
        (u - 0x30) as u32
    } else if 0x61 <= u <= 0x7a {
        (u - 0x61 + 10) as u32
    } else if 0x41 <= u <= 0x5a {
        (u - 0x41 + 10) as u32
    } else {
        99
    };
    if v < radix {
        Some(v)
    } else {
        None
    }
}

/// Index of the first character of `d` that is no digit in `radix`.
pub open spec fn first_invalid_digit(d: Seq<char>, radix: u32) -> Option<int>
    decreases d.len(),
{
    if d.len() == 0 {
        None
    } else if digit_value(d[0], radix) is None {
        Some(0)
    } else {
        match first_invalid_digit(d.drop_first(), radix) {
            Some(j) => Some(j + 1),
            None => None,
        }
    }
}

/// Numeric value of the digits `d` in `radix`, most significant first.
pub open spec fn digits_value(d: Seq<char>, radix: u32) -> nat
    decreases d.len(),
{
    if d.len() == 0 {
        0
    } else {
        (digits_value(d.drop_last(), radix) * radix + digit_value(d.last(), radix)->0) as nat
    }
}

/// Reason given for a literal whose value does not fit in `u64`.
pub open spec fn overflow_reason() -> Seq<char> {
    "integer literal is out of range: number too large to fit in target type"@
}

/// Result of decoding literal text `cs`.
pub open spec fn spec_c_integer_decode(cs: Seq<char>) -> Result<u64, ErrorModel> {
    let t = trimmed_chars(cs);
    if t.len() == 0 {
        Err(invalid_c_integer_model("expected at least one digit"@))
    } else {
        match literal_parts(t) {
            Err(e) => Err(e),
            Ok((radix, prefix, d)) => match first_invalid_digit(d, radix) {
                Some(j) => Err(
                    ErrorModel::InvalidDigit {
                        radix,
                        index: utf8_len(cs.take(leading_ws(cs) as int)) + prefix + utf8_len(
                            d.take(j),
                        ),
                        character: d[j],
                    },
                ),
                None => if digits_value(d, radix) <= u64::MAX {
                    Ok(digits_value(d, radix) as u64)
                } else {
                    Err(invalid_c_integer_model(overflow_reason()))
                },
            },
        }
    }
}

/// `leading_ws` is the length of the white-space run that starts `cs`.
proof fn lemma_leading_ws(cs: Seq<char>, m: int)
    requires
        0 <= m <= cs.len(),
        forall|i: int| 0 <= i < m ==> unicode_white_space(#[trigger] cs[i]),
        m == cs.len() || !unicode_white_space(cs[m]),
    ensures
        leading_ws(cs) == m,
    decreases m,
{
    if m > 0 {
        let tail = cs.drop_first();
        assert forall|i: int| 0 <= i < m - 1 implies unicode_white_space(#[trigger] tail[i]) by {
            assert(tail[i] == cs[i + 1]);
        }
        assert(m - 1 == tail.len() || tail[m - 1] == cs[m]);
        lemma_leading_ws(tail, m - 1);
    }
}

/// `trailing_ws` is the length of the white-space run that ends `cs`.
proof fn lemma_trailing_ws(cs: Seq<char>, m: int)
    requires
        0 <= m <= cs.len(),
        forall|i: int| m <= i < cs.len() ==> unicode_white_space(#[trigger] cs[i]),
        m == 0 || !unicode_white_space(cs[m - 1]),
    ensures
        cs.len() - trailing_ws(cs) == m,
    decreases cs.len() - m,
{
    if m < cs.len() {
        let init = cs.drop_last();
        assert(unicode_white_space(cs[cs.len() - 1]));
        assert forall|i: int| m <= i < init.len() implies unicode_white_space(
            #[trigger] init[i],
        ) by {
            assert(init[i] == cs[i]);
        }
        assert(m == 0 || init[m - 1] == cs[m - 1]);
        lemma_trailing_ws(init, m);
    }
}

/// The first invalid digit is the first index whose character is no digit.
proof fn lemma_first_invalid_digit(d: Seq<char>, radix: u32, j: int)
    requires
        0 <= j <= d.len(),
        forall|i: int| 0 <= i < j ==> digit_value(#[trigger] d[i], radix) is Some,
        j == d.len() || digit_value(d[j], radix) is None,
    ensures
        first_invalid_digit(d, radix) == if j == d.len() {
            None::<int>
        } else {
            Some(j)
        },
    decreases j,
{
    if j > 0 {
        let tail = d.drop_first();
        assert forall|i: int| 0 <= i < j - 1 implies digit_value(#[trigger] tail[i], radix)
            is Some by {
            assert(tail[i] == d[i + 1]);
        }
        assert(j - 1 == tail.len() || tail[j - 1] == d[j]);
        assert(digit_value(d[0], radix) is Some);
        lemma_first_invalid_digit(tail, radix, j - 1);
    }
}

/// The value of a prefix of valid digits never exceeds the value of all.
proof fn lemma_digits_value_prefix(d: Seq<char>, radix: u32, k: int)
    requires
        0 <= k <= d.len(),
        radix >= 1,
    ensures
        digits_value(d.take(k), radix) <= digits_value(d, radix),
    decreases d.len() - k,
{
    if k < d.len() {
        lemma_digits_value_prefix(d.drop_last(), radix, k);
        assert(d.drop_last().take(k) =~= d.take(k));
        let v = digits_value(d.drop_last(), radix);
        assert(v * radix >= v) by (nonlinear_arith)
            requires
                radix >= 1,
        ;
    } else {
        assert(d.take(k) =~= d);
    }
}

/// The characters before the first non-white-space one are white space, and
/// the one there, if any, is not.
proof fn lemma_leading_ws_run(cs: Seq<char>)
    ensures
        leading_ws(cs) <= cs.len(),
        forall|i: int| 0 <= i < leading_ws(cs) ==> unicode_white_space(#[trigger] cs[i]),
        leading_ws(cs) < cs.len() ==> !unicode_white_space(cs[leading_ws(cs) as int]),
    decreases cs.len(),
{
    if cs.len() > 0 && unicode_white_space(cs[0]) {
        let tail = cs.drop_first();
        lemma_leading_ws_run(tail);
        assert forall|i: int| 0 <= i < leading_ws(cs) implies unicode_white_space(
            #[trigger] cs[i],
        ) by {
            if i > 0 {
                assert(cs[i] == tail[i - 1]);
            }
        }
        if leading_ws(cs) < cs.len() {
            assert(cs[leading_ws(cs) as int] == tail[leading_ws(tail) as int]);
        }
    }
}

/// The white-space run at the end is no longer than the sequence.
proof fn lemma_trailing_ws_bound(cs: Seq<char>)
    ensures
        trailing_ws(cs) <= cs.len(),
    decreases cs.len(),
{
    if cs.len() > 0 {
        lemma_trailing_ws_bound(cs.drop_last());
    }
}

/// Law: white space after a literal changes nothing. For each Unicode
/// `White_Space` character (tab, line feed, vertical tab, form feed,
/// carriage return, space, U+0085, U+00A0, U+1680, U+2000 to U+200A,
/// U+2028, U+2029, U+202F, U+205F, U+3000), decoding the text with that
/// character appended gives what decoding the text gives.
pub proof fn lemma_c_integer_trailing_white_space(cs: Seq<char>, c: char)
    requires
        (0x09 <= c as u32 <= 0x0d) || c as u32 == 0x20 || c as u32 == 0x85 || c as u32 == 0xa0
            || c as u32 == 0x1680 || (0x2000 <= c as u32 <= 0x200a) || c as u32 == 0x2028 || c
            as u32 == 0x2029 || c as u32 == 0x202f || c as u32 == 0x205f || c as u32 == 0x3000,
    ensures
        spec_c_integer_decode(cs.push(c)) == spec_c_integer_decode(cs),
{
    let cs2 = cs.push(c);
    assert(unicode_white_space(c));
    lemma_leading_ws_run(cs);
    let l = leading_ws(cs) as int;
    assert forall|i: int| 0 <= i < l implies unicode_white_space(#[trigger] cs2[i]) by {
        assert(cs2[i] == cs[i]);
    }
    if l == cs.len() {
        assert forall|i: int| 0 <= i < cs2.len() implies unicode_white_space(
            #[trigger] cs2[i],
        ) by {
            if i < l {
                assert(cs2[i] == cs[i]);
            } else {
                assert(cs2[i] == c);
            }
        }
        lemma_leading_ws(cs2, cs2.len() as int);
        assert(trimmed_chars(cs2).len() == 0);
        assert(trimmed_chars(cs).len() == 0);
    } else {
        assert(cs2[l] == cs[l]);
        lemma_leading_ws(cs2, l);
        let rest = cs.skip(l);
        let rest2 = cs2.skip(l);
        assert(rest2 =~= rest.push(c));
        assert(rest2.drop_last() =~= rest);
        assert(rest2.last() == c);
        assert(trailing_ws(rest2) == 1 + trailing_ws(rest));
        lemma_trailing_ws_bound(rest);
        let n = rest.len() - trailing_ws(rest);
        assert(rest2.take(n) =~= rest.take(n));
        assert(trimmed_chars(cs2) =~= trimmed_chars(cs));
        assert(cs2.take(l) =~= cs.take(l));
    }
}

/// Law: white space before a literal changes nothing but the byte indices
/// in a digit error, which move by the character's UTF-8 length. The
/// characters are the Unicode `White_Space` ones, as for trailing space.
pub proof fn lemma_c_integer_leading_white_space(c: char, cs: Seq<char>)
    requires
        (0x09 <= c as u32 <= 0x0d) || c as u32 == 0x20 || c as u32 == 0x85 || c as u32 == 0xa0
            || c as u32 == 0x1680 || (0x2000 <= c as u32 <= 0x200a) || c as u32 == 0x2028 || c
            as u32 == 0x2029 || c as u32 == 0x202f || c as u32 == 0x205f || c as u32 == 0x3000,
    ensures
        spec_c_integer_decode(seq![c] + cs) == match spec_c_integer_decode(cs) {
            Err(ErrorModel::InvalidDigit { radix, index, character }) => Err(
                ErrorModel::InvalidDigit { radix, index: index + utf8_len(seq![c]), character },
            ),
            other => other,
        },
{
    let cs2 = seq![c] + cs;
    assert(unicode_white_space(c));
    assert(cs2.drop_first() =~= cs);
    assert(cs2[0] == c);
    lemma_leading_ws_run(cs);
    let l = leading_ws(cs) as int;
    assert(leading_ws(cs2) == 1 + l);
    assert(cs2.skip(1 + l) =~= cs.skip(l));
    assert(trimmed_chars(cs2) =~= trimmed_chars(cs));
    assert(cs2.take(1 + l) =~= seq![c] + cs.take(l));
    lemma_encode_utf8_append(seq![c], cs.take(l));
}

/// Law: a character that is not white space is not trimmed away. After the
/// digit `1`, any character other than a decimal digit and the Unicode
/// `White_Space` characters is reported as an invalid decimal digit at
/// byte index 1.
pub proof fn lemma_c_integer_non_white_space_kept(c: char)
    requires
        !((0x09 <= c as u32 <= 0x0d) || c as u32 == 0x20 || c as u32 == 0x85 || c as u32 == 0xa0
            || c as u32 == 0x1680 || (0x2000 <= c as u32 <= 0x200a) || c as u32 == 0x2028 || c
            as u32 == 0x2029 || c as u32 == 0x202f || c as u32 == 0x205f || c as u32 == 0x3000),
        !(0x30 <= c as u32 <= 0x39),
    ensures
        spec_c_integer_decode(seq!['1', c]) == Err::<u64, ErrorModel>(
            ErrorModel::InvalidDigit { radix: 10, index: 1, character: c },
        ),
{
    let cs = seq!['1', c];
    assert(!unicode_white_space(cs[0]));
    assert(!unicode_white_space(cs[1]));
    lemma_leading_ws(cs, 0);
    assert(cs.skip(0) =~= cs);
    assert(cs.drop_last() =~= seq!['1']);
    assert(trailing_ws(cs) == 0);
    assert(cs.take(2) =~= cs);
    assert(trimmed_chars(cs) =~= cs);
    assert(digit_value('1', 10) == Some(1u32));
    assert(digit_value(c, 10) is None);
    lemma_first_invalid_digit(cs, 10, 1);
    assert(cs.take(0) =~= Seq::<char>::empty());
    assert(cs.take(1) =~= seq!['1']);
    assert(utf8_len(seq!['1']) == 1) by {
        is_ascii_chars_encode_utf8(seq!['1']);
    }
}

/// Tests whether `c` is Unicode white space.
pub fn is_unicode_whitespace(c: char) -> (r: bool)
    ensures
        r == unicode_white_space(c),
{
    let u = c as u32;
    (0x09 <= u && u <= 0x0d) || u == 0x20 || u == 0x85 || u == 0xa0 || u == 0x1680 || (0x2000
        <= u && u <= 0x200a) || u == 0x2028 || u == 0x2029 || u == 0x202f || u == 0x205f || u
        == 0x3000
}

/// Value of digit `c` in `radix`, if it is one.
pub fn to_digit(c: char, radix: u32) -> (r: Option<u32>)
    ensures
        r == digit_value(c, radix),
{
    let u = c as u32;
    let v: u32 = if 0x30 <= u && u <= 0x39 {
        u - 0x30
    } else if 0x61 <= u && u <= 0x7a {
        u - 0x61 + 10
    } else if 0x41 <= u && u <= 0x5a {
        u - 0x41 + 10
    } else {
        99
    };
    if v < radix {
        Some(v)
    } else {
        None
    }
}

/// Trims surrounding white space; returns the trimmed text and the byte
/// offset where it starts.
fn trim_with_offset(text: &str) -> (r: (&str, usize))
    ensures
        r.0@ == trimmed_chars(text@),
        r.1 == utf8_len(text@.take(leading_ws(text@) as int)),
        r.1 + utf8_len(r.0@) <= utf8_len(text@),
{
    let ghost cs = text@;
    let n = text.as_bytes().len();
    proof {
        assert(cs.take(0) =~= Seq::<char>::empty());
        assert(cs.take(cs.len() as int) =~= cs);
    }
    let mut i: usize = 0;
    let ghost mut k: int = 0;
    while i < n
        invariant
            cs == text@,
            n == utf8_len(cs),
            0 <= k <= cs.len(),
            i == utf8_len(cs.take(k)),
            forall|j: int| 0 <= j < k ==> unicode_white_space(#[trigger] cs[j]),
        ensures
            cs == text@,
            0 <= k <= cs.len(),
            i == utf8_len(cs.take(k)),
            forall|j: int| 0 <= j < k ==> unicode_white_space(#[trigger] cs[j]),
            i < n ==> k < cs.len() && !unicode_white_space(cs[k]),
        decreases n - i,
    {
        proof {
            if k == cs.len() {
                assert(cs.take(k) =~= cs);
            }
        }
        let (c, next) = next_char(text, i, Ghost(k));
        if !is_unicode_whitespace(c) {
            break;
        }
        i = next;
        proof {
            k = k + 1;
        }
    }
    proof {
        if i >= n && k < cs.len() {
            lemma_utf8_len_strict(cs, k);
        }
        lemma_leading_ws(cs, k);
    }
    let start = i;
    let ghost k0 = k;
    let mut end = i;
    let ghost mut kend = k;
    while i < n
        invariant
            cs == text@,
            n == utf8_len(cs),
            0 <= k0 <= kend <= k <= cs.len(),
            i == utf8_len(cs.take(k)),
            end == utf8_len(cs.take(kend)),
            forall|j: int| kend <= j < k ==> unicode_white_space(#[trigger] cs[j]),
            kend == k0 || !unicode_white_space(cs[kend - 1]),
        decreases n - i,
    {
        proof {
            if k == cs.len() {
                assert(cs.take(k) =~= cs);
            }
        }
        let (c, next) = next_char(text, i, Ghost(k));
        if !is_unicode_whitespace(c) {
            end = next;
            proof {
                kend = k + 1;
            }
        }
        i = next;
        proof {
            k = k + 1;
        }
    }
    proof {
        if k < cs.len() {
            lemma_utf8_len_strict(cs, k);
        }
        let rest = cs.skip(k0);
        assert forall|j: int| kend - k0 <= j < rest.len() implies unicode_white_space(
            #[trigger] rest[j],
        ) by {
            assert(rest[j] == cs[j + k0]);
        }
        assert(kend - k0 == 0 || rest[kend - k0 - 1] == cs[kend - 1]);
        lemma_trailing_ws(rest, kend - k0);
        assert(rest.take(kend - k0) =~= cs.subrange(k0, kend));
        lemma_encode_utf8_split(cs, kend);
        lemma_encode_utf8_split(cs.take(kend), k0);
        assert(cs.take(kend).take(k0) =~= cs.take(k0));
        assert(cs.take(kend).skip(k0) =~= cs.subrange(k0, kend));
    }
    let trimmed = str_slice(text, start, end, Ghost(k0), Ghost(kend));
    (trimmed, start)
}

/// Checks that every character of the digits is a digit in the radix.
fn validate_digits(components: LiteralComponents) -> (r: MiscCodecResult<()>)
    requires
        components.digits_offset + utf8_len(components.digits@) <= usize::MAX,
    ensures
        match first_invalid_digit(components.digits@, components.radix) {
            Some(j) => r matches Err(e) && e@ == (ErrorModel::InvalidDigit {
                radix: components.radix,
                index: (components.digits_offset + utf8_len(components.digits@.take(j))) as nat,
                character: components.digits@[j],
            }),
            None => r is Ok,
        },
{
    let digits = components.digits;
    let ghost d = digits@;
    let n = digits.as_bytes().len();
    proof {
        assert(d.take(0) =~= Seq::<char>::empty());
        assert(d.take(d.len() as int) =~= d);
    }
    let mut i: usize = 0;
    let ghost mut k: int = 0;
    while i < n
        invariant
            n == utf8_len(d),
            d == digits@,
            digits == components.digits,
            components.digits_offset + n <= usize::MAX,
            0 <= k <= d.len(),
            i == utf8_len(d.take(k)),
            forall|j: int| 0 <= j < k ==> digit_value(#[trigger] d[j], components.radix) is Some,
        decreases n - i,
    {
        proof {
            if k == d.len() {
                assert(d.take(k) =~= d);
            }
        }
        let (c, next) = next_char(digits, i, Ghost(k));
        if to_digit(c, components.radix).is_none() {
            proof {
                lemma_first_invalid_digit(d, components.radix, k);
            }
            return Err(MiscCodecError::InvalidDigit {
                radix: components.radix,
                index: components.digits_offset + i,
                character: c,
            });
        }
        i = next;
        proof {
            k = k + 1;
        }
    }
    proof {
        if k < d.len() {
            lemma_utf8_len_strict(d, k);
        }
        lemma_first_invalid_digit(d, components.radix, k);
    }
    Ok(())
}

/// Value of digits that are all valid in `radix`, if it fits in `u64`.
fn parse_digits(digits: &str, radix: u32) -> (r: Option<u64>)
    requires
        2 <= radix <= 36,
        first_invalid_digit(digits@, radix) is None,
    ensures
        r == if digits_value(digits@, radix) <= u64::MAX {
            Some(digits_value(digits@, radix) as u64)
        } else {
            None::<u64>
        },
{
    let ghost d = digits@;
    let n = digits.as_bytes().len();
    proof {
        assert(d.take(0) =~= Seq::<char>::empty());
        assert(d.take(d.len() as int) =~= d);
        crate::text_support::lemma_utf8_len_at_least(d);
    }
    let mut value: u64 = 0;
    let mut i: usize = 0;
    let ghost mut k: int = 0;
    while i < n
        invariant
            n == utf8_len(d),
            d == digits@,
            2 <= radix <= 36,
            first_invalid_digit(d, radix) is None,
            0 <= k <= d.len(),
            i == utf8_len(d.take(k)),
            value == digits_value(d.take(k), radix),
        decreases n - i,
    {
        proof {
            if k == d.len() {
                assert(d.take(k) =~= d);
            }
        }
        let (c, next) = next_char(digits, i, Ghost(k));
        let ghost prefix = d.take(k + 1);
        proof {
            assert(prefix.drop_last() =~= d.take(k));
            assert(prefix.last() == d[k]);
            if digit_value(d[k], radix) is None {
                lemma_first_invalid_digit_at(d, radix, k);
            }
        }
        let digit = match to_digit(c, radix) {
            Some(v) => v,
            None => {
                assert(false);
                0
            },
        };
        let next_value = match value.checked_mul(radix as u64) {
            Some(scaled) => scaled.checked_add(digit as u64),
            None => None,
        };
        match next_value {
            Some(v) => {
                value = v;
            },
            None => {
                proof {
                    lemma_digits_value_prefix(d, radix, k + 1);
                }
                return None;
            },
        }
        i = next;
        proof {
            k = k + 1;
        }
    }
    proof {
        if k < d.len() {
            lemma_utf8_len_strict(d, k);
        }
    }
    Some(value)
}

/// When some character is no digit, there is a first invalid digit.
proof fn lemma_first_invalid_digit_at(d: Seq<char>, radix: u32, k: int)
    requires
        0 <= k < d.len(),
        digit_value(d[k], radix) is None,
    ensures
        first_invalid_digit(d, radix) is Some,
    decreases k,
{
    if digit_value(d[0], radix) is Some {
        assert(d.drop_first()[k - 1] == d[k]);
        lemma_first_invalid_digit_at(d.drop_first(), radix, k - 1);
    }
}

/// Builds an invalid C integer literal input error.
fn invalid_c_integer_input(reason: &str) -> (r: MiscCodecError)
    ensures
        r@ == invalid_c_integer_model(reason@),
{
    MiscCodecError::InvalidInput { codec: "c-integer-literal", reason: reason.to_owned() }
}

/// Decodes non-negative C integer literals (`123`, `0123`, `0x123`, `0X123`)
/// into `u64`, after trimming surrounding white space. Signs, suffixes and
/// digit separators are not accepted.
#[derive(Debug, Clone, Copy, PartialEq, Eq, Structural)]
pub struct CIntegerLiteralCodec;

impl CIntegerLiteralCodec {
    /// Creates a C integer literal codec.
    pub fn new() -> (r: Self)
        ensures
            r == CIntegerLiteralCodec,
    {
        CIntegerLiteralCodec
    }

    /// Decodes a C integer literal into a `u64`.
    ///
    /// Fails with `InvalidInput` when the text is blank, a `0x` prefix has
    /// no digits or the value overflows `u64`, and with `InvalidDigit` (at
    /// the digit's byte index in `text`) when a character is no digit in
    /// the literal's radix.
    pub fn decode(&self, text: &str) -> (r: MiscCodecResult<u64>)
        ensures
            match spec_c_integer_decode(text@) {
                Ok(v) => r matches Ok(w) && w == v,
                Err(e) => r matches Err(err) && err@ == e,
            },
    {
        let (trimmed, trim_offset) = trim_with_offset(text);
        let _ = text.as_bytes().len();
        if trimmed.as_bytes().len() == 0 {
            return Err(invalid_c_integer_input("expected at least one digit"));
        }
        proof {
            crate::text_support::lemma_utf8_len_at_least(trimmed@);
        }
        let components = match LiteralComponents::parse(trimmed, trim_offset) {
            Ok(c) => c,
            Err(e) => {
                return Err(e);
            },
        };
        match validate_digits(components) {
            Ok(()) => {},
            Err(e) => {
                return Err(e);
            },
        }
        match parse_digits(components.digits, components.radix) {
            Some(value) => Ok(value),
            None => Err(
                invalid_c_integer_input(
                    "integer literal is out of range: number too large to fit in target type",
                ),
            ),
        }
    }
}

impl Default for CIntegerLiteralCodec {
    /// The C integer literal codec.
    fn default() -> (r: Self)
        ensures
            r == CIntegerLiteralCodec,
    {
        CIntegerLiteralCodec
    }
}

} // verus!
