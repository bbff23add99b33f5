//! Hexadecimal byte codec.

use crate::hex_codec_config::{HexCodecConfig, HexConfigModel, default_hex_config};
use crate::misc_codec_error::{ErrorModel, MiscCodecError, MiscCodecResult, result_model};
use crate::text_support::{
    decode_char_at, hex_digit_byte, lemma_first_scalar_is_scalar, push_char, spec_char_at, spec_hex_value,
};
use vstd::prelude::*;
use vstd::string::*;
use vstd::utf8::*;

verus! {

broadcast use vstd::utf8::group_utf8_lib;

/// ASCII whitespace as Rust defines it: space, tab, line feed, form feed
/// and carriage return.
pub open spec fn is_ascii_ws(b: u8) -> bool {
    b == 0x20 || b == 0x09 || b == 0x0a || b == 0x0c || b == 0x0d
}

/// Index of the first byte at or after `i` that is not skipped: ASCII
/// whitespace is skipped only when `ws` is set.
pub open spec fn skip_ws(t: Seq<u8>, i: int, ws: bool) -> int
    decreases t.len() - i,
{
    if ws && 0 <= i < t.len() && is_ascii_ws(t[i]) {
        skip_ws(t, i + 1, ws)
    } else {
        i
    }
}

/// ASCII lowercase of a byte.
pub open spec fn ascii_lower(b: u8) -> u8 {
    if 0x41 <= b <= 0x5a {
        (b + 32) as u8
    } else {
        b
    }
}

/// `t` holds `p` at byte `i`.
pub open spec fn bytes_at(t: Seq<u8>, i: int, p: Seq<u8>) -> bool {
    0 <= i && i + p.len() <= t.len() && t.subrange(i, i + p.len()) == p
}

/// `t` holds `p` at byte `i`, up to ASCII case.
pub open spec fn bytes_at_ignore_case(t: Seq<u8>, i: int, p: Seq<u8>) -> bool {
    0 <= i && i + p.len() <= t.len() && forall|k: int|
        0 <= k < p.len() ==> #[trigger] ascii_lower(t[i + k]) == ascii_lower(p[k])
}

/// A configured prefix matches at byte `i`; without case folding the bytes
/// are equal, with it the prefix must also end on a character boundary.
pub open spec fn prefix_at(t: Seq<u8>, i: int, p: Seq<u8>, ignore_case: bool) -> bool {
    if ignore_case {
        bytes_at_ignore_case(t, i, p) && is_char_boundary(t, i + p.len())
    } else {
        bytes_at(t, i, p)
    }
}

/// The UTF-8 bytes of a configured text that is present and not empty.
pub open spec fn nonempty_setting(s: Option<Seq<char>>) -> Option<Seq<u8>> {
    match s {
        Some(t) => if t.len() > 0 {
            Some(encode_utf8(t))
        } else {
            None
        },
        None => None,
    }
}

/// Character reported for byte `i`: the character that starts there, or the
/// byte read as a character inside a multi-byte character.
pub open spec fn char_shown(t: Seq<u8>, i: int) -> char {
    if is_char_boundary(t, i) {
        spec_char_at(t, i)
    } else {
        t[i] as char
    }
}

/// Error for a non-hexadecimal character at byte `i`.
pub open spec fn invalid_hex_digit_model(t: Seq<u8>, i: int) -> ErrorModel {
    ErrorModel::InvalidDigit { radix: 16, index: i as nat, character: char_shown(t, i) }
}

/// Error for a rejected hexadecimal input.
pub open spec fn invalid_hex_input_model(reason: Seq<char>) -> ErrorModel {
    ErrorModel::InvalidInput { codec: "hex"@, reason }
}

/// Nibble of a hexadecimal digit byte.
pub open spec fn nibble(b: u8) -> u8 {
    spec_hex_value(b as u32)->0
}

/// Byte made of two nibbles.
pub open spec fn pair_value(high: u8, low: u8) -> u8 {
    (high * 16 + low) as u8
}

/// Where byte parsing starts after the whole-output prefix.
pub open spec fn spec_consume_prefix(c: HexConfigModel, t: Seq<u8>) -> Result<int, ErrorModel> {
    match nonempty_setting(c.prefix) {
        None => Ok(0),
        Some(p) => {
            let i = if prefix_at(t, 0, p, c.ignore_prefix_case) {
                0
            } else {
                skip_ws(t, 0, c.ignore_ascii_whitespace)
            };
            if prefix_at(t, i, p, c.ignore_prefix_case) {
                Ok(i + p.len())
            } else {
                Err(ErrorModel::MissingPrefix { prefix: c.prefix->0 })
            }
        },
    }
}

/// Where the digits start after the per-byte prefix at `i`.
pub open spec fn spec_consume_byte_prefix(c: HexConfigModel, t: Seq<u8>, i: int) -> Result<
    int,
    ErrorModel,
> {
    match nonempty_setting(c.byte_prefix) {
        None => Ok(i),
        Some(p) => {
            let j = if prefix_at(t, i, p, c.ignore_prefix_case) {
                i
            } else {
                skip_ws(t, i, c.ignore_ascii_whitespace)
            };
            if prefix_at(t, j, p, c.ignore_prefix_case) {
                Ok(j + p.len())
            } else {
                Err(ErrorModel::MissingPrefix { prefix: c.byte_prefix->0 })
            }
        },
    }
}

/// Reads the hexadecimal digit that must stand at byte `i`.
pub open spec fn spec_read_hex_digit(t: Seq<u8>, i: int) -> Result<(u8, int), ErrorModel> {
    if i < 0 || i >= t.len() {
        Err(invalid_hex_input_model("expected a hexadecimal digit"@))
    } else if spec_hex_value(t[i] as u32) is Some {
        Ok((nibble(t[i]), i + 1))
    } else {
        Err(invalid_hex_digit_model(t, i))
    }
}

/// Decodes digits without byte prefixes or separators from byte `i` on,
/// given the bytes `acc` decoded so far, a pending high nibble and the
/// number of digits seen.
pub open spec fn spec_unprefixed(
    t: Seq<u8>,
    i: int,
    ws: bool,
    acc: Seq<u8>,
    pending: Option<u8>,
    count: nat,
) -> Result<Seq<u8>, ErrorModel>
    decreases t.len() - i,
{
    if i < 0 || i >= t.len() {
        if count % 2 == 1 {
            Err(
                ErrorModel::InvalidLength {
                    context: "hex digits"@,
                    expected: "an even number of digits"@,
                    actual: count,
                },
            )
        } else {
            Ok(acc)
        }
    } else if ws && is_ascii_ws(t[i]) {
        spec_unprefixed(t, i + 1, ws, acc, pending, count)
    } else if spec_hex_value(t[i] as u32) is Some {
        match pending {
            Some(high) => spec_unprefixed(
                t,
                i + 1,
                ws,
                acc.push(pair_value(high, nibble(t[i]))),
                None,
                count + 1,
            ),
            None => spec_unprefixed(t, i + 1, ws, acc, Some(nibble(t[i])), count + 1),
        }
    } else {
        Err(invalid_hex_digit_model(t, i))
    }
}

/// Reads the two digits after a per-byte prefix from byte `i` on, `k` of
/// them read already with high nibble `high`: the byte and the index after it.
pub open spec fn spec_read_prefixed_pair(t: Seq<u8>, i: int, ws: bool, k: nat, high: u8) -> Result<
    (u8, int),
    ErrorModel,
>
    decreases t.len() - i,
{
    if i < 0 || i >= t.len() {
        Err(invalid_hex_input_model("byte prefix must be followed by two hex digits"@))
    } else if ws && is_ascii_ws(t[i]) {
        spec_read_prefixed_pair(t, i + 1, ws, k, high)
    } else if spec_hex_value(t[i] as u32) is Some {
        if k == 0 {
            spec_read_prefixed_pair(t, i + 1, ws, 1, nibble(t[i]))
        } else {
            Ok((pair_value(high, nibble(t[i])), i + 1))
        }
    } else {
        Err(invalid_hex_digit_model(t, i))
    }
}

/// Skipping whitespace never moves backwards nor past the end.
pub proof fn lemma_skip_ws_bounds(t: Seq<u8>, i: int, ws: bool)
    requires
        0 <= i,
    ensures
        skip_ws(t, i, ws) >= i,
        i <= t.len() ==> skip_ws(t, i, ws) <= t.len(),
    decreases t.len() - i,
{
    if ws && 0 <= i < t.len() && is_ascii_ws(t[i]) {
        lemma_skip_ws_bounds(t, i + 1, ws);
    }
}

pub proof fn lemma_read_prefixed_pair_bounds(t: Seq<u8>, i: int, ws: bool, k: nat, high: u8)
    requires
        0 <= i,
        k <= 1,
    ensures
        spec_read_prefixed_pair(t, i, ws, k, high) matches Ok((v, next)) ==> i + 2 - k <= next
            <= t.len(),
    decreases t.len() - i,
{
    if 0 <= i < t.len() {
        if ws && is_ascii_ws(t[i]) {
            lemma_read_prefixed_pair_bounds(t, i + 1, ws, k, high);
        } else if spec_hex_value(t[i] as u32) is Some && k == 0 {
            lemma_read_prefixed_pair_bounds(t, i + 1, ws, 1, nibble(t[i]));
        }
    }
}

/// Decodes byte-prefixed input from byte `i` on, with `acc` decoded so far.
pub open spec fn spec_byte_prefixed(c: HexConfigModel, t: Seq<u8>, p: Seq<u8>, i: int, acc: Seq<
    u8,
>) -> Result<Seq<u8>, ErrorModel>
    decreases t.len() - i,
{
    if i < 0 || i >= t.len() || p.len() == 0 {
        Ok(acc)
    } else {
        let j = skip_ws(t, i, c.ignore_ascii_whitespace);
        if j >= t.len() {
            Ok(acc)
        } else if !prefix_at(t, j, p, c.ignore_prefix_case) {
            Err(ErrorModel::MissingPrefix { prefix: c.byte_prefix->0 })
        } else {
            match spec_read_prefixed_pair(t, j + p.len(), c.ignore_ascii_whitespace, 0, 0) {
                Err(e) => Err(e),
                Ok((value, next)) => {
                    proof {
                        lemma_skip_ws_bounds(t, i, c.ignore_ascii_whitespace);
                        lemma_read_prefixed_pair_bounds(
                            t,
                            j + p.len(),
                            c.ignore_ascii_whitespace,
                            0,
                            0,
                        );
                    }
                    spec_byte_prefixed(c, t, p, next, acc.push(value))
                },
            }
        }
    }
}

/// Every byte of `s` is ASCII whitespace.
pub open spec fn all_ascii_ws(s: Seq<u8>) -> bool {
    forall|k: int| 0 <= k < s.len() ==> #[trigger] is_ascii_ws(s[k])
}

/// Where the separator must start after a complete byte ending at `i`, or
/// the end of input when only skipped whitespace remains.
pub open spec fn spec_next_separator_index(t: Seq<u8>, i: int, s: Seq<u8>, ws: bool) -> int {
    if !all_ascii_ws(s) && 0 <= i <= t.len() && is_char_boundary(t, i) && bytes_at(t, i, s) {
        i
    } else {
        let e = skip_ws(t, i, ws);
        if e >= t.len() {
            e
        } else if all_ascii_ws(s) {
            i
        } else {
            e
        }
    }
}

/// Reason given for a missing separator.
pub open spec fn missing_separator_reason(sep: Seq<char>) -> Seq<char> {
    "missing separator '"@ + sep + "' between hex bytes"@
}

/// Decodes separated input from byte `i` on, with `acc` decoded so far.
pub open spec fn spec_separated_from(c: HexConfigModel, t: Seq<u8>, s: Seq<u8>, i: int, acc: Seq<
    u8,
>) -> Result<Seq<u8>, ErrorModel>
    decreases t.len() - i,
{
    if i < 0 || s.len() == 0 {
        Ok(acc)
    } else {
        match spec_consume_byte_prefix(c, t, i) {
            Err(e) => Err(e),
            Ok(i1) => match spec_read_hex_digit(t, i1) {
                Err(e) => Err(e),
                Ok((high, i2)) => match spec_read_hex_digit(t, i2) {
                    Err(e) => Err(e),
                    Ok((low, i3)) => {
                        let acc2 = acc.push(pair_value(high, low));
                        let si = spec_next_separator_index(t, i3, s, c.ignore_ascii_whitespace);
                        if si >= t.len() {
                            Ok(acc2)
                        } else if !bytes_at(t, si, s) {
                            Err(invalid_hex_input_model(missing_separator_reason(c.separator->0)))
                        } else {
                            let i4 = skip_ws(t, si + s.len(), c.ignore_ascii_whitespace);
                            if i4 >= t.len() {
                                Err(
                                    invalid_hex_input_model(
                                        "separator must be followed by a hex byte"@,
                                    ),
                                )
                            } else {
                                proof {
                                    lemma_consume_byte_prefix_bounds(c, t, i);
                                    lemma_skip_ws_bounds(t, i3, c.ignore_ascii_whitespace);
                                    lemma_skip_ws_bounds(
                                        t,
                                        si + s.len(),
                                        c.ignore_ascii_whitespace,
                                    );
                                }
                                spec_separated_from(c, t, s, i4, acc2)
                            }
                        }
                    },
                },
            },
        }
    }
}

pub proof fn lemma_consume_byte_prefix_bounds(c: HexConfigModel, t: Seq<u8>, i: int)
    requires
        0 <= i,
    ensures
        spec_consume_byte_prefix(c, t, i) matches Ok(j) ==> j >= i,
{
    lemma_skip_ws_bounds(t, i, c.ignore_ascii_whitespace);
}

/// Decodes separated input starting at byte `i`.
pub open spec fn spec_separated(c: HexConfigModel, t: Seq<u8>, s: Seq<u8>, i: int) -> Result<
    Seq<u8>,
    ErrorModel,
> {
    let start = skip_ws(t, i, c.ignore_ascii_whitespace);
    if start >= t.len() {
        Ok(Seq::empty())
    } else {
        spec_separated_from(c, t, s, start, Seq::empty())
    }
}

/// Hexadecimal decoding of the bytes `t` of a text under configuration `c`.
pub open spec fn spec_hex_decode(c: HexConfigModel, t: Seq<u8>) -> Result<Seq<u8>, ErrorModel> {
    match spec_consume_prefix(c, t) {
        Err(e) => Err(e),
        Ok(start) => match nonempty_setting(c.separator) {
            Some(s) => spec_separated(c, t, s, start),
            None => match nonempty_setting(c.byte_prefix) {
                Some(p) => spec_byte_prefixed(c, t, p, start, Seq::empty()),
                None => spec_unprefixed(
                    t,
                    start,
                    c.ignore_ascii_whitespace,
                    Seq::empty(),
                    None,
                    0,
                ),
            },
        },
    }
}

/// Digits of one byte.
pub open spec fn hex_pair_chars(b: u8, uppercase: bool) -> Seq<char> {
    seq![hex_digit_byte(b / 16, uppercase) as char, hex_digit_byte(b % 16, uppercase) as char]
}

/// A present setting, or nothing.
pub open spec fn setting_text(s: Option<Seq<char>>) -> Seq<char> {
    match s {
        Some(t) => t,
        None => Seq::empty(),
    }
}

/// Encoding of the bytes after the whole-output prefix: separators between
/// bytes, the per-byte prefix and two digits for each byte.
pub open spec fn spec_hex_encode_body(c: HexConfigModel, bytes: Seq<u8>) -> Seq<char>
    decreases bytes.len(),
{
    if bytes.len() == 0 {
        Seq::empty()
    } else {
        let n = bytes.len() - 1;
        spec_hex_encode_body(c, bytes.take(n)) + (if n > 0 {
            setting_text(c.separator)
        } else {
            Seq::empty()
        }) + setting_text(c.byte_prefix) + hex_pair_chars(bytes[n], c.uppercase)
    }
}

/// Hexadecimal encoding of `bytes` under configuration `c`.
pub open spec fn spec_hex_encode(c: HexConfigModel, bytes: Seq<u8>) -> Seq<char> {
    setting_text(c.prefix) + spec_hex_encode_body(c, bytes)
}

/// Converts one hex digit to its value.
pub fn hex_value(ch: char) -> (r: Option<u8>)
    ensures
        r == spec_hex_value(ch as u32),
{
    if '0' <= ch && ch <= '9' {
        Some((ch as u8) - 0x30)
    } else if 'a' <= ch && ch <= 'f' {
        Some((ch as u8) - 0x61 + 10)
    } else if 'A' <= ch && ch <= 'F' {
        Some((ch as u8) - 0x41 + 10)
    } else {
        None
    }
}

/// Builds an invalid hexadecimal digit error.
pub fn invalid_hex_digit(index: usize, character: char) -> (r: MiscCodecError)
    ensures
        r@ == (ErrorModel::InvalidDigit { radix: 16, index: index as nat, character }),
{
    MiscCodecError::InvalidDigit { radix: 16, index, character }
}

/// Builds an invalid hexadecimal length error.
fn invalid_hex_length(actual: usize) -> (r: MiscCodecError)
    ensures
        r@ == (ErrorModel::InvalidLength {
            context: "hex digits"@,
            expected: "an even number of digits"@,
            actual: actual as nat,
        }),
{
    MiscCodecError::InvalidLength {
        context: "hex digits",
        expected: "an even number of digits".to_owned(),
        actual,
    }
}

/// Builds an invalid hexadecimal input error.
fn invalid_hex_input(reason: &str) -> (r: MiscCodecError)
    ensures
        r@ == invalid_hex_input_model(reason@),
{
    MiscCodecError::InvalidInput { codec: "hex", reason: reason.to_owned() }
}

/// The character reported for a byte is the byte itself when ASCII, and
/// never ASCII otherwise.
pub proof fn lemma_char_shown_ascii(t: Seq<u8>, i: int)
    requires
        valid_utf8(t),
        0 <= i < t.len(),
    ensures
        t[i] < 0x80 ==> char_shown(t, i) == t[i] as char,
        t[i] >= 0x80 ==> char_shown(t, i) as u32 >= 0x80,
{
    if is_char_boundary(t, i) {
        let rest = t.subrange(i, t.len() as int);
        valid_utf8_split(t, i);
        assert(rest[0] == t[i]);
        assert(valid_first_scalar(rest));
        lemma_first_scalar_is_scalar(rest);
    }
}

/// Character reported for byte `index` of `text`.
fn character_at(text: &str, bytes: &[u8], index: usize) -> (r: char)
    requires
        bytes@ == text.spec_bytes(),
        index < bytes@.len(),
    ensures
        r == char_shown(bytes@, index as int),
{
    if text.is_char_boundary(index) {
        decode_char_at(bytes, index)
    } else {
        bytes[index] as char
    }
}

/// Reads one required hexadecimal digit at a byte index: the index, the
/// digit and the index after it.
fn read_required_hex_digit(text: &str, index: usize) -> (r: MiscCodecResult<(usize, char, usize)>)
    ensures
        match spec_read_hex_digit(text.spec_bytes(), index as int) {
            Ok((n, next)) => r matches Ok((i, ch, nx)) && i == index && nx == next
                && spec_hex_value(ch as u32) == Some(n),
            Err(e) => r matches Err(err) && err@ == e,
        },
{
    let bytes = text.as_bytes();
    if index >= bytes.len() {
        return Err(invalid_hex_input("expected a hexadecimal digit"));
    }
    let character = character_at(text, bytes, index);
    proof {
        lemma_char_shown_ascii(bytes@, index as int);
    }
    match hex_value(character) {
        None => {
            assert(spec_hex_value(bytes@[index as int] as u32) is None);
            Err(invalid_hex_digit(index, character))
        },
        Some(_) => {
            assert(bytes@[index as int] < 0x80);
            Ok((index, character, index + 1))
        },
    }
}

/// Decodes two hexadecimal characters into one byte.
fn decode_hex_pair(high_char: char, low_char: char) -> (r: u8)
    requires
        spec_hex_value(high_char as u32) is Some,
        spec_hex_value(low_char as u32) is Some,
    ensures
        r == pair_value(
            spec_hex_value(high_char as u32)->0,
            spec_hex_value(low_char as u32)->0,
        ),
{
    let high = match hex_value(high_char) {
        Some(v) => v,
        None => 0,
    };
    let low = match hex_value(low_char) {
        Some(v) => v,
        None => 0,
    };
    high * 16 + low
}

/// Converts one nibble to a hexadecimal digit; values above `0x0f` keep
/// their low nibble.
pub fn hex_digit(value: u8, uppercase: bool) -> (r: char)
    ensures
        r == hex_digit_byte(value % 16, uppercase) as char,
{
    let nibble = value % 16;
    if nibble < 10 {
        (0x30 + nibble) as char
    } else if uppercase {
        (0x41 + nibble - 10) as char
    } else {
        (0x61 + nibble - 10) as char
    }
}

/// Appends one encoded byte to `output`.
fn push_hex_byte(byte: u8, uppercase: bool, output: &mut String)
    ensures
        final(output)@ == old(output)@ + hex_pair_chars(byte, uppercase),
{
    push_char(output, hex_digit(byte / 16, uppercase));
    push_char(output, hex_digit(byte % 16, uppercase));
    assert(final(output)@ =~= old(output)@ + hex_pair_chars(byte, uppercase));
}

/// Tests whether `t` holds `p` at byte `i`.
fn bytes_at_exec(t: &[u8], i: usize, p: &[u8]) -> (r: bool)
    ensures
        r == bytes_at(t@, i as int, p@),
{
    if i > t.len() || p.len() > t.len() - i {
        return false;
    }
    let mut k: usize = 0;
    while k < p.len()
        invariant
            i + p@.len() <= t.len(),
            k <= p@.len(),
            forall|m: int| 0 <= m < k ==> t@[i + m] == p@[m],
        decreases p@.len() - k,
    {
        if t[i + k] != p[k] {
            assert(t@.subrange(i as int, i + p@.len())[k as int] != p@[k as int]);
            return false;
        }
        k = k + 1;
    }
    assert(t@.subrange(i as int, i + p@.len()) =~= p@);
    true
}

/// ASCII lowercase of a byte.
fn to_ascii_lower(b: u8) -> (r: u8)
    ensures
        r == ascii_lower(b),
{
    if 0x41 <= b && b <= 0x5a {
        b + 32
    } else {
        b
    }
}

/// Tests whether `t` holds `p` at byte `i` up to ASCII case.
fn bytes_at_ignore_case_exec(t: &[u8], i: usize, p: &[u8]) -> (r: bool)
    ensures
        r == bytes_at_ignore_case(t@, i as int, p@),
{
    if i > t.len() || p.len() > t.len() - i {
        return false;
    }
    let mut k: usize = 0;
    while k < p.len()
        invariant
            i + p@.len() <= t.len(),
            k <= p@.len(),
            forall|m: int| 0 <= m < k ==> #[trigger] ascii_lower(t@[i + m]) == ascii_lower(p@[m]),
        decreases p@.len() - k,
    {
        if to_ascii_lower(t[i + k]) != to_ascii_lower(p[k]) {
            return false;
        }
        k = k + 1;
    }
    true
}

/// Whether every byte is ASCII whitespace.
fn all_ascii_whitespace(s: &[u8]) -> (r: bool)
    ensures
        r == all_ascii_ws(s@),
{
    let mut k: usize = 0;
    while k < s.len()
        invariant
            k <= s@.len(),
            forall|m: int| 0 <= m < k ==> #[trigger] is_ascii_ws(s@[m]),
        decreases s@.len() - k,
    {
        if !is_ascii_whitespace_byte(s[k]) {
            return false;
        }
        k = k + 1;
    }
    true
}

/// Rust's ASCII whitespace test on one byte.
fn is_ascii_whitespace_byte(b: u8) -> (r: bool)
    ensures
        r == is_ascii_ws(b),
{
    b == 0x20 || b == 0x09 || b == 0x0a || b == 0x0c || b == 0x0d
}

/// Encodes and decodes hexadecimal byte strings, with an optional
/// whole-output prefix, per-byte prefix, separator and whitespace tolerance.
#[derive(Debug, Clone, PartialEq, Eq)]
pub struct HexCodec {
    config: HexCodecConfig,
}

impl View for HexCodec {
    type V = HexConfigModel;

    closed spec fn view(&self) -> HexConfigModel {
        self.config@
    }
}

/// Appends an optional text setting.
fn append_setting(output: &mut String, setting: Option<&str>)
    ensures
        match setting {
            Some(s) => final(output)@ == old(output)@ + s@,
            None => final(output)@ == old(output)@,
        },
{
    match setting {
        Some(s) => output.append(s),
        None => {},
    }
}

/// Model of an optional borrowed text setting.
pub open spec fn opt_str_view(s: Option<&str>) -> Option<Seq<char>> {
    match s {
        Some(t) => Some(t@),
        None => None,
    }
}

impl HexCodec {
    /// Creates a lowercase codec without prefix or separators.
    pub fn new() -> (r: Self)
        ensures
            r@ == default_hex_config(),
    {
        HexCodec::from_config(HexCodecConfig::new())
    }

    /// Creates an uppercase codec without prefix or separators.
    pub fn upper() -> (r: Self)
        ensures
            r@ == (HexConfigModel { uppercase: true, ..default_hex_config() }),
    {
        HexCodec::from_config(HexCodecConfig::new().with_uppercase(true))
    }

    /// Creates a codec from an explicit configuration.
    pub fn from_config(config: HexCodecConfig) -> (r: Self)
        ensures
            r@ == config@,
    {
        HexCodec { config }
    }

    /// Returns the configuration used by this codec.
    pub fn config(&self) -> (r: &HexCodecConfig)
        ensures
            r@ == self@,
    {
        &self.config
    }

    /// Sets whether encoded digits should be uppercase.
    pub fn with_uppercase(self, uppercase: bool) -> (r: Self)
        ensures
            r@ == (HexConfigModel { uppercase, ..self@ }),
    {
        HexCodec { config: self.config.with_uppercase(uppercase) }
    }

    /// Sets a whole-output prefix, written once before the encoded bytes and
    /// required once before decoded input.
    pub fn with_prefix(self, prefix: &str) -> (r: Self)
        ensures
            r@ == (HexConfigModel { prefix: Some(prefix@), ..self@ }),
    {
        HexCodec { config: self.config.with_prefix(prefix) }
    }

    /// Sets a per-byte prefix, written before every encoded byte and required
    /// before every decoded byte.
    pub fn with_byte_prefix(self, prefix: &str) -> (r: Self)
        ensures
            r@ == (HexConfigModel { byte_prefix: Some(prefix@), ..self@ }),
    {
        HexCodec { config: self.config.with_byte_prefix(prefix) }
    }

    /// Sets a separator written and accepted between encoded bytes.
    pub fn with_separator(self, separator: &str) -> (r: Self)
        ensures
            r@ == (HexConfigModel { separator: Some(separator@), ..self@ }),
    {
        HexCodec { config: self.config.with_separator(separator) }
    }

    /// Sets whether ASCII whitespace is ignored while decoding.
    pub fn with_ignored_ascii_whitespace(self, ignore: bool) -> (r: Self)
        ensures
            r@ == (HexConfigModel { ignore_ascii_whitespace: ignore, ..self@ }),
    {
        HexCodec { config: self.config.with_ignored_ascii_whitespace(ignore) }
    }

    /// Sets whether ASCII case is ignored when decoding configured prefixes.
    pub fn with_ignore_prefix_case(self, ignore: bool) -> (r: Self)
        ensures
            r@ == (HexConfigModel { ignore_prefix_case: ignore, ..self@ }),
    {
        HexCodec { config: self.config.with_ignore_prefix_case(ignore) }
    }

    /// Encodes bytes into a hexadecimal string.
    pub fn encode(&self, bytes: &[u8]) -> (r: String)
        ensures
            r@ == spec_hex_encode(self@, bytes@),
    {
        let mut output = String::new();
        self.encode_into(bytes, &mut output);
        assert(output@ =~= spec_hex_encode(self@, bytes@));
        output
    }

    /// Encodes bytes into an existing string, after its current contents.
    pub fn encode_into(&self, bytes: &[u8], output: &mut String)
        ensures
            final(output)@ == old(output)@ + spec_hex_encode(self@, bytes@),
    {
        let prefix = self.config.prefix();
        let separator = self.config.separator();
        let byte_prefix = self.config.byte_prefix();
        let uppercase = self.config.is_uppercase();
        append_setting(output, prefix);
        let ghost start = output@;
        let mut i: usize = 0;
        while i < bytes.len()
            invariant
                i <= bytes@.len(),
                opt_str_view(separator) == self@.separator,
                opt_str_view(byte_prefix) == self@.byte_prefix,
                uppercase == self@.uppercase,
                output@ == start + spec_hex_encode_body(self@, bytes@.take(i as int)),
            decreases bytes@.len() - i,
        {
            let ghost before = output@;
            if i > 0 {
                append_setting(output, separator);
            }
            append_setting(output, byte_prefix);
            push_hex_byte(bytes[i], uppercase, output);
            proof {
                let next = bytes@.take(i + 1);
                assert(next.take(i as int) =~= bytes@.take(i as int));
                assert(next[i as int] == bytes@[i as int]);
                assert(output@ =~= start + spec_hex_encode_body(self@, next));
            }
            i = i + 1;
        }
        assert(bytes@.take(bytes@.len() as int) =~= bytes@);
        assert(final(output)@ =~= old(output)@ + spec_hex_encode(self@, bytes@));
    }

    /// Decodes hexadecimal text into bytes.
    ///
    /// Fails with `MissingPrefix` when a configured whole or per-byte prefix
    /// is missing, `InvalidLength` when the digit count is odd, `InvalidDigit`
    /// for a non-hexadecimal character and `InvalidInput` for misplaced
    /// separators or incomplete bytes.
    pub fn decode(&self, text: &str) -> (r: MiscCodecResult<Vec<u8>>)
        ensures
            result_model(r) == spec_hex_decode(self@, text.spec_bytes()),
    {
        self.decode_to_vec(text)
    }

    /// Decodes hexadecimal text into an existing byte vector; on failure the
    /// vector is left unchanged.
    pub fn decode_into(&self, text: &str, output: &mut Vec<u8>) -> (r: MiscCodecResult<()>)
        ensures
            match spec_hex_decode(self@, text.spec_bytes()) {
                Ok(v) => r is Ok && final(output)@ == old(output)@ + v,
                Err(e) => r matches Err(err) && err@ == e && final(output)@ == old(output)@,
            },
    {
        match self.decode_to_vec(text) {
            Ok(decoded) => {
                let mut decoded = decoded;
                output.append(&mut decoded);
                Ok(())
            },
            Err(e) => Err(e),
        }
    }

    /// Decodes text into a new byte vector.
    fn decode_to_vec(&self, text: &str) -> (r: MiscCodecResult<Vec<u8>>)
        ensures
            result_model(r) == spec_hex_decode(self@, text.spec_bytes()),
    {
        let start_index = match self.consume_prefix(text) {
            Ok(i) => i,
            Err(e) => {
                return Err(e);
            },
        };
        match self.config.separator() {
            Some(separator) => {
                if separator.as_bytes().len() > 0 {
                    return self.decode_separated(text, start_index, separator);
                }
            },
            None => {},
        }
        match self.config.byte_prefix() {
            Some(byte_prefix) => {
                if byte_prefix.as_bytes().len() > 0 {
                    return self.decode_byte_prefixed(text, byte_prefix, start_index);
                }
            },
            None => {},
        }
        self.decode_unprefixed(text, start_index)
    }

    /// Consumes the configured whole-output prefix; returns where byte
    /// parsing starts.
    fn consume_prefix(&self, text: &str) -> (r: MiscCodecResult<usize>)
        ensures
            match spec_consume_prefix(self@, text.spec_bytes()) {
                Ok(i) => r matches Ok(j) && j == i,
                Err(e) => r matches Err(err) && err@ == e,
            },
            r matches Ok(j) ==> j <= text.spec_bytes().len(),
    {
        let bytes = text.as_bytes();
        let len = bytes.len();
        let prefix = match self.config.prefix() {
            Some(prefix) => prefix,
            None => {
                return Ok(0);
            },
        };
        let prefix_bytes = prefix.as_bytes();
        if prefix_bytes.len() == 0 {
            return Ok(0);
        }
        let index = if self.starts_with_prefix(text, 0, prefix_bytes) {
            0
        } else {
            self.skip_ascii_whitespace(text, 0)
        };
        if self.starts_with_prefix(text, index, prefix_bytes) {
            Ok(index + prefix_bytes.len())
        } else {
            Err(MiscCodecError::MissingPrefix { prefix: prefix.to_owned() })
        }
    }

    /// Tests whether the configured prefix matches at byte `index` of `text`,
    /// honouring the configured ASCII case sensitivity.
    fn starts_with_prefix(&self, text: &str, index: usize, prefix: &[u8]) -> (r: bool)
        ensures
            r == prefix_at(text.spec_bytes(), index as int, prefix@, self@.ignore_prefix_case),
    {
        let bytes = text.as_bytes();
        let len = bytes.len();
        if !self.config.ignores_prefix_case() {
            return bytes_at_exec(bytes, index, prefix);
        }
        if !bytes_at_ignore_case_exec(bytes, index, prefix) {
            return false;
        }
        text.is_char_boundary(index + prefix.len())
    }

    /// Skips ignored ASCII whitespace.
    fn skip_ignored(&self, text: &str, index: usize) -> (r: usize)
        requires
            index <= text.spec_bytes().len(),
        ensures
            r == skip_ws(text.spec_bytes(), index as int, self@.ignore_ascii_whitespace),
            index <= r <= text.spec_bytes().len(),
    {
        self.skip_ascii_whitespace(text, index)
    }

    /// Skips ignored leading ASCII whitespace.
    fn skip_ascii_whitespace(&self, text: &str, index: usize) -> (r: usize)
        requires
            index <= text.spec_bytes().len(),
        ensures
            r == skip_ws(text.spec_bytes(), index as int, self@.ignore_ascii_whitespace),
            index <= r <= text.spec_bytes().len(),
    {
        let bytes = text.as_bytes();
        let ws = self.config.ignores_ascii_whitespace();
        let mut i = index;
        while ws && i < bytes.len() && is_ascii_whitespace_byte(bytes[i])
            invariant
                bytes@ == text.spec_bytes(),
                ws == self@.ignore_ascii_whitespace,
                index <= i <= bytes@.len(),
                skip_ws(bytes@, index as int, ws) == skip_ws(bytes@, i as int, ws),
            decreases bytes@.len() - i,
        {
            i = i + 1;
        }
        i
    }
}

impl HexCodec {
    /// Decodes input without byte prefixes or separators from `index` on.
    fn decode_unprefixed(&self, text: &str, index: usize) -> (r: MiscCodecResult<Vec<u8>>)
        requires
            index <= text.spec_bytes().len(),
        ensures
            result_model(r) == spec_unprefixed(
                text.spec_bytes(),
                index as int,
                self@.ignore_ascii_whitespace,
                Seq::empty(),
                None,
                0,
            ),
    {
        let bytes = text.as_bytes();
        let ws = self.config.ignores_ascii_whitespace();
        let mut output: Vec<u8> = Vec::new();
        let mut pending: Option<u8> = None;
        let mut digit_count: usize = 0;
        let mut i = index;
        while i < bytes.len()
            invariant
                bytes@ == text.spec_bytes(),
                ws == self@.ignore_ascii_whitespace,
                index <= i <= bytes@.len(),
                digit_count <= i,
                pending matches Some(h) ==> h < 16,
                spec_unprefixed(bytes@, index as int, ws, Seq::empty(), None, 0)
                    == spec_unprefixed(bytes@, i as int, ws, output@, pending, digit_count as nat),
            decreases bytes@.len() - i,
        {
            let byte = bytes[i];
            if ws && is_ascii_whitespace_byte(byte) {
                i = i + 1;
                continue;
            }
            let character = character_at(text, bytes, i);
            proof {
                lemma_char_shown_ascii(bytes@, i as int);
            }
            match hex_value(character) {
                Some(low) => {
                    digit_count = digit_count + 1;
                    match pending {
                        Some(high) => {
                            output.push(high * 16 + low);
                            pending = None;
                        },
                        None => {
                            pending = Some(low);
                        },
                    }
                    i = i + 1;
                },
                None => {
                    return Err(invalid_hex_digit(i, character));
                },
            }
        }
        if digit_count % 2 == 1 {
            return Err(invalid_hex_length(digit_count));
        }
        Ok(output)
    }

    /// Decodes byte-prefixed input from `index` on.
    fn decode_byte_prefixed(&self, text: &str, prefix: &str, index: usize) -> (r: MiscCodecResult<
        Vec<u8>,
    >)
        requires
            index <= text.spec_bytes().len(),
            self@.byte_prefix == Some(prefix@),
            prefix@.len() > 0,
        ensures
            result_model(r) == spec_byte_prefixed(
                self@,
                text.spec_bytes(),
                encode_utf8(prefix@),
                index as int,
                Seq::empty(),
            ),
    {
        let bytes = text.as_bytes();
        let prefix_bytes = prefix.as_bytes();
        let ws = self.config.ignores_ascii_whitespace();
        let ghost p = prefix_bytes@;
        let mut output: Vec<u8> = Vec::new();
        let mut digit_count: usize = 0;
        let mut i = index;
        while i < bytes.len()
            invariant
                bytes@ == text.spec_bytes(),
                p == prefix_bytes@,
                p == encode_utf8(prefix@),
                p.len() > 0,
                self@.byte_prefix == Some(prefix@),
                ws == self@.ignore_ascii_whitespace,
                index <= i <= bytes@.len(),
                digit_count == 2 * output@.len(),
                digit_count <= i,
                spec_byte_prefixed(self@, bytes@, p, index as int, Seq::empty())
                    == spec_byte_prefixed(self@, bytes@, p, i as int, output@),
            decreases bytes@.len() - i,
        {
            let ghost i0 = i;
            i = self.skip_ignored(text, i);
            if i < bytes.len() {
                if !self.starts_with_prefix(text, i, prefix_bytes) {
                    return Err(MiscCodecError::MissingPrefix { prefix: prefix.to_owned() });
                }
                i = i + prefix_bytes.len();
                let (value, next) = match self.read_prefixed_pair(text, i) {
                    Ok(pair) => pair,
                    Err(e) => {
                        return Err(e);
                    },
                };
                proof {
                    lemma_skip_ws_bounds(bytes@, i0 as int, ws);
                }
                i = next;
                digit_count = digit_count + 2;
                output.push(value);
            }
        }
        if digit_count % 2 != 0 {
            return Err(invalid_hex_length(digit_count));
        }
        Ok(output)
    }

    /// Reads the two digits that follow a per-byte prefix ending at `start`:
    /// the byte and the index after its second digit.
    fn read_prefixed_pair(&self, text: &str, start: usize) -> (r: MiscCodecResult<(u8, usize)>)
        requires
            start <= text.spec_bytes().len(),
        ensures
            match spec_read_prefixed_pair(
                text.spec_bytes(),
                start as int,
                self@.ignore_ascii_whitespace,
                0,
                0,
            ) {
                Ok((v, next)) => r matches Ok((value, n)) && value == v && n == next,
                Err(e) => r matches Err(err) && err@ == e,
            },
            r matches Ok((value, n)) ==> start + 2 <= n <= text.spec_bytes().len(),
    {
        let bytes = text.as_bytes();
        let ws = self.config.ignores_ascii_whitespace();
        proof {
            lemma_read_prefixed_pair_bounds(bytes@, start as int, ws, 0, 0);
        }
        let mut i = start;
        let mut pair_count: usize = 0;
        let mut high: u8 = 0;
        while pair_count < 2 && i < bytes.len()
            invariant
                bytes@ == text.spec_bytes(),
                ws == self@.ignore_ascii_whitespace,
                start <= i <= bytes@.len(),
                pair_count < 2,
                high < 16,
                spec_read_prefixed_pair(bytes@, start as int, ws, 0, 0) matches Ok((v, next))
                    ==> start + 2 <= next <= bytes@.len(),
                spec_read_prefixed_pair(bytes@, start as int, ws, 0, 0) == spec_read_prefixed_pair(
                    bytes@,
                    i as int,
                    ws,
                    pair_count as nat,
                    high,
                ),
            decreases bytes@.len() - i,
        {
            let byte = bytes[i];
            if ws && is_ascii_whitespace_byte(byte) {
                i = i + 1;
                continue;
            }
            let character = character_at(text, bytes, i);
            proof {
                lemma_char_shown_ascii(bytes@, i as int);
            }
            match hex_value(character) {
                Some(digit) => {
                    if pair_count == 0 {
                        high = digit;
                        pair_count = 1;
                        i = i + 1;
                    } else {
                        return Ok((high * 16 + digit, i + 1));
                    }
                },
                None => {
                    return Err(invalid_hex_digit(i, character));
                },
            }
        }
        Err(invalid_hex_input("byte prefix must be followed by two hex digits"))
    }

    /// Consumes the configured per-byte prefix at `index`.
    fn consume_byte_prefix(&self, text: &str, index: usize) -> (r: MiscCodecResult<usize>)
        requires
            index <= text.spec_bytes().len(),
        ensures
            match spec_consume_byte_prefix(self@, text.spec_bytes(), index as int) {
                Ok(i) => r matches Ok(j) && j == i,
                Err(e) => r matches Err(err) && err@ == e,
            },
            r matches Ok(j) ==> index <= j <= text.spec_bytes().len(),
    {
        let len = text.as_bytes().len();
        let prefix = match self.config.byte_prefix() {
            Some(prefix) => prefix,
            None => {
                return Ok(index);
            },
        };
        let prefix_bytes = prefix.as_bytes();
        if prefix_bytes.len() == 0 {
            return Ok(index);
        }
        let index = if self.starts_with_prefix(text, index, prefix_bytes) {
            index
        } else {
            self.skip_ignored(text, index)
        };
        if self.starts_with_prefix(text, index, prefix_bytes) {
            Ok(index + prefix_bytes.len())
        } else {
            Err(MiscCodecError::MissingPrefix { prefix: prefix.to_owned() })
        }
    }

    /// Finds the position where the next separator must appear after a
    /// complete byte ending at `index`.
    fn next_separator_index(&self, text: &str, index: usize, separator: &[u8]) -> (r: usize)
        requires
            index <= text.spec_bytes().len(),
        ensures
            r == spec_next_separator_index(
                text.spec_bytes(),
                index as int,
                separator@,
                self@.ignore_ascii_whitespace,
            ),
            index <= r <= text.spec_bytes().len(),
    {
        let bytes = text.as_bytes();
        let all_whitespace = all_ascii_whitespace(separator);
        if !all_whitespace && text.is_char_boundary(index) && bytes_at_exec(bytes, index, separator) {
            return index;
        }
        let whitespace_end = self.skip_ascii_whitespace(text, index);
        if whitespace_end >= bytes.len() {
            return whitespace_end;
        }
        if all_whitespace {
            index
        } else {
            whitespace_end
        }
    }

    /// Decodes separator-delimited input from `index` on.
    fn decode_separated(&self, text: &str, index: usize, separator: &str) -> (r: MiscCodecResult<
        Vec<u8>,
    >)
        requires
            index <= text.spec_bytes().len(),
            self@.separator == Some(separator@),
            separator@.len() > 0,
        ensures
            result_model(r) == spec_separated(
                self@,
                text.spec_bytes(),
                encode_utf8(separator@),
                index as int,
            ),
    {
        let bytes = text.as_bytes();
        let separator_bytes = separator.as_bytes();
        let ghost s = separator_bytes@;
        let ghost c = self@;
        let mut output: Vec<u8> = Vec::new();
        let mut i = self.skip_ascii_whitespace(text, index);
        if i >= bytes.len() {
            return Ok(output);
        }
        loop
            invariant
                bytes@ == text.spec_bytes(),
                s == separator_bytes@,
                s == encode_utf8(separator@),
                s.len() > 0,
                c == self@,
                c.separator == Some(separator@),
                i < bytes@.len(),
                spec_separated(c, bytes@, s, index as int) == spec_separated_from(
                    c,
                    bytes@,
                    s,
                    i as int,
                    output@,
                ),
            decreases bytes@.len() - i,
        {
            let ghost i0 = i;
            i = match self.consume_byte_prefix(text, i) {
                Ok(next) => next,
                Err(e) => {
                    return Err(e);
                },
            };
            let (_, high_char, next_index) = match read_required_hex_digit(text, i) {
                Ok(digit) => digit,
                Err(e) => {
                    return Err(e);
                },
            };
            let (_, low_char, next_index) = match read_required_hex_digit(text, next_index) {
                Ok(digit) => digit,
                Err(e) => {
                    return Err(e);
                },
            };
            output.push(decode_hex_pair(high_char, low_char));
            i = next_index;
            let separator_index = self.next_separator_index(text, i, separator_bytes);
            if separator_index >= bytes.len() {
                return Ok(output);
            }
            if !bytes_at_exec(bytes, separator_index, separator_bytes) {
                let mut reason = "missing separator '".to_owned();
                reason.append(separator);
                reason.append("' between hex bytes");
                return Err(invalid_hex_input(reason.as_str()));
            }
            i = self.skip_ascii_whitespace(text, separator_index + separator_bytes.len());
            if i >= bytes.len() {
                return Err(invalid_hex_input("separator must be followed by a hex byte"));
            }
        }
    }
}

impl Default for HexCodec {
    /// Creates a lowercase codec without prefix or separators.
    fn default() -> (r: Self)
        ensures
            r@ == default_hex_config(),
    {
        HexCodec::new()
    }
}

} // verus!
