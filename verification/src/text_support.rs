//! Small facts about text used across the codecs, and the few standard
//! library calls on strings whose behaviour the codecs rely on.

use std::string::FromUtf8Error;
use vstd::prelude::*;
use vstd::string::*;
use vstd::utf8::*;

verus! {

broadcast use vstd::utf8::group_utf8_lib;

/// Value of the hexadecimal digit with code point `c`, if it is one.
pub open spec fn spec_hex_value(c: u32) -> Option<u8> {
    if 0x30 <= c <= 0x39 {
        Some((c - 0x30) as u8)
    } else if 0x61 <= c <= 0x66 {
        Some((c - 0x61 + 10) as u8)
    } else if 0x41 <= c <= 0x46 {
        Some((c - 0x41 + 10) as u8)
    } else {
        None
    }
}

/// ASCII code of the hexadecimal digit for nibble `n` (`n < 16`).
pub open spec fn hex_digit_byte(n: u8, uppercase: bool) -> u8 {
    if n < 10 {
        (0x30 + n) as u8
    } else if uppercase {
        (0x41 + n - 10) as u8
    } else {
        (0x61 + n - 10) as u8
    }
}

/// The uppercase hexadecimal digit of a value below sixteen.
pub open spec fn upper_hex_digit(d: int) -> u8 {
    if d < 10 {
        (0x30 + d) as u8
    } else {
        (0x41 + d - 10) as u8
    }
}

/// The characters whose codes are the given ASCII bytes.
pub open spec fn ascii_chars(bytes: Seq<u8>) -> Seq<char> {
    bytes.map_values(|b: u8| b as char)
}

/// Every byte is ASCII.
pub open spec fn all_ascii(bytes: Seq<u8>) -> bool {
    forall|i: int| 0 <= i < bytes.len() ==> #[trigger] bytes[i] < 0x80
}

/// The UTF-8 encoding of ASCII characters is their byte sequence.
pub proof fn lemma_ascii_chars_encode(bytes: Seq<u8>)
    requires
        all_ascii(bytes),
    ensures
        encode_utf8(ascii_chars(bytes)) == bytes,
        is_ascii_chars(ascii_chars(bytes)),
{
    let chars = ascii_chars(bytes);
    assert forall|i| 0 <= i < chars.len() implies '\0' <= #[trigger] chars[i] <= '\u{7f}' by {
        assert(bytes[i] < 0x80);
    }
    is_ascii_chars_encode_utf8(chars);
    assert(encode_utf8(chars) =~= bytes);
}

/// Characters of `bytes` when read as UTF-8, with every malformed sequence
/// replaced by U+FFFD.
pub uninterp spec fn utf8_lossy(bytes: Seq<u8>) -> Seq<char>;

/// Appends `c` to `s`; wraps `String::push`, which appends one character.
#[verifier::external_body]
pub fn push_char(s: &mut String, c: char)
    ensures
        final(s)@ == old(s)@.push(c),
{
    s.push(c)
}

/// Converts bytes to a `String`; wraps `String::from_utf8`, which succeeds
/// exactly on valid UTF-8 and then holds the characters that the bytes encode.
#[verifier::external_body]
pub fn string_from_utf8(bytes: Vec<u8>) -> (r: Result<String, FromUtf8Error>)
    ensures
        r is Ok <==> valid_utf8(bytes@),
        r matches Ok(s) ==> s@ == decode_utf8(bytes@),
{
    String::from_utf8(bytes)
}

/// Converts bytes to a `String`, replacing malformed UTF-8; wraps
/// `String::from_utf8_lossy`. Its result is named by `utf8_lossy`; on valid
/// UTF-8 it is the decoded text, as the documentation states.
#[verifier::external_body]
pub fn string_from_utf8_lossy(bytes: &[u8]) -> (r: String)
    ensures
        r@ == utf8_lossy(bytes@),
        valid_utf8(bytes@) ==> r@ == decode_utf8(bytes@),
{
    String::from_utf8_lossy(bytes).into_owned()
}

/// The character whose UTF-8 encoding starts at byte `i` of `bytes`.
pub open spec fn spec_char_at(bytes: Seq<u8>, i: int) -> char {
    decode_first_scalar(bytes.subrange(i, bytes.len() as int)) as char
}

/// Converts a code point to a character; wraps `char::from_u32`, which
/// succeeds exactly on Unicode scalar values.
#[verifier::external_body]
pub fn char_from_u32(u: u32) -> (r: Option<char>)
    ensures
        is_scalar(u) ==> r == Some(u as char),
        !is_scalar(u) ==> r is None,
{
    char::from_u32(u)
}

/// The first code point of well-formed UTF-8 is a Unicode scalar value, and
/// it is ASCII exactly when its first byte is.
pub proof fn lemma_first_scalar_is_scalar(rest: Seq<u8>)
    requires
        valid_first_scalar(rest),
    ensures
        is_scalar(decode_first_scalar(rest)),
        (decode_first_scalar(rest) as char) as u32 == decode_first_scalar(rest),
        rest[0] < 0x80 <==> decode_first_scalar(rest) < 0x80,
        rest[0] < 0x80 ==> decode_first_scalar(rest) == rest[0] as u32,
{
    let b0 = rest[0];
    if b0 <= 0x7f {
        assert((b0 & 0x7f) as u32 == b0 as u32) by (bit_vector)
            requires
                b0 <= 0x7f,
        ;
    } else if b0 <= 0xdf {
        let b1 = rest[1];
        assert((((b0 & 0x1f) as u32) << 6) | ((b1 & 0x3f) as u32) <= 0x7ff) by (bit_vector);
    } else if b0 <= 0xef {
        let b1 = rest[1];
        let b2 = rest[2];
        assert((((b0 & 0x0f) as u32) << 12) | (((b1 & 0x3f) as u32) << 6) | ((b2 & 0x3f) as u32)
            <= 0xffff) by (bit_vector);
    }
}

/// Decodes the character that starts at byte `index` of valid UTF-8 `bytes`.
pub fn decode_char_at(bytes: &[u8], index: usize) -> (c: char)
    requires
        valid_utf8(bytes@),
        is_char_boundary(bytes@, index as int),
        index < bytes@.len(),
    ensures
        c == spec_char_at(bytes@, index as int),
        c as u32 == decode_first_scalar(bytes@.subrange(index as int, bytes@.len() as int)),
{
    let ghost rest = bytes@.subrange(index as int, bytes@.len() as int);
    proof {
        valid_utf8_split(bytes@, index as int);
        assert(valid_first_scalar(rest));
    }
    let b0 = bytes[index];
    assert(b0 == rest[0]);
    let cp: u32 = if b0 <= 0x7f {
        (b0 & 0x7f) as u32
    } else if b0 <= 0xdf {
        assert(rest[1] == bytes@[index + 1]);
        let b1 = bytes[index + 1];
        assert((((b0 & 0x1f) as u32) << 6) | ((b1 & 0x3f) as u32) <= 0x7ff) by (bit_vector);
        (((b0 & 0x1f) as u32) << 6) | ((b1 & 0x3f) as u32)
    } else if b0 <= 0xef {
        assert(rest[1] == bytes@[index + 1] && rest[2] == bytes@[index + 2]);
        let b1 = bytes[index + 1];
        let b2 = bytes[index + 2];
        assert((((b0 & 0x0f) as u32) << 12) | (((b1 & 0x3f) as u32) << 6) | ((b2 & 0x3f) as u32)
            <= 0xffff) by (bit_vector);
        (((b0 & 0x0f) as u32) << 12) | (((b1 & 0x3f) as u32) << 6) | ((b2 & 0x3f) as u32)
    } else {
        assert(rest[1] == bytes@[index + 1] && rest[2] == bytes@[index + 2] && rest[3]
            == bytes@[index + 3]);
        let b1 = bytes[index + 1];
        let b2 = bytes[index + 2];
        let b3 = bytes[index + 3];
        (((b0 & 0x07) as u32) << 18) | (((b1 & 0x3f) as u32) << 12) | (((b2 & 0x3f) as u32)
            << 6) | ((b3 & 0x3f) as u32)
    };
    assert(cp == decode_first_scalar(rest));
    match char_from_u32(cp) {
        Some(c) => c,
        None => {
            assert(false);
            '\0'
        },
    }
}

/// Number of UTF-8 bytes that encode `chars`.
pub open spec fn utf8_len(chars: Seq<char>) -> nat {
    encode_utf8(chars).len()
}

/// The encoding of a concatenation is the concatenation of the encodings,
/// and the first part ends on a character boundary.
pub proof fn lemma_encode_utf8_append(a: Seq<char>, b: Seq<char>)
    ensures
        encode_utf8(a + b) == encode_utf8(a) + encode_utf8(b),
        is_char_boundary(encode_utf8(a + b), encode_utf8(a).len() as int),
    decreases a.len(),
{
    if a.len() == 0 {
        assert(a + b =~= b);
        assert(encode_utf8(a) =~= Seq::<u8>::empty());
        assert(encode_utf8(a + b) =~= encode_utf8(a) + encode_utf8(b));
    } else {
        lemma_encode_utf8_append(a.drop_first(), b);
        assert((a + b).drop_first() =~= a.drop_first() + b);
        assert((a + b)[0] == a[0]);
        assert(encode_utf8(a + b) =~= encode_utf8(a) + encode_utf8(b));
        let bytes = encode_utf8(a + b);
        encode_utf8_first_scalar(a + b);
        assert(pop_first_scalar(bytes) =~= encode_utf8((a + b).drop_first()));
        encode_utf8_first_scalar(a);
    }
}

/// Splitting a character sequence at `k` splits its encoding at a boundary.
pub proof fn lemma_encode_utf8_split(chars: Seq<char>, k: int)
    requires
        0 <= k <= chars.len(),
    ensures
        encode_utf8(chars) == encode_utf8(chars.take(k)) + encode_utf8(chars.skip(k)),
        is_char_boundary(encode_utf8(chars), utf8_len(chars.take(k)) as int),
        utf8_len(chars.take(k)) <= utf8_len(chars),
{
    assert(chars =~= chars.take(k) + chars.skip(k));
    lemma_encode_utf8_append(chars.take(k), chars.skip(k));
}

/// Every character takes at least one byte.
pub proof fn lemma_utf8_len_at_least(chars: Seq<char>)
    ensures
        utf8_len(chars) >= chars.len(),
    decreases chars.len(),
{
    if chars.len() > 0 {
        lemma_utf8_len_at_least(chars.drop_first());
    }
}

/// A prefix that leaves out a character has a shorter encoding.
pub proof fn lemma_utf8_len_strict(chars: Seq<char>, k: int)
    requires
        0 <= k < chars.len(),
    ensures
        utf8_len(chars.take(k)) < utf8_len(chars),
{
    lemma_encode_utf8_split(chars, k);
    let rest = chars.skip(k);
    assert(encode_utf8(rest) == encode_scalar(rest[0] as u32) + encode_utf8(rest.drop_first()));
}

/// The characters between char indices `a` and `b` of `s`, which start and
/// end at bytes `start` and `end`.
pub fn str_slice<'a>(s: &'a str, start: usize, end: usize, Ghost(a): Ghost<int>, Ghost(b): Ghost<
    int,
>) -> (r: &'a str)
    requires
        0 <= a <= b <= s@.len(),
        start == utf8_len(s@.take(a)),
        end == utf8_len(s@.take(b)),
    ensures
        r@ == s@.subrange(a, b),
{
    let ghost cs = s@;
    proof {
        lemma_encode_utf8_split(cs, a);
        lemma_encode_utf8_split(cs, b);
        let tail = cs.skip(a);
        assert(cs.take(b) =~= cs.take(a) + tail.take(b - a));
        lemma_encode_utf8_append(cs.take(a), tail.take(b - a));
        lemma_encode_utf8_split(tail, b - a);
        assert(tail.take(b - a) =~= cs.subrange(a, b));
    }
    let (_, rest) = s.split_at(start);
    proof {
        assert(rest.spec_bytes() =~= encode_utf8(cs.skip(a)));
        encode_utf8_decode_utf8(rest@);
        encode_utf8_decode_utf8(cs.skip(a));
        assert(rest@ =~= cs.skip(a));
    }
    let (mid, _) = rest.split_at(end - start);
    proof {
        let tail = cs.skip(a);
        assert(mid.spec_bytes() =~= encode_utf8(tail.take(b - a)));
        encode_utf8_decode_utf8(mid@);
        encode_utf8_decode_utf8(tail.take(b - a));
    }
    mid
}

/// UTF-8 width of a character.
pub fn char_utf8_width(c: char) -> (r: usize)
    ensures
        r == encode_scalar(c as u32).len(),
        1 <= r <= 4,
{
    let u = c as u32;
    if u < 0x80 {
        1
    } else if u < 0x800 {
        2
    } else if u < 0x10000 {
        3
    } else {
        4
    }
}

/// The character at char index `k` of `s`, which starts at byte `i`, and
/// the byte offset just after it.
pub fn next_char(s: &str, i: usize, Ghost(k): Ghost<int>) -> (r: (char, usize))
    requires
        0 <= k < s@.len(),
        i == utf8_len(s@.take(k)),
    ensures
        r.0 == s@[k],
        r.1 == utf8_len(s@.take(k + 1)),
        r.1 == i + encode_scalar(r.0 as u32).len(),
        i < r.1 <= utf8_len(s@),
{
    let bytes = s.as_bytes();
    let _n = bytes.len();
    let ghost cs = s@;
    proof {
        lemma_encode_utf8_split(cs, k);
        lemma_encode_utf8_split(cs, k + 1);
        assert(cs.take(k + 1) =~= cs.take(k) + seq![cs[k]]);
        lemma_encode_utf8_append(cs.take(k), seq![cs[k]]);
        assert(seq![cs[k]].drop_first() =~= Seq::<char>::empty());
        assert(encode_utf8(seq![cs[k]].drop_first()) =~= Seq::<u8>::empty());
        assert(encode_utf8(seq![cs[k]]) =~= encode_scalar(cs[k] as u32));
        let rest = cs.skip(k);
        encode_utf8_first_scalar(rest);
        assert(bytes@.subrange(i as int, bytes@.len() as int) =~= encode_utf8(rest));
        assert(rest[0] == cs[k]);
    }
    let c = decode_char_at(bytes, i);
    proof {
        char_u32_cast(cs[k], decode_first_scalar(encode_utf8(cs.skip(k))));
    }
    let width = char_utf8_width(c);
    (c, i + width)
}

/// The decimal digits of `n`, most significant first.
pub open spec fn decimal_chars(n: nat) -> Seq<char>
    decreases n,
{
    if n < 10 {
        seq![(0x30 + n) as char]
    } else {
        decimal_chars(n / 10).push((0x30 + n % 10) as char)
    }
}

/// Appends the decimal digits of `n` to `out`.
pub fn push_decimal(out: &mut String, n: usize)
    ensures
        final(out)@ == old(out)@ + decimal_chars(n as nat),
    decreases n,
{
    if n >= 10 {
        push_decimal(out, n / 10);
    }
    let digit = (n % 10) as u8;
    push_char(out, (0x30 + digit) as char);
    proof {
        if n >= 10 {
            assert(final(out)@ =~= old(out)@ + decimal_chars(n as nat));
        } else {
            assert(final(out)@ =~= old(out)@ + decimal_chars(n as nat));
        }
    }
}

/// Every byte seen as the character with the same code (Latin-1 reading).
pub open spec fn latin1_chars(bytes: Seq<u8>) -> Seq<char> {
    bytes.map_values(|b: u8| b as char)
}

/// Builds the text whose characters have the codes of `bytes`.
pub fn latin1_string(bytes: &[u8]) -> (r: String)
    ensures
        r@ == latin1_chars(bytes@),
{
    let mut out = String::new();
    let mut i: usize = 0;
    while i < bytes.len()
        invariant
            i <= bytes@.len(),
            out@ == latin1_chars(bytes@.take(i as int)),
        decreases bytes@.len() - i,
    {
        push_char(&mut out, bytes[i] as char);
        assert(latin1_chars(bytes@.take(i + 1)) =~= latin1_chars(bytes@.take(i as int)).push(
            bytes@[i as int] as char,
        ));
        i = i + 1;
    }
    assert(bytes@.take(bytes@.len() as int) =~= bytes@);
    out
}

/// A character boundary of valid UTF-8 bytes is still one after cutting off
/// an earlier boundary.
pub proof fn lemma_boundary_after_cut(bytes: Seq<u8>, start: int, end: int)
    requires
        valid_utf8(bytes),
        is_char_boundary(bytes, start),
        is_char_boundary(bytes, end),
        0 <= start <= end <= bytes.len(),
    ensures
        valid_utf8(bytes.subrange(start, bytes.len() as int)),
        is_char_boundary(bytes.subrange(start, bytes.len() as int), end - start),
        valid_utf8(bytes.subrange(start, end)),
{
    let rest = bytes.subrange(start, bytes.len() as int);
    valid_utf8_split(bytes, start);
    if end < bytes.len() {
        is_char_boundary_iff_not_is_continuation_byte(bytes, end);
        assert(rest[end - start] == bytes[end]);
        is_char_boundary_iff_not_is_continuation_byte(rest, end - start);
    } else {
        is_char_boundary_start_end_of_seq(rest);
    }
    valid_utf8_split(rest, end - start);
    assert(rest.subrange(0, end - start) =~= bytes.subrange(start, end));
}

/// Text of the valid UTF-8 bytes between two character boundaries.
pub fn utf8_substring(bytes: &[u8], start: usize, end: usize) -> (r: String)
    requires
        valid_utf8(bytes@),
        is_char_boundary(bytes@, start as int),
        is_char_boundary(bytes@, end as int),
        start <= end <= bytes@.len(),
    ensures
        r@ == decode_utf8(bytes@.subrange(start as int, end as int)),
{
    proof {
        lemma_boundary_after_cut(bytes@, start as int, end as int);
    }
    let part = vstd::slice::slice_to_vec(vstd::slice::slice_subrange(bytes, start, end));
    match string_from_utf8(part) {
        Ok(s) => s,
        Err(_) => {
            assert(false);
            String::new()
        },
    }
}

/// Concatenating ASCII units gives ASCII.
pub proof fn lemma_flat_map_ascii(s: Seq<u8>, f: spec_fn(u8) -> Seq<u8>)
    requires
        forall|b: u8| #[trigger] all_ascii(f(b)),
    ensures
        all_ascii(s.flat_map(f)),
    decreases s.len(),
{
    if s.len() > 0 {
        let n = (s.len() - 1) as int;
        lemma_flat_map_ascii(s.take(n), f);
        s.lemma_flat_map_take_append(f, n);
        assert(s.take(n + 1) =~= s);
        let a = s.take(n).flat_map(f);
        let b = f(s[n]);
        assert(all_ascii(b));
        assert forall|i| 0 <= i < (a + b).len() implies #[trigger] (a + b)[i] < 0x80 by {
            if i < a.len() {
                assert(a[i] < 0x80);
            } else {
                assert(b[i - a.len()] < 0x80);
            }
        }
    }
}

} // verus!
