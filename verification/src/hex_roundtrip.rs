//! Laws of `HexCodec` decoding: it undoes encoding, for every configuration
//! but one (a per-byte prefix that starts with whitespace while whitespace
//! is ignored), and ignoring whitespace is decoding the text without it.

use crate::hex_codec::{
    all_ascii_ws, bytes_at, bytes_at_ignore_case, hex_pair_chars, is_ascii_ws, nibble,
    nonempty_setting, pair_value, prefix_at, setting_text, skip_ws, spec_byte_prefixed,
    spec_consume_byte_prefix, spec_consume_prefix, spec_hex_decode, spec_hex_encode,
    spec_hex_encode_body, spec_next_separator_index, spec_read_hex_digit,
    spec_read_prefixed_pair, spec_separated, spec_separated_from, spec_unprefixed,
};
use crate::hex_codec_config::HexConfigModel;
use crate::misc_codec_error::ErrorModel;
use crate::text_support::{all_ascii, hex_digit_byte, lemma_encode_utf8_append, spec_hex_value};
use vstd::prelude::*;
use vstd::utf8::*;

verus! {

broadcast use vstd::utf8::group_utf8_lib;

/// The two digit bytes of one byte.
pub open spec fn pair_bytes(b: u8, up: bool) -> Seq<u8> {
    seq![hex_digit_byte(b / 16, up), hex_digit_byte(b % 16, up)]
}

/// Encoded bytes of `r` when every byte follows a separator `sp`: the
/// separator, the per-byte prefix `bp` and two digits for each byte.
pub open spec fn tail_bytes(sp: Seq<u8>, bp: Seq<u8>, r: Seq<u8>, up: bool) -> Seq<u8>
    decreases r.len(),
{
    if r.len() == 0 {
        Seq::empty()
    } else {
        sp + bp + pair_bytes(r[0], up) + tail_bytes(sp, bp, r.skip(1), up)
    }
}

/// UTF-8 bytes of an optional setting.
pub open spec fn setting_bytes(s: Option<Seq<char>>) -> Seq<u8> {
    encode_utf8(setting_text(s))
}

/// An ASCII whitespace character (space, tab, line feed, form feed or
/// carriage return): one below 0x80 whose byte `is_ascii_ws` accepts.
pub open spec fn is_ascii_ws_char(ch: char) -> bool {
    is_ascii_ws((ch as u32) as u8) && (ch as u32) < 0x80
}

/// The per-byte prefix starts with ASCII whitespace.
pub open spec fn byte_prefix_starts_with_ws(c: HexConfigModel) -> bool {
    setting_text(c.byte_prefix).len() > 0 && is_ascii_ws_char(setting_text(c.byte_prefix)[0])
}

/// Facts about one digit byte.
proof fn lemma_digit(v: u8, up: bool)
    requires
        v < 16,
    ensures
        spec_hex_value(hex_digit_byte(v, up) as u32) == Some(v),
        nibble(hex_digit_byte(v, up)) == v,
        !is_ascii_ws(hex_digit_byte(v, up)),
        hex_digit_byte(v, up) < 0x80,
{
}

/// Facts about the two digits of a byte.
proof fn lemma_pair(b: u8, up: bool)
    ensures
        pair_value(nibble(pair_bytes(b, up)[0]), nibble(pair_bytes(b, up)[1])) == b,
        spec_hex_value(pair_bytes(b, up)[0] as u32) is Some,
        spec_hex_value(pair_bytes(b, up)[1] as u32) is Some,
        !is_ascii_ws(pair_bytes(b, up)[0]),
        !is_ascii_ws(pair_bytes(b, up)[1]),
        all_ascii(pair_bytes(b, up)),
{
    lemma_digit(b / 16, up);
    lemma_digit(b % 16, up);
}

/// A text has an empty encoding exactly when it is empty.
proof fn lemma_encode_empty(s: Seq<char>)
    ensures
        (encode_utf8(s).len() == 0) <==> (s.len() == 0),
{
    crate::text_support::lemma_utf8_len_at_least(s);
}

/// The non-empty setting is the setting's bytes when they are not empty.
proof fn lemma_nonempty_setting(s: Option<Seq<char>>)
    ensures
        nonempty_setting(s) == if setting_bytes(s).len() > 0 {
            Some(setting_bytes(s))
        } else {
            None::<Seq<u8>>
        },
{
    lemma_encode_empty(setting_text(s));
    if s is None {
        assert(setting_text(s) =~= Seq::<char>::empty());
    }
}

/// Appending one more byte to the encoded tail.
proof fn lemma_tail_push(sp: Seq<u8>, bp: Seq<u8>, x: Seq<u8>, y: u8, up: bool)
    ensures
        tail_bytes(sp, bp, x.push(y), up) == tail_bytes(sp, bp, x, up) + sp + bp + pair_bytes(
            y,
            up,
        ),
    decreases x.len(),
{
    if x.len() == 0 {
        assert(x.push(y).skip(1) =~= Seq::<u8>::empty());
        assert(x.push(y)[0] == y);
        assert(tail_bytes(sp, bp, x.push(y).skip(1), up) =~= Seq::<u8>::empty());
        assert(tail_bytes(sp, bp, x, up) =~= Seq::<u8>::empty());
        assert(tail_bytes(sp, bp, x.push(y), up) =~= tail_bytes(sp, bp, x, up) + sp + bp
            + pair_bytes(y, up));
    } else {
        lemma_tail_push(sp, bp, x.skip(1), y, up);
        assert(x.push(y).skip(1) =~= x.skip(1).push(y));
        assert(x.push(y)[0] == x[0]);
        assert(tail_bytes(sp, bp, x.push(y), up) =~= tail_bytes(sp, bp, x, up) + sp + bp
            + pair_bytes(y, up));
    }
}

/// The digit characters of a byte encode to its digit bytes.
proof fn lemma_pair_chars_bytes(b: u8, up: bool)
    ensures
        encode_utf8(hex_pair_chars(b, up)) == pair_bytes(b, up),
{
    lemma_digit(b / 16, up);
    lemma_digit(b % 16, up);
    let chars = hex_pair_chars(b, up);
    assert(is_ascii_chars(chars));
    is_ascii_chars_encode_utf8(chars);
    assert(encode_utf8(chars) =~= pair_bytes(b, up));
}

/// The encoding of four concatenated texts.
proof fn lemma_encode4(a: Seq<char>, b: Seq<char>, c: Seq<char>, d: Seq<char>)
    ensures
        encode_utf8(a + b + c + d) == encode_utf8(a) + encode_utf8(b) + encode_utf8(c)
            + encode_utf8(d),
{
    lemma_encode_utf8_append(a, b);
    lemma_encode_utf8_append(a + b, c);
    lemma_encode_utf8_append(a + b + c, d);
}

/// One step of the body's definition, with the pieces' encodings.
proof fn lemma_encode_body_step(c: HexConfigModel, bytes: Seq<u8>)
    requires
        bytes.len() > 0,
    ensures
        encode_utf8(spec_hex_encode_body(c, bytes)) == encode_utf8(
            spec_hex_encode_body(c, bytes.take(bytes.len() - 1)),
        ) + (if bytes.len() > 1 {
            setting_bytes(c.separator)
        } else {
            Seq::empty()
        }) + setting_bytes(c.byte_prefix) + pair_bytes(bytes[bytes.len() - 1], c.uppercase),
{
    let n = bytes.len() - 1;
    let sep_chars = if n > 0 {
        setting_text(c.separator)
    } else {
        Seq::empty()
    };
    let head = spec_hex_encode_body(c, bytes.take(n));
    assert(spec_hex_encode_body(c, bytes) == head + sep_chars + setting_text(c.byte_prefix)
        + hex_pair_chars(bytes[n], c.uppercase));
    lemma_encode4(head, sep_chars, setting_text(c.byte_prefix), hex_pair_chars(bytes[n], c.uppercase));
    lemma_pair_chars_bytes(bytes[n], c.uppercase);
    if n == 0 {
        assert(encode_utf8(sep_chars) =~= Seq::<u8>::empty());
    }
}

/// The encoded body, read from the front: the first byte, then the others
/// each after a separator.
proof fn lemma_encode_body(c: HexConfigModel, bytes: Seq<u8>)
    ensures
        encode_utf8(spec_hex_encode_body(c, bytes)) == if bytes.len() == 0 {
            Seq::<u8>::empty()
        } else {
            setting_bytes(c.byte_prefix) + pair_bytes(bytes[0], c.uppercase) + tail_bytes(
                setting_bytes(c.separator),
                setting_bytes(c.byte_prefix),
                bytes.skip(1),
                c.uppercase,
            )
        },
    decreases bytes.len(),
{
    let sp = setting_bytes(c.separator);
    let bp = setting_bytes(c.byte_prefix);
    let up = c.uppercase;
    if bytes.len() == 0 {
        assert(spec_hex_encode_body(c, bytes) =~= Seq::<char>::empty());
    } else {
        let n = bytes.len() - 1;
        let init = bytes.take(n);
        lemma_encode_body(c, init);
        lemma_encode_body_step(c, bytes);
        if n == 0 {
            assert(init =~= Seq::<u8>::empty());
            assert(spec_hex_encode_body(c, init) =~= Seq::<char>::empty());
            assert(bytes.skip(1) =~= Seq::<u8>::empty());
            assert(tail_bytes(sp, bp, bytes.skip(1), up) =~= Seq::<u8>::empty());
            assert(encode_utf8(spec_hex_encode_body(c, bytes)) =~= bp + pair_bytes(bytes[0], up)
                + tail_bytes(sp, bp, bytes.skip(1), up));
        } else {
            lemma_tail_push(sp, bp, init.skip(1), bytes[n], up);
            assert(init.skip(1).push(bytes[n]) =~= bytes.skip(1));
            assert(init[0] == bytes[0]);
            assert(encode_utf8(spec_hex_encode_body(c, bytes)) =~= bp + pair_bytes(bytes[0], up)
                + tail_bytes(sp, bp, bytes.skip(1), up));
        }
    }
}

/// The first byte of a non-empty encoding starts a character, and it is
/// ASCII whitespace exactly when the first character is.
proof fn lemma_first_byte(x: Seq<char>)
    requires
        x.len() > 0,
    ensures
        encode_utf8(x).len() > 0,
        !is_continuation_byte(encode_utf8(x)[0]),
        is_ascii_ws(encode_utf8(x)[0]) <==> is_ascii_ws_char(x[0]),
{
    let t = encode_utf8(x);
    encode_utf8_first_scalar(x);
    crate::text_support::lemma_first_scalar_is_scalar(t);
}

/// A byte that does not continue a character starts one.
proof fn lemma_boundary_at(t: Seq<u8>, j: int)
    requires
        valid_utf8(t),
        0 <= j <= t.len(),
        j == t.len() || !is_continuation_byte(t[j]),
    ensures
        is_char_boundary(t, j),
{
    if j < t.len() {
        is_char_boundary_iff_not_is_continuation_byte(t, j);
    } else {
        is_char_boundary_start_end_of_seq(t);
    }
}

/// Skipping stops at once on a byte that is not whitespace, and at the end.
proof fn lemma_skip_ws_stop(t: Seq<u8>, i: int, ws: bool)
    requires
        0 <= i,
        !ws || i >= t.len() || !is_ascii_ws(t[i]),
    ensures
        skip_ws(t, i, ws) == i,
{
}

/// Skipping passes a run of `n` whitespace bytes and stops after it.
proof fn lemma_skip_ws_run(t: Seq<u8>, i: int, n: int)
    requires
        0 <= i,
        0 <= n,
        i + n <= t.len(),
        forall|k: int| 0 <= k < n ==> #[trigger] is_ascii_ws(t[i + k]),
        i + n == t.len() || !is_ascii_ws(t[i + n]),
    ensures
        skip_ws(t, i, true) == i + n,
    decreases n,
{
    if n > 0 {
        assert(is_ascii_ws(t[i + 0]));
        assert forall|k: int| 0 <= k < n - 1 implies #[trigger] is_ascii_ws(t[(i + 1) + k]) by {
            assert(is_ascii_ws(t[i + (k + 1)]));
        }
        lemma_skip_ws_run(t, i + 1, n - 1);
    }
}

/// Decoding digits without prefixes or separators gives back the bytes.
proof fn lemma_unprefixed_roundtrip(
    t: Seq<u8>,
    i: int,
    r: Seq<u8>,
    up: bool,
    ws: bool,
    acc: Seq<u8>,
    k: nat,
)
    requires
        0 <= i <= t.len(),
        t.subrange(i, t.len() as int) == tail_bytes(Seq::empty(), Seq::empty(), r, up),
        k % 2 == 0,
    ensures
        spec_unprefixed(t, i, ws, acc, None, k) == Ok::<Seq<u8>, ErrorModel>(acc + r),
    decreases r.len(),
{
    let x = tail_bytes(Seq::<u8>::empty(), Seq::<u8>::empty(), r, up);
    if r.len() == 0 {
        assert(acc + r =~= acc);
        assert(t.subrange(i, t.len() as int).len() == 0);
    } else {
        let p = pair_bytes(r[0], up);
        lemma_pair(r[0], up);
        let rest = tail_bytes(Seq::<u8>::empty(), Seq::<u8>::empty(), r.skip(1), up);
        assert(x =~= p + rest);
        assert(t[i] == t.subrange(i, t.len() as int)[0]);
        assert(t[i + 1] == t.subrange(i, t.len() as int)[1]);
        let u = t.subrange(i, t.len() as int);
        assert forall|j: int| 0 <= j < rest.len() implies #[trigger] rest[j] == t[i + 2 + j] by {
            assert(u[2 + j] == x[2 + j]);
        }
        assert(t.subrange(i + 2, t.len() as int) =~= rest);
        let v = pair_value(nibble(p[0]), nibble(p[1]));
        lemma_unprefixed_roundtrip(t, i + 2, r.skip(1), up, ws, acc.push(v), k + 2);
        assert(acc.push(r[0]) + r.skip(1) =~= acc + r);
        assert(spec_unprefixed(t, i + 1, ws, acc, Some(nibble(t[i])), k + 1) == spec_unprefixed(
            t,
            i + 2,
            ws,
            acc.push(v),
            None,
            k + 2,
        ));
    }
}

/// A configured prefix is found where the encoder wrote it.
proof fn lemma_prefix_found(t: Seq<u8>, i: int, p: Seq<u8>, ignore_case: bool)
    requires
        0 <= i,
        i + p.len() <= t.len(),
        t.subrange(i, i + p.len()) == p,
        is_char_boundary(t, i + p.len()),
    ensures
        prefix_at(t, i, p, ignore_case),
{
    assert forall|k: int| 0 <= k < p.len() implies #[trigger] crate::hex_codec::ascii_lower(
        t[i + k],
    ) == crate::hex_codec::ascii_lower(p[k]) by {
        assert(t[i + k] == t.subrange(i, i + p.len())[k]);
    }
}

/// Splitting the rest of `t` at `i` into two known parts.
proof fn lemma_split(t: Seq<u8>, i: int, a: Seq<u8>, b: Seq<u8>)
    requires
        0 <= i <= t.len(),
        t.subrange(i, t.len() as int) == a + b,
    ensures
        i + a.len() <= t.len(),
        t.subrange(i, i + a.len()) == a,
        t.subrange(i + a.len(), t.len() as int) == b,
        forall|k: int| 0 <= k < a.len() ==> #[trigger] t[i + k] == a[k],
{
    let u = t.subrange(i, t.len() as int);
    assert(u.len() == a.len() + b.len());
    assert forall|k: int| 0 <= k < a.len() implies #[trigger] t[i + k] == a[k] by {
        assert(u[k] == t[i + k]);
        assert((a + b)[k] == a[k]);
        assert(u[k] == (a + b)[k]);
    }
    assert forall|k: int| 0 <= k < b.len() implies #[trigger] b[k] == t[i + a.len() + k] by {
        assert(u[a.len() + k] == t[i + a.len() + k]);
        assert((a + b)[a.len() + k] == b[k]);
        assert(u[a.len() + k] == (a + b)[a.len() + k]);
    }
    assert(t.subrange(i, i + a.len()) =~= a);
    assert(t.subrange(i + a.len(), t.len() as int) =~= b);
}

/// Reading the two digits that follow a per-byte prefix.
proof fn lemma_read_pair(t: Seq<u8>, j: int, ws: bool, b: u8, up: bool)
    requires
        0 <= j,
        j + 2 <= t.len(),
        t[j] == pair_bytes(b, up)[0],
        t[j + 1] == pair_bytes(b, up)[1],
    ensures
        spec_read_prefixed_pair(t, j, ws, 0, 0) == Ok::<(u8, int), ErrorModel>((b, j + 2)),
{
    lemma_pair(b, up);
    let pair = pair_bytes(b, up);
    assert(spec_read_prefixed_pair(t, j + 1, ws, 1, nibble(pair[0])) == Ok::<
        (u8, int),
        ErrorModel,
    >((pair_value(nibble(pair[0]), nibble(pair[1])), j + 2)));
}

/// One byte-prefixed unit: decoding goes on after it with the byte added.
proof fn lemma_byte_prefixed_step(
    c: HexConfigModel,
    t: Seq<u8>,
    p: Seq<u8>,
    i: int,
    b: u8,
    acc: Seq<u8>,
)
    requires
        0 <= i,
        i + p.len() + 2 <= t.len(),
        p.len() > 0,
        c.ignore_ascii_whitespace ==> !is_ascii_ws(p[0]),
        valid_utf8(t),
        t.subrange(i, i + p.len()) == p,
        t[i + p.len()] == pair_bytes(b, c.uppercase)[0],
        t[i + p.len() + 1] == pair_bytes(b, c.uppercase)[1],
    ensures
        spec_byte_prefixed(c, t, p, i, acc) == spec_byte_prefixed(
            c,
            t,
            p,
            i + p.len() + 2,
            acc.push(b),
        ),
{
    let ws = c.ignore_ascii_whitespace;
    assert(t[i] == t.subrange(i, i + p.len())[0]);
    lemma_skip_ws_stop(t, i, ws);
    lemma_pair(b, c.uppercase);
    lemma_boundary_at(t, i + p.len());
    lemma_prefix_found(t, i, p, c.ignore_prefix_case);
    lemma_read_pair(t, i + p.len(), ws, b, c.uppercase);
}

/// Decoding byte-prefixed digits gives back the bytes.
proof fn lemma_byte_prefixed_roundtrip(
    c: HexConfigModel,
    t: Seq<u8>,
    p: Seq<u8>,
    i: int,
    r: Seq<u8>,
    acc: Seq<u8>,
)
    requires
        0 <= i <= t.len(),
        p.len() > 0,
        c.ignore_ascii_whitespace ==> !is_ascii_ws(p[0]),
        valid_utf8(t),
        t.subrange(i, t.len() as int) == tail_bytes(Seq::empty(), p, r, c.uppercase),
    ensures
        spec_byte_prefixed(c, t, p, i, acc) == Ok::<Seq<u8>, ErrorModel>(acc + r),
    decreases r.len(),
{
    let up = c.uppercase;
    let x = tail_bytes(Seq::<u8>::empty(), p, r, up);
    if r.len() == 0 {
        assert(acc + r =~= acc);
        assert(t.subrange(i, t.len() as int).len() == 0);
    } else {
        let pair = pair_bytes(r[0], up);
        let rest = tail_bytes(Seq::<u8>::empty(), p, r.skip(1), up);
        let n = p.len() as int;
        assert(x =~= p + (pair + rest));
        lemma_split(t, i, p, pair + rest);
        lemma_split(t, i + n, pair, rest);
        assert(t[i + n + 0] == pair[0] && t[i + n + 1] == pair[1]);
        lemma_byte_prefixed_step(c, t, p, i, r[0], acc);
        lemma_byte_prefixed_roundtrip(c, t, p, i + n + 2, r.skip(1), acc.push(r[0]));
        assert(acc.push(r[0]) + r.skip(1) =~= acc + r);
    }
}

/// The per-byte prefix and two digits of one separated unit are read.
proof fn lemma_separated_unit(c: HexConfigModel, t: Seq<u8>, bp: Seq<u8>, i: int, b: u8)
    requires
        0 <= i,
        i + bp.len() + 2 <= t.len(),
        nonempty_setting(c.byte_prefix) == if bp.len() > 0 {
            Some(bp)
        } else {
            None::<Seq<u8>>
        },
        valid_utf8(t),
        t.subrange(i, i + bp.len()) == bp,
        t[i + bp.len()] == pair_bytes(b, c.uppercase)[0],
        t[i + bp.len() + 1] == pair_bytes(b, c.uppercase)[1],
    ensures
        spec_consume_byte_prefix(c, t, i) == Ok::<int, ErrorModel>(i + bp.len()),
        spec_read_hex_digit(t, i + bp.len()) == Ok::<(u8, int), ErrorModel>(
            (nibble(pair_bytes(b, c.uppercase)[0]), i + bp.len() + 1),
        ),
        spec_read_hex_digit(t, i + bp.len() + 1) == Ok::<(u8, int), ErrorModel>(
            (nibble(pair_bytes(b, c.uppercase)[1]), i + bp.len() + 2),
        ),
        pair_value(nibble(pair_bytes(b, c.uppercase)[0]), nibble(pair_bytes(b, c.uppercase)[1]))
            == b,
{
    lemma_pair(b, c.uppercase);
    if bp.len() > 0 {
        lemma_boundary_at(t, i + bp.len());
        lemma_prefix_found(t, i, bp, c.ignore_prefix_case);
    }
}

/// After a unit followed by a separator, the separator is found where the
/// encoder wrote it and the next unit starts right after it.
proof fn lemma_separator_found(t: Seq<u8>, i: int, s: Seq<u8>, ws: bool)
    requires
        0 <= i,
        s.len() > 0,
        i + s.len() < t.len(),
        t.subrange(i, i + s.len()) == s,
        ws ==> !is_ascii_ws(t[i + s.len()]),
        valid_utf8(t),
        !is_continuation_byte(s[0]),
    ensures
        spec_next_separator_index(t, i, s, ws) == i,
        bytes_at(t, i, s),
        skip_ws(t, i + s.len(), ws) == i + s.len(),
{
    lemma_skip_ws_stop(t, i + s.len(), ws);
    assert(t[i] == t.subrange(i, i + s.len())[0]);
    lemma_boundary_at(t, i);
    if all_ascii_ws(s) {
        if ws {
            assert forall|k: int| 0 <= k < s.len() implies #[trigger] is_ascii_ws(t[i + k]) by {
                assert(t[i + k] == t.subrange(i, i + s.len())[k]);
                assert(is_ascii_ws(s[k]));
            }
            lemma_skip_ws_run(t, i, s.len() as int);
        }
    }
}

/// Decoding separated units gives back the bytes.
#[verifier::rlimit(40)]
proof fn lemma_separated_roundtrip(
    c: HexConfigModel,
    t: Seq<u8>,
    s: Seq<u8>,
    bp: Seq<u8>,
    i: int,
    b0: u8,
    rest: Seq<u8>,
    acc: Seq<u8>,
)
    requires
        0 <= i <= t.len(),
        s.len() > 0,
        nonempty_setting(c.byte_prefix) == if bp.len() > 0 {
            Some(bp)
        } else {
            None::<Seq<u8>>
        },
        bp.len() > 0 && c.ignore_ascii_whitespace ==> !is_ascii_ws(bp[0]),
        valid_utf8(t),
        !is_continuation_byte(s[0]),
        t.subrange(i, t.len() as int) == bp + pair_bytes(b0, c.uppercase) + tail_bytes(
            s,
            bp,
            rest,
            c.uppercase,
        ),
    ensures
        spec_separated_from(c, t, s, i, acc) == Ok::<Seq<u8>, ErrorModel>(acc.push(b0) + rest),
    decreases rest.len(),
{
    let up = c.uppercase;
    let ws = c.ignore_ascii_whitespace;
    let pair = pair_bytes(b0, up);
    let tail = tail_bytes(s, bp, rest, up);
    let n = bp.len() as int;
    assert(bp + pair + tail =~= bp + (pair + tail));
    lemma_split(t, i, bp, pair + tail);
    lemma_split(t, i + n, pair, tail);
    assert(t[i + n + 0] == pair[0] && t[i + n + 1] == pair[1]);
    lemma_separated_unit(c, t, bp, i, b0);
    let i3 = i + n + 2;
    if rest.len() == 0 {
        assert(t.subrange(i3, t.len() as int).len() == 0);
        lemma_skip_ws_stop(t, i3, ws);
        assert(spec_next_separator_index(t, i3, s, ws) == i3);
        assert(acc.push(b0) + rest =~= acc.push(b0));
    } else {
        let pair1 = pair_bytes(rest[0], up);
        let tail1 = tail_bytes(s, bp, rest.skip(1), up);
        let q = bp + pair1 + tail1;
        assert(tail =~= s + q);
        lemma_split(t, i3, s, q);
        lemma_pair(rest[0], up);
        assert(q[0] == if n > 0 {
            bp[0]
        } else {
            pair1[0]
        });
        assert(t[i3 + s.len() as int] == q[0]) by {
            assert(t.subrange(i3 + s.len(), t.len() as int)[0] == t[i3 + s.len()]);
        }
        lemma_separator_found(t, i3, s, ws);
        let i4 = i3 + s.len();
        lemma_separated_roundtrip(c, t, s, bp, i4, rest[0], rest.skip(1), acc.push(b0));
        assert(acc.push(b0).push(rest[0]) + rest.skip(1) =~= acc.push(b0) + rest);
    }
}

/// Facts about the first byte of a non-empty encoded body: it starts a
/// character, and it is whitespace only when the per-byte prefix starts with
/// whitespace.
proof fn lemma_body_first_byte(c: HexConfigModel, bytes: Seq<u8>)
    requires
        bytes.len() > 0,
    ensures
        encode_utf8(spec_hex_encode_body(c, bytes)).len() > 0,
        !is_continuation_byte(encode_utf8(spec_hex_encode_body(c, bytes))[0]),
        is_ascii_ws(encode_utf8(spec_hex_encode_body(c, bytes))[0]) ==> byte_prefix_starts_with_ws(
            c,
        ),
        setting_bytes(c.byte_prefix).len() > 0 ==> (is_ascii_ws(setting_bytes(c.byte_prefix)[0])
            <==> byte_prefix_starts_with_ws(c)),
{
    let up = c.uppercase;
    let sp = setting_bytes(c.separator);
    let bp = setting_bytes(c.byte_prefix);
    lemma_encode_body(c, bytes);
    lemma_pair(bytes[0], up);
    let pair = pair_bytes(bytes[0], up);
    let body = bp + pair + tail_bytes(sp, bp, bytes.skip(1), up);
    lemma_encode_empty(setting_text(c.byte_prefix));
    if bp.len() > 0 {
        lemma_first_byte(setting_text(c.byte_prefix));
        assert(body[0] == bp[0]);
    } else {
        assert(body[0] == pair[0]);
        assert(pair[0] < 0x80);
    }
}

/// Decoding what `HexCodec` encodes gives the bytes back. The one exception:
/// with whitespace ignored, a per-byte prefix that starts with ASCII
/// whitespace is skipped as whitespace and then missed, so non-empty bytes
/// fail to decode.
#[verifier::rlimit(40)]
pub proof fn lemma_hex_roundtrip(c: HexConfigModel, bytes: Seq<u8>)
    requires
        bytes.len() == 0 || !(c.ignore_ascii_whitespace && byte_prefix_starts_with_ws(c)),
    ensures
        spec_hex_decode(c, encode_utf8(spec_hex_encode(c, bytes))) == Ok::<Seq<u8>, ErrorModel>(
            bytes,
        ),
{
    let up = c.uppercase;
    let ws = c.ignore_ascii_whitespace;
    let pb = setting_bytes(c.prefix);
    let sp = setting_bytes(c.separator);
    let bp = setting_bytes(c.byte_prefix);
    let body_chars = spec_hex_encode_body(c, bytes);
    lemma_encode_utf8_append(setting_text(c.prefix), body_chars);
    lemma_encode_body(c, bytes);
    let body = encode_utf8(body_chars);
    let t = encode_utf8(spec_hex_encode(c, bytes));
    assert(t == pb + body);
    lemma_nonempty_setting(c.prefix);
    lemma_nonempty_setting(c.separator);
    lemma_nonempty_setting(c.byte_prefix);
    assert(t.subrange(0, t.len() as int) =~= t);
    lemma_split(t, 0, pb, body);
    let start = pb.len() as int;
    if bytes.len() > 0 {
        lemma_body_first_byte(c, bytes);
        assert(t[start] == body[0]) by {
            assert(t.subrange(start, t.len() as int)[0] == t[start]);
        }
    } else {
        assert(body =~= Seq::<u8>::empty());
    }
    lemma_boundary_at(t, start);
    if pb.len() > 0 {
        lemma_prefix_found(t, 0, pb, c.ignore_prefix_case);
    }
    assert(spec_consume_prefix(c, t) == Ok::<int, ErrorModel>(start));
    if bytes.len() == 0 {
        assert(start == t.len());
        lemma_skip_ws_bounds_at_end(t, start, ws);
        assert(Seq::<u8>::empty() =~= bytes);
    } else if sp.len() > 0 {
        lemma_first_byte(setting_text(c.separator));
        lemma_encode_empty(setting_text(c.separator));
        lemma_skip_ws_stop(t, start, ws);
        lemma_separated_roundtrip(c, t, sp, bp, start, bytes[0], bytes.skip(1), Seq::empty());
        assert(Seq::<u8>::empty().push(bytes[0]) + bytes.skip(1) =~= bytes);
    } else {
        assert(sp =~= Seq::<u8>::empty());
        if bp.len() > 0 {
            assert(body =~= tail_bytes(Seq::empty(), bp, bytes, up));
            lemma_byte_prefixed_roundtrip(c, t, bp, start, bytes, Seq::empty());
            assert(Seq::<u8>::empty() + bytes =~= bytes);
        } else {
            assert(bp =~= Seq::<u8>::empty());
            assert(body =~= tail_bytes(Seq::empty(), Seq::empty(), bytes, up));
            lemma_unprefixed_roundtrip(t, start, bytes, up, ws, Seq::empty(), 0);
            assert(Seq::<u8>::empty() + bytes =~= bytes);
        }
    }
}

/// Skipping at the end stays at the end.
proof fn lemma_skip_ws_bounds_at_end(t: Seq<u8>, i: int, ws: bool)
    requires
        i == t.len(),
    ensures
        skip_ws(t, i, ws) == i,
{
}

/// `t` without its ASCII whitespace bytes.
pub open spec fn strip_ascii_ws(t: Seq<u8>) -> Seq<u8>
    decreases t.len(),
{
    if t.len() == 0 {
        Seq::empty()
    } else if is_ascii_ws(t[0]) {
        strip_ascii_ws(t.drop_first())
    } else {
        seq![t[0]] + strip_ascii_ws(t.drop_first())
    }
}

/// The decoded bytes of a decoding outcome, if it succeeded.
pub open spec fn ok_part(r: Result<Seq<u8>, ErrorModel>) -> Option<Seq<u8>> {
    match r {
        Ok(v) => Some(v),
        Err(_) => None,
    }
}

/// Whether plain digits decode, and to what, does not depend on what stands
/// before the first digit read.
proof fn lemma_unprefixed_shift(
    p: Seq<u8>,
    w: Seq<u8>,
    k: int,
    ws: bool,
    acc: Seq<u8>,
    pending: Option<u8>,
    count: nat,
)
    requires
        0 <= k,
    ensures
        ok_part(spec_unprefixed(p + w, p.len() + k, ws, acc, pending, count)) == ok_part(
            spec_unprefixed(w, k, ws, acc, pending, count),
        ),
    decreases w.len() - k,
{
    if k < w.len() {
        let b = w[k];
        assert((p + w)[p.len() + k] == b);
        if ws && is_ascii_ws(b) {
            lemma_unprefixed_shift(p, w, k + 1, ws, acc, pending, count);
        } else if spec_hex_value(b as u32) is Some {
            match pending {
                Some(high) => lemma_unprefixed_shift(
                    p,
                    w,
                    k + 1,
                    ws,
                    acc.push(pair_value(high, nibble(b))),
                    None,
                    count + 1,
                ),
                None => lemma_unprefixed_shift(
                    p,
                    w,
                    k + 1,
                    ws,
                    acc,
                    Some(nibble(b)),
                    count + 1,
                ),
            }
        }
    }
}

/// With whitespace ignored, plain digits from byte `i` on decode as the
/// same text with its whitespace removed.
proof fn lemma_unprefixed_strip(
    t: Seq<u8>,
    i: int,
    acc: Seq<u8>,
    pending: Option<u8>,
    count: nat,
)
    requires
        0 <= i <= t.len(),
    ensures
        ok_part(spec_unprefixed(t, i, true, acc, pending, count)) == ok_part(
            spec_unprefixed(strip_ascii_ws(t.subrange(i, t.len() as int)), 0, true, acc, pending, count),
        ),
    decreases t.len() - i,
{
    let u = t.subrange(i, t.len() as int);
    if i == t.len() {
        assert(u =~= Seq::<u8>::empty());
    } else {
        let b = t[i];
        assert(u[0] == b);
        let rest = t.subrange(i + 1, t.len() as int);
        assert(u.drop_first() =~= rest);
        if is_ascii_ws(b) {
            lemma_unprefixed_strip(t, i + 1, acc, pending, count);
        } else if spec_hex_value(b as u32) is Some {
            let stripped = strip_ascii_ws(u);
            assert(stripped == seq![b] + strip_ascii_ws(rest));
            assert(stripped[0] == b);
            let (acc2, pending2) = match pending {
                Some(high) => (acc.push(pair_value(high, nibble(b))), None::<u8>),
                None => (acc, Some(nibble(b))),
            };
            lemma_unprefixed_strip(t, i + 1, acc2, pending2, count + 1);
            lemma_unprefixed_shift(seq![b], strip_ascii_ws(rest), 0, true, acc2, pending2, count + 1);
            assert(spec_unprefixed(stripped, 0, true, acc, pending, count) == spec_unprefixed(
                stripped,
                1,
                true,
                acc2,
                pending2,
                count + 1,
            ));
        } else {
            let stripped = strip_ascii_ws(u);
            assert(stripped == seq![b] + strip_ascii_ws(rest));
            assert(stripped[0] == b);
        }
    }
}

/// With whitespace ignored and no prefix, per-byte prefix or separator,
/// a text decodes exactly when the text without its ASCII whitespace does,
/// and to the same bytes.
pub proof fn lemma_hex_ignored_whitespace(c: HexConfigModel, t: Seq<u8>)
    requires
        c.ignore_ascii_whitespace,
        nonempty_setting(c.prefix) is None,
        nonempty_setting(c.byte_prefix) is None,
        nonempty_setting(c.separator) is None,
    ensures
        ok_part(spec_hex_decode(c, t)) == ok_part(spec_hex_decode(c, strip_ascii_ws(t))),
{
    lemma_unprefixed_strip(t, 0, Seq::empty(), None, 0);
    assert(t.subrange(0, t.len() as int) =~= t);
}

} // verus!
