//! Radix and digits of a C integer literal.

use crate::misc_codec_error::{ErrorModel, MiscCodecError, MiscCodecResult};
use crate::text_support::{next_char, str_slice, utf8_len};
use vstd::prelude::*;
use vstd::utf8::*;

verus! {

/// Error for a literal that the C integer codec rejects as a whole.
pub open spec fn invalid_c_integer_model(reason: Seq<char>) -> ErrorModel {
    ErrorModel::InvalidInput { codec: "c-integer-literal"@, reason }
}

/// Radix, prefix length and digits of trimmed literal text `t`: `0x` or
/// `0X` selects hexadecimal, a leading `0` before more text selects octal,
/// anything else is decimal.
pub open spec fn literal_parts(t: Seq<char>) -> Result<(u32, nat, Seq<char>), ErrorModel> {
    if t.len() >= 2 && t[0] == '0' && (t[1] == 'x' || t[1] == 'X') {
        if t.len() == 2 {
            Err(invalid_c_integer_model("hexadecimal literal requires at least one digit"@))
        } else {
            Ok((16u32, 2nat, t.skip(2)))
        }
    } else if t.len() > 1 && t[0] == '0' {
        Ok((8u32, 1nat, t.skip(1)))
    } else {
        Ok((10u32, 0nat, t))
    }
}

/// Radix and digit text extracted from a C integer literal.
#[derive(Debug, Clone, Copy)]
pub struct LiteralComponents<'a> {
    /// Radix selected by the literal prefix.
    pub radix: u32,
    /// Digits without the radix prefix.
    pub digits: &'a str,
    /// Byte offset of the first digit in the original input.
    pub digits_offset: usize,
}

impl<'a> LiteralComponents<'a> {
    /// Splits trimmed literal text, found at byte `trim_offset` of the
    /// input, into radix and digits; a radix prefix with no digit after it
    /// is rejected.
    pub fn parse(trimmed: &'a str, trim_offset: usize) -> (r: MiscCodecResult<Self>)
        requires
            trim_offset + utf8_len(trimmed@) <= usize::MAX,
        ensures
            match literal_parts(trimmed@) {
                Ok((radix, prefix, digits)) => r matches Ok(c) && c.radix == radix && c.digits@
                    == digits && c.digits_offset == trim_offset + prefix && c.digits_offset
                    + utf8_len(digits) == trim_offset + utf8_len(trimmed@),
                Err(e) => r matches Err(err) && err@ == e,
            },
    {
        let ghost t = trimmed@;
        let n = trimmed.len();
        proof {
            assert(t.take(0) =~= Seq::<char>::empty());
            assert(t.take(t.len() as int) =~= t);
            assert(n == utf8_len(t));
        }
        if n >= 2 {
            assert(t.len() > 0);
            let (c0, i1) = next_char(trimmed, 0, Ghost(0));
            if c0 == '0' {
                assert(i1 == 1);
                proof {
                    if t.len() == 1 {
                        assert(t.take(1) =~= t);
                    }
                }
                assert(t.len() >= 2);
                let (c1, i2) = next_char(trimmed, i1, Ghost(1));
                if c1 == 'x' || c1 == 'X' {
                    assert(i2 == 2);
                    if i2 == n {
                        proof {
                            if t.len() > 2 {
                                crate::text_support::lemma_utf8_len_strict(t, 2);
                            }
                        }
                        return Err(MiscCodecError::InvalidInput {
                            codec: "c-integer-literal",
                            reason: "hexadecimal literal requires at least one digit".to_owned(),
                        });
                    }
                    proof {
                        if t.len() == 2 {
                            assert(t.take(2) =~= t);
                        }
                    }
                    let digits = str_slice(trimmed, 2, n, Ghost(2), Ghost(t.len() as int));
                    proof {
                        assert(t.subrange(2, t.len() as int) =~= t.skip(2));
                        crate::text_support::lemma_encode_utf8_split(t, 2);
                    }
                    return Ok(LiteralComponents { radix: 16, digits, digits_offset: trim_offset + 2 });
                }
                let digits = str_slice(trimmed, 1, n, Ghost(1), Ghost(t.len() as int));
                proof {
                    assert(t.subrange(1, t.len() as int) =~= t.skip(1));
                    crate::text_support::lemma_encode_utf8_split(t, 1);
                }
                return Ok(LiteralComponents { radix: 8, digits, digits_offset: trim_offset + 1 });
            }
        }
        proof {
            crate::text_support::lemma_utf8_len_at_least(t);
        }
        Ok(LiteralComponents { radix: 10, digits: trimmed, digits_offset: trim_offset })
    }
}

} // verus!
