//! Parsing context used by the C string literal codec.

use crate::internal::parse_error::{ParseError, ParseErrorModel};
use crate::misc_codec_error::{ErrorModel, MiscCodecError};
use crate::text_support::{
    decode_char_at, latin1_chars, latin1_string, spec_char_at, utf8_substring,
};
use vstd::prelude::*;
use vstd::string::*;
use vstd::utf8::*;

verus! {

broadcast use vstd::utf8::group_utf8_lib;

/// Parsing context for one C string literal unit.
#[derive(Debug, Clone, Copy)]
pub enum CStringLiteralParseContext<'a> {
    /// Parsing a complete UTF-8 literal fragment.
    CompleteText(&'a str),
    /// Parsing one byte value after EOF has been confirmed.
    EofBytes,
    /// Parsing one byte unit for a streaming codec caller.
    StreamingBytes,
}

/// Model of a parsing context; a complete text is the input itself.
pub enum ParseContextModel {
    CompleteText,
    EofBytes,
    StreamingBytes,
}

impl<'a> View for CStringLiteralParseContext<'a> {
    type V = ParseContextModel;

    open spec fn view(&self) -> ParseContextModel {
        match self {
            CStringLiteralParseContext::CompleteText(_) => ParseContextModel::CompleteText,
            CStringLiteralParseContext::EofBytes => ParseContextModel::EofBytes,
            CStringLiteralParseContext::StreamingBytes => ParseContextModel::StreamingBytes,
        }
    }
}

/// The context describes `input`: a complete text context holds the text
/// whose UTF-8 bytes are the input.
pub open spec fn context_describes<'a>(ctx: CStringLiteralParseContext<'a>, input: Seq<u8>) -> bool {
    match ctx {
        CStringLiteralParseContext::CompleteText(text) => text.spec_bytes() == input,
        _ => true,
    }
}

/// Character shown for the unit at `i`: in complete text, the whole character
/// that starts there; otherwise the byte read as a character.
pub open spec fn spec_source_character(ctx: ParseContextModel, input: Seq<u8>, i: int) -> char {
    match ctx {
        ParseContextModel::CompleteText => if is_char_boundary(input, i) {
            spec_char_at(input, i)
        } else {
            input[i] as char
        },
        _ => input[i] as char,
    }
}

/// Reason given for a raw unit that may not appear in a literal.
pub open spec fn spec_raw_source_reason(ctx: ParseContextModel) -> Seq<char> {
    match ctx {
        ParseContextModel::StreamingBytes =>
            "raw source byte must be printable ASCII or allowed whitespace"@,
        _ => "raw source character must be printable ASCII or allowed whitespace"@,
    }
}

/// Escape fragment shown for units `start..end`: in complete text the
/// characters of that range (or of the rest, or a lone backslash when the
/// range does not fall on character boundaries); otherwise the bytes.
pub open spec fn spec_escape_fragment(ctx: ParseContextModel, input: Seq<u8>, start: int, end: int)
    -> Seq<char> {
    match ctx {
        ParseContextModel::CompleteText => if 0 <= start <= end <= input.len()
            && is_char_boundary(input, start) && is_char_boundary(input, end) {
            decode_utf8(input.subrange(start, end))
        } else if 0 <= start <= input.len() && is_char_boundary(input, start) {
            decode_utf8(input.subrange(start, input.len() as int))
        } else {
            "\\"@
        },
        _ => latin1_chars(
            input.subrange(
                start,
                if end <= input.len() {
                    end
                } else {
                    input.len() as int
                },
            ),
        ),
    }
}

/// Outcome for a backslash at `i` with nothing after it.
pub open spec fn spec_trailing_escape_error(ctx: ParseContextModel, i: int) -> ParseErrorModel {
    match ctx {
        ParseContextModel::StreamingBytes => ParseErrorModel::Incomplete { required: 2 },
        _ => ParseErrorModel::Invalid(
            ErrorModel::InvalidEscape {
                index: i as nat,
                escape: "\\"@,
                reason: "incomplete escape sequence"@,
            },
        ),
    }
}

impl<'a> CStringLiteralParseContext<'a> {
    /// Tests whether parsing is for a complete text fragment.
    pub fn is_complete_text(self) -> (r: bool)
        ensures
            r == !(self@ is StreamingBytes),
    {
        match self {
            CStringLiteralParseContext::StreamingBytes => false,
            _ => true,
        }
    }

    /// Tests whether parsing is for an open stream.
    pub fn is_streaming(self) -> (r: bool)
        ensures
            r == (self@ is StreamingBytes),
    {
        match self {
            CStringLiteralParseContext::StreamingBytes => true,
            _ => false,
        }
    }

    /// Builds the outcome for a trailing escape marker.
    pub fn trailing_escape_error(self, marker_index: usize, _available: usize) -> (r: ParseError)
        ensures
            r@ == spec_trailing_escape_error(self@, marker_index as int),
    {
        match self {
            CStringLiteralParseContext::StreamingBytes => ParseError::Incomplete { required: 2 },
            _ => ParseError::Invalid(
                MiscCodecError::InvalidEscape {
                    index: marker_index,
                    escape: "\\".to_owned(),
                    reason: "incomplete escape sequence".to_owned(),
                },
            ),
        }
    }

    /// Gets the source character at a byte index for diagnostics.
    pub fn source_character(self, input: &[u8], index: usize) -> (r: char)
        requires
            context_describes(self, input@),
            index < input@.len(),
        ensures
            r == spec_source_character(self@, input@, index as int),
    {
        match self {
            CStringLiteralParseContext::CompleteText(text) => {
                if text.is_char_boundary(index) {
                    decode_char_at(input, index)
                } else {
                    input[index] as char
                }
            },
            _ => input[index] as char,
        }
    }

    /// Builds a raw source character rejection reason.
    pub fn raw_source_reason(self) -> (r: &'static str)
        ensures
            r@ == spec_raw_source_reason(self@),
    {
        match self {
            CStringLiteralParseContext::StreamingBytes =>
                "raw source byte must be printable ASCII or allowed whitespace",
            _ => "raw source character must be printable ASCII or allowed whitespace",
        }
    }

    /// Builds an escape fragment for diagnostics.
    pub fn escape_fragment(self, input: &[u8], start: usize, end: usize) -> (r: String)
        requires
            context_describes(self, input@),
            start <= end,
            start <= input@.len(),
        ensures
            r@ == spec_escape_fragment(self@, input@, start as int, end as int),
    {
        match self {
            CStringLiteralParseContext::CompleteText(text) => {
                if end <= input.len() && text.is_char_boundary(start) && text.is_char_boundary(
                    end,
                ) {
                    utf8_substring(input, start, end)
                } else if text.is_char_boundary(start) {
                    utf8_substring(input, start, input.len())
                } else {
                    "\\".to_owned()
                }
            },
            _ => {
                let bounded_end = if end <= input.len() {
                    end
                } else {
                    input.len()
                };
                latin1_string(vstd::slice::slice_subrange(input, start, bounded_end))
            },
        }
    }
}

} // verus!
