//! Shared codec error type and the failure reported by one-unit decoders.

use crate::text_support::{decimal_chars, push_char, push_decimal};
use std::string::FromUtf8Error;
use vstd::prelude::*;

verus! {

/// The standard library's error for bytes that are not valid UTF-8.
#[verifier::external_type_specification]
#[verifier::external_body]
pub struct ExFromUtf8Error(FromUtf8Error);

/// Result alias returned by codec operations.
pub type MiscCodecResult<T> = Result<T, MiscCodecError>;

/// Error returned by codec operations.
#[derive(Debug)]
pub enum MiscCodecError {
    /// Input ended before a complete codec value was available.
    Incomplete {
        /// Total units required from the current decode start.
        required: usize,
        /// Units currently available from the current decode start.
        available: usize,
    },
    /// A configured prefix was required but missing.
    MissingPrefix {
        /// Required prefix.
        prefix: String,
    },
    /// Input contained a digit that is invalid for the requested radix.
    InvalidDigit {
        /// Numeric radix expected by the codec.
        radix: u32,
        /// Character byte index in the original input.
        index: usize,
        /// Invalid character.
        character: char,
    },
    /// Input length does not satisfy a codec requirement.
    InvalidLength {
        /// Human-readable input part whose length was invalid.
        context: &'static str,
        /// Human-readable length requirement.
        expected: String,
        /// Actual length observed by the codec.
        actual: usize,
    },
    /// Input contained a malformed or unsupported escape sequence.
    InvalidEscape {
        /// Byte index of the escape marker in the original input.
        index: usize,
        /// Escape sequence fragment that caused the error.
        escape: String,
        /// Human-readable reason the escape was rejected.
        reason: String,
    },
    /// Input contained a character that cannot appear in that context.
    InvalidCharacter {
        /// Character byte index in the original input.
        index: usize,
        /// Invalid character.
        character: char,
        /// Human-readable reason the character was rejected.
        reason: String,
    },
    /// Input was rejected by a codec-specific validator.
    InvalidInput {
        /// Stable codec name, such as `base64`.
        codec: &'static str,
        /// Human-readable reason reported by the codec.
        reason: String,
    },
    /// Decoded bytes were not valid UTF-8.
    InvalidUtf8 {
        /// Underlying UTF-8 conversion error.
        source: FromUtf8Error,
    },
}

/// Mathematical model of [`MiscCodecError`]: every text field is seen as its
/// character sequence; the UTF-8 source error is seen only by its variant.
pub enum ErrorModel {
    Incomplete { required: nat, available: nat },
    MissingPrefix { prefix: Seq<char> },
    InvalidDigit { radix: u32, index: nat, character: char },
    InvalidLength { context: Seq<char>, expected: Seq<char>, actual: nat },
    InvalidEscape { index: nat, escape: Seq<char>, reason: Seq<char> },
    InvalidCharacter { index: nat, character: char, reason: Seq<char> },
    InvalidInput { codec: Seq<char>, reason: Seq<char> },
    InvalidUtf8,
}

impl View for MiscCodecError {
    type V = ErrorModel;

    open spec fn view(&self) -> ErrorModel {
        match self {
            MiscCodecError::Incomplete { required, available } => ErrorModel::Incomplete {
                required: *required as nat,
                available: *available as nat,
            },
            MiscCodecError::MissingPrefix { prefix } => ErrorModel::MissingPrefix {
                prefix: prefix@,
            },
            MiscCodecError::InvalidDigit { radix, index, character } => ErrorModel::InvalidDigit {
                radix: *radix,
                index: *index as nat,
                character: *character,
            },
            MiscCodecError::InvalidLength { context, expected, actual } =>
                ErrorModel::InvalidLength {
                context: context@,
                expected: expected@,
                actual: *actual as nat,
            },
            MiscCodecError::InvalidEscape { index, escape, reason } => ErrorModel::InvalidEscape {
                index: *index as nat,
                escape: escape@,
                reason: reason@,
            },
            MiscCodecError::InvalidCharacter { index, character, reason } =>
                ErrorModel::InvalidCharacter {
                index: *index as nat,
                character: *character,
                reason: reason@,
            },
            MiscCodecError::InvalidInput { codec, reason } => ErrorModel::InvalidInput {
                codec: codec@,
                reason: reason@,
            },
            MiscCodecError::InvalidUtf8 { .. } => ErrorModel::InvalidUtf8,
        }
    }
}

/// Text of a string as `{:?}` formats it: quoted, with special characters
/// escaped.
pub uninterp spec fn str_debug(s: Seq<char>) -> Seq<char>;

/// Formats `s` with `{:?}`; the result is named by `str_debug`.
#[verifier::external_body]
fn debug_str(s: &str) -> (r: String)
    ensures
        r@ == str_debug(s@),
{
    format!("{:?}", s)
}

/// Formats a UTF-8 conversion error with `{}`. The text depends on where
/// the bytes went wrong, which the opaque error does not show; nothing is
/// stated of it.
#[verifier::external_body]
fn utf8_error_text(error: &FromUtf8Error) -> (r: String) {
    error.to_string()
}

/// The message of an error; for `InvalidUtf8` only its fixed beginning, to
/// which the conversion error's own message is appended.
pub open spec fn error_text(e: ErrorModel) -> Seq<char> {
    match e {
        ErrorModel::Incomplete { required, available } => "incomplete input: required "@
            + decimal_chars(required) + " units, available "@ + decimal_chars(available),
        ErrorModel::MissingPrefix { prefix } => "missing required prefix '"@ + prefix + "'"@,
        ErrorModel::InvalidDigit { radix, index, character } => "invalid radix-"@ + decimal_chars(
            radix as nat,
        ) + " digit '"@ + seq![character] + "' at index "@ + decimal_chars(index),
        ErrorModel::InvalidLength { context, expected, actual } => "invalid length for "@
            + context + ": expected "@ + expected + ", got "@ + decimal_chars(actual),
        ErrorModel::InvalidEscape { index, escape, reason } => "invalid escape "@ + str_debug(
            escape,
        ) + " at index "@ + decimal_chars(index) + ": "@ + reason,
        ErrorModel::InvalidCharacter { index, character, reason } => "invalid character '"@
            + seq![character] + "' at index "@ + decimal_chars(index) + ": "@ + reason,
        ErrorModel::InvalidInput { codec, reason } => "invalid "@ + codec + " input: "@ + reason,
        ErrorModel::InvalidUtf8 => "decoded bytes are not valid UTF-8: "@,
    }
}

impl MiscCodecError {
    /// The human-readable message of this error.
    pub fn to_string(&self) -> (r: String)
        ensures
            !(self@ is InvalidUtf8) ==> r@ == error_text(self@),
            self@ is InvalidUtf8 ==> error_text(self@).is_prefix_of(r@),
    {
        let mut out = String::new();
        match self {
            MiscCodecError::Incomplete { required, available } => {
                out.append("incomplete input: required ");
                push_decimal(&mut out, *required);
                out.append(" units, available ");
                push_decimal(&mut out, *available);
                proof {
                    reveal_strlit("incomplete input: required ");
                    reveal_strlit(" units, available ");
                }
            },
            MiscCodecError::MissingPrefix { prefix } => {
                out.append("missing required prefix '");
                out.append(prefix.as_str());
                out.append("'");
                proof {
                    reveal_strlit("missing required prefix '");
                    reveal_strlit("'");
                }
            },
            MiscCodecError::InvalidDigit { radix, index, character } => {
                out.append("invalid radix-");
                push_decimal(&mut out, *radix as usize);
                out.append(" digit '");
                push_char(&mut out, *character);
                out.append("' at index ");
                push_decimal(&mut out, *index);
                proof {
                    reveal_strlit("invalid radix-");
                    reveal_strlit(" digit '");
                    reveal_strlit("' at index ");
                }
            },
            MiscCodecError::InvalidLength { context, expected, actual } => {
                out.append("invalid length for ");
                out.append(context);
                out.append(": expected ");
                out.append(expected.as_str());
                out.append(", got ");
                push_decimal(&mut out, *actual);
                proof {
                    reveal_strlit("invalid length for ");
                    reveal_strlit(": expected ");
                    reveal_strlit(", got ");
                }
            },
            MiscCodecError::InvalidEscape { index, escape, reason } => {
                out.append("invalid escape ");
                let quoted = debug_str(escape.as_str());
                out.append(quoted.as_str());
                out.append(" at index ");
                push_decimal(&mut out, *index);
                out.append(": ");
                out.append(reason.as_str());
                proof {
                    reveal_strlit("invalid escape ");
                    reveal_strlit(" at index ");
                    reveal_strlit(": ");
                }
            },
            MiscCodecError::InvalidCharacter { index, character, reason } => {
                out.append("invalid character '");
                push_char(&mut out, *character);
                out.append("' at index ");
                push_decimal(&mut out, *index);
                out.append(": ");
                out.append(reason.as_str());
                proof {
                    reveal_strlit("invalid character '");
                    reveal_strlit("' at index ");
                    reveal_strlit(": ");
                }
            },
            MiscCodecError::InvalidInput { codec, reason } => {
                out.append("invalid ");
                out.append(codec);
                out.append(" input: ");
                out.append(reason.as_str());
                proof {
                    reveal_strlit("invalid ");
                    reveal_strlit(" input: ");
                }
            },
            MiscCodecError::InvalidUtf8 { source } => {
                out.append("decoded bytes are not valid UTF-8: ");
                let detail = utf8_error_text(source);
                let ghost head = out@;
                out.append(detail.as_str());
                proof {
                    reveal_strlit("decoded bytes are not valid UTF-8: ");
                    assert(out@.subrange(0, head.len() as int) =~= head);
                }
            },
        }
        proof {
            if !(self@ is InvalidUtf8) {
                assert(out@ =~= error_text(self@));
            }
        }
        out
    }

    /// The UTF-8 conversion error that caused this error, if any.
    pub fn source(&self) -> (r: Option<&FromUtf8Error>)
        ensures
            match self {
                MiscCodecError::InvalidUtf8 { source } => r == Some(source),
                _ => r is None,
            },
    {
        match self {
            MiscCodecError::InvalidUtf8 { source } => Some(source),
            _ => None,
        }
    }
}

impl From<FromUtf8Error> for MiscCodecError {
    /// Wraps a UTF-8 conversion error.
    fn from(source: FromUtf8Error) -> (r: Self) {
        MiscCodecError::InvalidUtf8 { source }
    }
}

impl vstd::std_specs::convert::FromSpecImpl<FromUtf8Error> for MiscCodecError {
    open spec fn obeys_from_spec() -> bool {
        true
    }

    open spec fn from_spec(source: FromUtf8Error) -> MiscCodecError {
        MiscCodecError::InvalidUtf8 { source }
    }
}

/// Failure reported by a decoder that reads one value (or one quantum) from
/// a unit buffer.
#[derive(Debug)]
pub enum DecodeFailure {
    /// More units are needed; `required_total` counts from the value start.
    Incomplete {
        /// Total units required from the current value start.
        required_total: usize,
    },
    /// The units are malformed.
    Invalid {
        /// The codec error describing the malformed units.
        source: MiscCodecError,
        /// Number of units that belong to the malformed value, when known.
        consumed: Option<usize>,
    },
}

/// Model of [`DecodeFailure`].
pub enum DecodeFailureModel {
    Incomplete { required_total: nat },
    Invalid { source: ErrorModel, consumed: Option<nat> },
}

impl View for DecodeFailure {
    type V = DecodeFailureModel;

    open spec fn view(&self) -> DecodeFailureModel {
        match self {
            DecodeFailure::Incomplete { required_total } => DecodeFailureModel::Incomplete {
                required_total: *required_total as nat,
            },
            DecodeFailure::Invalid { source, consumed } => DecodeFailureModel::Invalid {
                source: source@,
                consumed: match consumed {
                    Some(c) => Some(*c as nat),
                    None => None,
                },
            },
        }
    }
}

/// Converts a codec error into a one-unit decode failure of known width: an
/// `Incomplete` error keeps only the required unit count.
pub fn map_misc_decode_failure_with_consumed(error: MiscCodecError, consumed: usize) -> (r:
    DecodeFailure)
    ensures
        match error {
            MiscCodecError::Incomplete { required, .. } => r@ == DecodeFailureModel::Incomplete {
                required_total: required as nat,
            },
            _ => r@ == DecodeFailureModel::Invalid {
                source: error@,
                consumed: Some(consumed as nat),
            },
        },
{
    match error {
        MiscCodecError::Incomplete { required, .. } => DecodeFailure::Incomplete {
            required_total: required,
        },
        error => DecodeFailure::Invalid { source: error, consumed: Some(consumed) },
    }
}

} // verus!

verus! {

/// Model of a codec result: the value's view, or the error's model.
pub open spec fn result_model<T: View>(r: Result<T, MiscCodecError>) -> Result<T::V, ErrorModel> {
    match r {
        Ok(v) => Ok(v@),
        Err(e) => Err(e@),
    }
}

} // verus!
