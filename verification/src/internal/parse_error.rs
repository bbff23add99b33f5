//! Parser outcome that separates a retryable stream tail from malformed input.

use crate::misc_codec_error::{DecodeFailure, DecodeFailureModel, ErrorModel, MiscCodecError};
use vstd::prelude::*;

verus! {

/// Distinguishes retryable stream tails from malformed codec input.
#[derive(Debug)]
pub enum ParseError {
    /// More input is required before a value can be decided.
    Incomplete {
        /// Total units required from the current value start.
        required: usize,
    },
    /// The input is malformed.
    Invalid(MiscCodecError),
}

/// Model of [`ParseError`].
pub enum ParseErrorModel {
    Incomplete { required: nat },
    Invalid(ErrorModel),
}

impl View for ParseError {
    type V = ParseErrorModel;

    open spec fn view(&self) -> ParseErrorModel {
        match self {
            ParseError::Incomplete { required } => ParseErrorModel::Incomplete {
                required: *required as nat,
            },
            ParseError::Invalid(e) => ParseErrorModel::Invalid(e@),
        }
    }
}

/// The decode failure that a parser outcome becomes when the malformed
/// value is known to span `consumed` units.
pub open spec fn spec_failure_with_consumed(e: ParseErrorModel, consumed: nat)
    -> DecodeFailureModel {
    match e {
        ParseErrorModel::Incomplete { required } => DecodeFailureModel::Incomplete {
            required_total: required,
        },
        ParseErrorModel::Invalid(source) => DecodeFailureModel::Invalid {
            source,
            consumed: Some(consumed),
        },
    }
}

impl ParseError {
    /// Converts a parser outcome while retaining a known invalid width.
    pub fn into_decode_failure_with_consumed(self, consumed: usize) -> (r: DecodeFailure)
        ensures
            r@ == spec_failure_with_consumed(self@, consumed as nat),
    {
        match self {
            ParseError::Incomplete { required } => DecodeFailure::Incomplete {
                required_total: required,
            },
            ParseError::Invalid(error) => DecodeFailure::Invalid {
                source: error,
                consumed: Some(consumed),
            },
        }
    }
}

} // verus!
