//! Why the `base64` crate rejected a text, as plain values, and the category
//! of each such rejection.

use vstd::prelude::*;

verus! {

/// A rejection by the `base64` crate's decoder, field for field.
#[derive(Debug, Clone, Copy, PartialEq, Eq, Structural)]
pub enum Base64DecodeError {
    /// A byte outside the alphabet (or a misplaced `=`) at an offset.
    InvalidByte(usize, u8),
    /// The number of symbols is invalid.
    InvalidLength(usize),
    /// The last symbol at an offset carries bits that would be discarded.
    InvalidLastSymbol(usize, u8),
    /// Padding is absent, unexpected or malformed for the engine.
    InvalidPadding,
}

/// Category of a Base64 decoding error.
#[derive(Debug, Clone, Copy, PartialEq, Eq, Structural)]
pub enum Base64ErrorKind {
    /// A byte outside the configured alphabet was encountered.
    InvalidByte,
    /// The number of Base64 symbols is invalid.
    InvalidLength,
    /// The final symbol contains bits that would be discarded.
    InvalidLastSymbol,
    /// Padding is absent, unexpected, or malformed for the configured engine.
    InvalidPadding,
}

impl Base64ErrorKind {
    /// Classifies a decoding error.
    pub fn from_decode_error(error: &Base64DecodeError) -> (r: Self)
        ensures
            r == match *error {
                Base64DecodeError::InvalidByte(..) => Base64ErrorKind::InvalidByte,
                Base64DecodeError::InvalidLength(..) => Base64ErrorKind::InvalidLength,
                Base64DecodeError::InvalidLastSymbol(..) => Base64ErrorKind::InvalidLastSymbol,
                Base64DecodeError::InvalidPadding => Base64ErrorKind::InvalidPadding,
            },
    {
        match error {
            Base64DecodeError::InvalidByte(_, _) => Base64ErrorKind::InvalidByte,
            Base64DecodeError::InvalidLength(_) => Base64ErrorKind::InvalidLength,
            Base64DecodeError::InvalidLastSymbol(_, _) => Base64ErrorKind::InvalidLastSymbol,
            Base64DecodeError::InvalidPadding => Base64ErrorKind::InvalidPadding,
        }
    }

    /// The input offset that the error carries, when it carries one.
    pub fn input_index(error: &Base64DecodeError) -> (r: Option<usize>)
        ensures
            r == match *error {
                Base64DecodeError::InvalidByte(index, _) => Some(index),
                Base64DecodeError::InvalidLastSymbol(index, _) => Some(index),
                _ => None::<usize>,
            },
    {
        match error {
            Base64DecodeError::InvalidByte(index, _) => Some(*index),
            Base64DecodeError::InvalidLastSymbol(index, _) => Some(*index),
            Base64DecodeError::InvalidLength(_) => None,
            Base64DecodeError::InvalidPadding => None,
        }
    }

    /// The offending symbol that the error carries, when it carries one.
    pub fn symbol(error: &Base64DecodeError) -> (r: Option<u8>)
        ensures
            r == match *error {
                Base64DecodeError::InvalidByte(_, symbol) => Some(symbol),
                Base64DecodeError::InvalidLastSymbol(_, symbol) => Some(symbol),
                _ => None::<u8>,
            },
    {
        match error {
            Base64DecodeError::InvalidByte(_, symbol) => Some(*symbol),
            Base64DecodeError::InvalidLastSymbol(_, symbol) => Some(*symbol),
            Base64DecodeError::InvalidLength(_) => None,
            Base64DecodeError::InvalidPadding => None,
        }
    }

    /// The invalid input length that the error carries, when it carries one.
    pub fn input_length(error: &Base64DecodeError) -> (r: Option<usize>)
        ensures
            r == match *error {
                Base64DecodeError::InvalidLength(length) => Some(length),
                _ => None::<usize>,
            },
    {
        match error {
            Base64DecodeError::InvalidLength(length) => Some(*length),
            Base64DecodeError::InvalidByte(_, _) => None,
            Base64DecodeError::InvalidLastSymbol(_, _) => None,
            Base64DecodeError::InvalidPadding => None,
        }
    }
}

} // verus!
