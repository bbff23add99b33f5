//! Percent encoding policy.

use vstd::prelude::*;

verus! {

/// Selects the unescaped character set and space handling for percent output.
#[derive(Debug, Clone, Copy, PartialEq, Eq, Structural)]
pub enum PercentEncodingMode {
    /// RFC 3986 unreserved characters.
    Rfc3986,
    /// WHATWG `application/x-www-form-urlencoded` characters.
    FormUrlencoded,
}

/// ASCII letters and digits.
pub open spec fn is_ascii_alphanumeric_byte(byte: u8) -> bool {
    (0x41 <= byte <= 0x5a) || (0x61 <= byte <= 0x7a) || (0x30 <= byte <= 0x39)
}

/// Bytes that `mode` emits literally.
pub open spec fn spec_is_unescaped(mode: PercentEncodingMode, byte: u8) -> bool {
    match mode {
        PercentEncodingMode::Rfc3986 => is_ascii_alphanumeric_byte(byte) || byte == 0x2d
            || byte == 0x2e || byte == 0x5f || byte == 0x7e,
        PercentEncodingMode::FormUrlencoded => is_ascii_alphanumeric_byte(byte) || byte == 0x2a
            || byte == 0x2d || byte == 0x2e || byte == 0x5f,
    }
}

/// Bytes that `mode` writes as `+`.
pub open spec fn spec_is_space_plus(mode: PercentEncodingMode, byte: u8) -> bool {
    mode == PercentEncodingMode::FormUrlencoded && byte == 0x20
}

impl PercentEncodingMode {
    /// Tests whether a byte may be emitted literally.
    pub fn is_unescaped(self, byte: u8) -> (r: bool)
        ensures
            r == spec_is_unescaped(self, byte),
    {
        // 'A'..='Z', 'a'..='z', '0'..='9'
        let alnum = (0x41 <= byte && byte <= 0x5a) || (0x61 <= byte && byte <= 0x7a) || (0x30
            <= byte && byte <= 0x39);
        match self {
            // '-', '.', '_', '~'
            PercentEncodingMode::Rfc3986 => alnum || byte == 0x2d || byte == 0x2e || byte == 0x5f
                || byte == 0x7e,
            // '*', '-', '.', '_'
            PercentEncodingMode::FormUrlencoded => alnum || byte == 0x2a || byte == 0x2d || byte
                == 0x2e || byte == 0x5f,
        }
    }

    /// Tests whether a byte is encoded as a form plus sign.
    pub fn is_space_plus(self, byte: u8) -> (r: bool)
        ensures
            r == spec_is_space_plus(self, byte),
    {
        match self {
            PercentEncodingMode::FormUrlencoded => byte == 0x20,
            PercentEncodingMode::Rfc3986 => false,
        }
    }
}

} // verus!
