//! Configuration shared by hexadecimal byte codecs.

use vstd::prelude::*;

verus! {

/// Configuration of [`crate::HexCodec`]: digit case, whole-output prefix,
/// per-byte prefix, separator, and the decoding tolerances.
#[derive(Debug, Clone, PartialEq, Eq)]
pub struct HexCodecConfig {
    /// Whether to use uppercase hexadecimal digits while encoding.
    uppercase: bool,
    /// The prefix to use before the whole encoded string.
    prefix: Option<String>,
    /// The prefix to use before each encoded byte.
    byte_prefix: Option<String>,
    /// The separator to use between bytes in the encoded string.
    separator: Option<String>,
    /// Whether to ignore ASCII whitespace while decoding.
    ignore_ascii_whitespace: bool,
    /// Whether to ignore ASCII case when matching configured prefixes.
    ignore_prefix_case: bool,
}

/// Model of [`HexCodecConfig`]: text settings are seen as characters.
pub struct HexConfigModel {
    pub uppercase: bool,
    pub prefix: Option<Seq<char>>,
    pub byte_prefix: Option<Seq<char>>,
    pub separator: Option<Seq<char>>,
    pub ignore_ascii_whitespace: bool,
    pub ignore_prefix_case: bool,
}

/// Characters of an optional text setting.
pub open spec fn opt_text(s: Option<String>) -> Option<Seq<char>> {
    match s {
        Some(t) => Some(t@),
        None => None,
    }
}

impl View for HexCodecConfig {
    type V = HexConfigModel;

    closed spec fn view(&self) -> HexConfigModel {
        HexConfigModel {
            uppercase: self.uppercase,
            prefix: opt_text(self.prefix),
            byte_prefix: opt_text(self.byte_prefix),
            separator: opt_text(self.separator),
            ignore_ascii_whitespace: self.ignore_ascii_whitespace,
            ignore_prefix_case: self.ignore_prefix_case,
        }
    }
}

/// The lowercase configuration without prefixes or separators.
pub open spec fn default_hex_config() -> HexConfigModel {
    HexConfigModel {
        uppercase: false,
        prefix: None,
        byte_prefix: None,
        separator: None,
        ignore_ascii_whitespace: false,
        ignore_prefix_case: false,
    }
}

/// Borrows an optional text setting.
fn opt_as_str(s: &Option<String>) -> (r: Option<&str>)
    ensures
        match s {
            Some(t) => r matches Some(v) && v@ == t@,
            None => r is None,
        },
{
    match s {
        Some(t) => Some(t.as_str()),
        None => None,
    }
}

impl HexCodecConfig {
    /// Creates a lowercase configuration without prefixes or separators.
    pub fn new() -> (r: Self)
        ensures
            r@ == default_hex_config(),
    {
        HexCodecConfig {
            uppercase: false,
            prefix: None,
            byte_prefix: None,
            separator: None,
            ignore_ascii_whitespace: false,
            ignore_prefix_case: false,
        }
    }

    /// Sets whether encoded digits should be uppercase.
    pub fn with_uppercase(self, uppercase: bool) -> (r: Self)
        ensures
            r@ == (HexConfigModel { uppercase, ..self@ }),
    {
        HexCodecConfig { uppercase, ..self }
    }

    /// Sets a whole-output prefix.
    pub fn with_prefix(self, prefix: &str) -> (r: Self)
        ensures
            r@ == (HexConfigModel { prefix: Some(prefix@), ..self@ }),
    {
        HexCodecConfig { prefix: Some(prefix.to_owned()), ..self }
    }

    /// Sets a per-byte prefix.
    pub fn with_byte_prefix(self, prefix: &str) -> (r: Self)
        ensures
            r@ == (HexConfigModel { byte_prefix: Some(prefix@), ..self@ }),
    {
        HexCodecConfig { byte_prefix: Some(prefix.to_owned()), ..self }
    }

    /// Sets a separator between encoded bytes.
    pub fn with_separator(self, separator: &str) -> (r: Self)
        ensures
            r@ == (HexConfigModel { separator: Some(separator@), ..self@ }),
    {
        HexCodecConfig { separator: Some(separator.to_owned()), ..self }
    }

    /// Sets whether ASCII whitespace is ignored while decoding.
    pub fn with_ignored_ascii_whitespace(self, ignore: bool) -> (r: Self)
        ensures
            r@ == (HexConfigModel { ignore_ascii_whitespace: ignore, ..self@ }),
    {
        HexCodecConfig { ignore_ascii_whitespace: ignore, ..self }
    }

    /// Sets whether configured prefixes are matched case-insensitively.
    pub fn with_ignore_prefix_case(self, ignore: bool) -> (r: Self)
        ensures
            r@ == (HexConfigModel { ignore_prefix_case: ignore, ..self@ }),
    {
        HexCodecConfig { ignore_prefix_case: ignore, ..self }
    }

    /// Returns whether encoded digits use uppercase characters.
    pub fn is_uppercase(&self) -> (r: bool)
        ensures
            r == self@.uppercase,
    {
        self.uppercase
    }

    /// Returns the configured whole-output prefix.
    pub fn prefix(&self) -> (r: Option<&str>)
        ensures
            match self@.prefix {
                Some(p) => r matches Some(v) && v@ == p,
                None => r is None,
            },
    {
        opt_as_str(&self.prefix)
    }

    /// Returns the configured per-byte prefix.
    pub fn byte_prefix(&self) -> (r: Option<&str>)
        ensures
            match self@.byte_prefix {
                Some(p) => r matches Some(v) && v@ == p,
                None => r is None,
            },
    {
        opt_as_str(&self.byte_prefix)
    }

    /// Returns the configured separator.
    pub fn separator(&self) -> (r: Option<&str>)
        ensures
            match self@.separator {
                Some(p) => r matches Some(v) && v@ == p,
                None => r is None,
            },
    {
        opt_as_str(&self.separator)
    }

    /// Returns whether ASCII whitespace is ignored while decoding.
    pub fn ignores_ascii_whitespace(&self) -> (r: bool)
        ensures
            r == self@.ignore_ascii_whitespace,
    {
        self.ignore_ascii_whitespace
    }

    /// Returns whether configured prefixes are matched case-insensitively.
    pub fn ignores_prefix_case(&self) -> (r: bool)
        ensures
            r == self@.ignore_prefix_case,
    {
        self.ignore_prefix_case
    }
}

impl Default for HexCodecConfig {
    fn default() -> (r: Self)
        ensures
            r@ == default_hex_config(),
    {
        HexCodecConfig::new()
    }
}

} // verus!
