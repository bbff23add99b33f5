//! Parser support shared by several codecs.

pub mod c_string_literal_parse_context;
pub mod literal_components;
pub mod parse_error;
pub mod percent_encoding_mode;

pub use literal_components::LiteralComponents;
pub use parse_error::{ParseError, ParseErrorModel};
pub use percent_encoding_mode::PercentEncodingMode;
