//! Decoder for reference texts: dash-separated groups written in a
//! sixteen-character alphabet, decoded into a typed record.
//!
//! The text is matched by small matchers composed into the format
//! "group, one or more times delimiter and group, end of input". Every
//! matcher comes with a function on sequences of characters that says what
//! it returns, and `parse_reference` with a statement of the format that
//! does not go through the matchers at all.

pub mod alphabet;
pub mod combinators;
pub mod grammar;
pub mod input;
pub mod parser;
pub mod primitives;
pub mod reference;

pub use crate::alphabet::char_to_number;
pub use crate::combinators::{left, one_or_more, pair, right};
pub use crate::grammar::create_reference_structure_parser;
pub use crate::parser::{ParseResult, Parser};
pub use crate::primitives::{dash, empty, encoded_group};
pub use crate::reference::{parse_reference, Reference};
