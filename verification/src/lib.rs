//! A verified reader for djson documents: unsigned integers, strings with
//! JSON escapes, keywords, lists and maps of known keys, read from bytes;
//! and the string decoding, operators and error spans of its evaluator.
//!
//! The expression language is not part of this library. Parsing expressions
//! (`parse_expr` and the `if`, call, list and map forms) reads a token stream,
//! and evaluating a document (`evaluate_ast`, `evaluate_expr`, `destructure`)
//! works on document values, scopes, a standard library of functions and
//! floating-point numbers; the library defines none of these. What the
//! evaluator does with plain values is here, in [`eval`].

pub mod eval;
pub mod parser;
pub mod serde_de;
pub mod span;
pub mod test_utils;
mod text;

pub use crate::parser::error::{ParserError, ParserErrorKind};
pub use crate::parser::parse_str::ParsedStr;
pub use crate::parser::Parser;
pub use crate::serde_de::Deserializer;
