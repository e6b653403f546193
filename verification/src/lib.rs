//! Strict JSON parsing and serialization over an explicit value tree.
//!
//! The parser is a verified recursive-descent engine over Unicode scalar
//! values with exact error positions; the serializer renders a tree back to
//! text in compact or pretty form.  Every executable function's behaviour is
//! pinned to a specification-level model of the same grammar.

pub mod laws;
pub mod num;
pub mod parse;
pub mod scan;
pub mod stringify;
pub mod value;

pub use num::Num;
pub use parse::{parse, ParseError, ParseErrorKind, ParseErrorPosition};
pub use value::Value;
