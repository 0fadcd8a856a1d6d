//! A verified JSON document engine.
//!
//! The library parses a text buffer into an in-memory value tree, lets the
//! caller inspect and mutate that tree, and renders it back to canonical
//! minified JSON text.  Every executable function carries a contract that
//! relates it to the mathematical model in [`model`]: the serializer is
//! proved equal to the spec-level rendering function, and the parser is
//! proved equal to a spec-level recursive-descent parser, so its whole
//! error taxonomy is pinned down.

pub mod api;
pub mod convert;
pub mod cursor;
pub mod errors;
pub mod laws;
pub mod model;
pub mod parser;
pub mod serializer;
pub mod text;
pub mod value;

pub use cursor::LeptContext;
pub use cursor::ISDIGIT;
pub use cursor::lept_parse_whitespace;
pub use errors::ErrorKind;
pub use errors::ParseError;
pub use parser::parse;
pub use value::Member;
pub use value::Value;
pub use value::ValueKind;
