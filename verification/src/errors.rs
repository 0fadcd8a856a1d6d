//! The error taxonomy of the engine.
//!
//! Every grammar violation found during a parse is reported as a
//! [`ParseError`]: the kind of the first violation together with the
//! character offset at which it was found.  Mutation operations report a
//! bare [`ErrorKind`] (they have no offset).

use vstd::prelude::*;

verus! {

/// Everything that can go wrong while parsing a document or while
/// editing a value tree.
#[derive(Clone, Copy, Debug, PartialEq, Eq, Structural)]
pub enum ErrorKind {
    /// The input is empty or holds only whitespace where a value is owed.
    ExpectValue,
    /// The next token matches no production of the grammar.
    InvalidValue,
    /// Non-whitespace text follows the single top-level value.
    RootNotSingular,
    /// The input ended inside a string, before its closing quote.
    MissQuotationMark,
    /// A backslash is followed by no legal escape.
    InvalidStringEscape,
    /// A raw control character (codepoint below 0x20) inside a string.
    InvalidStringChar,
    /// A lone or out-of-order UTF-16 surrogate in a `\u` escape.
    InvalidUnicodeSurrogate,
    /// An array element or object member is followed by neither a comma
    /// nor the closing bracket.
    MissCommaOrSquareBracket,
    /// An object member does not begin with a string key.
    MissKey,
    /// An object key is not followed by a colon.
    MissColon,
    /// A number whose magnitude is beyond the range of a double.
    NumberTooLarge,
    /// An index-based mutation was asked past the end of an array.
    IndexOutOfRange,
}

/// The first grammar violation of a parse: its kind and the offset at
/// which it was detected.  Offsets count characters (Unicode scalar
/// values) from the start of the input, not bytes.
#[derive(Clone, Copy, Debug, PartialEq, Eq, Structural)]
pub struct ParseError {
    pub kind: ErrorKind,
    pub offset: usize,
}

} // verus!
