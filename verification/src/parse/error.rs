//! Errors of the parser.

use crate::bignum::Int;
use crate::error::OverError;
use crate::parse::{BinaryOp, UnaryOp};
use crate::types::Type;
use vstd::prelude::*;

verus! {

/// What went wrong while parsing, and where (line, then column).
#[derive(Debug)]
pub enum ParseErrorKind {
    /// An operator applied to two values of types it does not take.
    BinaryOperatorError(Type, Type, BinaryOp, usize, usize),
    /// A file that includes itself, directly or through other files.
    CyclicInclude(String, usize, usize),
    /// A field defined twice in one object.
    DuplicateField(String, usize, usize),
    /// A global variable defined twice.
    DuplicateGlobal(String, usize, usize),
    /// A value of another type than expected: the expected type, then the found one.
    ExpectedType(Type, Type, usize, usize),
    /// A global variable that is not defined.
    GlobalNotFound(String, usize, usize),
    /// A closing bracket that does not close what is open (the bracket expected, if any).
    InvalidClosingBracket(Option<char>, char, usize, usize),
    /// A dot after a value that cannot be indexed.
    InvalidDot(Type, usize, usize),
    /// A backslash followed by a character that is not an escape.
    InvalidEscapeChar(char, usize, usize),
    /// A character that cannot appear in a field name.
    InvalidFieldChar(char, usize, usize),
    /// A field name that is reserved or malformed.
    InvalidFieldName(String, usize, usize),
    /// An include path that does not name a readable file.
    InvalidIncludePath(String, usize, usize),
    /// An include token of a type that cannot be included.
    InvalidIncludeToken(Type, usize, usize),
    /// An index that does not fit in a `usize`.
    InvalidIndex(Int, usize, usize),
    /// A malformed number, or a division by zero.
    InvalidNumeric(usize, usize),
    /// A word that is not a value.
    InvalidValue(String, usize, usize),
    /// A character that cannot start or continue a value.
    InvalidValueChar(char, usize, usize),
    /// Containers nested deeper than the maximum depth.
    MaxDepth(usize, usize),
    /// An error from reading a value, at the place of the value.
    Over(OverError, usize, usize),
    /// A unary operator applied to a value of a type it does not take.
    UnaryOperatorError(Type, UnaryOp, usize, usize),
    /// The input ended inside a value, an object, an array or a tuple.
    UnexpectedEnd(usize),
    /// A variable that is not defined in the current object.
    VariableNotFound(String, usize, usize),
    /// The input holds more characters than can be counted.
    TooLong,
    /// The include with this path, written in the file named first (if any), has to be
    /// resolved before parsing can go on.
    IncludeNeeded(Option<String>, String),
}

/// An error of the parser, with the file it happened in (if any).
#[derive(Debug)]
pub struct ParseError {
    pub file: Option<String>,
    pub kind: ParseErrorKind,
}

} // verus!
