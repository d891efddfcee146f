//! Errors of the library.

use crate::types::Type;
use vstd::prelude::*;

verus! {

/// Errors from reading values out of objects, arrays and tuples.
#[derive(Debug)]
pub enum OverError {
    /// An array index at or past the end of the array.
    ArrOutOfBounds(usize),
    /// A field that neither the object nor its parents hold.
    FieldNotFound(String),
    /// A field name that is not valid.
    InvalidFieldName(String),
    /// A tuple index at or past the end of the tuple.
    TupOutOfBounds(usize),
    /// A value of another type than the one asked for: the expected type, then the found one.
    TypeMismatch(Type, Type),
}

} // verus!
