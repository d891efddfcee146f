//! OVER: a data format similar to JSON with variables, includes, object parents and exact
//! rational numbers. This crate holds the verified core: the character stream, the lexical
//! rules, the type system, values and objects, and the parser.

pub mod bignum;
pub mod error;
pub mod obj;
pub mod parse;
pub mod text;
pub mod types;
pub mod valid;
pub mod value;
