//! Functions and types used to turn OVER text into values.

pub mod char_stream;
pub mod error;
pub mod includes;
pub mod parser;
pub mod util;

use crate::obj::Obj;
use crate::parse::char_stream::skip_ws_end;
use crate::parse::error::ParseError;
use vstd::prelude::*;

verus! {

/// Load an `Obj` from a &str. Includes are not resolved: one ends the parse with
/// `IncludeNeeded`.
pub fn load_from_str(contents: &str) -> (r: Result<Obj, ParseError>)
    ensures
        r matches Ok(o) ==> parser::text_read(contents@, None, Seq::empty(), None, o@),
        contents@.len() >= usize::MAX / 2 ==> (r matches Err(e) && e.kind is TooLong),
        contents@.len() < usize::MAX / 2 && skip_ws_end(contents@, 0, false) == contents@.len()
            ==> (r matches Ok(o) && o@.pairs.len() == 0 && o@.parent is None),
        r matches Ok(o) ==> crate::valid::wf_obj(o@),
        ({
            let start = skip_ws_end(contents@, 0, false);
            contents@.len() < usize::MAX / 2 && parser::simple_text(contents@, start, Seq::empty(), Seq::empty(), false)
                ==> (r matches Ok(o) && exists|gs: Seq<(Seq<char>, crate::value::ValueModel)>| parser::simple_fields_ok(
                contents@,
                start,
                0,
                o@.pairs,
                0,
                gs,
                false,
                o@.parent,
            ))
        }),
        ({
            let start = skip_ws_end(contents@, 0, false);
            contents@.len() < usize::MAX / 2 ==> (parser::simple_error_at(contents@, start, Seq::empty(), Seq::empty(), false, None, 1) matches Some(q) ==> (r
                matches Err(err) && parser::var_error_ok(
                parser::var_scan(contents@, q).0,
                contents@[q] == '@',
                crate::parse::char_stream::line_col(contents@, q as nat).0 as usize,
                crate::parse::char_stream::line_col(contents@, q as nat).1 as usize,
                Err::<crate::value::Value, crate::parse::error::ParseError>(err),
            )))
        }),
{
    parser::parse_obj_str(contents)
}

/// The maximum nesting depth of containers, includes and unary operators.
pub const MAX_DEPTH: usize = 64;

/// A unary operator that may precede a value.
#[derive(Debug, PartialEq, Eq, Structural, Clone, Copy)]
pub enum UnaryOp {
    Plus,
    Minus,
}

/// A binary operator between two values.
#[derive(Debug, PartialEq, Eq, Structural, Clone, Copy)]
pub enum BinaryOp {
    Plus,
    Minus,
    Mult,
    Div,
    Mod,
}

impl UnaryOp {
    /// The character that writes this operator.
    pub open spec fn spec_symbol(self) -> char {
        match self {
            UnaryOp::Plus => '+',
            UnaryOp::Minus => '-',
        }
    }

    /// The character that writes this operator.
    pub fn symbol(&self) -> (r: char)
        ensures
            r == self.spec_symbol(),
    {
        match self {
            UnaryOp::Plus => '+',
            UnaryOp::Minus => '-',
        }
    }
}

impl BinaryOp {
    /// The operator that `ch` writes, if any.
    pub open spec fn spec_get_op(ch: char) -> Option<BinaryOp> {
        if ch == '+' {
            Some(BinaryOp::Plus)
        } else if ch == '-' {
            Some(BinaryOp::Minus)
        } else if ch == '*' {
            Some(BinaryOp::Mult)
        } else if ch == '/' {
            Some(BinaryOp::Div)
        } else if ch == '%' {
            Some(BinaryOp::Mod)
        } else {
            None
        }
    }

    /// The character that writes this operator.
    pub open spec fn spec_symbol(self) -> char {
        match self {
            BinaryOp::Plus => '+',
            BinaryOp::Minus => '-',
            BinaryOp::Mult => '*',
            BinaryOp::Div => '/',
            BinaryOp::Mod => '%',
        }
    }

    /// Whether this operator binds tighter than `+` and `-`.
    pub open spec fn spec_is_priority(self) -> bool {
        self == BinaryOp::Mult || self == BinaryOp::Div || self == BinaryOp::Mod
    }

    /// Returns true for `*`, `/` and `%`, which bind tighter than `+` and `-`.
    pub fn is_priority(&self) -> (r: bool)
        ensures
            r == self.spec_is_priority(),
    {
        match self {
            BinaryOp::Mult | BinaryOp::Div | BinaryOp::Mod => true,
            _ => false,
        }
    }

    /// Is this a binary operator?
    pub fn is_op(ch: char) -> (r: bool)
        ensures
            r == util::spec_is_op(ch),
            r == Self::spec_get_op(ch).is_some(),
    {
        ch == '+' || ch == '-' || ch == '*' || ch == '/' || ch == '%'
    }

    /// Returns the operator written by `ch`, if any.
    pub fn get_op(ch: char) -> (r: Option<Self>)
        ensures
            r == Self::spec_get_op(ch),
            r matches Some(op) ==> op.spec_symbol() == ch,
    {
        if ch == '+' {
            Some(BinaryOp::Plus)
        } else if ch == '-' {
            Some(BinaryOp::Minus)
        } else if ch == '*' {
            Some(BinaryOp::Mult)
        } else if ch == '/' {
            Some(BinaryOp::Div)
        } else if ch == '%' {
            Some(BinaryOp::Mod)
        } else {
            None
        }
    }

    /// The character that writes this operator.
    pub fn symbol(&self) -> (r: char)
        ensures
            r == self.spec_symbol(),
    {
        match self {
            BinaryOp::Plus => '+',
            BinaryOp::Minus => '-',
            BinaryOp::Mult => '*',
            BinaryOp::Div => '/',
            BinaryOp::Mod => '%',
        }
    }
}

} // verus!
