//! Re-export of the object type under its own module name.

pub use crate::value::{Obj, Pair};
