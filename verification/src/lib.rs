//! An interactive reverse-Polish-notation evaluator over a small tower of
//! real and complex double-precision values, with user-defined macros.
//!
//! Raw input is split on spaces and lower-cased; macro names are substituted
//! to a fixed point against a validated table; the resulting words run
//! left to right against an operand stack.

pub mod data;
pub mod eval;
pub mod scalar;
pub mod table;
pub mod words;

pub use crate::data::Data;
pub use crate::eval::{evaluate, run};
pub use crate::table::{MacroDef, MacroError, MacroExpansionDivergence, MacroFault, MacroTable};

use vstd::prelude::*;

verus! {

} // verus!
