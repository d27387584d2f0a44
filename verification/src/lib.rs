//! An interactive line-oriented command language: each logical line names a
//! starting value, looked up in a mutable scope, and pipes it through zero or
//! more parenthesized inputs, each input invoking the current value as a
//! command.
//!
//! The parser turns raw source text into a positioned syntax tree with exact
//! error locations; the interpreter resolves names, threads values through a
//! call chain, and reports runtime errors against source positions.

pub mod interpreter;
pub mod laws;
pub mod objects;
pub mod parser;

use vstd::prelude::*;

verus! {

} // verus!
