//! The Gorge language compiler: lexing, parsing, syntax highlighting, the
//! symbol table and declaration passes, the optimizer of intermediate code,
//! and the folding of constant annotation arguments.

pub mod text;
pub mod span;
pub mod lexer;
pub mod ast;
pub mod symbol;
pub mod compiler;
pub mod highlight;
pub mod progress;
pub mod cancellation;
pub mod parser;
pub mod ir;
pub mod optimizer;
pub mod constant;

use vstd::prelude::*;

verus! {
} // verus!
