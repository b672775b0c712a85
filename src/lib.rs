//! A glob engine for filesystem paths: a parser from pattern text to a syntax tree, a compiler
//! from the tree to bytecode, and a backtracking machine that runs the bytecode on a path.
use vstd::prelude::*;

pub mod compiler;
pub mod laws;
pub mod matcher;
pub mod parser;
pub mod path;
pub mod utf8;

verus! {

} // verus!
