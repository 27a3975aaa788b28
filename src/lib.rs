//! A lexer and recursive-descent parser for a small SQL-like statement language.
use vstd::prelude::*;

pub mod laws;
pub mod parser;
pub mod tokenizer;

verus! {

} // verus!
