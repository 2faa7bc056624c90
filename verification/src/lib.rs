//! An Impcore front end: lexing, parsing, printing, static typing and the lazy
//! dependency graph that decides when a definition can be compiled.
use vstd::prelude::*;

pub mod ast;
pub mod cli;
pub mod compiler;
pub mod display;
pub mod env;
pub mod implib;
pub mod imports;
pub mod lazygraph;
pub mod lexer;
pub mod parse;
pub mod parser;
pub mod preprocessor;
pub mod text;
pub mod types;
pub mod uses;

verus! {

/// The name given to the parameters of library functions, which have none of their own.
pub const EXTERNAL_PARAM: env::Name = -1;

} // verus!
