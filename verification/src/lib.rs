//! A minimal interpreter for a Lisp-like language: a lexer, a parser with
//! single-level quoting, and a tree-walking evaluator over arbitrary-precision
//! integers and strings.

pub mod ast;
pub mod eval;
pub mod integer;
pub mod lexer;
pub mod parser;
pub mod spelling;
pub mod token;
