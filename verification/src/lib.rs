//! A small expression language: a lexer, a parser and an evaluator for
//! 64-bit integer and boolean expressions, each specified by a mathematical
//! model and verified against it.
pub mod ast;
pub mod error;
pub mod eval;
pub mod lexer;
pub mod parser;
pub mod runner;
