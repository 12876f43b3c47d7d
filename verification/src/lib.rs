//! A small expression language: a lexer that turns source text into tokens,
//! a precedence-climbing parser that builds an abstract syntax tree, and a
//! tree-walking evaluator with closures and copied environments.

pub mod lexer;
pub mod parser;
pub mod interpreter;
