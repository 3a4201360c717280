//! Arithmetic expressions: a lexer from text to tokens and a
//! recursive-descent parser from tokens to an abstract syntax tree.
pub mod laws;
pub mod lexer;
pub mod parser;
