//! Front end of a small interpreted language: a scanner that turns source text into
//! tokens and a recursive-descent parser that turns tokens into statements.

pub mod lexer;
pub mod parser;
pub mod relex;
