//! Front end of a small scripting language: a byte scanner that turns source
//! text into tokens, and a recursive-descent builder that turns tokens into a
//! syntax tree. Every function is verified against a mathematical model of
//! what it computes.

pub mod text;
pub mod words;
pub mod scan;
pub mod lexer;
pub mod grammar;
pub mod ast;
