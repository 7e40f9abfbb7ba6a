//! Lexing: source text to a token stream.


pub mod lexer;
pub mod token;
