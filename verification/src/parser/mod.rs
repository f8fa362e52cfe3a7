//! Lexing and parsing of source text.

pub mod ast;
pub mod grammar;
pub mod grammar_laws;
pub mod lexer;
pub mod lexer_laws;
pub mod parser;
pub mod printer;
pub mod reparse;
pub mod round_trip;
pub mod spelling;
pub mod written;
