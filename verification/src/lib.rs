//! Front end of a small statically checked Lisp: a span-tracking lexer and
//! parser, a lowering pass, a dependency orderer and a bidirectional type
//! checker, each with a machine-checked contract.

pub mod common;
pub mod parser;
pub mod semantic;
