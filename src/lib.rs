//! An interpreter for an eight-symbol tape language: a lexer, a loop
//! resolver that pre-computes jump targets, and a one-instruction-at-a-time
//! execution engine over a fixed-size tape of byte cells.
pub mod cmd;
pub mod error;
pub mod resolve;
pub mod machine;
