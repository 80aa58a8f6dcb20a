//! Lexical analysis for a small scripting language: a single-pass,
//! maximal-munch scanner that turns source text into a flat sequence of
//! classified tokens, reporting lexical errors without ever aborting the scan.

pub mod error;
pub mod lox;
pub mod scanner;
pub mod token;
