//! Front end of a small quantum-circuit description language: a lexer that
//! turns source text into a flat stream of classified tokens, and a parser
//! that maps that token stream onto a flat sequence of typed operations.

pub mod lexer;
pub mod parser;
