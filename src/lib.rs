//! Lexical analysis for a small subset of C: `int` and `return`, identifiers,
//! decimal integer literals, braces, parentheses and semicolons.
//!
//! The scanner is specified by `lexer::tokenize`, a function from the source
//! bytes to a token sequence or an error, and `lexer::lex` is proved to compute it.

pub mod source;
pub mod token;
pub mod lexer;
pub mod laws;
