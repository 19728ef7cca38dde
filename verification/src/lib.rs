//! A verified lexical scanner for a small concatenative, stack-based
//! scripting language: it walks the input byte by byte and produces a flat
//! sequence of typed tokens, or reports the first malformed lexeme.
pub mod lexer;
pub mod laws;
pub mod model;
