//! A scanner and a statement parser for a small C-like scripting language.
//!
//! The scanner turns source text into tokens one at a time; the parser
//! assembles `let` and `return` statements into a program tree and collects
//! diagnostics for malformed statements instead of stopping.

pub mod ast;
pub mod lexer;
pub mod parser;
pub mod spacing;
