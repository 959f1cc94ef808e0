//! A small JSON library: a byte-level scanner, a recursive-descent parser,
//! and a dynamically typed value tree with checked accessors, casting, and
//! text rendering.

pub mod cast;
pub mod errors;
pub mod json;
pub mod laws;
pub mod lexer;
pub mod numtext;
pub mod parser;
pub mod render;
mod strutil;
