//! A small tokenizer: source characters in, position-tagged tokens out.
//!
//! The meaning of tokenizing is given once, as a mathematical function over
//! character sequences (`rules`), and the executable `Lexer` is proved to
//! compute exactly that function.

pub mod errors;
pub mod token;
pub mod cursor;
pub mod chars;
pub mod number;
pub mod rules;
pub mod lexer;
pub mod laws;
