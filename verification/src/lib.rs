//! A parser for a small data notation: `null`, `true`, `false`, and arrays of
//! these in square brackets, nested to any depth.
//!
//! [`parse`] turns a text into a [`Value`] or a [`ParseError`]. What it
//! returns is fixed by [`grammar::parse_document`], a function of the bytes of
//! the text alone, which reads the tokens that [`tokens::tokens`] cuts the
//! text into.

pub mod error;
pub mod grammar;
pub mod layout;
pub mod lexer;
pub mod parser;
pub mod quoting;
pub mod text;
pub mod tokens;
pub mod value;

pub use error::ParseError;
pub use parser::parse;
pub use value::Value;
