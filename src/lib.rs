//! Lexical front end for a small dynamically typed scripting language: turns
//! source text into a flat sequence of classified tokens.
mod error;
mod lexing;
pub mod laws;
pub mod model;

pub use error::{message_of, LoxError, LoxErrorKind};
pub use lexing::{outcome, scan, views, Scanner, Token, TokenKind, TokenSpec};
