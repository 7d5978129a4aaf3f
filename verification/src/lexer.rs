//! Lexing: token kinds and the scanner that cuts a text into tokens.
pub mod lex;
pub mod tokens;

pub use lex::{Lexer, Token};
pub use tokens::TokenKind;
