//! Lexical analysis: from program text to a sequence of tokens.

pub mod errors;
pub mod lexer;
pub mod token;

pub use errors::{error_invalid_token_found, LexError};
pub use lexer::Lexer;
pub use token::Token;
