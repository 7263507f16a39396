//! Syntactic analysis: from a sequence of tokens to a tree of instructions.

pub mod descent;
pub mod errors;
pub mod grammar;
pub mod instruction;
pub mod outcome;
pub mod parser;

pub use errors::{error_mismatched_loop_closing, error_unclosed_loop, ParseError, ParseErrorKind};
pub use instruction::{Instruction, Op};
pub use parser::Parser;
