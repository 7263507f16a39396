use super::instruction::{ops, represents_mismatched, represents_unclosed, Instruction};
use vstd::prelude::*;
use vstd::string::StringExecFns;

verus! {

/// The two ways in which the brackets of a program can fail to match.
#[derive(Clone, Copy, Debug, PartialEq, Eq, Structural)]
pub enum ParseErrorKind {
    /// A bracket closes a loop where none is open.
    Mismatched,
    /// The program ends while a loop is open.
    Unclosed,
}

/// A failure to parse, with the text of the instructions at which it was
/// found.
#[derive(Debug, PartialEq, Eq)]
pub struct ParseError {
    pub kind: ParseErrorKind,
    pub fragment: String,
}

impl ParseError {
    /// The words that the text shown for an error of `kind` begins with.
    pub open spec fn heading(kind: ParseErrorKind) -> Seq<char> {
        match kind {
            ParseErrorKind::Mismatched => "Mismatch close loop in: "@,
            ParseErrorKind::Unclosed => "Unclosed loop error in: "@,
        }
    }

    /// The text shown for this error: the heading of its kind, then its
    /// fragment.
    pub fn message(&self) -> (text: String)
        ensures
            text@ == Self::heading(self.kind) + self.fragment@,
    {
        let mut text = match self.kind {
            ParseErrorKind::Mismatched => String::from_str("Mismatch close loop in: "),
            ParseErrorKind::Unclosed => String::from_str("Unclosed loop error in: "),
        };
        text.append(self.fragment.as_str());
        text
    }
}

/// The error for a bracket that closes no loop, found after the
/// instructions `mismatched` of the program.
pub fn error_mismatched_loop_closing(mismatched: &[Instruction]) -> (e: ParseError)
    ensures
        e.kind == ParseErrorKind::Mismatched,
        e.fragment@ == represents_mismatched(ops(mismatched@)),
{
    ParseError {
        kind: ParseErrorKind::Mismatched,
        fragment: Instruction::represents_mismatched(mismatched),
    }
}

/// The error for a program that ends inside a loop whose instructions so
/// far are `unclosed`.
pub fn error_unclosed_loop(unclosed: &[Instruction]) -> (e: ParseError)
    ensures
        e.kind == ParseErrorKind::Unclosed,
        e.fragment@ == represents_unclosed(ops(unclosed@)),
{
    ParseError {
        kind: ParseErrorKind::Unclosed,
        fragment: Instruction::represents_unclosed(unclosed),
    }
}

} // verus!
