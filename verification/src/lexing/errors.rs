use vstd::prelude::*;
use vstd::string::StringExecFns;

verus! {

/// `String::push` of the standard library: the string afterwards is the
/// string before with the one character added at its end.
pub assume_specification[ String::push ](s: &mut String, ch: char)
    ensures
        final(s)@ == old(s)@.push(ch),
;

/// A character of the program text that is neither whitespace nor one of
/// the eight command characters.
#[derive(Clone, Copy, Debug, PartialEq, Eq, Structural)]
pub struct LexError {
    pub character: char,
}

impl LexError {
    /// The text shown for this error.
    pub fn message(&self) -> (text: String)
        ensures
            text@ == "Invalid token found: "@.push(self.character),
    {
        error_invalid_token_found(self.character)
    }
}

/// The text shown when `token` is found where a command was expected.
pub fn error_invalid_token_found(token: char) -> (text: String)
    ensures
        text@ == "Invalid token found: "@.push(token),
{
    let mut text = String::from_str("Invalid token found: ");
    text.push(token);
    text
}

} // verus!
