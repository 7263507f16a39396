use super::errors::LexError;
use super::lexer::{lexed, Lexer};
use vstd::prelude::*;

verus! {

/// One command of the language. Every character of a program that is not
/// whitespace stands for exactly one token.
#[derive(Clone, Copy, Debug, PartialEq, Eq, Structural)]
pub enum Token {
    Advance,
    Decrement,
    Increment,
    Read,
    Recede,
    Show,
    StartLoop,
    StopLoop,
}

/// The token that a character stands for, if it is one of the eight command
/// characters.
pub open spec fn token_of(c: char) -> Option<Token> {
    if c == '>' {
        Some(Token::Advance)
    } else if c == '<' {
        Some(Token::Recede)
    } else if c == '+' {
        Some(Token::Increment)
    } else if c == '-' {
        Some(Token::Decrement)
    } else if c == '.' {
        Some(Token::Show)
    } else if c == '[' {
        Some(Token::StartLoop)
    } else if c == ']' {
        Some(Token::StopLoop)
    } else if c == ',' {
        Some(Token::Read)
    } else {
        None
    }
}

impl Token {
    /// The character that is written for this token.
    pub open spec fn symbol(self) -> char {
        match self {
            Token::Advance => '>',
            Token::Recede => '<',
            Token::Increment => '+',
            Token::Decrement => '-',
            Token::Show => '.',
            Token::StartLoop => '[',
            Token::StopLoop => ']',
            Token::Read => ',',
        }
    }

    /// Whether this token opens or closes a loop.
    pub open spec fn is_bracket(self) -> bool {
        self == Token::StartLoop || self == Token::StopLoop
    }

    /// The token for a command character; any other character is reported
    /// back in the error.
    pub fn from(token: char) -> (r: Result<Token, LexError>)
        ensures
            r == match token_of(token) {
                Some(t) => Ok::<Token, LexError>(t),
                None => Err(LexError { character: token }),
            },
    {
        match token {
            '>' => Ok(Token::Advance),
            '<' => Ok(Token::Recede),
            '+' => Ok(Token::Increment),
            '-' => Ok(Token::Decrement),
            '.' => Ok(Token::Show),
            '[' => Ok(Token::StartLoop),
            ']' => Ok(Token::StopLoop),
            ',' => Ok(Token::Read),
            _ => Err(LexError { character: token }),
        }
    }

    /// The token for a text that is exactly one command character, and none
    /// for any other text.
    pub fn from_string(token: String) -> (r: Option<Token>)
        ensures
            r == (if token@.len() == 1 {
                token_of(token@[0])
            } else {
                None
            }),
    {
        let text = token.as_str();
        if text.unicode_len() != 1 {
            return None;
        }
        match Self::from(text.get_char(0)) {
            Ok(t) => Some(t),
            Err(_) => None,
        }
    }

    /// The tokens of a whole program, whitespace skipped, or the first
    /// character that is neither whitespace nor a command.
    pub fn parse(program: String) -> (r: Result<Vec<Token>, LexError>)
        ensures
            lexed(program@, r),
    {
        Lexer::tokenize(program.as_str())
    }
}

/// Writing a token down and reading the character back gives the same token.
pub proof fn lemma_symbol_round_trip(t: Token)
    ensures
        token_of(t.symbol()) == Some(t),
{
}

} // verus!
