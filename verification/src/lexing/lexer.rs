use super::errors::LexError;
use super::token::{token_of, Token};
use vstd::prelude::*;

verus! {

/// The characters that a program may hold between its commands: those with
/// the Unicode property `White_Space`.
pub open spec fn is_ignorable(c: char) -> bool {
    ||| '\u{9}' <= c <= '\u{d}'
    ||| c == ' '
    ||| c == '\u{85}'
    ||| c == '\u{a0}'
    ||| c == '\u{1680}'
    ||| '\u{2000}' <= c <= '\u{200a}'
    ||| c == '\u{2028}'
    ||| c == '\u{2029}'
    ||| c == '\u{202f}'
    ||| c == '\u{205f}'
    ||| c == '\u{3000}'
}

/// A character that no program may hold: it is not skipped and stands for
/// no command.
pub open spec fn is_invalid(c: char) -> bool {
    !is_ignorable(c) && token_of(c) is None
}

/// The characters of `text` that are not skipped, in their order.
pub open spec fn significant(text: Seq<char>) -> Seq<char> {
    text.filter(|c: char| !is_ignorable(c))
}

/// The tokens that the command characters of `text` stand for, in their
/// order.
pub open spec fn tokens_of_text(text: Seq<char>) -> Seq<Token> {
    text.filter_map(|c: char| token_of(c))
}

/// Position `i` holds the first character of `text` that no program may
/// hold.
pub open spec fn is_first_invalid(text: Seq<char>, i: int) -> bool {
    &&& 0 <= i < text.len()
    &&& is_invalid(text[i])
    &&& forall|j: int| 0 <= j < i ==> !is_invalid(#[trigger] text[j])
}

/// No character of `text` is invalid.
pub open spec fn is_lexable(text: Seq<char>) -> bool {
    forall|i: int| 0 <= i < text.len() ==> !is_invalid(#[trigger] text[i])
}

/// What lexing `text` gives: its tokens, or its first invalid character.
pub open spec fn lexed(text: Seq<char>, r: Result<Vec<Token>, LexError>) -> bool {
    match r {
        Ok(tokens) => is_lexable(text) && tokens@ == tokens_of_text(text),
        Err(e) => exists|i: int| is_first_invalid(text, i) && e.character == text[i],
    }
}

/// A text has one first invalid character at most, so lexing it can give
/// one result only: the same tokens, or the same character.
pub proof fn lemma_lexed_unique(
    text: Seq<char>,
    a: Result<Vec<Token>, LexError>,
    b: Result<Vec<Token>, LexError>,
)
    requires
        lexed(text, a),
        lexed(text, b),
    ensures
        a is Ok <==> b is Ok,
        a is Ok ==> a->Ok_0@ == b->Ok_0@,
        a is Err ==> a->Err_0 == b->Err_0,
{
    if a is Err {
        let i = choose|i: int| is_first_invalid(text, i) && a->Err_0.character == text[i];
        if b is Err {
            let j = choose|j: int| is_first_invalid(text, j) && b->Err_0.character == text[j];
            assert(i == j);
        }
    } else if b is Err {
        let j = choose|j: int| is_first_invalid(text, j) && b->Err_0.character == text[j];
    }
}

/// The tokens of a text are as many as its characters that are not
/// skipped, where none of them is invalid.
pub proof fn lemma_token_count(text: Seq<char>)
    requires
        is_lexable(text),
    ensures
        tokens_of_text(text).len() == significant(text).len(),
    decreases text.len(),
{
    reveal(Seq::filter);
    if text.len() > 0 {
        let init = text.drop_last();
        assert forall|i: int| 0 <= i < init.len() implies !is_invalid(#[trigger] init[i]) by {
            assert(init[i] == text[i]);
        }
        lemma_token_count(init);
        assert(!is_invalid(text[text.len() - 1]));
    }
}

/// Lexing the characters that tokens are written with gives the tokens
/// back.
pub proof fn lemma_lex_written(tokens: Seq<Token>)
    ensures
        is_lexable(tokens.map_values(|t: Token| t.symbol())),
        tokens_of_text(tokens.map_values(|t: Token| t.symbol())) == tokens,
    decreases tokens.len(),
{
    let text = tokens.map_values(|t: Token| t.symbol());
    if tokens.len() > 0 {
        lemma_lex_written(tokens.drop_last());
        assert(text.drop_last() =~= tokens.drop_last().map_values(|t: Token| t.symbol()));
        assert(token_of(tokens.last().symbol()) == Some(tokens.last()));
        assert(tokens_of_text(text) =~= tokens);
    }
    assert forall|i: int| 0 <= i < text.len() implies !is_invalid(#[trigger] text[i]) by {
        assert(token_of(tokens[i].symbol()) == Some(tokens[i]));
    }
}

/// The lexer: it has no state of its own.
pub struct Lexer {}

impl Lexer {
    /// The tokens of `program`, whitespace skipped, or the first character
    /// that is neither whitespace nor a command.
    pub fn tokenize(program: &str) -> (r: Result<Vec<Token>, LexError>)
        ensures
            lexed(program@, r),
            r matches Ok(tokens) ==> tokens@.len() == significant(program@).len(),
    {
        let mut tokens: Vec<Token> = Vec::new();
        for c in it: program.chars()
            invariant
                it.seq() == program@,
                is_lexable(program@.take(it.index() as int)),
                tokens@ == tokens_of_text(program@.take(it.index() as int)),
                tokens@.len() == significant(program@.take(it.index() as int)).len(),
        {
            let ghost k = it.index() as int;
            let ghost seen = program@.take(k);
            let ghost next = program@.take(k + 1);
            proof {
                reveal(Seq::filter);
                program@.lemma_filter_map_take_succ(|c: char| token_of(c), k);
                assert(next.drop_last() == seen);
                assert(next.last() == c);
            }
            if !Self::is_ignorable_token(c) {
                match Token::from(c) {
                    Ok(token) => {
                        tokens.push(token);
                    },
                    Err(e) => {
                        proof {
                            assert forall|j: int| 0 <= j < k implies !is_invalid(
                                #[trigger] program@[j],
                            ) by {
                                assert(program@[j] == seen[j]);
                            }
                            assert(is_first_invalid(program@, k));
                        }
                        return Err(e);
                    },
                }
            }
            proof {
                assert forall|j: int| 0 <= j < next.len() implies !is_invalid(
                    #[trigger] next[j],
                ) by {
                    if j < k {
                        assert(next[j] == seen[j]);
                    }
                }
            }
        }
        proof {
            assert(program@.take(program@.len() as int) == program@);
        }
        Ok(tokens)
    }

    /// Whether `token` is skipped when a program is lexed.
    pub fn is_ignorable_token(token: char) -> (r: bool)
        ensures
            r == is_ignorable(token),
    {
        ('\u{9}' <= token && token <= '\u{d}') || token == ' ' || token == '\u{85}'
            || token == '\u{a0}' || token == '\u{1680}' || ('\u{2000}' <= token && token
            <= '\u{200a}') || token == '\u{2028}' || token == '\u{2029}' || token == '\u{202f}'
            || token == '\u{205f}' || token == '\u{3000}'
    }
}

} // verus!
