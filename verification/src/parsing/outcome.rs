use super::errors::{ParseError, ParseErrorKind};
use super::grammar::{
    depth, lemma_close_breaks_nesting, lemma_first_close_unique, lemma_last_open_unique,
    lemma_open_unmatched, lemma_tokens_injective, lemma_tokens_well_nested, never_negative,
    tokens_of, well_nested,
};
use super::instruction::{ops, represents_mismatched, represents_unclosed, Instruction, Op};
use crate::lexing::token::Token;
use vstd::prelude::*;

verus! {

/// What parsing a sequence of tokens can give, as a mathematical value.
pub enum Parse {
    /// The instructions of the program.
    Tree(Seq<Op>),
    /// A bracket closes no loop; the text is that of the instructions
    /// before it.
    Mismatched(Seq<char>),
    /// The program ends inside a loop; the text is that of the innermost
    /// loop that is open.
    Unclosed(Seq<char>),
}

/// The mathematical value of a result of parsing.
pub open spec fn outcome(r: Result<Vec<Instruction>, ParseError>) -> Parse {
    match r {
        Ok(tree) => Parse::Tree(ops(tree@)),
        Err(e) => match e.kind {
            ParseErrorKind::Mismatched => Parse::Mismatched(e.fragment@),
            ParseErrorKind::Unclosed => Parse::Unclosed(e.fragment@),
        },
    }
}

/// The token at `n` closes no loop, and the tokens before it are those of
/// the instructions `root`.
pub open spec fn mismatched_at(tokens: Seq<Token>, n: int, root: Seq<Op>) -> bool {
    &&& 0 <= n < tokens.len()
    &&& tokens[n] == Token::StopLoop
    &&& tokens_of(root) == tokens.take(n)
}

/// The token at `j` opens a loop that is not closed, and the tokens after
/// it are those of the instructions `body`.
pub open spec fn unclosed_at(tokens: Seq<Token>, j: int, body: Seq<Op>) -> bool {
    &&& 0 <= j < tokens.len()
    &&& tokens[j] == Token::StartLoop
    &&& tokens_of(body) == tokens.skip(j + 1)
}

/// Whether `p` is what parsing `tokens` gives.
///
/// The tree is the one that is written with `tokens`. Where the depth falls
/// below zero, the first bracket to take it there is reported, with the
/// instructions before it. Where it does not and the program ends above
/// zero, the last loop to be opened and not closed is reported, with the
/// instructions in it.
pub open spec fn is_parse_of(tokens: Seq<Token>, p: Parse) -> bool {
    match p {
        Parse::Tree(tree) => tokens_of(tree) == tokens,
        Parse::Mismatched(fragment) => exists|n: int, root: Seq<Op>|
            #[trigger] mismatched_at(tokens, n, root) && fragment == represents_mismatched(root),
        Parse::Unclosed(fragment) => never_negative(tokens) && exists|j: int, body: Seq<Op>|
            #[trigger] unclosed_at(tokens, j, body) && fragment == represents_unclosed(body),
    }
}

/// A sequence of tokens parses to a tree exactly when it is well nested,
/// and is reported as mismatched exactly when its depth falls below zero.
pub proof fn lemma_parse_classified(tokens: Seq<Token>, p: Parse)
    requires
        is_parse_of(tokens, p),
    ensures
        p is Tree <==> well_nested(tokens),
        p is Mismatched <==> !never_negative(tokens),
        p is Unclosed <==> never_negative(tokens) && depth(tokens) > 0,
{
    match p {
        Parse::Tree(tree) => {
            lemma_tokens_well_nested(tree);
        },
        Parse::Mismatched(fragment) => {
            let (n, root) = choose|n: int, root: Seq<Op>|
                #[trigger] mismatched_at(tokens, n, root) && fragment == represents_mismatched(
                    root,
                );
            lemma_tokens_well_nested(root);
            lemma_close_breaks_nesting(tokens, n);
        },
        Parse::Unclosed(fragment) => {
            let (j, body) = choose|j: int, body: Seq<Op>|
                #[trigger] unclosed_at(tokens, j, body) && fragment == represents_unclosed(body);
            lemma_tokens_well_nested(body);
            lemma_open_unmatched(tokens, j);
            assert(depth(tokens.take(j)) >= 0);
        },
    }
}

/// A sequence of tokens has one parse: the same tree, or the same error
/// with the same text.
pub proof fn lemma_parse_unique(tokens: Seq<Token>, p: Parse, q: Parse)
    requires
        is_parse_of(tokens, p),
        is_parse_of(tokens, q),
    ensures
        p == q,
{
    lemma_parse_classified(tokens, p);
    lemma_parse_classified(tokens, q);
    match p {
        Parse::Tree(tree) => {
            lemma_tokens_injective(tree, q->Tree_0);
        },
        Parse::Mismatched(fragment) => {
            let other = q->Mismatched_0;
            let (n, root) = choose|n: int, root: Seq<Op>|
                #[trigger] mismatched_at(tokens, n, root) && fragment == represents_mismatched(
                    root,
                );
            let (m, base) = choose|m: int, base: Seq<Op>|
                #[trigger] mismatched_at(tokens, m, base) && other == represents_mismatched(base);
            lemma_tokens_well_nested(root);
            lemma_tokens_well_nested(base);
            lemma_first_close_unique(tokens, n, m);
            lemma_tokens_injective(root, base);
        },
        Parse::Unclosed(fragment) => {
            let other = q->Unclosed_0;
            let (j, body) = choose|j: int, body: Seq<Op>|
                #[trigger] unclosed_at(tokens, j, body) && fragment == represents_unclosed(body);
            let (k, inner) = choose|k: int, inner: Seq<Op>|
                #[trigger] unclosed_at(tokens, k, inner) && other == represents_unclosed(inner);
            lemma_tokens_well_nested(body);
            lemma_tokens_well_nested(inner);
            lemma_last_open_unique(tokens, j, k);
            lemma_tokens_injective(body, inner);
        },
    }
}

} // verus!
