use super::errors::{error_mismatched_loop_closing, error_unclosed_loop, ParseError, ParseErrorKind};
use super::grammar::{
    command_count, depth, lemma_close_breaks_nesting, lemma_command_count, lemma_depth_concat,
    lemma_depth_single, lemma_first_close_unique, lemma_never_negative_concat,
    lemma_open_unmatched, lemma_tokens_injective, lemma_tokens_of_push, lemma_tokens_well_nested,
    never_negative, plain_count, tokens_of, well_nested,
};
use super::instruction::{
    command_of, lemma_view_loop, ops, represents_mismatched, represents_unclosed, Instruction, Op,
};
use super::outcome::{is_parse_of, lemma_parse_classified, mismatched_at, outcome, unclosed_at};
use crate::lexing::token::Token;
use vstd::prelude::*;

verus! {

/// The token at `n` is a closing bracket, and the tokens from `i` up to it
/// are those of the instructions `root`.
pub open spec fn mismatched_from(tokens: Seq<Token>, i: int, n: int, root: Seq<Op>) -> bool {
    &&& 0 <= i <= n < tokens.len()
    &&& tokens[n] == Token::StopLoop
    &&& tokens_of(root) == tokens.subrange(i, n)
}

/// The tokens from `start` to the end are those of the instructions `body`,
/// and `body` is in a loop that is open: the one whose bracket stands just
/// before `start`, or, where `start` is `i` and reading began inside a
/// loop, at a `level` above zero, that one.
pub open spec fn unclosed_from(
    tokens: Seq<Token>,
    i: int,
    level: int,
    start: int,
    body: Seq<Op>,
) -> bool {
    &&& 0 <= i <= start <= tokens.len()
    &&& if start == i {
        level > 0
    } else {
        tokens[start - 1] == Token::StartLoop
    }
    &&& tokens_of(body) == tokens.skip(start)
}

/// What reading `tokens` from `i` on gives, at `level` loops open.
///
/// Inside a loop, at a level above zero, reading ends at the first bracket
/// that closes no loop opened from `i` on: the result is the body before
/// it, with the count of the tokens from `i` through that bracket and one
/// more; where there is no such bracket, the innermost loop left open is
/// reported. At level zero such a bracket is reported, and reading
/// otherwise goes to the end.
pub open spec fn reads(
    tokens: Seq<Token>,
    i: int,
    level: int,
    r: Result<(Vec<Instruction>, usize), ParseError>,
) -> bool {
    match r {
        Ok((parsed, len)) => if level > 0 {
            &&& len >= 2
            &&& i + len - 2 < tokens.len()
            &&& tokens[i + len - 2] == Token::StopLoop
            &&& tokens_of(ops(parsed@)) == tokens.subrange(i, i + len - 2)
        } else {
            &&& len == tokens.len() - i
            &&& tokens_of(ops(parsed@)) == tokens.skip(i)
        },
        Err(e) => match e.kind {
            ParseErrorKind::Mismatched => {
                &&& level == 0
                &&& exists|n: int, root: Seq<Op>| #[trigger]
                    mismatched_from(tokens, i, n, root) && e.fragment@ == represents_mismatched(
                        root,
                    )
            },
            ParseErrorKind::Unclosed => {
                &&& never_negative(tokens.skip(i))
                &&& exists|start: int, body: Seq<Op>| #[trigger]
                    unclosed_from(tokens, i, level, start, body) && e.fragment@
                        == represents_unclosed(body)
            },
        },
    }
}

/// Inside a loop whose body is followed by its closing bracket at `k`,
/// reading from `i` gives that body and the count up to the bracket and one
/// more, whatever tokens come after the bracket.
pub proof fn lemma_reads_closed_loop(
    tokens: Seq<Token>,
    i: int,
    level: int,
    k: int,
    body: Seq<Op>,
    r: Result<(Vec<Instruction>, usize), ParseError>,
)
    requires
        reads(tokens, i, level, r),
        level > 0,
        0 <= i <= k < tokens.len(),
        tokens_of(body) == tokens.subrange(i, k),
        tokens[k] == Token::StopLoop,
    ensures
        r is Ok,
        r->Ok_0.1 == k - i + 2,
        ops(r->Ok_0.0@) == body,
{
    let rest = tokens.skip(i);
    lemma_tokens_well_nested(body);
    assert(rest.take(k - i) =~= tokens.subrange(i, k));
    lemma_close_breaks_nesting(rest, k - i);
    match r {
        Ok((parsed, len)) => {
            let close = i + len - 2;
            lemma_tokens_well_nested(ops(parsed@));
            assert(rest.take(close - i) =~= tokens.subrange(i, close));
            lemma_first_close_unique(rest, k - i, close - i);
            lemma_tokens_injective(ops(parsed@), body);
        },
        Err(e) => {},
    }
}

/// Outside any loop, reading well nested tokens from `i` to the end gives
/// their instructions and their number, however deep they nest.
pub proof fn lemma_reads_program(
    tokens: Seq<Token>,
    i: int,
    tree: Seq<Op>,
    r: Result<(Vec<Instruction>, usize), ParseError>,
)
    requires
        reads(tokens, i, 0, r),
        0 <= i <= tokens.len(),
        tokens_of(tree) == tokens.skip(i),
    ensures
        r is Ok,
        r->Ok_0.1 == tokens.len() - i,
        ops(r->Ok_0.0@) == tree,
{
    let rest = tokens.skip(i);
    lemma_tokens_well_nested(tree);
    match r {
        Ok((parsed, len)) => {
            lemma_tokens_injective(ops(parsed@), tree);
        },
        Err(e) => match e.kind {
            ParseErrorKind::Mismatched => {
                let (n, root) = choose|n: int, root: Seq<Op>|
                    #[trigger] mismatched_from(tokens, i, n, root) && e.fragment@
                        == represents_mismatched(root);
                lemma_tokens_well_nested(root);
                assert(rest.take(n - i) =~= tokens.subrange(i, n));
                lemma_close_breaks_nesting(rest, n - i);
            },
            ParseErrorKind::Unclosed => {
                let (start, body) = choose|start: int, body: Seq<Op>|
                    #[trigger] unclosed_from(tokens, i, 0, start, body) && e.fragment@
                        == represents_unclosed(body);
                lemma_tokens_well_nested(body);
                assert(rest.skip(start - i) =~= tokens.skip(start));
                lemma_open_unmatched(rest, start - i - 1);
            },
        },
    }
}

/// Well nested tokens, an opening bracket, and tokens that close no loop
/// but their own: together they close no loop that is not open.
pub proof fn lemma_open_keeps_nesting(before: Seq<Token>, after: Seq<Token>)
    requires
        well_nested(before),
        never_negative(after),
    ensures
        never_negative(before + seq![Token::StartLoop] + after),
{
    let open = seq![Token::StartLoop];
    lemma_depth_single(Token::StartLoop);
    assert forall|k: int| 0 <= k <= open.len() implies depth(before) + depth(
        #[trigger] open.take(k),
    ) >= 0 by {
        if k == 0 {
            assert(open.take(k) =~= Seq::<Token>::empty());
        } else {
            assert(open.take(k) =~= open);
        }
    }
    lemma_never_negative_concat(before, open);
    lemma_depth_concat(before, open);
    lemma_never_negative_concat(before + open, after);
}

impl Instruction {
    /// The tree of instructions that `program` is written for, or the first
    /// error in its brackets.
    pub fn from(program: &[Token]) -> (r: Result<Vec<Instruction>, ParseError>)
        ensures
            is_parse_of(program@, outcome(r)),
            r is Ok <==> well_nested(program@),
            r is Err && r->Err_0.kind == ParseErrorKind::Mismatched <==> !never_negative(
                program@,
            ),
            r matches Ok(tree) ==> command_count(ops(tree@)) == plain_count(program@),
    {
        proof {
            assert(program@.skip(0) =~= program@);
        }
        let r = match Self::priv_from(program, 0, 0) {
            Ok((parsed, _len)) => Ok(parsed),
            Err(e) => {
                proof {
                    match e.kind {
                        ParseErrorKind::Mismatched => {
                            let (n, root) = choose|n: int, root: Seq<Op>|
                                #[trigger] mismatched_from(program@, 0, n, root) && e.fragment@
                                    == represents_mismatched(root);
                            assert(program@.subrange(0, n) =~= program@.take(n));
                            assert(mismatched_at(program@, n, root));
                        },
                        ParseErrorKind::Unclosed => {
                            let (start, body) = choose|start: int, body: Seq<Op>|
                                #[trigger] unclosed_from(program@, 0, 0, start, body)
                                    && e.fragment@ == represents_unclosed(body);
                            assert(unclosed_at(program@, start - 1, body));
                        },
                    }
                }
                Err(e)
            },
        };
        proof {
            lemma_parse_classified(program@, outcome(r));
            if r is Ok {
                lemma_command_count(ops(r->Ok_0@));
            }
        }
        r
    }

    /// Reads instructions from the token at `i` on, up to the first bracket
    /// that closes no loop opened from `i` on, or to the end. With
    /// `loop_level` above zero the reading is inside a loop, and that
    /// bracket closes it.
    ///
    /// Inside a loop it gives the body, and as the count the tokens from
    /// `i` through the closing bracket and one more, for the opening
    /// bracket; tokens after the closing bracket are not looked at. Where
    /// the end comes first, the innermost loop then open is reported.
    ///
    /// Outside a loop it gives the instructions up to the end and their
    /// tokens as the count, and reports the bracket that closes no loop.
    ///
    /// The count has to fit: inside a loop, there is room for one more than
    /// the tokens from `i` on.
    fn priv_from(program: &[Token], i: usize, loop_level: usize) -> (r: Result<
        (Vec<Instruction>, usize),
        ParseError,
    >)
        requires
            i <= program@.len(),
            loop_level > 0 ==> program@.len() - i + 1 <= usize::MAX,
        ensures
            reads(program@, i as int, loop_level as int, r),
        decreases program@.len() - i,
    {
        let ghost tokens = program@;
        let mut parsed: Vec<Instruction> = Vec::new();
        let mut j: usize = i;
        let mut len: usize = 0;
        proof {
            assert(tokens.subrange(i as int, i as int) =~= Seq::<Token>::empty());
        }
        while j < program.len()
            invariant
                tokens == program@,
                i <= j <= tokens.len(),
                len == j - i,
                tokens_of(ops(parsed@)) == tokens.subrange(i as int, j as int),
                loop_level > 0 ==> tokens.len() - i + 1 <= usize::MAX,
            decreases tokens.len() - j,
        {
            let ghost before = ops(parsed@);
            match program[j] {
                Token::StartLoop => {
                    match Self::priv_from(program, j + 1, loop_level.saturating_add(1)) {
                        Ok((result, r_len)) => {
                            let ghost body = ops(result@);
                            let ghost close = j + r_len - 1;
                            let instruction = Instruction::Loop(result);
                            proof {
                                lemma_view_loop(result);
                                lemma_tokens_of_push(before, instruction@);
                                assert(tokens.subrange(i as int, close + 1) =~= tokens.subrange(
                                    i as int,
                                    j as int,
                                ) + instruction@.tokens());
                            }
                            parsed.push(instruction);
                            proof {
                                assert(ops(parsed@) =~= before.push(Op::Loop(body)));
                            }
                            len = len + r_len;
                            j = j + r_len;
                        },
                        Err(e) => {
                            proof {
                                let inner = loop_level.saturating_add(1) as int;
                                let (start, body) = choose|start: int, body: Seq<Op>|
                                    #[trigger] unclosed_from(tokens, j + 1, inner, start, body)
                                        && e.fragment@ == represents_unclosed(body);
                                assert(unclosed_from(
                                    tokens,
                                    i as int,
                                    loop_level as int,
                                    start,
                                    body,
                                ));
                                lemma_tokens_well_nested(before);
                                lemma_open_keeps_nesting(
                                    tokens.subrange(i as int, j as int),
                                    tokens.skip(j + 1),
                                );
                                assert(tokens.skip(i as int) =~= tokens.subrange(
                                    i as int,
                                    j as int,
                                ) + seq![Token::StartLoop] + tokens.skip(j + 1));
                            }
                            return Err(e);
                        },
                    }
                },
                Token::StopLoop => {
                    if loop_level > 0 {
                        len = len + 2;
                        return Ok((parsed, len));
                    } else {
                        proof {
                            assert(mismatched_from(tokens, i as int, j as int, ops(parsed@)));
                        }
                        return Err(error_mismatched_loop_closing(parsed.as_slice()));
                    }
                },
                tk => {
                    let instruction = Instruction::from_token(&tk);
                    proof {
                        lemma_tokens_of_push(before, instruction@);
                        assert(tokens.subrange(i as int, j + 1) =~= tokens.subrange(
                            i as int,
                            j as int,
                        ) + instruction@.tokens());
                    }
                    parsed.push(instruction);
                    proof {
                        assert(ops(parsed@) =~= before.push(command_of(tk)));
                    }
                    len = len + 1;
                    j = j + 1;
                },
            }
        }
        proof {
            assert(tokens.subrange(i as int, j as int) =~= tokens.skip(i as int));
            lemma_tokens_well_nested(ops(parsed@));
        }
        if loop_level > 0 {
            proof {
                assert(unclosed_from(tokens, i as int, loop_level as int, i as int, ops(parsed@)));
            }
            Err(error_unclosed_loop(parsed.as_slice()))
        } else {
            Ok((parsed, len))
        }
    }
}

} // verus!
