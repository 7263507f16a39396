use super::errors::{error_mismatched_loop_closing, error_unclosed_loop, ParseError, ParseErrorKind};
use super::grammar::{
    command_count, depth, lemma_command_count, lemma_depth_concat, lemma_depth_single,
    lemma_never_negative_concat, lemma_tokens_of_push, lemma_tokens_well_nested, never_negative,
    plain_count, tokens_of, well_nested,
};
use super::instruction::{
    command_of, ops, represents_mismatched, represents_unclosed, Instruction, Op,
};
use super::outcome::{is_parse_of, lemma_parse_classified, mismatched_at, outcome, unclosed_at};
use crate::lexing::token::Token;
use vstd::prelude::*;

verus! {

/// The parser while it reads a program: the sequences of instructions that
/// are open, the program itself first and the innermost loop last.
pub struct Parser {
    levels: Vec<Vec<Instruction>>,
}

impl View for Parser {
    type V = Seq<Seq<Op>>;

    closed spec fn view(&self) -> Seq<Seq<Op>> {
        self.levels@.map_values(|level: Vec<Instruction>| ops(level@))
    }
}

/// The open sequences after a loop was opened.
pub open spec fn opened(levels: Seq<Seq<Op>>) -> Seq<Seq<Op>> {
    levels.push(Seq::empty())
}

/// The open sequences after `op` was added to the innermost of them.
pub open spec fn appended(levels: Seq<Seq<Op>>, op: Op) -> Seq<Seq<Op>> {
    levels.update(levels.len() - 1, levels.last().push(op))
}

/// The open sequences after the innermost loop was closed: it is added, as
/// one instruction, to the sequence that holds it.
pub open spec fn closed_loop(levels: Seq<Seq<Op>>) -> Seq<Seq<Op>> {
    appended(levels.drop_last(), Op::Loop(levels.last()))
}

/// The tokens that were read to arrive at the open sequences `levels`.
pub open spec fn unwound(levels: Seq<Seq<Op>>) -> Seq<Token>
    decreases levels.len(),
{
    if levels.len() == 0 {
        Seq::empty()
    } else if levels.len() == 1 {
        tokens_of(levels[0])
    } else {
        unwound(levels.drop_last()) + seq![Token::StartLoop] + tokens_of(levels.last())
    }
}

/// The open sequences after `token` was read, where it is not a bracket that
/// closes no loop.
pub open spec fn advanced(levels: Seq<Seq<Op>>, token: Token) -> Seq<Seq<Op>> {
    match token {
        Token::StartLoop => opened(levels),
        Token::StopLoop => closed_loop(levels),
        _ => appended(levels, command_of(token)),
    }
}

/// Opening a loop reads one opening bracket.
pub proof fn lemma_unwound_opened(levels: Seq<Seq<Op>>)
    requires
        levels.len() >= 1,
    ensures
        unwound(opened(levels)) == unwound(levels).push(Token::StartLoop),
{
    assert(opened(levels).drop_last() =~= levels);
    assert(unwound(opened(levels)) =~= unwound(levels).push(Token::StartLoop));
}

/// Adding an instruction to the innermost open sequence reads its tokens.
pub proof fn lemma_unwound_appended(levels: Seq<Seq<Op>>, op: Op)
    requires
        levels.len() >= 1,
    ensures
        unwound(appended(levels, op)) == unwound(levels) + op.tokens(),
{
    lemma_tokens_of_push(levels.last(), op);
    if levels.len() > 1 {
        assert(appended(levels, op).drop_last() =~= levels.drop_last());
        assert(unwound(appended(levels, op)) =~= unwound(levels) + op.tokens());
    }
}

/// Closing the innermost loop reads one closing bracket.
pub proof fn lemma_unwound_closed(levels: Seq<Seq<Op>>)
    requires
        levels.len() >= 2,
    ensures
        unwound(closed_loop(levels)) == unwound(levels).push(Token::StopLoop),
{
    lemma_unwound_appended(levels.drop_last(), Op::Loop(levels.last()));
    assert(unwound(closed_loop(levels)) =~= unwound(levels).push(Token::StopLoop));
}

/// Reading a token adds it to the tokens read.
pub proof fn lemma_unwound_advanced(levels: Seq<Seq<Op>>, token: Token)
    requires
        levels.len() >= 1,
        token == Token::StopLoop ==> levels.len() >= 2,
    ensures
        unwound(advanced(levels, token)) == unwound(levels).push(token),
{
    match token {
        Token::StartLoop => {
            lemma_unwound_opened(levels);
        },
        Token::StopLoop => {
            lemma_unwound_closed(levels);
        },
        _ => {
            lemma_unwound_appended(levels, command_of(token));
            assert(unwound(levels) + command_of(token).tokens() =~= unwound(levels).push(token));
        },
    }
}

/// The tokens read never close a loop that is not open, and their depth is
/// the number of loops that are open.
pub proof fn lemma_unwound_depth(levels: Seq<Seq<Op>>)
    requires
        levels.len() >= 1,
    ensures
        never_negative(unwound(levels)),
        depth(unwound(levels)) == levels.len() - 1,
    decreases levels.len(),
{
    lemma_tokens_well_nested(levels.last());
    if levels.len() > 1 {
        let before = unwound(levels.drop_last());
        let open = seq![Token::StartLoop];
        let body = tokens_of(levels.last());
        lemma_unwound_depth(levels.drop_last());
        lemma_depth_single(Token::StartLoop);
        assert forall|k: int| 0 <= k <= open.len() implies depth(before) + depth(
            #[trigger] open.take(k),
        ) >= 0 by {
            if k == 0 {
                assert(open.take(k) =~= Seq::<Token>::empty());
            } else {
                assert(open.take(k) =~= open);
            }
        }
        lemma_never_negative_concat(before, open);
        lemma_depth_concat(before, open);
        lemma_never_negative_concat(before + open, body);
        lemma_depth_concat(before + open, body);
    }
}

impl Parser {
    /// The parser holds at least the program itself as an open sequence.
    pub open spec fn wf(&self) -> bool {
        self@.len() >= 1
    }

    /// The tokens that this parser has read.
    pub open spec fn consumed(&self) -> Seq<Token> {
        unwound(self@)
    }

    /// A parser that has read nothing: the program is open, and empty.
    pub fn new() -> (parser: Self)
        ensures
            parser.wf(),
            parser@ == seq![Seq::<Op>::empty()],
    {
        let mut levels: Vec<Vec<Instruction>> = Vec::new();
        levels.push(Vec::new());
        let parser = Parser { levels };
        proof {
            assert(parser@ =~~= seq![Seq::<Op>::empty()]);
        }
        parser
    }

    /// Opens a loop.
    pub fn start_new_loop(&mut self)
        ensures
            final(self)@ == opened(old(self)@),
    {
        self.levels.push(Vec::new());
        proof {
            assert(self@ =~~= opened(old(self)@));
        }
    }

    /// Adds `instruction` to the innermost open sequence.
    pub fn push_instruction(&mut self, instruction: Instruction)
        requires
            old(self).wf(),
        ensures
            final(self)@ == appended(old(self)@, instruction@),
    {
        if let Some(v) = self.levels.last_mut() {
            v.push(instruction);
        }
        proof {
            assert(self@ =~~= appended(old(self)@, instruction@));
        }
    }

    /// Closes the innermost loop and adds it to the sequence that holds
    /// it. Where no loop is open, nothing changes and the bracket is
    /// reported with the instructions of the program so far.
    pub fn stop_loop(&mut self) -> (r: Result<(), ParseError>)
        requires
            old(self).wf(),
        ensures
            final(self).wf(),
            match r {
                Ok(_) => old(self)@.len() > 1 && final(self)@ == closed_loop(old(self)@),
                Err(e) => {
                    &&& old(self)@.len() == 1
                    &&& final(self)@ == old(self)@
                    &&& e.kind == ParseErrorKind::Mismatched
                    &&& e.fragment@ == represents_mismatched(old(self)@[0])
                },
            },
    {
        if self.levels.len() <= 1 {
            Err(error_mismatched_loop_closing(self.levels[0].as_slice()))
        } else {
            let popped = self.levels.pop().unwrap();
            proof {
                assert(self@ =~~= old(self)@.drop_last());
            }
            let new_loop = Instruction::loop_from(popped.as_slice());
            self.push_instruction(new_loop);
            Ok(())
        }
    }

    /// Reads one token: a command is added to the innermost open sequence,
    /// an opening bracket opens a loop, a closing bracket closes the
    /// innermost loop. A closing bracket where no loop is open is reported,
    /// and nothing changes.
    pub fn parse_token(&mut self, token: &Token) -> (r: Result<(), ParseError>)
        requires
            old(self).wf(),
        ensures
            final(self).wf(),
            match r {
                Ok(_) => {
                    &&& !(*token == Token::StopLoop && old(self)@.len() == 1)
                    &&& final(self)@ == advanced(old(self)@, *token)
                    &&& final(self).consumed() == old(self).consumed().push(*token)
                },
                Err(e) => {
                    &&& *token == Token::StopLoop
                    &&& old(self)@.len() == 1
                    &&& final(self)@ == old(self)@
                    &&& e.kind == ParseErrorKind::Mismatched
                    &&& e.fragment@ == represents_mismatched(old(self)@[0])
                },
            },
    {
        proof {
            if !(*token == Token::StopLoop && self@.len() == 1) {
                lemma_unwound_advanced(self@, *token);
            }
        }
        match token {
            Token::StopLoop => self.stop_loop(),
            Token::StartLoop => {
                self.start_new_loop();
                Ok(())
            },
            tk => {
                let instruction = Instruction::from_token(tk);
                self.push_instruction(instruction);
                Ok(())
            },
        }
    }

    /// The program, once all its tokens are read. Where a loop is still
    /// open, the innermost one is reported with its instructions.
    pub fn get_finished(&self) -> (r: Result<&Vec<Instruction>, ParseError>)
        requires
            self.wf(),
        ensures
            match r {
                Ok(program) => self@.len() == 1 && ops(program@) == self@[0],
                Err(e) => {
                    &&& self@.len() > 1
                    &&& e.kind == ParseErrorKind::Unclosed
                    &&& e.fragment@ == represents_unclosed(self@.last())
                },
            },
    {
        if self.levels.len() > 1 {
            Err(error_unclosed_loop(self.levels[self.levels.len() - 1].as_slice()))
        } else {
            Ok(&self.levels[0])
        }
    }

    /// The tree of instructions that `instructions` is written for, or the
    /// first error in its brackets.
    pub fn parse(instructions: &[Token]) -> (r: Result<Vec<Instruction>, ParseError>)
        ensures
            is_parse_of(instructions@, outcome(r)),
            r is Ok <==> well_nested(instructions@),
            r is Err && r->Err_0.kind == ParseErrorKind::Mismatched <==> !never_negative(
                instructions@,
            ),
            r matches Ok(tree) ==> command_count(ops(tree@)) == plain_count(instructions@),
    {
        let mut parser = Self::new();
        let mut i: usize = 0;
        proof {
            assert(instructions@.take(0) =~= Seq::<Token>::empty());
        }
        while i < instructions.len()
            invariant
                i <= instructions.len(),
                parser.wf(),
                parser.consumed() == instructions@.take(i as int),
            decreases instructions.len() - i,
        {
            let ghost before = parser@;
            match parser.parse_token(&instructions[i]) {
                Ok(_) => {},
                Err(e) => {
                    proof {
                        assert(mismatched_at(instructions@, i as int, before[0]));
                        lemma_parse_classified(instructions@, outcome(Err(e)));
                    }
                    return Err(e);
                },
            }
            proof {
                assert(instructions@.take(i + 1) =~= instructions@.take(i as int).push(
                    instructions@[i as int],
                ));
            }
            i = i + 1;
        }
        proof {
            assert(instructions@.take(i as int) =~= instructions@);
            lemma_unwound_depth(parser@);
        }
        let r = match parser.get_finished() {
            Ok(program) => {
                let tree = program.clone();
                proof {
                    assert forall|k: int| 0 <= k < program@.len() implies tree@[k]@
                        == program@[k]@ by {
                        assert(cloned::<Instruction>(program[k], tree[k]));
                    }
                    assert(ops(tree@) =~= ops(program@));
                }
                Ok(tree)
            },
            Err(e) => {
                proof {
                    let open = unwound(parser@.drop_last()).len() as int;
                    assert(instructions@.skip(open + 1) =~= tokens_of(parser@.last()));
                    assert(unclosed_at(instructions@, open, parser@.last()));
                }
                Err(e)
            },
        };
        proof {
            lemma_parse_classified(instructions@, outcome(r));
            if r is Ok {
                lemma_command_count(ops(r->Ok_0@));
            }
        }
        r
    }
}

} // verus!
