use super::grammar::{lemma_tokens_len, lemma_tokens_of_push, text_of, tokens_of};
use crate::lexing::token::Token;
use vstd::prelude::*;
use vstd::string::StringExecFns;

verus! {

/// One instruction of a program: a command, or a loop with the instructions
/// of its body.
#[derive(Debug, PartialEq, Eq)]
pub enum Instruction {
    Advance,
    Recede,
    Increment,
    Decrement,
    Show,
    Read,
    Loop(Vec<Instruction>),
}

/// An instruction as a mathematical value: the contracts speak of these.
pub enum Op {
    Advance,
    Recede,
    Increment,
    Decrement,
    Show,
    Read,
    Loop(Seq<Op>),
}

impl View for Instruction {
    type V = Op;

    open spec fn view(&self) -> Op
        decreases self,
    {
        match self {
            Instruction::Advance => Op::Advance,
            Instruction::Recede => Op::Recede,
            Instruction::Increment => Op::Increment,
            Instruction::Decrement => Op::Decrement,
            Instruction::Show => Op::Show,
            Instruction::Read => Op::Read,
            Instruction::Loop(body) => Op::Loop(
                Seq::new(
                    body@.len(),
                    |i: int|
                        if 0 <= i < body@.len() {
                            body@[i].view()
                        } else {
                            Op::Advance
                        },
                ),
            ),
        }
    }
}

/// The instructions of a sequence, each as a mathematical value.
pub open spec fn ops(instructions: Seq<Instruction>) -> Seq<Op> {
    instructions.map_values(|i: Instruction| i@)
}

/// The value of a loop is the loop of the values of its body.
pub proof fn lemma_view_loop(body: Vec<Instruction>)
    ensures
        Instruction::Loop(body)@ == Op::Loop(ops(body@)),
{
    assert(Instruction::Loop(body)@->Loop_0 =~= ops(body@));
}

/// The command that a token stands for, where it is not a bracket.
pub open spec fn command_of(token: Token) -> Op
    recommends
        !token.is_bracket(),
{
    match token {
        Token::Advance => Op::Advance,
        Token::Recede => Op::Recede,
        Token::Increment => Op::Increment,
        Token::Decrement => Op::Decrement,
        Token::Show => Op::Show,
        _ => Op::Read,
    }
}

impl Op {
    /// The text of this instruction.
    pub open spec fn representation(self) -> Seq<char> {
        text_of(self.tokens())
    }
}

/// The text of a loop with the body `body`: the texts of its instructions
/// between two brackets.
pub open spec fn represents_loop(body: Seq<Op>) -> Seq<char> {
    Op::Loop(body).representation()
}

/// The text shown for the instructions before a bracket that closes no
/// loop: the text of a loop of them, less its first character.
pub open spec fn represents_mismatched(body: Seq<Op>) -> Seq<char> {
    represents_loop(body).skip(1)
}

/// The text shown for the instructions of a loop that was not closed: the
/// text of a loop of them, less its closing bracket.
pub open spec fn represents_unclosed(body: Seq<Op>) -> Seq<char> {
    seq!['['] + text_of(tokens_of(body))
}

/// The text of two sequences of tokens, one after the other.
pub proof fn lemma_text_of_concat(a: Seq<Token>, b: Seq<Token>)
    ensures
        text_of(a + b) == text_of(a) + text_of(b),
{
    assert(text_of(a + b) =~= text_of(a) + text_of(b));
}

/// The text of a loop is the text of its body between two brackets.
pub proof fn lemma_represents_loop(body: Seq<Op>)
    ensures
        represents_loop(body) == seq!['['] + text_of(tokens_of(body)) + seq![']'],
        represents_loop(body).len() >= body.len() + 2,
{
    lemma_tokens_len(body);
    assert(represents_loop(body) =~= seq!['['] + text_of(tokens_of(body)) + seq![']']);
}

impl Clone for Instruction {
    /// A copy of this instruction, its body with it.
    fn clone(&self) -> (r: Self)
        ensures
            r@ == self@,
        decreases self,
    {
        match self {
            Instruction::Advance => Instruction::Advance,
            Instruction::Recede => Instruction::Recede,
            Instruction::Increment => Instruction::Increment,
            Instruction::Decrement => Instruction::Decrement,
            Instruction::Show => Instruction::Show,
            Instruction::Read => Instruction::Read,
            Instruction::Loop(body) => {
                proof {
                    lemma_view_loop(*body);
                }
                Instruction::loop_from(body.as_slice())
            },
        }
    }
}

impl Instruction {
    /// The command that `token` stands for. The two brackets stand for no
    /// command.
    pub fn from_token(token: &Token) -> (r: Self)
        requires
            !token.is_bracket(),
        ensures
            r@ == command_of(*token),
    {
        match token {
            Token::Advance => Instruction::Advance,
            Token::Decrement => Instruction::Decrement,
            Token::Increment => Instruction::Increment,
            Token::Recede => Instruction::Recede,
            Token::Show => Instruction::Show,
            _ => Instruction::Read,
        }
    }

    /// A loop whose body is a copy of `instructions`.
    pub fn loop_from(instructions: &[Instruction]) -> (r: Self)
        ensures
            r@ == Op::Loop(ops(instructions@)),
        decreases instructions@,
    {
        let mut body: Vec<Instruction> = Vec::new();
        let mut i: usize = 0;
        while i < instructions.len()
            invariant
                i <= instructions.len(),
                body@.len() == i,
                forall|k: int| 0 <= k < i ==> body@[k]@ == instructions@[k]@,
            decreases instructions.len() - i,
        {
            body.push(instructions[i].clone());
            i = i + 1;
        }
        proof {
            assert(ops(body@) =~= ops(instructions@));
            lemma_view_loop(body);
        }
        Instruction::Loop(body)
    }

    /// The text shown for the instructions before a bracket that closes no
    /// loop.
    pub fn represents_mismatched(instructions: &[Self]) -> (text: String)
        ensures
            text@ == represents_mismatched(ops(instructions@)),
    {
        let whole = Self::represents_loop(instructions);
        proof {
            lemma_represents_loop(ops(instructions@));
        }
        let length: usize = whole.as_str().unicode_len();
        String::from_str(whole.as_str().substring_char(1, length))
    }

    /// The text shown for the instructions of a loop that was not closed.
    pub fn represents_unclosed(instructions: &[Self]) -> (text: String)
        ensures
            text@ == represents_unclosed(ops(instructions@)),
    {
        let whole = Self::represents_loop(instructions);
        proof {
            lemma_represents_loop(ops(instructions@));
            assert(represents_loop(ops(instructions@)).drop_last() =~= represents_unclosed(
                ops(instructions@),
            ));
        }
        let length: usize = whole.as_str().unicode_len();
        String::from_str(whole.as_str().substring_char(0, length - 1))
    }

    /// The text of this instruction: the character of a command, or the
    /// text of a loop.
    pub fn representation(&self) -> (text: String)
        ensures
            text@ == self@.representation(),
        decreases self,
    {
        match self {
            Instruction::Advance => {
                proof {
                    reveal_strlit(">");
                    assert(">"@ =~= self@.representation());
                }
                String::from_str(">")
            },
            Instruction::Recede => {
                proof {
                    reveal_strlit("<");
                    assert("<"@ =~= self@.representation());
                }
                String::from_str("<")
            },
            Instruction::Increment => {
                proof {
                    reveal_strlit("+");
                    assert("+"@ =~= self@.representation());
                }
                String::from_str("+")
            },
            Instruction::Decrement => {
                proof {
                    reveal_strlit("-");
                    assert("-"@ =~= self@.representation());
                }
                String::from_str("-")
            },
            Instruction::Show => {
                proof {
                    reveal_strlit(".");
                    assert("."@ =~= self@.representation());
                }
                String::from_str(".")
            },
            Instruction::Read => {
                proof {
                    reveal_strlit(",");
                    assert(","@ =~= self@.representation());
                }
                String::from_str(",")
            },
            Instruction::Loop(instructions) => {
                proof {
                    lemma_view_loop(*instructions);
                }
                Self::represents_loop(instructions.as_slice())
            },
        }
    }

    /// The text of a loop with the body `instructions`.
    pub fn represents_loop(instructions: &[Self]) -> (text: String)
        ensures
            text@ == represents_loop(ops(instructions@)),
        decreases instructions@,
    {
        let ghost body = ops(instructions@);
        let mut text = String::from_str("[");
        let mut i: usize = 0;
        proof {
            reveal_strlit("[");
            assert(body.take(0) =~= Seq::<Op>::empty());
            assert(text@ =~= seq!['['] + text_of(tokens_of(body.take(0))));
        }
        while i < instructions.len()
            invariant
                i <= instructions.len(),
                body == ops(instructions@),
                text@ == seq!['['] + text_of(tokens_of(body.take(i as int))),
            decreases instructions.len() - i,
        {
            let piece = instructions[i].representation();
            text.append(piece.as_str());
            proof {
                assert(body.take(i + 1) =~= body.take(i as int).push(body[i as int]));
                lemma_tokens_of_push(body.take(i as int), body[i as int]);
                lemma_text_of_concat(tokens_of(body.take(i as int)), body[i as int].tokens());
                assert(text@ =~= seq!['['] + text_of(tokens_of(body.take(i + 1))));
            }
            i = i + 1;
        }
        text.append("]");
        proof {
            reveal_strlit("]");
            assert(body.take(i as int) =~= body);
            lemma_represents_loop(body);
            assert(text@ =~= represents_loop(body));
        }
        text
    }
}

} // verus!
