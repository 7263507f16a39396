use super::instruction::Op;
use crate::lexing::token::Token;
use vstd::prelude::*;

verus! {

impl Op {
    /// The tokens that this instruction is written with: one for a command,
    /// and for a loop its body between the two brackets.
    pub open spec fn tokens(self) -> Seq<Token>
        decreases self,
    {
        match self {
            Op::Advance => seq![Token::Advance],
            Op::Recede => seq![Token::Recede],
            Op::Increment => seq![Token::Increment],
            Op::Decrement => seq![Token::Decrement],
            Op::Show => seq![Token::Show],
            Op::Read => seq![Token::Read],
            Op::Loop(body) => seq![Token::StartLoop] + tokens_of(body) + seq![Token::StopLoop],
        }
    }

    /// The number of commands in this instruction, the loops themselves not
    /// counted.
    pub open spec fn command_count(self) -> nat
        decreases self,
    {
        match self {
            Op::Loop(body) => command_count(body),
            _ => 1,
        }
    }
}

/// The tokens that a sequence of instructions is written with.
pub open spec fn tokens_of(program: Seq<Op>) -> Seq<Token>
    decreases program,
{
    if program.len() == 0 {
        Seq::empty()
    } else {
        tokens_of(program.drop_last()) + program.last().tokens()
    }
}

/// The number of commands in a sequence of instructions, at any depth, the
/// loops themselves not counted.
pub open spec fn command_count(program: Seq<Op>) -> nat
    decreases program,
{
    if program.len() == 0 {
        0
    } else {
        command_count(program.drop_last()) + program.last().command_count()
    }
}

/// The characters that a sequence of tokens is written with.
pub open spec fn text_of(tokens: Seq<Token>) -> Seq<char> {
    tokens.map_values(|t: Token| t.symbol())
}

/// What a token adds to the number of open loops.
pub open spec fn delta(t: Token) -> int {
    match t {
        Token::StartLoop => 1,
        Token::StopLoop => -1,
        _ => 0,
    }
}

/// The number of loops opened less the number of loops closed in `tokens`.
pub open spec fn depth(tokens: Seq<Token>) -> int
    decreases tokens.len(),
{
    if tokens.len() == 0 {
        0
    } else {
        depth(tokens.drop_last()) + delta(tokens.last())
    }
}

/// No token of `tokens` closes a loop that was not opened before it.
pub open spec fn never_negative(tokens: Seq<Token>) -> bool {
    forall|k: int| 0 <= k <= tokens.len() ==> depth(#[trigger] tokens.take(k)) >= 0
}

/// Every loop of `tokens` is opened before it is closed, and closed.
pub open spec fn well_nested(tokens: Seq<Token>) -> bool {
    never_negative(tokens) && depth(tokens) == 0
}

/// The number of tokens of `tokens` that are commands, not brackets.
pub open spec fn plain_count(tokens: Seq<Token>) -> nat {
    tokens.filter(|t: Token| !t.is_bracket()).len()
}

/// The depth of two sequences of tokens, one after the other, is the sum of
/// their depths.
pub proof fn lemma_depth_concat(a: Seq<Token>, b: Seq<Token>)
    ensures
        depth(a + b) == depth(a) + depth(b),
    decreases b.len(),
{
    if b.len() == 0 {
        assert(a + b =~= a);
    } else {
        assert((a + b).drop_last() =~= a + b.drop_last());
        lemma_depth_concat(a, b.drop_last());
    }
}

/// The depth of a single token is what it adds.
pub proof fn lemma_depth_single(t: Token)
    ensures
        depth(seq![t]) == delta(t),
{
    assert(seq![t].drop_last() =~= Seq::<Token>::empty());
    assert(depth(seq![t].drop_last()) == 0);
}

/// Where the depth stays at or above zero through `a`, and from there on
/// through `b`, it does so through both.
pub proof fn lemma_never_negative_concat(a: Seq<Token>, b: Seq<Token>)
    requires
        never_negative(a),
        forall|k: int| 0 <= k <= b.len() ==> depth(a) + depth(#[trigger] b.take(k)) >= 0,
    ensures
        never_negative(a + b),
{
    assert forall|k: int| 0 <= k <= (a + b).len() implies depth(#[trigger] (a + b).take(k))
        >= 0 by {
        if k <= a.len() {
            assert((a + b).take(k) =~= a.take(k));
        } else {
            assert((a + b).take(k) =~= a + b.take(k - a.len()));
            lemma_depth_concat(a, b.take(k - a.len()));
        }
    }
}

/// The tokens of a sequence with one more instruction at its end.
pub proof fn lemma_tokens_of_push(program: Seq<Op>, op: Op)
    ensures
        tokens_of(program.push(op)) == tokens_of(program) + op.tokens(),
{
    assert(program.push(op).drop_last() =~= program);
}

/// Every instruction is written with at least one token, and a sequence of
/// instructions with at least as many tokens as it has instructions.
pub proof fn lemma_tokens_len(program: Seq<Op>)
    ensures
        tokens_of(program).len() >= program.len(),
        forall|i: int| 0 <= i < program.len() ==> (#[trigger] program[i]).tokens().len() >= 1,
    decreases program.len(),
{
    if program.len() > 0 {
        lemma_tokens_len(program.drop_last());
        assert forall|i: int| 0 <= i < program.len() implies (#[trigger] program[i]).tokens().len()
            >= 1 by {
            if i < program.len() - 1 {
                assert(program[i] == program.drop_last()[i]);
            }
        }
    }
}

/// The tokens that a tree of instructions is written with are well nested.
pub proof fn lemma_tokens_well_nested(program: Seq<Op>)
    ensures
        well_nested(tokens_of(program)),
    decreases program,
{
    if program.len() == 0 {
        assert forall|k: int| 0 <= k <= tokens_of(program).len() implies depth(
            #[trigger] tokens_of(program).take(k),
        ) >= 0 by {
            assert(tokens_of(program).take(k) =~= Seq::<Token>::empty());
        }
    } else {
        let init = tokens_of(program.drop_last());
        let last = program.last().tokens();
        lemma_tokens_well_nested(program.drop_last());
        lemma_op_tokens_well_nested(program.last());
        lemma_never_negative_concat(init, last);
        lemma_depth_concat(init, last);
    }
}

/// The tokens that one instruction is written with are well nested.
pub proof fn lemma_op_tokens_well_nested(op: Op)
    ensures
        well_nested(op.tokens()),
    decreases op,
{
    match op {
        Op::Loop(body) => {
            let open = seq![Token::StartLoop];
            let inner = tokens_of(body);
            let close = seq![Token::StopLoop];
            lemma_tokens_well_nested(body);
            lemma_depth_single(Token::StartLoop);
            lemma_depth_single(Token::StopLoop);
            assert forall|k: int| 0 <= k <= open.len() implies depth(#[trigger] open.take(k))
                >= 0 by {
                if k == 0 {
                    assert(open.take(k) =~= Seq::<Token>::empty());
                } else {
                    assert(open.take(k) =~= open);
                }
            }
            lemma_never_negative_concat(open, inner);
            lemma_depth_concat(open, inner);
            assert forall|k: int| 0 <= k <= close.len() implies depth(open + inner) + depth(
                #[trigger] close.take(k),
            ) >= 0 by {
                if k == 0 {
                    assert(close.take(k) =~= Seq::<Token>::empty());
                } else {
                    assert(close.take(k) =~= close);
                }
            }
            lemma_never_negative_concat(open + inner, close);
            lemma_depth_concat(open + inner, close);
        },
        _ => {
            let t = op.tokens();
            lemma_depth_single(t[0]);
            assert(t =~= seq![t[0]]);
            assert forall|k: int| 0 <= k <= t.len() implies depth(#[trigger] t.take(k)) >= 0 by {
                if k == 0 {
                    assert(t.take(k) =~= Seq::<Token>::empty());
                } else {
                    assert(t.take(k) =~= t);
                }
            }
        },
    }
}

/// A sequence of tokens has at most one bracket that closes no loop while
/// all before it is well nested.
pub proof fn lemma_first_close_unique(tokens: Seq<Token>, p: int, q: int)
    requires
        0 <= p < tokens.len(),
        0 <= q < tokens.len(),
        tokens[p] == Token::StopLoop,
        tokens[q] == Token::StopLoop,
        well_nested(tokens.take(p)),
        well_nested(tokens.take(q)),
    ensures
        p == q,
{
    if p < q {
        assert(tokens.take(q).take(p) =~= tokens.take(p));
        lemma_close_breaks_nesting(tokens.take(q), p);
    } else if q < p {
        assert(tokens.take(p).take(q) =~= tokens.take(q));
        lemma_close_breaks_nesting(tokens.take(p), q);
    }
}

/// A closing bracket after a prefix of depth zero takes the depth below
/// zero.
pub proof fn lemma_close_breaks_nesting(tokens: Seq<Token>, p: int)
    requires
        0 <= p < tokens.len(),
        tokens[p] == Token::StopLoop,
        depth(tokens.take(p)) == 0,
    ensures
        depth(tokens.take(p + 1)) == -1,
        !never_negative(tokens),
{
    assert(tokens.take(p + 1).drop_last() =~= tokens.take(p));
}

/// A sequence of tokens has at most one opening bracket after which all is
/// well nested.
pub proof fn lemma_last_open_unique(tokens: Seq<Token>, p: int, q: int)
    requires
        0 <= p < tokens.len(),
        0 <= q < tokens.len(),
        tokens[p] == Token::StartLoop,
        tokens[q] == Token::StartLoop,
        well_nested(tokens.skip(p + 1)),
        well_nested(tokens.skip(q + 1)),
    ensures
        p == q,
{
    if p < q {
        assert(tokens.skip(p + 1).skip(q - p) =~= tokens.skip(q + 1));
        lemma_open_unmatched(tokens.skip(p + 1), q - p - 1);
    } else if q < p {
        assert(tokens.skip(q + 1).skip(p - q) =~= tokens.skip(p + 1));
        lemma_open_unmatched(tokens.skip(q + 1), p - q - 1);
    }
}

/// Where all after an opening bracket is well nested, the whole is not:
/// either its depth is above zero, or it fell below zero before the
/// bracket.
pub proof fn lemma_open_unmatched(tokens: Seq<Token>, p: int)
    requires
        0 <= p < tokens.len(),
        tokens[p] == Token::StartLoop,
        depth(tokens.skip(p + 1)) == 0,
    ensures
        depth(tokens) == depth(tokens.take(p)) + 1,
        !well_nested(tokens),
{
    let before = tokens.take(p);
    let open = seq![Token::StartLoop];
    let after = tokens.skip(p + 1);
    assert(tokens =~= before + open + after);
    lemma_depth_single(Token::StartLoop);
    lemma_depth_concat(before, open);
    lemma_depth_concat(before + open, after);
}

/// Two sequences of instructions that are written with the same tokens are
/// the same.
pub proof fn lemma_tokens_injective(a: Seq<Op>, b: Seq<Op>)
    requires
        tokens_of(a) == tokens_of(b),
    ensures
        a == b,
    decreases tokens_of(a).len(),
{
    lemma_tokens_len(a);
    lemma_tokens_len(b);
    if a.len() == 0 || b.len() == 0 {
        assert(a =~= b);
    } else {
        let all = tokens_of(a);
        let a_init = a.drop_last();
        let b_init = b.drop_last();
        let a_last = a.last();
        let b_last = b.last();
        let a_tokens = tokens_of(a_init);
        let b_tokens = tokens_of(b_init);
        assert(all == a_tokens + a_last.tokens());
        assert(all == b_tokens + b_last.tokens());
        assert(all.last() == a_last.tokens().last());
        assert(all.last() == b_last.tokens().last());
        match a_last {
            Op::Loop(a_body) => {
                let b_body = b_last->Loop_0;
                assert(b_last is Loop);
                let inner = all.drop_last();
                let open = seq![Token::StartLoop];
                assert(inner =~= a_tokens + open + tokens_of(a_body));
                assert(inner =~= b_tokens + open + tokens_of(b_body));
                let p = a_tokens.len() as int;
                let q = b_tokens.len() as int;
                assert(inner.skip(p + 1) =~= tokens_of(a_body));
                assert(inner.skip(q + 1) =~= tokens_of(b_body));
                lemma_tokens_well_nested(a_body);
                lemma_tokens_well_nested(b_body);
                lemma_last_open_unique(inner, p, q);
                assert(inner.take(p) =~= a_tokens);
                assert(inner.take(q) =~= b_tokens);
                lemma_tokens_injective(a_body, b_body);
                lemma_tokens_injective(a_init, b_init);
            },
            _ => {
                assert(a_last.tokens().len() == 1);
                assert(b_last.tokens().len() == 1);
                assert(all.drop_last() =~= a_tokens);
                assert(all.drop_last() =~= b_tokens);
                lemma_tokens_injective(a_init, b_init);
                assert(a_last == b_last);
            },
        }
        assert(a =~= a_init.push(a_last));
        assert(b =~= b_init.push(b_last));
    }
}

/// The depth of a sequence of tokens is the number of its opening brackets
/// less the number of its closing brackets.
pub proof fn lemma_depth_counts(tokens: Seq<Token>)
    ensures
        depth(tokens) == tokens.filter(|t: Token| t == Token::StartLoop).len() - tokens.filter(
            |t: Token| t == Token::StopLoop,
        ).len(),
    decreases tokens.len(),
{
    reveal(Seq::filter);
    if tokens.len() > 0 {
        lemma_depth_counts(tokens.drop_last());
    }
}

/// The commands of a tree of instructions are the tokens it is written
/// with, less the brackets.
pub proof fn lemma_command_count(program: Seq<Op>)
    ensures
        command_count(program) == plain_count(tokens_of(program)),
    decreases program,
{
    reveal(Seq::filter);
    let plain = |t: Token| !t.is_bracket();
    if program.len() == 0 {
    } else {
        let init = tokens_of(program.drop_last());
        let last = program.last().tokens();
        lemma_command_count(program.drop_last());
        lemma_op_command_count(program.last());
        Seq::filter_distributes_over_add(init, last, plain);
    }
}

/// The commands of one instruction are the tokens it is written with, less
/// the brackets.
pub proof fn lemma_op_command_count(op: Op)
    ensures
        op.command_count() == plain_count(op.tokens()),
    decreases op,
{
    reveal_with_fuel(Seq::filter, 2);
    let plain = |t: Token| !t.is_bracket();
    match op {
        Op::Loop(body) => {
            let open = seq![Token::StartLoop];
            let inner = tokens_of(body);
            let close = seq![Token::StopLoop];
            lemma_command_count(body);
            Seq::filter_distributes_over_add(open, inner, plain);
            Seq::filter_distributes_over_add(open + inner, close, plain);
            assert(open.drop_last() =~= Seq::<Token>::empty());
            assert(close.drop_last() =~= Seq::<Token>::empty());
            assert(open.filter(plain).len() == 0);
            assert(close.filter(plain).len() == 0);
        },
        _ => {
            let t = op.tokens();
            assert(t.drop_last() =~= Seq::<Token>::empty());
            assert(t.filter(plain).len() == 1);
        },
    }
}

} // verus!
