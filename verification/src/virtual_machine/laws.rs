use super::machine::{
    decremented, incremented, next_slot, previous_slot, Machine, Session, MEMSLOTS_COUNT,
};
use crate::parsing::instruction::Op;
use vstd::prelude::*;

verus! {

/// No instruction of `program` is a loop.
pub open spec fn is_straight(program: Seq<Op>) -> bool {
    forall|i: int| 0 <= i < program.len() ==> !((#[trigger] program[i]) is Loop)
}

/// No instruction of `program` is a loop or reads input: it only moves,
/// counts up and down, and shows.
pub open spec fn is_counting(program: Seq<Op>) -> bool {
    forall|i: int|
        0 <= i < program.len() ==> !((#[trigger] program[i]) is Loop) && !(program[i] is Read)
}

/// The slots that `program` moves forward in all, less those that it moves
/// backward.
pub open spec fn moves(program: Seq<Op>) -> int
    decreases program.len(),
{
    if program.len() == 0 {
        0
    } else {
        moves(program.drop_last()) + match program.last() {
            Op::Advance => 1int,
            Op::Recede => -1int,
            _ => 0int,
        }
    }
}

/// The slot in use after `program`, begun at the first slot.
pub open spec fn slot_after(program: Seq<Op>) -> u8 {
    (moves(program) % 256) as u8
}

/// The increments that `program`, begun at the first slot, makes to `slot`,
/// less the decrements.
pub open spec fn changes(program: Seq<Op>, slot: u8) -> int
    decreases program.len(),
{
    if program.len() == 0 {
        0
    } else {
        changes(program.drop_last(), slot) + if slot_after(program.drop_last()) == slot {
            match program.last() {
                Op::Increment => 1int,
                Op::Decrement => -1int,
                _ => 0int,
            }
        } else {
            0int
        }
    }
}

/// The value in `slot` after `program`, begun with every cell at zero.
pub open spec fn value_after(program: Seq<Op>, slot: u8) -> u8 {
    (changes(program, slot) % 256) as u8
}

/// The bytes that `program` shows: at each show, the value then in the slot
/// then in use.
pub open spec fn shown(program: Seq<Op>) -> Seq<u8>
    decreases program.len(),
{
    if program.len() == 0 {
        Seq::empty()
    } else if program.last() is Show {
        shown(program.drop_last()).push(
            value_after(program.drop_last(), slot_after(program.drop_last())),
        )
    } else {
        shown(program.drop_last())
    }
}

/// A program without loops is executed one instruction to a step, in its
/// order: after `k` steps the instructions from `k` on are pending.
pub proof fn lemma_straight_line_steps(program: Seq<Op>, input: Seq<u8>, k: nat)
    requires
        is_straight(program),
        k <= program.len(),
    ensures
        Session::begin(Machine::start(program)).run(input, k).machine.pending == program.skip(
            k as int,
        ),
        Session::begin(Machine::start(program)).run(input, k).machine.wf(),
        k == program.len() <==> Session::begin(Machine::start(program)).run(
            input,
            k,
        ).machine.halted(),
    decreases k,
{
    if k == 0 {
        assert(program.skip(0) =~= program);
    } else {
        lemma_straight_line_steps(program, input, (k - 1) as nat);
        let before = Session::begin(Machine::start(program)).run(input, (k - 1) as nat);
        assert(before.machine.pending[0] == program[k - 1]);
        assert(program.skip(k - 1).drop_first() =~= program.skip(k as int));
    }
}

/// What a program without loops puts out is the value of the slot in use
/// at each of its shows: step `k` adds that value where instruction `k` is
/// a show, and nothing where it is not.
pub proof fn lemma_straight_line_output(program: Seq<Op>, input: Seq<u8>, k: nat)
    requires
        is_straight(program),
        k < program.len(),
    ensures
        ({
            let before = Session::begin(Machine::start(program)).run(input, k);
            let after = Session::begin(Machine::start(program)).run(input, k + 1);
            after.output == if program[k as int] is Show {
                before.output.push(before.machine.cell())
            } else {
                before.output
            }
        }),
{
    lemma_straight_line_steps(program, input, k);
    let before = Session::begin(Machine::start(program)).run(input, k);
    assert(before.machine.pending[0] == program[k as int]);
}

/// What a program of moves, increments, decrements and shows comes to is
/// given by counting: the slot in use by its moves, the value of each slot
/// by the increments and decrements made there, both taken modulo 256, and
/// what it puts out by the values so counted at each show.
pub proof fn lemma_counting_program(program: Seq<Op>, input: Seq<u8>, k: nat)
    requires
        is_counting(program),
        k <= program.len(),
    ensures
        ({
            let now = Session::begin(Machine::start(program)).run(input, k);
            let done = program.take(k as int);
            &&& now.machine.pointer == slot_after(done)
            &&& forall|slot: u8| #[trigger] now.machine.tape[slot as int] == value_after(done, slot)
            &&& now.output == shown(done)
            &&& now.consumed == 0
        }),
    decreases k,
{
    lemma_straight_line_steps(program, input, k);
    let now = Session::begin(Machine::start(program)).run(input, k);
    let done = program.take(k as int);
    if k == 0 {
        assert(done =~= Seq::<Op>::empty());
    } else {
        lemma_counting_program(program, input, (k - 1) as nat);
        lemma_straight_line_steps(program, input, (k - 1) as nat);
        let before = Session::begin(Machine::start(program)).run(input, (k - 1) as nat);
        let op = program[k - 1];
        assert(done.drop_last() =~= program.take(k - 1));
        assert(done.last() == op);
        assert(before.machine.pending[0] == op);
        assert(!(op is Loop) && !(op is Read));
        let seen = program.take(k - 1);
        assert forall|slot: u8| #[trigger] now.machine.tape[slot as int] == value_after(
            done,
            slot,
        ) by {
            assert(before.machine.tape[slot as int] == value_after(seen, slot));
        }
    }
}

/// A program of 256 increments leaves every cell at zero: the value of the
/// cell counts up through 255 and back to zero.
pub proof fn lemma_increments_wrap(input: Seq<u8>)
    ensures
        ({
            let program = Seq::new(256, |i: int| Op::Increment);
            let end = Session::begin(Machine::start(program)).run(input, 256);
            end.machine.halted() && end.machine.pointer == 0 && end.machine.cell() == 0
        }),
{
    let program = Seq::new(256, |i: int| Op::Increment);
    lemma_counting_program(program, input, 256);
    lemma_straight_line_steps(program, input, 256);
    assert(program.take(256) =~= program);
    lemma_only_increments(program, 256);
}

/// A program of increments alone stays at the first slot and adds one to
/// its cell for each of them.
pub proof fn lemma_only_increments(program: Seq<Op>, k: nat)
    requires
        k <= program.len(),
        forall|i: int| 0 <= i < program.len() ==> #[trigger] program[i] == Op::Increment,
    ensures
        moves(program.take(k as int)) == 0,
        changes(program.take(k as int), 0) == k,
    decreases k,
{
    if k > 0 {
        lemma_only_increments(program, (k - 1) as nat);
        assert(program.take(k as int).drop_last() =~= program.take(k - 1));
    }
}

/// The value after `count` increments of `value`.
pub open spec fn incremented_times(value: u8, count: nat) -> u8
    decreases count,
{
    if count == 0 {
        value
    } else {
        incremented(incremented_times(value, (count - 1) as nat))
    }
}

/// Increments add modulo 256.
pub proof fn lemma_incremented_times(value: u8, count: nat)
    ensures
        incremented_times(value, count) == (value + count) % 256,
    decreases count,
{
    if count > 0 {
        lemma_incremented_times(value, (count - 1) as nat);
    }
}

/// Whatever a cell holds, 256 increments give it back.
pub proof fn lemma_full_turn(value: u8)
    ensures
        incremented_times(value, 256) == value,
{
    lemma_incremented_times(value, 256);
}

/// Adding one to 255 gives zero, taking one from zero gives 255, and the
/// two undo each other.
pub proof fn lemma_cell_wraps(value: u8)
    ensures
        incremented(255) == 0,
        decremented(0) == 255,
        decremented(incremented(value)) == value,
        incremented(decremented(value)) == value,
{
}

/// Moving backward from the first slot lands on the last one, moving
/// forward from the last on the first, and the two undo each other.
pub proof fn lemma_pointer_wraps(slot: u8)
    ensures
        previous_slot(0) == MEMSLOTS_COUNT - 1,
        next_slot((MEMSLOTS_COUNT - 1) as u8) == 0,
        previous_slot(next_slot(slot)) == slot,
        next_slot(previous_slot(slot)) == slot,
        Machine::start(seq![Op::Recede]).step(None).0.pointer == 255,
{
}

/// A step does not look at what follows the next instruction: with `rest`
/// after all that is pending, a machine that has not halted does what it
/// does without, and `rest` is still after all that is pending.
pub proof fn lemma_step_with_rest(m: Machine, rest: Seq<Op>, input: Option<u8>)
    requires
        !m.halted(),
    ensures
        m.with_rest(rest).step(input) == (m.step(input).0.with_rest(rest), m.step(input).1),
{
    let longer = m.with_rest(rest);
    assert(longer.pending[0] == m.pending[0]);
    assert(longer.pending.drop_first() =~= m.pending.drop_first() + rest);
    match m.pending[0] {
        Op::Loop(body) => {
            assert(body.push(Op::Loop(body)) + (m.pending.drop_first() + rest) =~= (body.push(
                Op::Loop(body),
            ) + m.pending.drop_first()) + rest);
        },
        _ => {},
    }
}

/// Instructions are executed in their order, and those that follow wait:
/// as long as a machine has not halted, it runs with `rest` after all that
/// is pending as it runs without, reads and puts out the same, and `rest`
/// is still after all that is pending.
pub proof fn lemma_rest_waits(s: Session, rest: Seq<Op>, input: Seq<u8>, steps: nat)
    requires
        forall|k: nat| k < steps ==> !(#[trigger] s.run(input, k)).machine.halted(),
    ensures
        s.with_rest(rest).run(input, steps) == s.run(input, steps).with_rest(rest),
    decreases steps,
{
    if steps > 0 {
        let before = s.run(input, (steps - 1) as nat);
        lemma_rest_waits(s, rest, input, (steps - 1) as nat);
        assert(!before.machine.halted());
        assert(before.with_rest(rest).machine.pending[0] == before.machine.pending[0]);
        lemma_step_with_rest(before.machine, rest, before.next_input(input));
    }
}

/// A loop with an empty body at a cell that is not zero leaves the machine
/// as it is: it has the same loop to execute next.
pub proof fn lemma_empty_loop_spins(m: Machine, input: Option<u8>)
    requires
        m.pending.len() > 0,
        m.pending[0] == Op::Loop(Seq::empty()),
        m.cell() != 0,
    ensures
        m.step(input) == (m, None::<u8>),
{
    let body = Seq::<Op>::empty();
    assert(body.push(Op::Loop(body)) + m.pending.drop_first() =~= m.pending);
}

/// The program that adds one to the first cell and then loops over nothing
/// does not halt, however many steps it is given.
pub proof fn lemma_spinning_program_never_halts(input: Seq<u8>, steps: nat)
    ensures
        !Session::begin(
            Machine::start(seq![Op::Increment, Op::Loop(Seq::empty())]),
        ).run(input, steps).machine.halted(),
        steps >= 1 ==> Session::begin(
            Machine::start(seq![Op::Increment, Op::Loop(Seq::empty())]),
        ).run(input, steps) == Session::begin(
            Machine::start(seq![Op::Increment, Op::Loop(Seq::empty())]),
        ).run(input, 1),
    decreases steps,
{
    let program = seq![Op::Increment, Op::Loop(Seq::empty())];
    let begin = Session::begin(Machine::start(program));
    let first = begin.run(input, 1);
    assert(begin.run(input, 0) == begin);
    assert(first == begin.advance(input));
    assert(program.drop_first() =~= seq![Op::Loop(Seq::empty())]);
    assert(first.machine.pending =~= seq![Op::Loop(Seq::empty())]);
    assert(first.machine.cell() == 1);
    if steps > 1 {
        lemma_spinning_program_never_halts(input, (steps - 1) as nat);
        lemma_empty_loop_spins(first.machine, first.next_input(input));
    }
}

} // verus!
