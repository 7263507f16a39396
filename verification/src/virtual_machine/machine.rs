use crate::parsing::instruction::Op;
use vstd::prelude::*;

verus! {

/// The number of cells of the tape.
pub const MEMSLOTS_COUNT: usize = 256;

/// The slot after `slot`, the first slot after the last.
pub open spec fn next_slot(slot: u8) -> u8 {
    if slot == 255 {
        0
    } else {
        (slot + 1) as u8
    }
}

/// The slot before `slot`, the last slot before the first.
pub open spec fn previous_slot(slot: u8) -> u8 {
    if slot == 0 {
        255
    } else {
        (slot - 1) as u8
    }
}

/// The value after `value`, zero after 255.
pub open spec fn incremented(value: u8) -> u8 {
    if value == 255 {
        0
    } else {
        (value + 1) as u8
    }
}

/// The value before `value`, 255 before zero.
pub open spec fn decremented(value: u8) -> u8 {
    if value == 0 {
        255
    } else {
        (value - 1) as u8
    }
}

/// The machine as a mathematical value: its tape, the slot in use, and the
/// instructions that it has yet to execute, the next one first.
pub struct Machine {
    pub tape: Seq<u8>,
    pub pointer: u8,
    pub pending: Seq<Op>,
}

impl Machine {
    /// The tape has its 256 cells.
    pub open spec fn wf(self) -> bool {
        self.tape.len() == MEMSLOTS_COUNT
    }

    /// The machine before it has done anything: every cell is zero, the
    /// first slot is in use, and `program` is to be executed.
    pub open spec fn start(program: Seq<Op>) -> Machine {
        Machine { tape: Seq::new(MEMSLOTS_COUNT as nat, |i: int| 0u8), pointer: 0, pending: program }
    }

    /// The value in the slot in use.
    pub open spec fn cell(self) -> u8 {
        self.tape[self.pointer as int]
    }

    /// This machine with `value` in the slot in use.
    pub open spec fn with_cell(self, value: u8) -> Machine {
        Machine { tape: self.tape.update(self.pointer as int, value), ..self }
    }

    /// This machine with `slot` in use.
    pub open spec fn with_pointer(self, slot: u8) -> Machine {
        Machine { pointer: slot, ..self }
    }

    /// This machine with `instructions` to execute before all that was
    /// pending.
    pub open spec fn with_first(self, instructions: Seq<Op>) -> Machine {
        Machine { pending: instructions + self.pending, ..self }
    }

    /// This machine with `rest` to execute after all that was pending.
    pub open spec fn with_rest(self, rest: Seq<Op>) -> Machine {
        Machine { pending: self.pending + rest, ..self }
    }

    /// Nothing is left to execute.
    pub open spec fn halted(self) -> bool {
        self.pending.len() == 0
    }

    /// The next instruction reads a byte of input.
    pub open spec fn awaits_input(self) -> bool {
        self.pending.len() > 0 && self.pending[0] is Read
    }

    /// The machine after it has executed `op`, and the byte that it put
    /// out, if any. What is pending in `self` is what follows `op`.
    ///
    /// A loop whose cell is not zero puts its body before what is pending,
    /// and itself after its body, to be looked at again; one whose cell is
    /// zero is done. A read with no input stores zero.
    pub open spec fn execute(self, op: Op, input: Option<u8>) -> (Machine, Option<u8>) {
        match op {
            Op::Advance => (self.with_pointer(next_slot(self.pointer)), None),
            Op::Recede => (self.with_pointer(previous_slot(self.pointer)), None),
            Op::Increment => (self.with_cell(incremented(self.cell())), None),
            Op::Decrement => (self.with_cell(decremented(self.cell())), None),
            Op::Show => (self, Some(self.cell())),
            Op::Read => (
                self.with_cell(
                    match input {
                        Some(byte) => byte,
                        None => 0,
                    },
                ),
                None,
            ),
            Op::Loop(body) => (
                if self.cell() != 0 {
                    self.with_first(body.push(Op::Loop(body)))
                } else {
                    self
                },
                None,
            ),
        }
    }

    /// The machine after one step, and the byte that it put out, if any:
    /// the next pending instruction is executed. A halted machine stays as
    /// it is.
    pub open spec fn step(self, input: Option<u8>) -> (Machine, Option<u8>) {
        if self.halted() {
            (self, None)
        } else {
            Machine { pending: self.pending.drop_first(), ..self }.execute(self.pending[0], input)
        }
    }
}

/// A machine together with what it has read and written so far.
pub struct Session {
    pub machine: Machine,
    /// The number of bytes of input that were read.
    pub consumed: nat,
    /// The bytes that were put out.
    pub output: Seq<u8>,
}

impl Session {
    /// A session that begins with `machine`.
    pub open spec fn begin(machine: Machine) -> Session {
        Session { machine, consumed: 0, output: Seq::empty() }
    }

    /// This session with `rest` for its machine to execute after all that
    /// was pending.
    pub open spec fn with_rest(self, rest: Seq<Op>) -> Session {
        Session { machine: self.machine.with_rest(rest), ..self }
    }

    /// The byte that the next step reads from `input`, if it reads one and
    /// one is left.
    pub open spec fn next_input(self, input: Seq<u8>) -> Option<u8> {
        if self.machine.awaits_input() && self.consumed < input.len() {
            Some(input[self.consumed as int])
        } else {
            None
        }
    }

    /// The session after one step of its machine on `input`.
    pub open spec fn advance(self, input: Seq<u8>) -> Session {
        let byte = self.next_input(input);
        let (machine, emitted) = self.machine.step(byte);
        Session {
            machine,
            consumed: if byte is Some {
                self.consumed + 1
            } else {
                self.consumed
            },
            output: match emitted {
                Some(b) => self.output.push(b),
                None => self.output,
            },
        }
    }

    /// The session after `steps` steps of its machine on `input`.
    pub open spec fn run(self, input: Seq<u8>, steps: nat) -> Session
        decreases steps,
    {
        if steps == 0 {
            self
        } else {
            self.run(input, (steps - 1) as nat).advance(input)
        }
    }
}

/// A session whose machine has halted stays as it is.
pub proof fn lemma_halted_stays(s: Session, input: Seq<u8>, steps: nat)
    requires
        s.machine.halted(),
    ensures
        s.run(input, steps) == s,
    decreases steps,
{
    if steps > 0 {
        lemma_halted_stays(s, input, (steps - 1) as nat);
    }
}

/// Running for `a` steps and then for `b` is running for both.
pub proof fn lemma_run_split(s: Session, input: Seq<u8>, a: nat, b: nat)
    ensures
        s.run(input, a).run(input, b) == s.run(input, a + b),
    decreases b,
{
    if b > 0 {
        lemma_run_split(s, input, a, (b - 1) as nat);
    }
}

} // verus!
