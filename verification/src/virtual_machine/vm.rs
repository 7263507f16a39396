use super::machine::{
    decremented, incremented, lemma_halted_stays, next_slot, previous_slot, Machine, Session,
    MEMSLOTS_COUNT,
};
use crate::parsing::instruction::{lemma_view_loop, ops, Instruction, Op};
use vstd::prelude::*;

verus! {

/// Instructions that the machine has begun: `body` from `next` on is still
/// to be executed and, where `repeats`, the loop with this body after it.
pub struct Frame<'a> {
    pub body: &'a [Instruction],
    pub next: usize,
    pub repeats: bool,
}

impl<'a> Frame<'a> {
    /// The position is inside the body, or at its end where the body is to
    /// be repeated.
    pub open spec fn wf(self) -> bool {
        if self.repeats {
            self.next <= self.body@.len()
        } else {
            self.next < self.body@.len()
        }
    }

    /// The instructions that this frame has yet to execute.
    pub open spec fn pending(self) -> Seq<Op> {
        let body = ops(self.body@);
        if self.repeats {
            body.skip(self.next as int).push(Op::Loop(body))
        } else {
            body.skip(self.next as int)
        }
    }
}

/// The instructions that a stack of frames has yet to execute: those of its
/// last frame first.
pub open spec fn pending_of(frames: Seq<Frame>) -> Seq<Op>
    decreases frames.len(),
{
    if frames.len() == 0 {
        Seq::empty()
    } else {
        frames.last().pending() + pending_of(frames.drop_last())
    }
}

/// The virtual machine: 256 memory slots of one byte each, the slot in use,
/// and the instructions that it has begun to execute.
pub struct VirtualMachine<'a> {
    memory_slots: Vec<u8>,
    current_memslot: u8,
    frames: Vec<Frame<'a>>,
}

impl<'a> View for VirtualMachine<'a> {
    type V = Machine;

    closed spec fn view(&self) -> Machine {
        Machine {
            tape: self.memory_slots@,
            pointer: self.current_memslot,
            pending: pending_of(self.frames@),
        }
    }
}

/// What a run of the machine on given input came to.
#[derive(Debug, PartialEq, Eq)]
pub struct Execution {
    /// The bytes that the machine put out, in their order.
    pub output: Vec<u8>,
    /// The number of bytes of the input that the machine read.
    pub consumed: usize,
    /// Whether the machine has nothing left to execute.
    pub halted: bool,
}

impl<'a> VirtualMachine<'a> {
    /// The machine has its 256 slots, and each of its frames is at a
    /// position of its body.
    pub closed spec fn wf(&self) -> bool {
        &&& self.memory_slots@.len() == MEMSLOTS_COUNT
        &&& forall|k: int| 0 <= k < self.frames@.len() ==> (#[trigger] self.frames@[k]).wf()
    }

    /// A well-formed machine has a well-formed value.
    pub proof fn lemma_wf(&self)
        requires
            self.wf(),
        ensures
            self@.wf(),
    {
    }

    /// A new machine: every slot holds zero, the first slot is in use, and
    /// there is nothing to execute.
    pub fn new() -> (vm: Self)
        ensures
            vm.wf(),
            vm@ == Machine::start(Seq::empty()),
    {
        let mut memory_slots: Vec<u8> = Vec::new();
        let mut i: usize = 0;
        while i < MEMSLOTS_COUNT
            invariant
                i <= MEMSLOTS_COUNT,
                memory_slots@.len() == i,
                forall|k: int| 0 <= k < i ==> memory_slots@[k] == 0,
            decreases MEMSLOTS_COUNT - i,
        {
            memory_slots.push(0);
            i = i + 1;
        }
        let vm = VirtualMachine { memory_slots, current_memslot: 0, frames: Vec::new() };
        proof {
            assert(vm@.tape =~= Machine::start(Seq::empty()).tape);
        }
        vm
    }

    /// A new machine that is to execute `instructions`.
    pub fn executing(instructions: &'a [Instruction]) -> (vm: Self)
        ensures
            vm.wf(),
            vm@ == Machine::start(ops(instructions@)),
    {
        let mut vm = Self::new();
        vm.execute_instructions(instructions);
        proof {
            assert(vm@.pending =~= ops(instructions@));
        }
        vm
    }

    /// Puts `program` before all that the machine has yet to execute.
    pub fn execute_instructions(&mut self, program: &'a [Instruction])
        requires
            old(self).wf(),
        ensures
            final(self).wf(),
            final(self)@ == old(self)@.with_first(ops(program@)),
    {
        if program.len() > 0 {
            self.frames.push(Frame { body: program, next: 0, repeats: false });
            proof {
                assert(self.frames@.drop_last() =~= old(self).frames@);
                assert(ops(program@).skip(0) =~= ops(program@));
            }
        } else {
            proof {
                assert(ops(program@) + old(self)@.pending =~= old(self)@.pending);
            }
        }
    }

    /// Whether the machine has nothing left to execute.
    pub fn is_halted(&self) -> (halted: bool)
        requires
            self.wf(),
        ensures
            halted == self@.halted(),
    {
        proof {
            if self.frames@.len() > 0 {
                assert(self.frames@.last().wf());
            }
        }
        self.frames.len() == 0
    }

    /// Whether the next step reads a byte of input.
    pub fn awaits_input(&self) -> (awaits: bool)
        requires
            self.wf(),
        ensures
            awaits == self@.awaits_input(),
    {
        let depth = self.frames.len();
        if depth == 0 {
            return false;
        }
        let frame = &self.frames[depth - 1];
        proof {
            assert(self.frames@.last().wf());
        }
        if frame.next < frame.body.len() {
            match &frame.body[frame.next] {
                Instruction::Read => true,
                _ => false,
            }
        } else {
            false
        }
    }

    /// Executes the next pending instruction, with `input` as the byte that
    /// a read takes, and gives the byte that a show puts out. A halted
    /// machine stays as it is.
    pub fn step(&mut self, input: Option<u8>) -> (emitted: Option<u8>)
        requires
            old(self).wf(),
        ensures
            final(self).wf(),
            (final(self)@, emitted) == old(self)@.step(input),
    {
        match self.frames.pop() {
            None => None,
            Some(frame) => {
                let ghost below = pending_of(self.frames@);
                let ghost body = ops(frame.body@);
                proof {
                    assert(old(self).frames@.last().wf());
                    assert(self.frames@ =~= old(self).frames@.drop_last());
                    assert(old(self)@.pending == frame.pending() + below);
                }
                if frame.next < frame.body.len() {
                    let instruction = &frame.body[frame.next];
                    if frame.repeats || frame.next + 1 < frame.body.len() {
                        let rest = Frame {
                            body: frame.body,
                            next: frame.next + 1,
                            repeats: frame.repeats,
                        };
                        self.frames.push(rest);
                        proof {
                            assert(self.frames@.drop_last() =~= old(self).frames@.drop_last());
                            assert(rest.pending() =~= frame.pending().drop_first());
                        }
                    } else {
                        proof {
                            assert(frame.pending().drop_first() =~= Seq::<Op>::empty());
                        }
                    }
                    proof {
                        assert(frame.pending()[0] == instruction@);
                        assert(self@.pending =~= old(self)@.pending.drop_first());
                    }
                    self.execute_instruction(instruction, input)
                } else {
                    proof {
                        assert(frame.pending() =~= seq![Op::Loop(body)]);
                        assert(self@.pending =~= old(self)@.pending.drop_first());
                    }
                    self.execute_loop(frame.body);
                    None
                }
            },
        }
    }

    /// Runs the machine on `input` until it halts, or for `max_steps` steps
    /// where it has not halted by then. Each read takes the next byte of
    /// `input`, and none once all are taken.
    pub fn run(&mut self, input: &[u8], max_steps: u64) -> (execution: Execution)
        requires
            old(self).wf(),
        ensures
            final(self).wf(),
            ({
                let end = Session::begin(old(self)@).run(input@, max_steps as nat);
                &&& final(self)@ == end.machine
                &&& execution.output@ == end.output
                &&& execution.consumed == end.consumed
                &&& execution.halted == end.machine.halted()
            }),
    {
        let ghost begin = Session::begin(self@);
        let mut output: Vec<u8> = Vec::new();
        let mut consumed: usize = 0;
        let mut steps: u64 = 0;
        while steps < max_steps && !self.is_halted()
            invariant
                self.wf(),
                steps <= max_steps,
                consumed <= input@.len(),
                begin.run(input@, steps as nat) == (Session {
                    machine: self@,
                    consumed: consumed as nat,
                    output: output@,
                }),
            decreases max_steps - steps,
        {
            let byte: Option<u8> = if self.awaits_input() && consumed < input.len() {
                let byte = input[consumed];
                consumed = consumed + 1;
                Some(byte)
            } else {
                None
            };
            match self.step(byte) {
                Some(emitted) => {
                    output.push(emitted);
                },
                None => {},
            }
            steps = steps + 1;
        }
        let halted = self.is_halted();
        proof {
            let now = begin.run(input@, steps as nat);
            if steps < max_steps {
                lemma_halted_stays(now, input@, (max_steps - steps) as nat);
                super::machine::lemma_run_split(
                    begin,
                    input@,
                    steps as nat,
                    (max_steps - steps) as nat,
                );
            }
        }
        Execution { output, consumed, halted }
    }

    /// Executes `instruction`, with `input` as the byte that a read takes,
    /// and gives the byte that a show puts out.
    pub fn execute_instruction(&mut self, instruction: &'a Instruction, input: Option<u8>) -> (emitted:
        Option<u8>)
        requires
            old(self).wf(),
        ensures
            final(self).wf(),
            (final(self)@, emitted) == old(self)@.execute(instruction@, input),
    {
        match instruction {
            Instruction::Advance => {
                self.move_to_next_slot();
                None
            },
            Instruction::Recede => {
                self.move_to_previous_slot();
                None
            },
            Instruction::Increment => {
                self.increment_slot_value();
                None
            },
            Instruction::Decrement => {
                self.decrement_slot_value();
                None
            },
            Instruction::Show => Some(self.display_from_current_memslot()),
            Instruction::Read => {
                self.read_from_user(input);
                None
            },
            Instruction::Loop(instructions) => {
                proof {
                    lemma_view_loop(*instructions);
                }
                self.execute_loop(instructions.as_slice());
                None
            },
        }
    }

    /// Where the value in the slot in use is not zero, puts `instructions`
    /// before all that is yet to execute, and after them the loop over
    /// them, so that the value is looked at again.
    pub fn execute_loop(&mut self, instructions: &'a [Instruction])
        requires
            old(self).wf(),
        ensures
            final(self).wf(),
            final(self)@ == old(self)@.execute(Op::Loop(ops(instructions@)), None).0,
    {
        if self.check_current_memslot() {
            self.frames.push(Frame { body: instructions, next: 0, repeats: true });
            proof {
                assert(self.frames@.drop_last() =~= old(self).frames@);
                assert(ops(instructions@).skip(0) =~= ops(instructions@));
            }
        }
    }

    /// The byte to show for the slot in use: its value.
    pub fn display_from_current_memslot(&self) -> (byte: u8)
        requires
            self.wf(),
        ensures
            byte == self@.cell(),
    {
        self.get_current_memslot_value()
    }

    /// Adds one to the value in the slot in use; 255 becomes zero.
    pub fn increment_slot_value(&mut self)
        requires
            old(self).wf(),
        ensures
            final(self).wf(),
            final(self)@ == old(self)@.with_cell(incremented(old(self)@.cell())),
    {
        let new_value = self.get_current_memslot_value().wrapping_add(1);
        self.set_current_memslot_value(new_value);
    }

    /// Takes one from the value in the slot in use; zero becomes 255.
    pub fn decrement_slot_value(&mut self)
        requires
            old(self).wf(),
        ensures
            final(self).wf(),
            final(self)@ == old(self)@.with_cell(decremented(old(self)@.cell())),
    {
        let new_value = self.get_current_memslot_value().wrapping_sub(1);
        self.set_current_memslot_value(new_value);
    }

    /// Moves to the next slot, and from the last slot to the first.
    pub fn move_to_next_slot(&mut self)
        requires
            old(self).wf(),
        ensures
            final(self).wf(),
            final(self)@ == old(self)@.with_pointer(next_slot(old(self)@.pointer)),
    {
        self.current_memslot = self.current_memslot.wrapping_add(1);
    }

    /// Moves to the previous slot, and from the first slot to the last.
    pub fn move_to_previous_slot(&mut self)
        requires
            old(self).wf(),
        ensures
            final(self).wf(),
            final(self)@ == old(self)@.with_pointer(previous_slot(old(self)@.pointer)),
    {
        self.current_memslot = self.current_memslot.wrapping_sub(1);
    }

    /// Stores the byte that was read in the slot in use, and zero where
    /// there was none to read.
    pub fn read_from_user(&mut self, input: Option<u8>)
        requires
            old(self).wf(),
        ensures
            final(self).wf(),
            final(self)@ == old(self)@.execute(Op::Read, input).0,
    {
        let value: u8 = match input {
            Some(byte) => byte,
            None => 0,
        };
        self.set_current_memslot_value(value);
    }

    /// The value in the slot in use.
    pub fn get_current_memslot_value(&self) -> (value: u8)
        requires
            self.wf(),
        ensures
            value == self@.cell(),
    {
        self.memory_slots[self.get_current_memslot_index()]
    }

    /// The index of the slot in use.
    pub fn get_current_memslot_index(&self) -> (index: usize)
        ensures
            index == self@.pointer,
    {
        self.current_memslot as usize
    }

    /// Stores `new_value` in the slot in use.
    pub fn set_current_memslot_value(&mut self, new_value: u8)
        requires
            old(self).wf(),
        ensures
            final(self).wf(),
            final(self)@ == old(self)@.with_cell(new_value),
    {
        let index = self.get_current_memslot_index();
        self.memory_slots[index] = new_value;
    }

    /// Whether the value in the slot in use counts as true: any value but
    /// zero does.
    pub fn check_current_memslot(&self) -> (truthy: bool)
        requires
            self.wf(),
        ensures
            truthy == (self@.cell() != 0),
    {
        self.get_current_memslot_value() != 0
    }
}

} // verus!
