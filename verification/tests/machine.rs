use bf_interp::lexing::Lexer;
use bf_interp::parsing::{Instruction, Parser};
use bf_interp::virtual_machine::{Execution, VirtualMachine};

fn program(text: &str) -> Vec<Instruction> {
    Parser::parse(&Lexer::tokenize(text).unwrap()).unwrap()
}

fn run(text: &str, input: &[u8], max_steps: u64) -> Execution {
    let tree = program(text);
    let mut vm = VirtualMachine::executing(&tree);
    vm.run(input, max_steps)
}

#[test]
fn hello() {
    let execution = run(
        "++++++++[>++++[>++>+++>+++>+<<<<-]>+>+>->>+[<]<-]>>.>---.+++++++..+++.",
        &[],
        1_000_000,
    );
    assert!(execution.halted);
    assert_eq!(execution.output, b"Hello".to_vec());
    assert_eq!(execution.consumed, 0);
}

#[test]
fn echo_one_byte() {
    assert_eq!(
        run(",.", &[65], 100),
        Execution { output: vec![65], consumed: 1, halted: true }
    );
}

#[test]
fn read_without_input_stores_zero() {
    assert_eq!(run(",.", &[], 100), Execution { output: vec![0], consumed: 0, halted: true });
    assert_eq!(
        run("+++,.", &[], 100),
        Execution { output: vec![0], consumed: 0, halted: true }
    );
}

#[test]
fn reads_take_the_input_in_order() {
    assert_eq!(
        run(",>,>,<<.>.>.", &[1, 2], 100),
        Execution { output: vec![1, 2, 0], consumed: 2, halted: true }
    );
}

#[test]
fn input_that_is_not_read_is_not_consumed() {
    assert_eq!(
        run("+.", &[9, 9, 9], 100),
        Execution { output: vec![1], consumed: 0, halted: true }
    );
}

#[test]
fn empty_loop_on_a_cell_that_is_not_zero_does_not_halt() {
    for max_steps in [0, 1, 2, 3, 1000, 100_000] {
        let execution = run("+[]", &[], max_steps);
        assert!(!execution.halted, "{}", max_steps);
        assert_eq!(execution.output, vec![]);
    }
}

#[test]
fn empty_loop_on_a_zero_cell_is_skipped() {
    assert_eq!(run("[]+.", &[], 100), Execution { output: vec![1], consumed: 0, halted: true });
}

#[test]
fn loop_body_is_skipped_on_a_zero_cell() {
    assert_eq!(run("[.+]", &[], 100), Execution { output: vec![], consumed: 0, halted: true });
}

#[test]
fn loop_runs_until_the_cell_is_zero() {
    assert_eq!(
        run("+++[.-]", &[], 100),
        Execution { output: vec![3, 2, 1], consumed: 0, halted: true }
    );
}

#[test]
fn nested_loops_multiply() {
    assert_eq!(
        run("+++[>++++[>+<-]<-]>>.", &[], 1000),
        Execution { output: vec![12], consumed: 0, halted: true }
    );
}

#[test]
fn increment_wraps_after_256() {
    let text = "+".repeat(256) + ".";
    assert_eq!(run(&text, &[], 1000).output, vec![0]);
    let text = "+".repeat(255) + ".+.";
    assert_eq!(run(&text, &[], 1000).output, vec![255, 0]);
}

#[test]
fn decrement_wraps_below_zero() {
    assert_eq!(run("-.", &[], 100).output, vec![255]);
    assert_eq!(run("-.+.", &[], 100).output, vec![255, 0]);
}

#[test]
fn pointer_wraps_backward_to_the_last_slot() {
    let tree = program("<");
    let mut vm = VirtualMachine::executing(&tree);
    assert_eq!(vm.get_current_memslot_index(), 0);
    assert_eq!(vm.step(None), None);
    assert_eq!(vm.get_current_memslot_index(), 255);
    assert!(vm.is_halted());
}

#[test]
fn pointer_wraps_forward_to_the_first_slot() {
    let text = "+".to_string() + &">".repeat(256) + ".";
    assert_eq!(run(&text, &[], 1000).output, vec![1]);
    let text = "+<+>.<.".to_string() + &">".repeat(255) + "." + &">".repeat(2) + ".";
    assert_eq!(run(&text, &[], 1000).output, vec![1, 1, 0, 1]);
}

#[test]
fn straight_line_output_follows_the_counts() {
    assert_eq!(run("+++.>++.<-.", &[], 100).output, vec![3, 2, 2]);
    assert_eq!(run("+>++>+++<<.>.>.<-.", &[], 100).output, vec![1, 2, 3, 1]);
}

#[test]
fn straight_line_program_takes_one_step_for_each_instruction() {
    let text = "+>-.<,";
    assert!(!run(text, &[], 5).halted);
    assert!(run(text, &[], 6).halted);
}

#[test]
fn run_without_steps_changes_nothing() {
    let tree = program("+.");
    let mut vm = VirtualMachine::executing(&tree);
    assert_eq!(vm.run(&[], 0), Execution { output: vec![], consumed: 0, halted: false });
    assert_eq!(vm.get_current_memslot_value(), 0);
    assert_eq!(vm.run(&[], 10), Execution { output: vec![1], consumed: 0, halted: true });
}

#[test]
fn run_can_be_taken_up_again() {
    let tree = program("+++[.-]");
    let mut vm = VirtualMachine::executing(&tree);
    let first = vm.run(&[], 5);
    assert_eq!(first, Execution { output: vec![3], consumed: 0, halted: false });
    let second = vm.run(&[], 100);
    assert_eq!(second, Execution { output: vec![2, 1], consumed: 0, halted: true });
}

#[test]
fn empty_program_is_halted() {
    assert_eq!(run("", &[1], 10), Execution { output: vec![], consumed: 0, halted: true });
    let vm = VirtualMachine::new();
    assert!(vm.is_halted());
    assert!(!vm.awaits_input());
    assert_eq!(vm.get_current_memslot_index(), 0);
    assert_eq!(vm.get_current_memslot_value(), 0);
}

#[test]
fn step_by_step_with_input() {
    let tree = program(",[.,]");
    let mut vm = VirtualMachine::executing(&tree);
    assert!(vm.awaits_input());
    assert_eq!(vm.step(Some(7)), None);
    assert!(!vm.awaits_input());
    assert_eq!(vm.step(None), None);
    assert!(!vm.awaits_input());
    assert_eq!(vm.step(None), Some(7));
    assert!(vm.awaits_input());
    assert_eq!(vm.step(None), None);
    assert_eq!(vm.get_current_memslot_value(), 0);
    assert!(!vm.is_halted());
    assert_eq!(vm.step(None), None);
    assert!(vm.is_halted());
    assert_eq!(vm.step(Some(1)), None);
    assert!(vm.is_halted());
}

#[test]
fn commands_on_the_slot_in_use() {
    let mut vm = VirtualMachine::new();
    assert!(!vm.check_current_memslot());
    vm.decrement_slot_value();
    assert_eq!(vm.get_current_memslot_value(), 255);
    assert!(vm.check_current_memslot());
    assert_eq!(vm.display_from_current_memslot(), 255);
    vm.increment_slot_value();
    assert_eq!(vm.get_current_memslot_value(), 0);
    vm.set_current_memslot_value(42);
    vm.move_to_previous_slot();
    assert_eq!(vm.get_current_memslot_index(), 255);
    assert_eq!(vm.get_current_memslot_value(), 0);
    vm.move_to_next_slot();
    assert_eq!(vm.get_current_memslot_index(), 0);
    assert_eq!(vm.get_current_memslot_value(), 42);
    vm.read_from_user(Some(5));
    assert_eq!(vm.get_current_memslot_value(), 5);
    vm.read_from_user(None);
    assert_eq!(vm.get_current_memslot_value(), 0);
}

#[test]
fn execute_instructions_puts_a_program_first() {
    let first = program("+.");
    let second = program("+.");
    let mut vm = VirtualMachine::new();
    vm.execute_instructions(&second);
    vm.execute_instructions(&first);
    assert_eq!(vm.run(&[], 100), Execution { output: vec![1, 2], consumed: 0, halted: true });
}

#[test]
fn execute_instruction_and_loop() {
    let body = program("-");
    let mut vm = VirtualMachine::new();
    vm.execute_loop(&body);
    assert!(vm.is_halted());
    assert_eq!(vm.execute_instruction(&Instruction::Increment, None), None);
    assert_eq!(vm.execute_instruction(&Instruction::Show, None), Some(1));
    assert_eq!(vm.execute_instruction(&Instruction::Read, Some(2)), None);
    vm.execute_loop(&body);
    assert!(!vm.is_halted());
    assert_eq!(vm.run(&[], 100), Execution { output: vec![], consumed: 0, halted: true });
    assert_eq!(vm.get_current_memslot_value(), 0);
}
