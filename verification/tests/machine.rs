use brainfuck_rs::command::{Command, ParseError};
use brainfuck_rs::machine::{Machine, DEFAULT_TAPE_LEN};
use brainfuck_rs::semantics::{Direction, RuntimeError, Status, Step};
use brainfuck_rs::token::Token;

const PLENTY: u64 = 1_000_000;

fn program(source: &str) -> Vec<Command> {
    Command::parse_command(Token::tokenization(source)).unwrap()
}

#[test]
fn fresh_machine_is_zeroed_and_halted() {
    let machine = Machine::new(8);
    assert_eq!(machine.tape(), &vec![0u8; 8]);
    assert_eq!(machine.pointer(), 0);
    assert!(machine.is_halted());
    assert!(!machine.wants_input());
}

#[test]
fn default_tape_has_thirty_thousand_cells() {
    assert_eq!(DEFAULT_TAPE_LEN, 30000);
    let report = Machine::run("", &[], PLENTY).unwrap();
    assert_eq!(report.tape.len(), 30000);
    assert!(report.tape.iter().all(|&cell| cell == 0));
    assert_eq!(report.pointer, 0);
    assert_eq!(report.status, Status::Halted);
}

#[test]
fn increment_wraps_from_255_to_0() {
    let commands = program("+");
    let mut machine = Machine::new(1);
    for expected in 1..=255u8 {
        machine.execute(&commands, &[], PLENTY);
        assert_eq!(machine.tape()[0], expected);
    }
    machine.execute(&commands, &[], PLENTY);
    assert_eq!(machine.tape()[0], 0);
}

#[test]
fn decrement_wraps_from_0_to_255() {
    let report = Machine::run("-", &[], PLENTY).unwrap();
    assert_eq!(report.tape[0], 255);
    assert_eq!(report.status, Status::Halted);
    let report = Machine::run("-+", &[], PLENTY).unwrap();
    assert_eq!(report.tape[0], 0);
}

#[test]
fn three_increments_then_output_writes_one_byte_3() {
    let report = Machine::run("+++.", &[], PLENTY).unwrap();
    assert_eq!(report.output, vec![3u8]);
    assert_eq!(report.status, Status::Halted);
    assert_eq!(report.consumed, 0);
    assert_eq!(report.tape[0], 3);
    assert_eq!(report.pointer, 0);
}

#[test]
fn loop_on_zero_cell_never_runs_its_body() {
    let report = Machine::run("[]", &[], PLENTY).unwrap();
    assert_eq!(report.status, Status::Halted);
    assert_eq!(report.output, Vec::<u8>::new());
    assert!(report.tape.iter().all(|&cell| cell == 0));
    assert_eq!(report.pointer, 0);

    let report = Machine::run("[+.>]", &[], PLENTY).unwrap();
    assert_eq!(report.status, Status::Halted);
    assert_eq!(report.output, Vec::<u8>::new());
    assert!(report.tape.iter().all(|&cell| cell == 0));
    assert_eq!(report.pointer, 0);
}

#[test]
fn loop_on_zero_cell_takes_two_steps_to_halt() {
    let commands = program("[]");
    let mut machine = Machine::new(4);
    machine.load(&commands);
    assert!(!machine.is_halted());
    assert_eq!(machine.step(None), Ok(Step::Advanced));
    assert!(!machine.is_halted());
    assert_eq!(machine.step(None), Ok(Step::Advanced));
    assert!(machine.is_halted());
    assert_eq!(machine.step(None), Ok(Step::Halted));
    assert_eq!(machine.tape(), &vec![0u8; 4]);
}

#[test]
fn transfer_loop_moves_the_value_to_the_next_cell() {
    let report = Machine::run("+>+<[->+<]", &[], PLENTY).unwrap();
    assert_eq!(report.status, Status::Halted);
    assert_eq!(report.tape[0], 0);
    assert_eq!(report.tape[1], 2);
    assert_eq!(report.pointer, 0);
    assert_eq!(report.output, Vec::<u8>::new());
}

#[test]
fn loop_test_is_made_again_after_every_pass() {
    let report = Machine::run("+++[.-]", &[], PLENTY).unwrap();
    assert_eq!(report.output, vec![3u8, 2, 1]);
    assert_eq!(report.tape[0], 0);
    assert_eq!(report.status, Status::Halted);
}

#[test]
fn nested_loops_multiply() {
    let report = Machine::run("+++[>++++[>++<-]<-]>>.", &[], PLENTY).unwrap();
    assert_eq!(report.output, vec![24u8]);
    assert_eq!(report.tape[0], 0);
    assert_eq!(report.tape[1], 0);
    assert_eq!(report.tape[2], 24);
    assert_eq!(report.pointer, 2);
}

#[test]
fn input_is_read_one_byte_per_instruction() {
    let report = Machine::run(",.,.", &[65, 66, 67], PLENTY).unwrap();
    assert_eq!(report.output, vec![65u8, 66]);
    assert_eq!(report.consumed, 2);
    assert_eq!(report.tape[0], 66);
    assert_eq!(report.status, Status::Halted);
}

#[test]
fn input_overwrites_the_current_cell() {
    let report = Machine::run("+++++,", &[0], PLENTY).unwrap();
    assert_eq!(report.tape[0], 0);
    assert_eq!(report.consumed, 1);
}

#[test]
fn exhausted_input_is_an_error() {
    let report = Machine::run(",", &[], PLENTY).unwrap();
    assert_eq!(report.status, Status::Failed(RuntimeError::InputExhausted));
    assert_eq!(report.consumed, 0);
    assert_eq!(report.tape[0], 0);

    let report = Machine::run(",.,.", &[7], PLENTY).unwrap();
    assert_eq!(report.status, Status::Failed(RuntimeError::InputExhausted));
    assert_eq!(report.output, vec![7u8]);
    assert_eq!(report.consumed, 1);
}

#[test]
fn moving_left_of_cell_zero_is_an_error() {
    let report = Machine::run("<", &[], PLENTY).unwrap();
    assert_eq!(
        report.status,
        Status::Failed(RuntimeError::PointerOutOfBounds(Direction::Left))
    );
    assert_eq!(report.pointer, 0);
}

#[test]
fn moving_right_of_the_last_cell_is_an_error() {
    let commands = program(">>>");
    let mut machine = Machine::new(3);
    let outcome = machine.execute(&commands, &[], PLENTY);
    assert_eq!(
        outcome.status,
        Status::Failed(RuntimeError::PointerOutOfBounds(Direction::Right))
    );
    assert_eq!(machine.pointer(), 2);

    let commands = program(">>");
    let mut machine = Machine::new(3);
    let outcome = machine.execute(&commands, &[], PLENTY);
    assert_eq!(outcome.status, Status::Halted);
    assert_eq!(machine.pointer(), 2);
}

#[test]
fn default_tape_ends_after_cell_29999() {
    let source = ">".repeat(29999);
    let report = Machine::run(&source, &[], PLENTY).unwrap();
    assert_eq!(report.status, Status::Halted);
    assert_eq!(report.pointer, 29999);

    let source = ">".repeat(30000);
    let report = Machine::run(&source, &[], PLENTY).unwrap();
    assert_eq!(
        report.status,
        Status::Failed(RuntimeError::PointerOutOfBounds(Direction::Right))
    );
    assert_eq!(report.pointer, 29999);
}

#[test]
fn output_before_a_failure_is_kept() {
    let report = Machine::run("+.+.<.", &[], PLENTY).unwrap();
    assert_eq!(report.output, vec![1u8, 2]);
    assert_eq!(
        report.status,
        Status::Failed(RuntimeError::PointerOutOfBounds(Direction::Left))
    );
    assert_eq!(report.tape[0], 2);
}

#[test]
fn failed_step_changes_nothing_and_fails_again() {
    let commands = program("+<+");
    let mut machine = Machine::new(2);
    machine.load(&commands);
    assert_eq!(machine.step(None), Ok(Step::Advanced));
    let error = Err(RuntimeError::PointerOutOfBounds(Direction::Left));
    assert_eq!(machine.step(None), error);
    assert_eq!(machine.step(None), error);
    assert_eq!(machine.tape(), &vec![1u8, 0]);
    assert_eq!(machine.pointer(), 0);
    assert!(!machine.is_halted());
}

#[test]
fn parse_error_is_reported_before_anything_runs() {
    assert_eq!(
        Machine::run("+.+.]", &[], PLENTY).unwrap_err(),
        ParseError::UnmatchedCloseBracket(4)
    );
    assert_eq!(
        Machine::run("[+", &[], PLENTY).unwrap_err(),
        ParseError::UnmatchedOpenBracket(0)
    );
    assert_eq!(
        Machine::run("]", &[], PLENTY).unwrap_err(),
        ParseError::UnmatchedCloseBracket(0)
    );
}

#[test]
fn endless_loop_is_suspended_when_the_budget_is_spent() {
    let report = Machine::run("+[]", &[], 1000).unwrap();
    assert_eq!(report.status, Status::Suspended);
    assert_eq!(report.tape[0], 1);

    let report = Machine::run("+[.]", &[], 7).unwrap();
    assert_eq!(report.status, Status::Suspended);
    assert_eq!(report.output, vec![1u8, 1]);
}

#[test]
fn budget_counts_steps() {
    let report = Machine::run("+++", &[], 3).unwrap();
    assert_eq!(report.status, Status::Suspended);
    assert_eq!(report.tape[0], 3);
    let report = Machine::run("+++", &[], 4).unwrap();
    assert_eq!(report.status, Status::Halted);
    assert_eq!(report.tape[0], 3);
    let report = Machine::run("+++", &[], 0).unwrap();
    assert_eq!(report.status, Status::Suspended);
    assert_eq!(report.tape[0], 0);
    let report = Machine::run("", &[], 0).unwrap();
    assert_eq!(report.status, Status::Suspended);
}

#[test]
fn suspended_run_can_be_stepped_to_its_end() {
    let commands = program("++>+++.");
    let mut machine = Machine::new(4);
    let outcome = machine.execute(&commands, &[], 3);
    assert_eq!(outcome.status, Status::Suspended);
    assert_eq!(outcome.output, Vec::<u8>::new());
    let mut output = Vec::new();
    while !machine.is_halted() {
        if let Step::Output(byte) = machine.step(None).unwrap() {
            output.push(byte);
        }
    }
    assert_eq!(output, vec![3u8]);
    assert_eq!(machine.tape(), &vec![2u8, 3, 0, 0]);
    assert_eq!(machine.pointer(), 1);
}

#[test]
fn step_reports_what_it_did() {
    let commands = program("+.,>[-]");
    let mut machine = Machine::new(2);
    machine.load(&commands);
    assert!(!machine.wants_input());
    assert_eq!(machine.step(None), Ok(Step::Advanced));
    assert_eq!(machine.step(Some(9)), Ok(Step::Output(1)));
    assert!(machine.wants_input());
    assert_eq!(machine.step(Some(9)), Ok(Step::Input));
    assert_eq!(machine.tape(), &vec![9u8, 0]);
    assert!(!machine.wants_input());
    assert_eq!(machine.step(Some(10)), Ok(Step::Advanced));
    assert_eq!(machine.pointer(), 1);
    assert_eq!(machine.step(Some(10)), Ok(Step::Advanced));
    assert!(!machine.is_halted());
    assert_eq!(machine.step(Some(10)), Ok(Step::Advanced));
    assert!(machine.is_halted());
    assert_eq!(machine.step(Some(10)), Ok(Step::Halted));
    assert_eq!(machine.tape(), &vec![9u8, 0]);
}

#[test]
fn offered_byte_is_ignored_unless_input_runs() {
    let commands = program("+");
    let mut machine = Machine::new(1);
    machine.load(&commands);
    assert_eq!(machine.step(Some(42)), Ok(Step::Advanced));
    assert_eq!(machine.tape(), &vec![1u8]);
}

#[test]
fn execute_keeps_the_tape_between_programs() {
    let first = program("+++>++");
    let second = program("[-<+>]<.");
    let mut machine = Machine::new(5);
    let outcome = machine.execute(&first, &[], PLENTY);
    assert_eq!(outcome.status, Status::Halted);
    assert_eq!(machine.pointer(), 1);
    let outcome = machine.execute(&second, &[], PLENTY);
    assert_eq!(outcome.status, Status::Halted);
    assert_eq!(outcome.output, vec![5u8]);
    assert_eq!(machine.tape(), &vec![5u8, 0, 0, 0, 0]);
    assert_eq!(machine.pointer(), 0);
}

#[test]
fn into_tape_hands_out_tape_and_pointer() {
    let commands = program("+>++>+++");
    let mut machine = Machine::new(3);
    machine.execute(&commands, &[], PLENTY);
    assert_eq!(machine.into_tape(), (vec![1u8, 2, 3], 2));
}

#[test]
fn result_does_not_depend_on_a_sufficient_budget() {
    let source = "++++[>+++<-]>.";
    let small = Machine::run(source, &[], 200).unwrap();
    let large = Machine::run(source, &[], u64::MAX).unwrap();
    assert_eq!(small.status, Status::Halted);
    assert_eq!(large.status, Status::Halted);
    assert_eq!(small.output, vec![12u8]);
    assert_eq!(small.output, large.output);
    assert_eq!(small.tape, large.tape);
    assert_eq!(small.pointer, large.pointer);
}
