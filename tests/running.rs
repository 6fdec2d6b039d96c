use brainfuck::machine::{run, Machine, RunError, START, TAPE_LEN};
use brainfuck::parser::Instruction;
use brainfuck::pipeline::{execute, Error};
use brainfuck::parser::ParseError;

const FUEL: u64 = 1_000_000;

fn source(text: &str) -> String {
    String::from(text)
}

#[test]
fn fresh_machine_layout() {
    let m = Machine::new(vec![1, 2]);
    assert_eq!(m.tape.len(), TAPE_LEN);
    assert_eq!(TAPE_LEN, 1024);
    assert_eq!(m.ptr, START);
    assert_eq!(START, 512);
    assert!(m.tape.iter().all(|c| *c == 0));
    assert_eq!(m.input_pos, 0);
    assert!(m.output.is_empty());
}

#[test]
fn three_increments_write_three() {
    let (out, res) = execute(source("+++."), vec![], FUEL);
    assert_eq!(res, Ok(()));
    assert_eq!(out, vec![3]);
}

#[test]
fn classic_sixty_four() {
    let (out, res) = execute(source("++++++++[>++++++++<-]>."), vec![], FUEL);
    assert_eq!(res, Ok(()));
    assert_eq!(out, vec![64]);
}

#[test]
fn echo_one_input_byte() {
    let (out, res) = execute(source(",."), vec![b'A'], FUEL);
    assert_eq!(res, Ok(()));
    assert_eq!(out, vec![65]);
}

#[test]
fn empty_source_writes_nothing() {
    let (out, res) = execute(source(""), vec![], FUEL);
    assert_eq!(res, Ok(()));
    assert!(out.is_empty());
    let (out, res) = execute(source("only a comment"), vec![], FUEL);
    assert_eq!(res, Ok(()));
    assert!(out.is_empty());
}

#[test]
fn increment_256_times_wraps_to_start() {
    let mut m = Machine::new(vec![]);
    m.tape[START] = 17;
    let program: Vec<Instruction> = (0..256).map(|_| Instruction::Increment).collect();
    assert_eq!(run(&program, &mut m, FUEL), Ok(()));
    assert_eq!(m.tape[START], 17);
    let text = "+".repeat(256) + ".";
    let (out, res) = execute(text, vec![], FUEL);
    assert_eq!(res, Ok(()));
    assert_eq!(out, vec![0]);
}

#[test]
fn decrement_from_zero_wraps_to_255() {
    let (out, res) = execute(source("-."), vec![], FUEL);
    assert_eq!(res, Ok(()));
    assert_eq!(out, vec![255]);
}

#[test]
fn increment_from_255_wraps_to_zero() {
    let (out, res) = execute(source("-+."), vec![], FUEL);
    assert_eq!(res, Ok(()));
    assert_eq!(out, vec![0]);
}

#[test]
fn running_twice_gives_identical_output() {
    let text = "++++++[>++++++++<-]>+.+.+.,.";
    let first = execute(source(text), vec![7], FUEL);
    let second = execute(source(text), vec![7], FUEL);
    assert_eq!(first, second);
    assert_eq!(first.0, vec![49, 50, 51, 7]);
}

#[test]
fn moving_left_off_the_tape_is_an_error() {
    let text = "<".repeat(START) + ".<.";
    let (out, res) = execute(text, vec![], FUEL);
    assert_eq!(out, vec![0]);
    assert_eq!(res, Err(Error::Runtime(RunError::OutOfBounds)));
}

#[test]
fn moving_right_off_the_tape_is_an_error() {
    let mut m = Machine::new(vec![]);
    let program: Vec<Instruction> = (0..TAPE_LEN - START - 1).map(|_| Instruction::IncrementPtr).collect();
    assert_eq!(run(&program, &mut m, FUEL), Ok(()));
    assert_eq!(m.ptr, TAPE_LEN - 1);
    assert_eq!(run(&vec![Instruction::IncrementPtr], &mut m, FUEL), Err(RunError::OutOfBounds));
    assert_eq!(m.ptr, TAPE_LEN - 1);
}

#[test]
fn reading_past_the_input_is_an_error() {
    let (out, res) = execute(source(",.,."), vec![9], FUEL);
    assert_eq!(out, vec![9]);
    assert_eq!(res, Err(Error::Runtime(RunError::InputExhausted)));
}

#[test]
fn endless_loop_runs_out_of_fuel() {
    let (out, res) = execute(source("+[.]"), vec![], 3);
    assert_eq!(out, vec![1, 1, 1]);
    assert_eq!(res, Err(Error::Runtime(RunError::OutOfFuel)));
}

#[test]
fn structural_fault_runs_nothing() {
    let (out, res) = execute(source("+.]"), vec![], FUEL);
    assert!(out.is_empty());
    assert_eq!(res, Err(Error::Parse(ParseError::UnmatchedClose(2))));
    let (out, res) = execute(source(".[+"), vec![], FUEL);
    assert!(out.is_empty());
    assert_eq!(res, Err(Error::Parse(ParseError::UnmatchedOpen(1))));
}

#[test]
fn loop_skipped_when_cell_is_zero() {
    let (out, res) = execute(source("[+.]."), vec![], FUEL);
    assert_eq!(res, Ok(()));
    assert_eq!(out, vec![0]);
}
