use brainfuck::lexer::{lex, OpCode};
use brainfuck::parser::{parse, Instruction, ParseError};

fn ops(text: &str) -> Vec<OpCode> {
    lex(String::from(text))
}

fn count(p: &[Instruction]) -> usize {
    p.iter()
        .map(|i| match i {
            Instruction::Loop(body) => count(body),
            _ => 1,
        })
        .sum()
}

#[test]
fn parse_flat_sequence() {
    let p = parse(ops("+>-<.,")).unwrap();
    assert_eq!(
        p,
        vec![
            Instruction::Increment,
            Instruction::IncrementPtr,
            Instruction::Decrement,
            Instruction::DecrementPtr,
            Instruction::Write,
            Instruction::Read,
        ]
    );
}

#[test]
fn parse_nested_loops() {
    let p = parse(ops("+[>[-]<-]")).unwrap();
    assert_eq!(
        p,
        vec![
            Instruction::Increment,
            Instruction::Loop(vec![
                Instruction::IncrementPtr,
                Instruction::Loop(vec![Instruction::Decrement]),
                Instruction::DecrementPtr,
                Instruction::Decrement,
            ]),
        ]
    );
}

#[test]
fn parse_adjacent_sibling_loops() {
    let p = parse(ops("[+][-]")).unwrap();
    assert_eq!(
        p,
        vec![
            Instruction::Loop(vec![Instruction::Increment]),
            Instruction::Loop(vec![Instruction::Decrement]),
        ]
    );
}

#[test]
fn parse_empty_loop_and_empty_input() {
    assert_eq!(parse(ops("[]")).unwrap(), vec![Instruction::Loop(vec![])]);
    assert_eq!(parse(Vec::new()).unwrap(), vec![]);
}

#[test]
fn parse_count_matches_non_bracket_opcodes() {
    let text = "++[>+[-<]>.]<,[[]]";
    let o = ops(text);
    let non_brackets = o
        .iter()
        .filter(|op| **op != OpCode::LoopBegin && **op != OpCode::LoopEnd)
        .count();
    let p = parse(o).unwrap();
    assert_eq!(count(&p), non_brackets);
    assert_eq!(count(&p), 10);
}

#[test]
fn parse_extra_close_reports_its_position() {
    assert_eq!(parse(ops("]")), Err(ParseError::UnmatchedClose(0)));
    assert_eq!(parse(ops("+[-]]+")), Err(ParseError::UnmatchedClose(4)));
    assert_eq!(parse(ops("[]][")), Err(ParseError::UnmatchedClose(2)));
}

#[test]
fn parse_unclosed_open_reports_outermost_opener() {
    assert_eq!(parse(ops("[")), Err(ParseError::UnmatchedOpen(0)));
    assert_eq!(parse(ops("[[]")), Err(ParseError::UnmatchedOpen(0)));
    assert_eq!(parse(ops("+[-][+[")), Err(ParseError::UnmatchedOpen(4)));
}
