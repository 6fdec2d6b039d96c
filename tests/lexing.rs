use brainfuck::lexer::{lex, opcode_for, to_source, OpCode};

#[test]
fn lex_maps_each_command_character() {
    let ops = lex(String::from("><+-.,[]"));
    assert_eq!(
        ops,
        vec![
            OpCode::IncrementPtr,
            OpCode::DecrementPtr,
            OpCode::Increment,
            OpCode::Decrement,
            OpCode::Write,
            OpCode::Read,
            OpCode::LoopBegin,
            OpCode::LoopEnd,
        ]
    );
}

#[test]
fn lex_skips_comments_and_whitespace() {
    let ops = lex(String::from("add two: ++\n move >  é ]"));
    assert_eq!(
        ops,
        vec![OpCode::Increment, OpCode::Increment, OpCode::IncrementPtr, OpCode::LoopEnd]
    );
}

#[test]
fn lex_of_empty_text_is_empty() {
    assert!(lex(String::new()).is_empty());
    assert!(lex(String::from("no commands here")).is_empty());
}

#[test]
fn opcode_for_non_command_is_none() {
    assert_eq!(opcode_for('a'), None);
    assert_eq!(opcode_for(' '), None);
    assert_eq!(opcode_for('['), Some(OpCode::LoopBegin));
}

#[test]
fn symbol_writes_each_opcode_back() {
    assert_eq!(OpCode::IncrementPtr.symbol(), ">");
    assert_eq!(OpCode::LoopEnd.symbol(), "]");
    assert_eq!(OpCode::Read.symbol(), ",");
}

#[test]
fn lex_then_source_keeps_commands_in_order() {
    let text = "Hello [world], this + is - a > test < of . commands!";
    let back = to_source(&lex(String::from(text)));
    assert_eq!(back, "[],+-><.");
    let expected: String = text.chars().filter(|c| "<>+-.,[]".contains(*c)).collect();
    assert_eq!(back, expected);
}

#[test]
fn to_source_of_empty_is_empty() {
    assert_eq!(to_source(&Vec::new()), "");
}
