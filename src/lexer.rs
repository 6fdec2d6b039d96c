use vstd::prelude::*;

verus! {

/// One command character of the source text.
#[derive(Clone, Copy, Debug, PartialEq, Eq, Structural)]
pub enum OpCode {
    IncrementPtr,
    DecrementPtr,
    Increment,
    Decrement,
    Read,
    Write,
    LoopBegin,
    LoopEnd,
}

/// The opcode that a character stands for, if it is one of the eight commands.
pub open spec fn opcode_of(c: char) -> Option<OpCode> {
    if c == '>' {
        Some(OpCode::IncrementPtr)
    } else if c == '<' {
        Some(OpCode::DecrementPtr)
    } else if c == '+' {
        Some(OpCode::Increment)
    } else if c == '-' {
        Some(OpCode::Decrement)
    } else if c == '.' {
        Some(OpCode::Write)
    } else if c == ',' {
        Some(OpCode::Read)
    } else if c == '[' {
        Some(OpCode::LoopBegin)
    } else if c == ']' {
        Some(OpCode::LoopEnd)
    } else {
        None
    }
}

pub open spec fn is_command(c: char) -> bool {
    opcode_of(c) is Some
}

/// The character that an opcode is written as.
pub open spec fn symbol_of(op: OpCode) -> char {
    match op {
        OpCode::IncrementPtr => '>',
        OpCode::DecrementPtr => '<',
        OpCode::Increment => '+',
        OpCode::Decrement => '-',
        OpCode::Write => '.',
        OpCode::Read => ',',
        OpCode::LoopBegin => '[',
        OpCode::LoopEnd => ']',
    }
}

/// The opcodes of a text: its command characters in order, all else dropped.
pub open spec fn lex_spec(s: Seq<char>) -> Seq<OpCode>
    decreases s.len(),
{
    if s.len() == 0 {
        Seq::empty()
    } else {
        let front = lex_spec(s.drop_last());
        match opcode_of(s.last()) {
            Some(op) => front.push(op),
            None => front,
        }
    }
}

/// The text of a sequence of opcodes, one character each.
pub open spec fn source_of(ops: Seq<OpCode>) -> Seq<char> {
    ops.map_values(|op: OpCode| symbol_of(op))
}

/// Maps one character to its opcode.
pub fn opcode_for(c: char) -> (r: Option<OpCode>)
    ensures
        r == opcode_of(c),
{
    match c {
        '>' => Some(OpCode::IncrementPtr),
        '<' => Some(OpCode::DecrementPtr),
        '+' => Some(OpCode::Increment),
        '-' => Some(OpCode::Decrement),
        '.' => Some(OpCode::Write),
        ',' => Some(OpCode::Read),
        '[' => Some(OpCode::LoopBegin),
        ']' => Some(OpCode::LoopEnd),
        _ => None,
    }
}

/// Turns source text into its opcodes; characters that are not commands are
/// comments and are skipped.
pub fn lex(src: String) -> (r: Vec<OpCode>)
    ensures
        r@ == lex_spec(src@),
{
    let mut operations: Vec<OpCode> = Vec::new();
    for c in it: src.as_str().chars()
        invariant
            it.seq() == src@,
            operations@ == lex_spec(src@.take(it.index() as int)),
    {
        proof {
            let t = src@.take(it.index() as int + 1);
            assert(t.drop_last() =~= src@.take(it.index() as int));
        }
        match opcode_for(c) {
            Some(op) => operations.push(op),
            None => {},
        }
    }
    proof {
        assert(src@.take(src@.len() as int) =~= src@);
    }
    operations
}

impl OpCode {
    /// The command character of this opcode, as text.
    pub fn symbol(&self) -> (r: &'static str)
        ensures
            r@ == seq![symbol_of(*self)],
    {
        proof {
            reveal_strlit(">");
            reveal_strlit("<");
            reveal_strlit("+");
            reveal_strlit("-");
            reveal_strlit(".");
            reveal_strlit(",");
            reveal_strlit("[");
            reveal_strlit("]");
        }
        match self {
            OpCode::IncrementPtr => ">",
            OpCode::DecrementPtr => "<",
            OpCode::Increment => "+",
            OpCode::Decrement => "-",
            OpCode::Write => ".",
            OpCode::Read => ",",
            OpCode::LoopBegin => "[",
            OpCode::LoopEnd => "]",
        }
    }
}

/// Writes opcodes back as text, one command character each.
pub fn to_source(ops: &Vec<OpCode>) -> (r: String)
    ensures
        r@ == source_of(ops@),
{
    let mut text = String::new();
    let n = ops.len();
    for i in 0..n
        invariant
            n == ops@.len(),
            text@ == source_of(ops@.take(i as int)),
    {
        text.append(ops[i].symbol());
        assert(ops@.take(i + 1) =~= ops@.take(i as int).push(ops@[i as int]));
        assert(source_of(ops@.take(i + 1)) =~= source_of(ops@.take(i as int)).push(
            symbol_of(ops@[i as int]),
        ));
    }
    assert(ops@.take(n as int) =~= ops@);
    text
}

/// Lexing a text and writing the opcodes back gives the text's command
/// characters, in their order, with every other character dropped.
pub proof fn lemma_lex_then_source(s: Seq<char>)
    ensures
        source_of(lex_spec(s)) == s.filter(|c: char| is_command(c)),
    decreases s.len(),
{
    reveal(Seq::filter);
    if s.len() > 0 {
        lemma_lex_then_source(s.drop_last());
        let f = lex_spec(s.drop_last());
        if let Some(op) = opcode_of(s.last()) {
            assert(symbol_of(op) == s.last());
            assert(source_of(f.push(op)) =~= source_of(f).push(symbol_of(op)));
        }
    }
}

} // verus!
