use vstd::prelude::*;
use crate::lexer::{lex, lex_spec, OpCode};
use crate::parser::{
    flatten, is_unmatched_close, is_unmatched_open, parse, well_bracketed, Instruction,
    ParseError,
};
use crate::machine::{fresh, run, run_seq, Machine, RunError};

verus! {

/// Why running a source text failed.
#[derive(Clone, Copy, Debug, PartialEq, Eq, Structural)]
pub enum Error {
    Parse(ParseError),
    Runtime(RunError),
}

/// The bytes that program `p` writes on a fresh machine reading `input`, and
/// how the run ended.
pub open spec fn program_outcome(p: Seq<Instruction>, input: Seq<u8>, fuel: nat) -> (Seq<u8>, Result<(), Error>) {
    let (m, r) = run_seq(p, fresh(input), fuel);
    (
        m.output,
        match r {
            Ok(()) => Ok(()),
            Err(e) => Err(Error::Runtime(e)),
        },
    )
}

/// What a structural failure of the text `ops` may report.
pub open spec fn structural_fault(ops: Seq<OpCode>, e: ParseError) -> bool {
    match e {
        ParseError::UnmatchedClose(i) => is_unmatched_close(ops, i as int),
        ParseError::UnmatchedOpen(i) => is_unmatched_open(ops, i as int),
    }
}

/// What running `source` may give: when its brackets do not match, no output
/// and the bracket at fault; otherwise what a tree written as its opcodes
/// outputs and how that run ends.
pub open spec fn execute_post(source: Seq<char>, input: Seq<u8>, fuel: nat, out: Seq<u8>, res: Result<(), Error>) -> bool {
    let ops = lex_spec(source);
    if well_bracketed(ops) {
        exists|p: Seq<Instruction>| flatten(p) == ops && #[trigger] program_outcome(p, input, fuel) == (out, res)
    } else {
        &&& out == Seq::<u8>::empty()
        &&& res matches Err(Error::Parse(e))
        &&& structural_fault(ops, e)
    }
}

/// Lexes, parses and runs `source` on a fresh machine that reads from
/// `input`, with loop budget `fuel`. Returns the bytes written and how the
/// run ended; a structural fault stops it before anything runs.
pub fn execute(source: String, input: Vec<u8>, fuel: u64) -> (r: (Vec<u8>, Result<(), Error>))
    ensures
        execute_post(source@, input@, fuel as nat, r.0@, r.1),
{
    let ops = lex(source);
    match parse(ops) {
        Err(e) => (Vec::new(), Err(Error::Parse(e))),
        Ok(program) => {
            let mut m = Machine::new(input);
            let result = match run(&program, &mut m, fuel) {
                Ok(()) => Ok(()),
                Err(e) => Err(Error::Runtime(e)),
            };
            assert(program_outcome(program@, input@, fuel as nat) == (m.output@, result));
            (m.output, result)
        },
    }
}

} // verus!
