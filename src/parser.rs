use vstd::prelude::*;
use crate::lexer::OpCode;

verus! {

/// A resolved unit of execution: a primitive action, or a loop over a body.
#[derive(Debug, PartialEq, Eq)]
pub enum Instruction {
    IncrementPtr,
    DecrementPtr,
    Increment,
    Decrement,
    Write,
    Read,
    Loop(Vec<Instruction>),
}

/// A bracket with no counterpart, at its position in the opcode sequence.
#[derive(Clone, Copy, Debug, PartialEq, Eq, Structural)]
pub enum ParseError {
    UnmatchedClose(usize),
    UnmatchedOpen(usize),
}

/// How an opcode changes the loop nesting depth.
pub open spec fn weight(op: OpCode) -> int {
    match op {
        OpCode::LoopBegin => 1,
        OpCode::LoopEnd => -1,
        _ => 0,
    }
}

/// The nesting depth after a sequence: opened brackets minus closed ones.
pub open spec fn depth(s: Seq<OpCode>) -> int
    decreases s.len(),
{
    if s.len() == 0 {
        0
    } else {
        depth(s.drop_last()) + weight(s.last())
    }
}

/// No prefix closes more brackets than it opened.
pub open spec fn never_negative(s: Seq<OpCode>) -> bool {
    forall|j: int| 0 <= j <= s.len() ==> depth(#[trigger] s.take(j)) >= 0
}

/// Every bracket has its counterpart.
pub open spec fn well_bracketed(s: Seq<OpCode>) -> bool {
    never_negative(s) && depth(s) == 0
}

/// The first `]` with no opener: position `i` where the depth first drops below zero.
pub open spec fn is_unmatched_close(s: Seq<OpCode>, i: int) -> bool {
    &&& 0 <= i < s.len()
    &&& depth(s.take(i + 1)) < 0
    &&& forall|j: int| 0 <= j <= i ==> depth(#[trigger] s.take(j)) >= 0
}

/// The outermost `[` with no closer: in a sequence whose depth never drops
/// below zero but ends above it, the last position where the depth is zero.
pub open spec fn is_unmatched_open(s: Seq<OpCode>, i: int) -> bool {
    &&& never_negative(s)
    &&& 0 <= i < s.len()
    &&& depth(s.take(i)) == 0
    &&& forall|j: int| i < j <= s.len() ==> depth(#[trigger] s.take(j)) > 0
}

/// The opcodes that an instruction sequence is written as.
pub open spec fn flatten(p: Seq<Instruction>) -> Seq<OpCode>
    decreases p,
{
    if p.len() == 0 {
        Seq::empty()
    } else {
        flatten(p.drop_last()) + flatten_one(p.last())
    }
}

/// The opcodes that one instruction is written as.
pub open spec fn flatten_one(ins: Instruction) -> Seq<OpCode>
    decreases ins,
{
    match ins {
        Instruction::IncrementPtr => seq![OpCode::IncrementPtr],
        Instruction::DecrementPtr => seq![OpCode::DecrementPtr],
        Instruction::Increment => seq![OpCode::Increment],
        Instruction::Decrement => seq![OpCode::Decrement],
        Instruction::Write => seq![OpCode::Write],
        Instruction::Read => seq![OpCode::Read],
        Instruction::Loop(body) => seq![OpCode::LoopBegin] + flatten(body@) + seq![OpCode::LoopEnd],
    }
}

/// How many primitive instructions a tree holds, loop bodies included.
pub open spec fn instruction_count(p: Seq<Instruction>) -> nat
    decreases p,
{
    if p.len() == 0 {
        0
    } else {
        instruction_count(p.drop_last()) + instruction_count_one(p.last())
    }
}

pub open spec fn instruction_count_one(ins: Instruction) -> nat
    decreases ins,
{
    match ins {
        Instruction::Loop(body) => instruction_count(body@),
        _ => 1,
    }
}

/// How many opcodes of a sequence are not brackets.
pub open spec fn command_count(s: Seq<OpCode>) -> nat
    decreases s.len(),
{
    if s.len() == 0 {
        0
    } else {
        command_count(s.drop_last()) + if weight(s.last()) == 0 {
            1nat
        } else {
            0nat
        }
    }
}

/// What parsing the opcodes `s`, found at offset `base`, may return: the
/// tree that is written as `s`, or the position of the bracket at fault.
pub open spec fn parse_outcome(s: Seq<OpCode>, base: int, r: Result<Vec<Instruction>, ParseError>) -> bool {
    match r {
        Ok(p) => well_bracketed(s) && flatten(p@) == s,
        Err(ParseError::UnmatchedClose(i)) => is_unmatched_close(s, i - base),
        Err(ParseError::UnmatchedOpen(i)) => is_unmatched_open(s, i - base),
    }
}

pub proof fn lemma_depth_concat(a: Seq<OpCode>, b: Seq<OpCode>)
    ensures
        depth(a + b) == depth(a) + depth(b),
    decreases b.len(),
{
    if b.len() == 0 {
        assert(a + b =~= a);
    } else {
        lemma_depth_concat(a, b.drop_last());
        assert((a + b).drop_last() =~= a + b.drop_last());
    }
}

proof fn lemma_depth_bound(s: Seq<OpCode>)
    ensures
        -s.len() <= depth(s) <= s.len(),
    decreases s.len(),
{
    if s.len() > 0 {
        lemma_depth_bound(s.drop_last());
    }
}

proof fn lemma_depth_step(s: Seq<OpCode>, k: int)
    requires
        0 <= k < s.len(),
    ensures
        depth(s.take(k + 1)) == depth(s.take(k)) + weight(s[k]),
{
    assert(s.take(k + 1).drop_last() =~= s.take(k));
}

proof fn lemma_flatten_push(p: Seq<Instruction>, x: Instruction)
    ensures
        flatten(p.push(x)) == flatten(p) + flatten_one(x),
{
    assert(p.push(x).drop_last() =~= p);
}

/// The outcomes are exclusive: a failure means the brackets do not match.
proof fn lemma_outcome_ok_iff(s: Seq<OpCode>, base: int, r: Result<Vec<Instruction>, ParseError>)
    requires
        parse_outcome(s, base, r),
    ensures
        r is Ok <==> well_bracketed(s),
{
    match r {
        Ok(_) => {},
        Err(ParseError::UnmatchedClose(i)) => {
            if never_negative(s) {
                assert(depth(s.take(i - base + 1)) >= 0);
            }
        },
        Err(ParseError::UnmatchedOpen(i)) => {
            assert(depth(s.take(s.len() as int)) > 0);
            assert(s.take(s.len() as int) =~= s);
        },
    }
}

/// Parses `ops[lo..hi]`, recursing once for each loop closed at this level.
fn parse_range(ops: &Vec<OpCode>, lo: usize, hi: usize) -> (r: Result<Vec<Instruction>, ParseError>)
    requires
        lo <= hi <= ops@.len(),
    ensures
        parse_outcome(ops@.subrange(lo as int, hi as int), lo as int, r),
        r is Ok <==> well_bracketed(ops@.subrange(lo as int, hi as int)),
    decreases hi - lo,
{
    let ghost s = ops@.subrange(lo as int, hi as int);
    let mut program: Vec<Instruction> = Vec::new();
    let mut open: usize = 0;
    let mut start: usize = lo;
    let mut i: usize = lo;
    assert(s.take(0) =~= Seq::<OpCode>::empty());
    while i < hi
        invariant
            lo <= i <= hi <= ops@.len(),
            s == ops@.subrange(lo as int, hi as int),
            forall|j: int| 0 <= j <= i - lo ==> depth(#[trigger] s.take(j)) >= 0,
            open == depth(s.take(i - lo)),
            open == 0 ==> flatten(program@) == s.take(i - lo),
            open > 0 ==> {
                &&& lo <= start < i
                &&& s[start - lo] == OpCode::LoopBegin
                &&& depth(s.take(start - lo)) == 0
                &&& flatten(program@) == s.take(start - lo)
                &&& forall|j: int| start - lo < j <= i - lo ==> depth(#[trigger] s.take(j)) > 0
            },
        decreases hi - i,
    {
        let ghost k = i - lo;
        proof {
            lemma_depth_step(s, k);
            lemma_depth_bound(s.take(k));
        }
        let op = ops[i];
        assert(op == s[k]);
        if open == 0 {
            let instr = match op {
                OpCode::IncrementPtr => Some(Instruction::IncrementPtr),
                OpCode::DecrementPtr => Some(Instruction::DecrementPtr),
                OpCode::Increment => Some(Instruction::Increment),
                OpCode::Decrement => Some(Instruction::Decrement),
                OpCode::Write => Some(Instruction::Write),
                OpCode::Read => Some(Instruction::Read),
                OpCode::LoopBegin => {
                    start = i;
                    open = 1;
                    None
                },
                OpCode::LoopEnd => {
                    let r = Err(ParseError::UnmatchedClose(i));
                    proof {
                        lemma_outcome_ok_iff(s, lo as int, r);
                    }
                    return r;
                },
            };
            match instr {
                Some(ins) => {
                    proof {
                        lemma_flatten_push(program@, ins);
                        assert(s.take(k + 1) =~= s.take(k).push(s[k]));
                    }
                    program.push(ins);
                },
                None => {},
            }
        } else {
            match op {
                OpCode::LoopBegin => {
                    open = open + 1;
                },
                OpCode::LoopEnd => {
                    open = open - 1;
                    if open == 0 {
                        let ghost st = start - lo;
                        let ghost inner = s.subrange(st + 1, k);
                        proof {
                            assert(ops@.subrange(start + 1, i as int) =~= inner);
                            lemma_depth_step(s, st);
                            assert forall|j: int| 0 <= j <= inner.len() implies depth(
                                #[trigger] inner.take(j),
                            ) >= 0 && (j == inner.len() ==> depth(inner.take(j)) == 0) by {
                                assert(s.take(st + 1 + j) =~= s.take(st + 1) + inner.take(j));
                                lemma_depth_concat(s.take(st + 1), inner.take(j));
                            }
                            assert(inner.take(inner.len() as int) =~= inner);
                        }
                        let body = match parse_range(ops, start + 1, i) {
                            Ok(b) => b,
                            Err(e) => {
                                return Err(e);
                            },
                        };
                        proof {
                            lemma_flatten_push(program@, Instruction::Loop(body));
                            assert(s.take(k + 1) =~= s.take(st) + seq![s[st]] + inner + seq![s[k]]);
                        }
                        program.push(Instruction::Loop(body));
                    }
                },
                _ => {},
            }
        }
        i = i + 1;
    }
    assert(s.take(s.len() as int) =~= s);
    if open != 0 {
        let r = Err(ParseError::UnmatchedOpen(start));
        proof {
            lemma_outcome_ok_iff(s, lo as int, r);
        }
        return r;
    }
    Ok(program)
}

/// Resolves loops: matched bracket pairs become `Loop` nodes holding what
/// stands between them. The result is the tree that is written as `opcodes`;
/// an unmatched bracket is reported at its position. The recursion goes as
/// deep as the loops nest.
pub fn parse(opcodes: Vec<OpCode>) -> (r: Result<Vec<Instruction>, ParseError>)
    ensures
        r is Ok <==> well_bracketed(opcodes@),
        r matches Ok(p) ==> flatten(p@) == opcodes@,
        r matches Err(ParseError::UnmatchedClose(i)) ==> is_unmatched_close(opcodes@, i as int),
        r matches Err(ParseError::UnmatchedOpen(i)) ==> is_unmatched_open(opcodes@, i as int),
{
    let r = parse_range(&opcodes, 0, opcodes.len());
    assert(opcodes@.subrange(0, opcodes@.len() as int) =~= opcodes@);
    r
}

} // verus!
