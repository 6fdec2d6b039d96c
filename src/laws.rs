use vstd::prelude::*;
use crate::lexer::OpCode;
use crate::lexer::lex_spec;
use crate::machine::{fresh, RunError, run_loop, run_seq, step, MachineView};
use crate::pipeline::{execute_post, program_outcome, Error};
use crate::parser::{
    command_count, depth, flatten, flatten_one, instruction_count, instruction_count_one,
    is_unmatched_close, is_unmatched_open, lemma_depth_concat, never_negative, weight,
    well_bracketed, Instruction,
};

verus! {

proof fn lemma_flatten_concat(x: Seq<Instruction>, y: Seq<Instruction>)
    ensures
        flatten(x + y) == flatten(x) + flatten(y),
    decreases y.len(),
{
    if y.len() == 0 {
        assert(x + y =~= x);
        assert(flatten(x) + flatten(y) =~= flatten(x));
    } else {
        lemma_flatten_concat(x, y.drop_last());
        assert((x + y).drop_last() =~= x + y.drop_last());
        assert((x + y).last() == y.last());
        assert(flatten(x + y) =~= flatten(x) + flatten(y));
    }
}

proof fn lemma_flatten_front(a: Seq<Instruction>)
    requires
        a.len() > 0,
    ensures
        flatten(a) == flatten_one(a[0]) + flatten(a.drop_first()),
        flatten_one(a[0]).len() >= 1,
        flatten(a).len() >= 1,
{
    let head = seq![a[0]];
    assert(a =~= head + a.drop_first());
    lemma_flatten_concat(head, a.drop_first());
    assert(head.drop_last() =~= Seq::<Instruction>::empty());
    assert(flatten(head.drop_last()) == Seq::<OpCode>::empty());
    assert(head.last() == a[0]);
    assert(flatten(head) =~= flatten_one(a[0]));
}

proof fn lemma_concat_well_bracketed(x: Seq<OpCode>, y: Seq<OpCode>)
    requires
        well_bracketed(x),
        well_bracketed(y),
    ensures
        well_bracketed(x + y),
{
    lemma_depth_concat(x, y);
    assert forall|j: int| 0 <= j <= (x + y).len() implies depth(#[trigger] (x + y).take(j)) >= 0 by {
        if j <= x.len() {
            assert((x + y).take(j) =~= x.take(j));
        } else {
            assert((x + y).take(j) =~= x + y.take(j - x.len()));
            lemma_depth_concat(x, y.take(j - x.len()));
            assert(depth(y.take(j - x.len())) >= 0);
            assert(x.take(x.len() as int) =~= x);
        }
    }
}

/// The text of any tree has matching brackets.
pub proof fn lemma_flatten_well_bracketed(p: Seq<Instruction>)
    ensures
        well_bracketed(flatten(p)),
    decreases p,
{
    if p.len() == 0 {
        assert(flatten(p).take(0) =~= flatten(p));
    } else {
        lemma_flatten_well_bracketed(p.drop_last());
        lemma_flatten_one_well_bracketed(p.last());
        lemma_concat_well_bracketed(flatten(p.drop_last()), flatten_one(p.last()));
    }
}

/// The text of one instruction has matching brackets, and the text of a loop
/// returns to depth zero only at its end.
proof fn lemma_flatten_one_well_bracketed(ins: Instruction)
    ensures
        well_bracketed(flatten_one(ins)),
        ins is Loop ==> forall|j: int|
            0 < j < flatten_one(ins).len() ==> depth(#[trigger] flatten_one(ins).take(j)) > 0,
    decreases ins,
{
    let t = flatten_one(ins);
    if let Instruction::Loop(body) = ins {
            let f = flatten(body@);
            lemma_flatten_well_bracketed(body@);
            let open = seq![OpCode::LoopBegin];
            assert(open.drop_last() =~= Seq::<OpCode>::empty());
            assert(depth(open.drop_last()) == 0);
            assert(depth(open) == 1);
            assert(t == open + f + seq![OpCode::LoopEnd]);
            assert forall|j: int| 0 < j < t.len() implies depth(#[trigger] t.take(j)) > 0 by {
                assert(t.take(j) =~= open + f.take(j - 1));
                lemma_depth_concat(open, f.take(j - 1));
                assert(depth(f.take(j - 1)) >= 0);
            }
            assert(t.drop_last() =~= open + f);
            assert(t.last() == OpCode::LoopEnd);
            lemma_depth_concat(open, f);
            assert(f.take(f.len() as int) =~= f);
            assert(depth(t) == 0);
            assert forall|j: int| 0 <= j <= t.len() implies depth(#[trigger] t.take(j)) >= 0 by {
                if j == 0 {
                    assert(t.take(0) =~= Seq::<OpCode>::empty());
                } else if j == t.len() {
                    assert(t.take(j) =~= t);
                }
            }
    } else {
        assert(t.len() == 1 && weight(t[0]) == 0);
        assert(t.take(0) =~= Seq::<OpCode>::empty());
        assert(t.take(1) =~= t);
        assert(t.drop_last() =~= Seq::<OpCode>::empty());
        assert(depth(t.drop_last()) == 0);
        assert(t.last() == t[0]);
        assert(depth(t) == 0);
    }
}

/// Two trees with the same text agree on their first instruction's text and
/// on the text of the rest.
proof fn lemma_same_text_split(a: Seq<Instruction>, b: Seq<Instruction>)
    requires
        flatten(a) == flatten(b),
        a.len() > 0,
        b.len() > 0,
    ensures
        flatten_one(a[0]) == flatten_one(b[0]),
        flatten(a.drop_first()) == flatten(b.drop_first()),
{
    let ops = flatten(a);
    let ta = flatten_one(a[0]);
    let tb = flatten_one(b[0]);
    lemma_flatten_front(a);
    lemma_flatten_front(b);
    lemma_flatten_one_well_bracketed(a[0]);
    lemma_flatten_one_well_bracketed(b[0]);
    assert(ta[0] == ops[0]);
    assert(tb[0] == ops[0]);
    assert(ta.len() == tb.len()) by {
        if ta.len() < tb.len() {
            assert(ops.take(ta.len() as int) =~= ta);
            assert(ops.take(ta.len() as int) =~= tb.take(ta.len() as int));
            assert(ta.take(ta.len() as int) =~= ta);
        } else if tb.len() < ta.len() {
            assert(ops.take(tb.len() as int) =~= tb);
            assert(ops.take(tb.len() as int) =~= ta.take(tb.len() as int));
            assert(tb.take(tb.len() as int) =~= tb);
        }
    }
    assert(ta =~= ops.take(ta.len() as int));
    assert(tb =~= ops.take(tb.len() as int));
    assert(flatten(a.drop_first()) =~= ops.skip(ta.len() as int));
    assert(flatten(b.drop_first()) =~= ops.skip(tb.len() as int));
}

proof fn lemma_command_count_concat(x: Seq<OpCode>, y: Seq<OpCode>)
    ensures
        command_count(x + y) == command_count(x) + command_count(y),
    decreases y.len(),
{
    if y.len() == 0 {
        assert(x + y =~= x);
    } else {
        lemma_command_count_concat(x, y.drop_last());
        assert((x + y).drop_last() =~= x + y.drop_last());
    }
}

/// A tree holds as many primitive instructions as its text holds opcodes
/// that are not brackets.
pub proof fn lemma_instruction_count(p: Seq<Instruction>)
    ensures
        instruction_count(p) == command_count(flatten(p)),
    decreases p,
{
    if p.len() > 0 {
        lemma_instruction_count(p.drop_last());
        lemma_instruction_count_one(p.last());
        lemma_command_count_concat(flatten(p.drop_last()), flatten_one(p.last()));
    }
}

proof fn lemma_instruction_count_one(ins: Instruction)
    ensures
        instruction_count_one(ins) == command_count(flatten_one(ins)),
    decreases ins,
{
    let t = flatten_one(ins);
    match ins {
        Instruction::Loop(body) => {
            let open = seq![OpCode::LoopBegin];
            lemma_instruction_count(body@);
            lemma_command_count_concat(open, flatten(body@));
            assert(open.drop_last() =~= Seq::<OpCode>::empty());
            assert(command_count(open.drop_last()) == 0);
            assert(command_count(open) == 0);
            assert(t == open + flatten(body@) + seq![OpCode::LoopEnd]);
            assert(t.drop_last() =~= open + flatten(body@));
            assert(weight(t.last()) == -1);
        },
        _ => {
            assert(t.len() == 1 && weight(t[0]) == 0);
            assert(t.drop_last() =~= Seq::<OpCode>::empty());
            assert(command_count(t.drop_last()) == 0);
            assert(t.last() == t[0]);
            assert(command_count(t) == 1);
        },
    }
}

/// Parsing is total on well-bracketed opcodes (see `parse`), and the tree it
/// returns, being written as those opcodes, holds one primitive instruction
/// for each opcode that is not a bracket.
pub proof fn lemma_parsed_count(ops: Seq<OpCode>, p: Seq<Instruction>)
    requires
        flatten(p) == ops,
    ensures
        well_bracketed(ops),
        instruction_count(p) == command_count(ops),
{
    lemma_flatten_well_bracketed(p);
    lemma_instruction_count(p);
}

/// A `]` that follows a well-bracketed prefix has no opener: it is the one
/// and only unmatched close of the sequence, whatever follows it, and the
/// sequence has no unmatched open.
pub proof fn lemma_extra_close(a: Seq<OpCode>, b: Seq<OpCode>)
    requires
        well_bracketed(a),
    ensures
        is_unmatched_close(a.push(OpCode::LoopEnd) + b, a.len() as int),
        forall|i: int| is_unmatched_close(a.push(OpCode::LoopEnd) + b, i) ==> i == a.len(),
        forall|i: int| !is_unmatched_open(a.push(OpCode::LoopEnd) + b, i),
        !well_bracketed(a.push(OpCode::LoopEnd) + b),
{
    let s = a.push(OpCode::LoopEnd) + b;
    let n = a.len() as int;
    assert forall|j: int| 0 <= j <= n implies depth(#[trigger] s.take(j)) >= 0 by {
        assert(s.take(j) =~= a.take(j));
    }
    assert(s.take(n + 1) =~= a.push(OpCode::LoopEnd));
    assert(a.push(OpCode::LoopEnd).drop_last() =~= a);
    assert(a.take(n) =~= a);
    assert forall|i: int| is_unmatched_close(s, i) implies i == n by {
        if i < n {
            assert(depth(s.take(i + 1)) >= 0);
        } else if i > n {
            assert(depth(s.take(n + 1)) >= 0);
        }
    }
    assert(!never_negative(s));
}

/// A `[` that follows a well-bracketed prefix, and after which the depth never
/// drops back, is never closed: it is the outermost unmatched open of the
/// sequence, the only position reported as such, and no `]` is unmatched.
pub proof fn lemma_unclosed_open(a: Seq<OpCode>, b: Seq<OpCode>)
    requires
        well_bracketed(a),
        never_negative(b),
    ensures
        is_unmatched_open(a.push(OpCode::LoopBegin) + b, a.len() as int),
        forall|i: int| is_unmatched_open(a.push(OpCode::LoopBegin) + b, i) ==> i == a.len(),
        forall|i: int| !is_unmatched_close(a.push(OpCode::LoopBegin) + b, i),
        !well_bracketed(a.push(OpCode::LoopBegin) + b),
{
    let s = a.push(OpCode::LoopBegin) + b;
    let n = a.len() as int;
    let a1 = a.push(OpCode::LoopBegin);
    assert(a1.drop_last() =~= a);
    assert(a.take(n) =~= a);
    assert forall|j: int| 0 <= j <= s.len() implies #[trigger] depth(s.take(j)) >= 0 && (j > n
        ==> depth(s.take(j)) > 0) by {
        if j <= n {
            assert(s.take(j) =~= a.take(j));
        } else {
            assert(s.take(j) =~= a1 + b.take(j - n - 1));
            lemma_depth_concat(a1, b.take(j - n - 1));
        }
    }
    assert(s.take(n) =~= a);
    assert forall|i: int| is_unmatched_open(s, i) implies i == n by {
        if i < n {
            assert(depth(s.take(n)) > 0);
        }
    }
    assert forall|i: int| !is_unmatched_close(s, i) by {
        if 0 <= i < s.len() {
            assert(depth(s.take(i + 1)) >= 0);
        }
    }
    assert(s.take(s.len() as int) =~= s);
}

/// A sequence has at most one unmatched close and at most one unmatched
/// open, and never both.
pub proof fn lemma_fault_unique(s: Seq<OpCode>)
    ensures
        forall|i: int, k: int| is_unmatched_close(s, i) && is_unmatched_close(s, k) ==> i == k,
        forall|i: int, k: int| is_unmatched_open(s, i) && is_unmatched_open(s, k) ==> i == k,
        forall|i: int, k: int| !(is_unmatched_close(s, i) && is_unmatched_open(s, k)),
{
    assert forall|i: int, k: int| is_unmatched_close(s, i) && is_unmatched_close(s, k) implies i
        == k by {
        if i < k {
            assert(depth(s.take(i + 1)) >= 0);
        } else if k < i {
            assert(depth(s.take(k + 1)) >= 0);
        }
    }
    assert forall|i: int, k: int| is_unmatched_open(s, i) && is_unmatched_open(s, k) implies i
        == k by {
        if i < k {
            assert(depth(s.take(k)) > 0);
        } else if k < i {
            assert(depth(s.take(i)) > 0);
        }
    }
    assert forall|i: int, k: int| !(is_unmatched_close(s, i) && is_unmatched_open(s, k)) by {
        if is_unmatched_close(s, i) && is_unmatched_open(s, k) {
            assert(depth(s.take(i + 1)) >= 0);
        }
    }
}

proof fn lemma_loop_congruent(x: Seq<Instruction>, y: Seq<Instruction>, m: MachineView, f: nat)
    requires
        forall|m1: MachineView, f1: nat| #[trigger] run_seq(x, m1, f1) == run_seq(y, m1, f1),
    ensures
        run_loop(x, m, f) == run_loop(y, m, f),
    decreases f,
{
    if m.cell() != 0 && f > 0 {
        let (m1, r) = run_seq(x, m, f);
        assert(run_seq(x, m, f) == run_seq(y, m, f));
        if r is Ok {
            lemma_loop_congruent(x, y, m1, (f - 1) as nat);
        }
    }
}

/// How a program runs depends only on its text: two trees written as the
/// same opcodes run alike from every state, with every budget.
pub proof fn lemma_same_text_same_run(a: Seq<Instruction>, b: Seq<Instruction>, m: MachineView, f: nat)
    requires
        flatten(a) == flatten(b),
    ensures
        run_seq(a, m, f) == run_seq(b, m, f),
    decreases flatten(a).len(),
{
    if a.len() == 0 {
        if b.len() > 0 {
            lemma_flatten_front(b);
        }
    } else if b.len() == 0 {
        lemma_flatten_front(a);
    } else {
        lemma_same_text_split(a, b);
        lemma_flatten_front(a);
        let ta = flatten_one(a[0]);
        if let Instruction::Loop(x) = a[0] {
            assert(ta[0] == OpCode::LoopBegin);
            assert(b[0] is Loop);
            let y = b[0]->Loop_0;
            assert(flatten(x@) =~= ta.subrange(1, ta.len() - 1));
            assert(flatten(y@) =~= ta.subrange(1, ta.len() - 1));
            assert forall|m1: MachineView, f1: nat| #[trigger]
                run_seq(x@, m1, f1) == run_seq(y@, m1, f1) by {
                lemma_same_text_same_run(x@, y@, m1, f1);
            }
            lemma_loop_congruent(x@, y@, m, f);
            let (m1, r) = run_loop(x@, m, f);
            lemma_same_text_same_run(a.drop_first(), b.drop_first(), m1, f);
        } else {
            assert(ta.len() == 1);
            assert(b[0] == a[0]);
            if let Ok(m1) = step(a[0], m) {
                lemma_same_text_same_run(a.drop_first(), b.drop_first(), m1, f);
            }
        }
    }
}

proof fn lemma_increments(k: nat, m: MachineView, f: nat)
    requires
        m.wf(),
    ensures
        run_seq(Seq::new(k, |_i: int| Instruction::Increment), m, f) == (
            m.with_cell(((m.cell() + k) % 256) as u8),
            Ok::<(), RunError>(()),
        ),
    decreases k,
{
    let s = Seq::new(k, |_i: int| Instruction::Increment);
    if k == 0 {
        assert(m.with_cell(m.cell()).tape =~= m.tape);
    } else {
        let m1 = m.with_cell(((m.cell() + 1) % 256) as u8);
        assert(s.drop_first() =~= Seq::new((k - 1) as nat, |_i: int| Instruction::Increment));
        lemma_increments((k - 1) as nat, m1, f);
        assert(((m1.cell() + (k - 1)) % 256) == ((m.cell() + k) % 256));
        assert(m1.with_cell(((m.cell() + k) % 256) as u8).tape =~= m.with_cell(
            ((m.cell() + k) % 256) as u8,
        ).tape);
    }
}

/// Cell arithmetic wraps modulo 256: incrementing the current cell 256 times
/// leaves the whole machine as it was.
pub proof fn lemma_increment_wraps(m: MachineView, f: nat)
    requires
        m.wf(),
    ensures
        run_seq(Seq::new(256, |_i: int| Instruction::Increment), m, f) == (m, Ok::<(), RunError>(())),
{
    lemma_increments(256, m, f);
    assert(m.with_cell(((m.cell() + 256) % 256) as u8).tape =~= m.tape);
}

/// Running is deterministic: any two results that `execute` may give for the
/// same source, input and budget, each on a tape of its own, are equal.
pub proof fn lemma_execute_deterministic(
    source: Seq<char>,
    input: Seq<u8>,
    fuel: nat,
    out1: Seq<u8>,
    res1: Result<(), Error>,
    out2: Seq<u8>,
    res2: Result<(), Error>,
)
    requires
        execute_post(source, input, fuel, out1, res1),
        execute_post(source, input, fuel, out2, res2),
    ensures
        out1 == out2,
        res1 == res2,
{
    let ops = lex_spec(source);
    if well_bracketed(ops) {
        let p1 = choose|p: Seq<Instruction>|
            flatten(p) == ops && #[trigger] program_outcome(p, input, fuel) == (out1, res1);
        let p2 = choose|p: Seq<Instruction>|
            flatten(p) == ops && #[trigger] program_outcome(p, input, fuel) == (out2, res2);
        lemma_same_text_same_run(p1, p2, fresh(input), fuel);
    } else {
        lemma_fault_unique(ops);
    }
}

} // verus!
