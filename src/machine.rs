use vstd::prelude::*;
use crate::parser::Instruction;

verus! {

/// Number of cells on a fresh tape.
pub const TAPE_LEN: usize = 1024;

/// Where the data pointer of a fresh machine starts: mid-tape, so that a
/// program can move either way.
pub const START: usize = 512;

/// Why a run stopped early.
#[derive(Clone, Copy, Debug, PartialEq, Eq, Structural)]
pub enum RunError {
    /// The pointer would have left the tape.
    OutOfBounds,
    /// A read found no input byte left.
    InputExhausted,
    /// A loop ran out of its iteration budget.
    OutOfFuel,
}

/// The evaluator's state: the tape and data pointer, the input bytes with a
/// cursor into them, and the bytes written so far.
pub struct Machine {
    pub tape: Vec<u8>,
    pub ptr: usize,
    pub input: Vec<u8>,
    pub input_pos: usize,
    pub output: Vec<u8>,
}

/// The mathematical model of a `Machine`.
pub struct MachineView {
    pub tape: Seq<u8>,
    pub ptr: int,
    pub input: Seq<u8>,
    pub input_pos: int,
    pub output: Seq<u8>,
}

impl View for Machine {
    type V = MachineView;

    open spec fn view(&self) -> MachineView {
        MachineView {
            tape: self.tape@,
            ptr: self.ptr as int,
            input: self.input@,
            input_pos: self.input_pos as int,
            output: self.output@,
        }
    }
}

impl MachineView {
    /// The pointer is on the tape and the input cursor within the input.
    pub open spec fn wf(self) -> bool {
        &&& 0 <= self.ptr < self.tape.len()
        &&& 0 <= self.input_pos <= self.input.len()
    }

    pub open spec fn cell(self) -> u8 {
        self.tape[self.ptr]
    }

    pub open spec fn with_cell(self, v: u8) -> MachineView {
        MachineView { tape: self.tape.update(self.ptr, v), ..self }
    }
}

/// A machine as a run starts: a zeroed tape of `TAPE_LEN` cells, the pointer
/// at `START`, nothing read and nothing written.
pub open spec fn fresh(input: Seq<u8>) -> MachineView {
    MachineView {
        tape: Seq::new(TAPE_LEN as nat, |_i: int| 0u8),
        ptr: START as int,
        input,
        input_pos: 0,
        output: Seq::empty(),
    }
}

/// What one primitive instruction does; a failed step leaves the state as it was.
pub open spec fn step(ins: Instruction, m: MachineView) -> Result<MachineView, RunError> {
    match ins {
        Instruction::IncrementPtr => if m.ptr + 1 < m.tape.len() {
            Ok(MachineView { ptr: m.ptr + 1, ..m })
        } else {
            Err(RunError::OutOfBounds)
        },
        Instruction::DecrementPtr => if m.ptr > 0 {
            Ok(MachineView { ptr: m.ptr - 1, ..m })
        } else {
            Err(RunError::OutOfBounds)
        },
        Instruction::Increment => Ok(m.with_cell(((m.cell() + 1) % 256) as u8)),
        Instruction::Decrement => Ok(m.with_cell(((m.cell() + 255) % 256) as u8)),
        Instruction::Write => Ok(MachineView { output: m.output.push(m.cell()), ..m }),
        Instruction::Read => if m.input_pos < m.input.len() {
            Ok(MachineView { input_pos: m.input_pos + 1, ..m.with_cell(m.input[m.input_pos]) })
        } else {
            Err(RunError::InputExhausted)
        },
        Instruction::Loop(_) => Ok(m),
    }
}

/// Runs a sequence of instructions in order, stopping at the first failure.
/// Each loop entered may iterate at most `fuel` times; the body of its
/// `k`-th iteration runs with the budget `fuel - k`.
pub open spec fn run_seq(p: Seq<Instruction>, m: MachineView, fuel: nat) -> (MachineView, Result<(), RunError>)
    decreases fuel, p, 0int,
{
    if p.len() == 0 {
        (m, Ok(()))
    } else {
        let (m1, r) = match p[0] {
            Instruction::Loop(body) => run_loop(body@, m, fuel),
            other => match step(other, m) {
                Ok(m1) => (m1, Ok(())),
                Err(e) => (m, Err(e)),
            },
        };
        if r is Ok {
            run_seq(p.drop_first(), m1, fuel)
        } else {
            (m1, r)
        }
    }
}

/// Runs a loop: its body again and again while the current cell is nonzero.
pub open spec fn run_loop(body: Seq<Instruction>, m: MachineView, fuel: nat) -> (MachineView, Result<(), RunError>)
    decreases fuel, body, 1int,
{
    if m.cell() == 0 {
        (m, Ok(()))
    } else if fuel == 0 {
        (m, Err(RunError::OutOfFuel))
    } else {
        let (m1, r) = run_seq(body, m, fuel);
        if r is Ok {
            run_loop(body, m1, (fuel - 1) as nat)
        } else {
            (m1, r)
        }
    }
}

impl Machine {
    /// A fresh machine that will read from `input`.
    pub fn new(input: Vec<u8>) -> (r: Machine)
        ensures
            r@ == fresh(input@),
    {
        let tape: Vec<u8> = vec![0u8; TAPE_LEN];
        assert(tape@ =~= Seq::new(TAPE_LEN as nat, |_i: int| 0u8));
        Machine { tape, ptr: START, input, input_pos: 0, output: Vec::new() }
    }

    /// Performs one primitive instruction.
    fn step(&mut self, ins: &Instruction) -> (r: Result<(), RunError>)
        requires
            old(self)@.wf(),
            !(ins is Loop),
        ensures
            final(self)@.wf(),
            match step(*ins, old(self)@) {
                Ok(m1) => r is Ok && final(self)@ == m1,
                Err(e) => r == Err::<(), RunError>(e) && final(self)@ == old(self)@,
            },
    {
        let p = self.ptr;
        match ins {
            Instruction::IncrementPtr => {
                if p < self.tape.len() - 1 {
                    self.ptr = p + 1;
                } else {
                    return Err(RunError::OutOfBounds);
                }
            },
            Instruction::DecrementPtr => {
                if p > 0 {
                    self.ptr = p - 1;
                } else {
                    return Err(RunError::OutOfBounds);
                }
            },
            Instruction::Increment => {
                let v = self.tape[p];
                let nv: u8 = if v == 255 { 0 } else { v + 1 };
                self.tape.set(p, nv);
            },
            Instruction::Decrement => {
                let v = self.tape[p];
                let nv: u8 = if v == 0 { 255 } else { v - 1 };
                self.tape.set(p, nv);
            },
            Instruction::Write => {
                let v = self.tape[p];
                self.output.push(v);
            },
            Instruction::Read => {
                if self.input_pos < self.input.len() {
                    let v = self.input[self.input_pos];
                    self.tape.set(p, v);
                    self.input_pos = self.input_pos + 1;
                } else {
                    return Err(RunError::InputExhausted);
                }
            },
            Instruction::Loop(_) => {},
        }
        assert(self@ =~= step(*ins, old(self)@)->Ok_0);
        Ok(())
    }
}

/// Runs a loop node against the machine.
fn run_loop_exec(body: &Vec<Instruction>, m: &mut Machine, fuel: u64) -> (r: Result<(), RunError>)
    requires
        old(m)@.wf(),
    ensures
        final(m)@.wf(),
        (final(m)@, r) == run_loop(body@, old(m)@, fuel as nat),
    decreases fuel, body@, 1int,
{
    let mut f: u64 = fuel;
    while m.tape[m.ptr] != 0
        invariant
            m@.wf(),
            f <= fuel,
            run_loop(body@, old(m)@, fuel as nat) == run_loop(body@, m@, f as nat),
        decreases f,
    {
        if f == 0 {
            return Err(RunError::OutOfFuel);
        }
        let r = run(body, m, f);
        if r.is_err() {
            return r;
        }
        f = f - 1;
    }
    Ok(())
}

/// Executes `instructions` in order against the machine, recursing into loop
/// bodies; the tape, pointer and output carry over from one instruction to the
/// next. On failure the machine keeps the state it had when the failing step
/// was attempted, output written so far included. The recursion goes as
/// deep as the loops nest.
pub fn run(instructions: &Vec<Instruction>, m: &mut Machine, fuel: u64) -> (r: Result<(), RunError>)
    requires
        old(m)@.wf(),
    ensures
        final(m)@.wf(),
        (final(m)@, r) == run_seq(instructions@, old(m)@, fuel as nat),
    decreases fuel, instructions@, 0int,
{
    let n = instructions.len();
    assert(instructions@.skip(0) =~= instructions@);
    for i in 0..n
        invariant
            n == instructions@.len(),
            m@.wf(),
            run_seq(instructions@, old(m)@, fuel as nat) == run_seq(instructions@.skip(i as int), m@, fuel as nat),
    {
        let ghost rest = instructions@.skip(i as int);
        assert(rest.drop_first() =~= instructions@.skip(i + 1));
        assert(rest[0] == instructions@[i as int]);
        let r = match &instructions[i] {
            Instruction::Loop(body) => run_loop_exec(body, m, fuel),
            other => m.step(other),
        };
        if r.is_err() {
            return r;
        }
    }
    assert(instructions@.skip(n as int) =~= Seq::<Instruction>::empty());
    Ok(())
}

} // verus!
