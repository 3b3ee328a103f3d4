//! The execution engine: a fixed-size tape of byte cells, a cursor, and the
//! semantics of one instruction at a time.
use vstd::prelude::*;
use crate::cmd::{Cmd, is_instruction_char, lex_all};
use crate::error::EvalError;
use crate::resolve::{balanced, lemma_brackets_pair_up, pending, resolve, resolved};

verus! {

/// The number of cells on the tape.
pub const TAPE_SIZE: usize = 30000;

/// The machine state as the contracts see it. The cursor is an integer: a
/// move may take it one step off either end of the tape, and the next
/// instruction then fails.
pub struct MachineState {
    pub tape: Seq<u8>,
    pub cursor: int,
}

/// What the engine asks of its driver after one step.
#[derive(Clone, Copy, Debug, PartialEq, Eq, Structural)]
pub enum Step {
    /// Continue with the instruction at this position.
    Next(usize),
    /// Emit this byte, then continue at the position.
    Emit(u8, usize),
    /// The instruction is an input: hand one character (or the end of the
    /// stream) to `feed`.
    Read,
    /// The program has ended normally.
    Halt,
    /// The evaluation ends with this error.
    Fail(EvalError),
}

/// Whether the cursor designates a cell of the tape.
pub open spec fn in_bounds(cursor: int) -> bool {
    0 <= cursor < TAPE_SIZE
}

/// Cell increment, modulo 256.
pub open spec fn incr(b: u8) -> u8 {
    ((b + 1) % 256) as u8
}

/// Cell decrement, modulo 256.
pub open spec fn decr(b: u8) -> u8 {
    ((b + 255) % 256) as u8
}

/// The byte stored for an input character: its code, modulo 256.
pub open spec fn byte_of(c: char) -> u8 {
    ((c as u32) % 256) as u8
}

/// The state after changing the current cell to `b`.
pub open spec fn with_cell(m: MachineState, b: u8) -> MachineState {
    MachineState { tape: m.tape.update(m.cursor, b), cursor: m.cursor }
}

/// The state after moving the cursor by `d`.
pub open spec fn moved(m: MachineState, d: int) -> MachineState {
    MachineState { tape: m.tape, cursor: m.cursor + d }
}

/// One step of the engine at position `pc` of a program: the next state and
/// what the driver is to do. The cursor is checked before any instruction.
pub open spec fn step_spec(m: MachineState, prog: Seq<Cmd>, pc: int) -> (MachineState, Step) {
    if pc >= prog.len() {
        (m, Step::Halt)
    } else if !in_bounds(m.cursor) {
        (m, Step::Fail(EvalError::OutOfBounds))
    } else {
        let cell = m.tape[m.cursor];
        let next = Step::Next((pc + 1) as usize);
        match prog[pc] {
            Cmd::MoveRight => (moved(m, 1), next),
            Cmd::MoveLeft => (moved(m, -1), next),
            Cmd::Increment => (with_cell(m, incr(cell)), next),
            Cmd::Decrement => (with_cell(m, decr(cell)), next),
            Cmd::Output => (m, Step::Emit(cell, (pc + 1) as usize)),
            Cmd::Input => (m, Step::Read),
            Cmd::JumpIfZero(t) => (m, if cell == 0 {
                Step::Next(t)
            } else {
                next
            }),
            Cmd::JumpIfNonZero(t) => (m, if cell != 0 {
                Step::Next(t)
            } else {
                next
            }),
            Cmd::Noop => (m, next),
            _ => (m, Step::Fail(EvalError::UnsupportedInstruction)),
        }
    }
}

/// The input instruction at `pc`, completed with what the input stream gave.
pub open spec fn feed_spec(m: MachineState, pc: int, c: Option<char>) -> (MachineState, Step) {
    if !in_bounds(m.cursor) {
        (m, Step::Fail(EvalError::OutOfBounds))
    } else {
        match c {
            Some(ch) => (with_cell(m, byte_of(ch)), Step::Next((pc + 1) as usize)),
            None => (m, Step::Fail(EvalError::EndOfInput)),
        }
    }
}

/// A source text without instruction symbols resolves to itself, a program
/// of `Noop`s, and no step of it emits, reads, or changes the tape or the
/// cursor.
pub proof fn lemma_inert_source(s: Seq<char>, m: MachineState, pc: int)
    requires
        forall|i: int| 0 <= i < s.len() ==> !is_instruction_char(#[trigger] s[i]),
        0 <= pc <= usize::MAX,
    ensures
        balanced(lex_all(s)),
        resolved(lex_all(s)) == lex_all(s),
        step_spec(m, lex_all(s), pc).0 == m,
        pc < s.len() && in_bounds(m.cursor) ==> step_spec(m, lex_all(s), pc).1 == Step::Next(
            (pc + 1) as usize,
        ),
        pc < s.len() && !in_bounds(m.cursor) ==> step_spec(m, lex_all(s), pc).1 == Step::Fail(
            EvalError::OutOfBounds,
        ),
        pc >= s.len() ==> step_spec(m, lex_all(s), pc).1 == Step::Halt,
{
    let t = lex_all(s);
    assert forall|k: int| 0 <= k <= t.len() implies #[trigger] pending(t, k).len() == 0 by {
        lemma_no_pending(s, k);
    };
    assert forall|k: int| 0 <= k < t.len() implies t[k] == Cmd::Noop by {
        assert(!is_instruction_char(s[k]));
    };
    lemma_brackets_pair_up(t);
    assert(resolved(t) =~= t);
    if pc < s.len() {
        assert(t[pc] == Cmd::Noop);
    }
}

/// With no bracket symbols in the source, no `[` is ever open.
proof fn lemma_no_pending(s: Seq<char>, k: int)
    requires
        0 <= k <= s.len(),
        forall|i: int| 0 <= i < s.len() ==> !is_instruction_char(#[trigger] s[i]),
    ensures
        pending(lex_all(s), k).len() == 0,
    decreases k,
{
    if k > 0 {
        lemma_no_pending(s, k - 1);
        assert(!is_instruction_char(s[k - 1]));
    }
}

/// Cells wrap modulo 256: an increment of 255 gives 0 and a decrement of 0
/// gives 255, and no other cell changes.
pub proof fn lemma_cell_wraps(m: MachineState, prog: Seq<Cmd>, pc: int)
    requires
        0 <= pc < prog.len(),
        in_bounds(m.cursor),
        m.tape.len() == TAPE_SIZE,
    ensures
        prog[pc] == Cmd::Increment && m.tape[m.cursor] == 255 ==> step_spec(m, prog, pc).0.tape
            == m.tape.update(m.cursor, 0),
        prog[pc] == Cmd::Decrement && m.tape[m.cursor] == 0 ==> step_spec(m, prog, pc).0.tape
            == m.tape.update(m.cursor, 255),
{
}

/// A move off either end of the tape fails the next instruction, whatever it
/// is, before it has any effect.
pub proof fn lemma_off_tape_fails(m: MachineState, prog: Seq<Cmd>, pc: int, next: Seq<Cmd>, pc2: int)
    requires
        0 <= pc < prog.len(),
        0 <= pc2 < next.len(),
        in_bounds(m.cursor),
        (prog[pc] == Cmd::MoveLeft && m.cursor == 0) || (prog[pc] == Cmd::MoveRight && m.cursor
            == TAPE_SIZE - 1),
    ensures
        !in_bounds(step_spec(m, prog, pc).0.cursor),
        step_spec(step_spec(m, prog, pc).0, next, pc2) == (
            step_spec(m, prog, pc).0,
            Step::Fail(EvalError::OutOfBounds),
        ),
{
}

/// A tape and a cursor that live across evaluations.
pub struct Interpreter {
    ptr: i64,
    state: Vec<u8>,
}

impl View for Interpreter {
    type V = MachineState;

    closed spec fn view(&self) -> MachineState {
        MachineState { tape: self.state@, cursor: self.ptr as int }
    }
}

impl Interpreter {
    /// Well-formed: the tape has its full length and the cursor is at most
    /// one step off the tape.
    pub closed spec fn wf(&self) -> bool {
        &&& self.state@.len() == TAPE_SIZE
        &&& -1 <= self.ptr <= TAPE_SIZE
    }

    /// A zeroed tape with the cursor on its first cell.
    pub fn new() -> (r: Interpreter)
        ensures
            r.wf(),
            r@.tape == Seq::new(TAPE_SIZE as nat, |i: int| 0u8),
            r@.cursor == 0,
    {
        let state: Vec<u8> = vec![0u8; TAPE_SIZE];
        assert(state@ =~= Seq::new(TAPE_SIZE as nat, |i: int| 0u8));
        Interpreter { ptr: 0, state }
    }

    /// Lexes a source text: each character becomes one instruction.
    pub fn tokenize(chars: &Vec<char>) -> (r: Vec<Cmd>)
        ensures
            r@ == lex_all(chars@),
    {
        let mut r: Vec<Cmd> = Vec::new();
        let mut i: usize = 0;
        while i < chars.len()
            invariant
                i <= chars.len(),
                r@ == lex_all(chars@.subrange(0, i as int)),
            decreases chars.len() - i,
        {
            r.push(Cmd::from_char(chars[i]));
            i += 1;
            assert(lex_all(chars@.subrange(0, i as int)) =~= r@);
        }
        assert(chars@.subrange(0, chars.len() as int) =~= chars@);
        r
    }

    /// Lexes and resolves a source text into a program ready to run; fails
    /// exactly when a bracket is unmatched.
    pub fn prepare(chars: &Vec<char>) -> (r: Result<Vec<Cmd>, EvalError>)
        ensures
            match r {
                Ok(p) => balanced(lex_all(chars@)) && p@ == resolved(lex_all(chars@)),
                Err(e) => !balanced(lex_all(chars@)) && e == EvalError::UnmatchedBracket,
            },
    {
        resolve(Interpreter::tokenize(chars))
    }

    /// Whether the cursor is on the tape.
    pub fn is_ptr_valid(&self) -> (r: bool)
        requires
            self.wf(),
        ensures
            r == in_bounds(self@.cursor),
    {
        0 <= self.ptr && self.ptr < TAPE_SIZE as i64
    }

    /// The cursor position.
    pub fn cursor(&self) -> (r: i64)
        ensures
            r as int == self@.cursor,
    {
        self.ptr
    }

    /// The byte in cell `i`.
    pub fn cell(&self, i: usize) -> (r: u8)
        requires
            self.wf(),
            i < TAPE_SIZE,
        ensures
            r == self@.tape[i as int],
    {
        self.state[i]
    }

    /// Executes the instruction at `pc` of `prog`, after checking the cursor.
    pub fn step(&mut self, prog: &Vec<Cmd>, pc: usize) -> (r: Step)
        requires
            old(self).wf(),
        ensures
            final(self).wf(),
            (final(self)@, r) == step_spec(old(self)@, prog@, pc as int),
    {
        if pc >= prog.len() {
            return Step::Halt;
        }
        if !self.is_ptr_valid() {
            return Step::Fail(EvalError::OutOfBounds);
        }
        let c = self.ptr as usize;
        let cell = self.state[c];
        match prog[pc] {
            Cmd::MoveRight => {
                self.ptr = self.ptr + 1;
                Step::Next(pc + 1)
            },
            Cmd::MoveLeft => {
                self.ptr = self.ptr - 1;
                Step::Next(pc + 1)
            },
            Cmd::Increment => {
                self.state.set(c, cell.wrapping_add(1));
                Step::Next(pc + 1)
            },
            Cmd::Decrement => {
                self.state.set(c, cell.wrapping_sub(1));
                Step::Next(pc + 1)
            },
            Cmd::Output => Step::Emit(cell, pc + 1),
            Cmd::Input => Step::Read,
            Cmd::JumpIfZero(t) => {
                if cell == 0 {
                    Step::Next(t)
                } else {
                    Step::Next(pc + 1)
                }
            },
            Cmd::JumpIfNonZero(t) => {
                if cell != 0 {
                    Step::Next(t)
                } else {
                    Step::Next(pc + 1)
                }
            },
            Cmd::Noop => Step::Next(pc + 1),
            _ => Step::Fail(EvalError::UnsupportedInstruction),
        }
    }

    /// Completes the input instruction at `pc` with what the input stream
    /// gave: a character is stored in the current cell, the end of the
    /// stream fails the evaluation.
    pub fn feed(&mut self, pc: usize, c: Option<char>) -> (r: Step)
        requires
            old(self).wf(),
            pc < usize::MAX,
        ensures
            final(self).wf(),
            (final(self)@, r) == feed_spec(old(self)@, pc as int, c),
    {
        if !self.is_ptr_valid() {
            return Step::Fail(EvalError::OutOfBounds);
        }
        match c {
            Some(ch) => {
                let b = ((ch as u32) % 256) as u8;
                self.state.set(self.ptr as usize, b);
                Step::Next(pc + 1)
            },
            None => Step::Fail(EvalError::EndOfInput),
        }
    }
}

} // verus!
