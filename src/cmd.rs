//! Instructions and the lexer that produces them from source characters.
use vstd::prelude::*;

verus! {

/// One instruction of a program.
///
/// `LoopStart` and `LoopEnd` only exist between lexing and resolution; the
/// resolver turns each matching pair into a `JumpIfZero` / `JumpIfNonZero`
/// pair that carries the target position.
#[derive(Clone, Copy, Debug, PartialEq, Eq, Structural)]
pub enum Cmd {
    MoveRight,
    MoveLeft,
    Increment,
    Decrement,
    Output,
    Input,
    LoopStart,
    LoopEnd,
    JumpIfZero(usize),
    JumpIfNonZero(usize),
    Noop,
}

/// The instruction that a single source character stands for.
pub open spec fn lex(c: char) -> Cmd {
    if c == '>' {
        Cmd::MoveRight
    } else if c == '<' {
        Cmd::MoveLeft
    } else if c == '+' {
        Cmd::Increment
    } else if c == '-' {
        Cmd::Decrement
    } else if c == '.' {
        Cmd::Output
    } else if c == ',' {
        Cmd::Input
    } else if c == '[' {
        Cmd::LoopStart
    } else if c == ']' {
        Cmd::LoopEnd
    } else {
        Cmd::Noop
    }
}

/// Whether `c` is one of the eight instruction symbols.
pub open spec fn is_instruction_char(c: char) -> bool {
    c == '>' || c == '<' || c == '+' || c == '-' || c == '.' || c == ',' || c == '['
        || c == ']'
}

/// The instruction sequence of a source text: one instruction per character.
pub open spec fn lex_all(s: Seq<char>) -> Seq<Cmd> {
    s.map_values(|c: char| lex(c))
}

impl Cmd {
    /// Maps a character to its instruction; any other character is a `Noop`.
    pub fn from_char(c: char) -> (r: Cmd)
        ensures
            r == lex(c),
    {
        match c {
            '>' => Cmd::MoveRight,
            '<' => Cmd::MoveLeft,
            '+' => Cmd::Increment,
            '-' => Cmd::Decrement,
            '.' => Cmd::Output,
            ',' => Cmd::Input,
            '[' => Cmd::LoopStart,
            ']' => Cmd::LoopEnd,
            _ => Cmd::Noop,
        }
    }
}

} // verus!
