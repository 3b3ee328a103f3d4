//! The ways in which one evaluation can fail.
use vstd::prelude::*;

verus! {

/// A fatal error of one evaluation.
#[derive(Clone, Copy, Debug, PartialEq, Eq, Structural)]
pub enum EvalError {
    /// A `]` closes no open `[`, or a `[` is never closed.
    UnmatchedBracket,
    /// The cursor left the tape before an instruction was executed.
    OutOfBounds,
    /// An input instruction found the input stream at its end.
    EndOfInput,
    /// A bracket instruction reached the engine unresolved.
    UnsupportedInstruction,
}

impl EvalError {
    /// The text that `message` returns.
    pub open spec fn message_spec(&self) -> Seq<char> {
        match self {
            EvalError::UnmatchedBracket => "unmatched bracket"@,
            EvalError::OutOfBounds => "pointer out of bounds"@,
            EvalError::EndOfInput => "end of input"@,
            EvalError::UnsupportedInstruction => "not implemented"@,
        }
    }

    /// A short human-readable description.
    pub fn message(&self) -> (r: String)
        ensures
            r@ == self.message_spec(),
    {
        proof {
            reveal_strlit("unmatched bracket");
            reveal_strlit("pointer out of bounds");
            reveal_strlit("end of input");
            reveal_strlit("not implemented");
        }
        match self {
            EvalError::UnmatchedBracket => "unmatched bracket".to_string(),
            EvalError::OutOfBounds => "pointer out of bounds".to_string(),
            EvalError::EndOfInput => "end of input".to_string(),
            EvalError::UnsupportedInstruction => "not implemented".to_string(),
        }
    }
}

} // verus!
