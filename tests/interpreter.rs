use brainfuck::cmd::Cmd;
use brainfuck::error::EvalError;
use brainfuck::machine::{Interpreter, Step, TAPE_SIZE};
use brainfuck::resolve::resolve;

/// Runs one evaluation of `src` on `intr`, taking input characters from
/// `input`; returns the bytes emitted and how the evaluation ended.
fn eval(intr: &mut Interpreter, src: &str, input: &str) -> (Vec<u8>, Result<(), EvalError>) {
    let chars: Vec<char> = src.chars().collect();
    let mut input = input.chars();
    let mut out = Vec::new();
    let prog = match Interpreter::prepare(&chars) {
        Ok(p) => p,
        Err(e) => return (out, Err(e)),
    };
    let mut pc = 0usize;
    loop {
        let mut step = intr.step(&prog, pc);
        if step == Step::Read {
            step = intr.feed(pc, input.next());
        }
        match step {
            Step::Next(n) => pc = n,
            Step::Emit(b, n) => {
                out.push(b);
                pc = n;
            }
            Step::Read => unreachable!(),
            Step::Halt => return (out, Ok(())),
            Step::Fail(e) => return (out, Err(e)),
        }
    }
}

#[test]
fn hello_program_starts_with_h() {
    let mut intr = Interpreter::new();
    let (out, r) = eval(
        &mut intr,
        "++++++++[>++++[>++>+++>+++>+<<<<-]>+>+>->>+[<]<-]>>.>---.+++++++..+++.",
        "",
    );
    assert_eq!(r, Ok(()));
    assert_eq!(out[0], b'H');
    assert_eq!(out, b"Hello".to_vec());
}

#[test]
fn input_is_echoed() {
    let mut intr = Interpreter::new();
    let (out, r) = eval(&mut intr, ",.", "A");
    assert_eq!(r, Ok(()));
    assert_eq!(out, vec![b'A']);
}

#[test]
fn lone_close_bracket_is_unmatched() {
    let mut intr = Interpreter::new();
    let (out, r) = eval(&mut intr, "]", "");
    assert_eq!(r, Err(EvalError::UnmatchedBracket));
    assert!(out.is_empty());
}

#[test]
fn unclosed_loop_is_unmatched() {
    let mut intr = Interpreter::new();
    let (out, r) = eval(&mut intr, "+[", "");
    assert_eq!(r, Err(EvalError::UnmatchedBracket));
    assert!(out.is_empty());
    // resolution failed, so not even the `+` ran
    assert_eq!(intr.cell(0), 0);
}

#[test]
fn unmatched_bracket_in_the_middle_runs_nothing() {
    let mut intr = Interpreter::new();
    let (out, r) = eval(&mut intr, "+.]+.", "");
    assert_eq!(r, Err(EvalError::UnmatchedBracket));
    assert!(out.is_empty());
    assert_eq!(intr.cell(0), 0);
}

#[test]
fn state_persists_across_evaluations() {
    let mut intr = Interpreter::new();
    let (out, r) = eval(&mut intr, "+", "");
    assert_eq!(r, Ok(()));
    assert!(out.is_empty());
    let (out, r) = eval(&mut intr, ".", "");
    assert_eq!(r, Ok(()));
    assert_eq!(out, vec![1u8]);
}

#[test]
fn cursor_persists_across_evaluations() {
    let mut intr = Interpreter::new();
    assert_eq!(eval(&mut intr, ">>+", "").1, Ok(()));
    assert_eq!(intr.cursor(), 2);
    let (out, _) = eval(&mut intr, ".<.", "");
    assert_eq!(out, vec![1u8, 0u8]);
    assert_eq!(intr.cursor(), 1);
}

#[test]
fn inert_text_changes_nothing() {
    let mut intr = Interpreter::new();
    assert_eq!(eval(&mut intr, ">+++", "").1, Ok(()));
    let (out, r) = eval(&mut intr, "hello world! (no symbols at all)\n", "");
    assert_eq!(r, Ok(()));
    assert!(out.is_empty());
    assert_eq!(intr.cursor(), 1);
    assert_eq!(intr.cell(1), 3);
    assert_eq!(intr.cell(0), 0);
}

#[test]
fn increment_wraps_to_zero() {
    let mut intr = Interpreter::new();
    let src: String = "+".repeat(255);
    assert_eq!(eval(&mut intr, &src, "").1, Ok(()));
    assert_eq!(intr.cell(0), 255);
    let (out, r) = eval(&mut intr, "+.", "");
    assert_eq!(r, Ok(()));
    assert_eq!(out, vec![0u8]);
}

#[test]
fn decrement_wraps_to_255() {
    let mut intr = Interpreter::new();
    let (out, r) = eval(&mut intr, "-.", "");
    assert_eq!(r, Ok(()));
    assert_eq!(out, vec![255u8]);
}

#[test]
fn moving_left_of_the_tape_fails() {
    let mut intr = Interpreter::new();
    let (out, r) = eval(&mut intr, ".<.+", "");
    assert_eq!(r, Err(EvalError::OutOfBounds));
    assert_eq!(out, vec![0u8]);
    assert_eq!(intr.cursor(), -1);
    assert!(!intr.is_ptr_valid());
}

#[test]
fn off_tape_move_as_last_instruction_fails_next_evaluation() {
    let mut intr = Interpreter::new();
    assert_eq!(eval(&mut intr, "<", "").1, Ok(()));
    assert_eq!(eval(&mut intr, "", "").1, Ok(()));
    assert_eq!(eval(&mut intr, "x", "").1, Err(EvalError::OutOfBounds));
}

#[test]
fn moving_past_the_end_fails() {
    let mut intr = Interpreter::new();
    let src: String = ">".repeat(TAPE_SIZE - 1);
    assert_eq!(eval(&mut intr, &src, "").1, Ok(()));
    assert!(intr.is_ptr_valid());
    assert_eq!(eval(&mut intr, "+", "").1, Ok(()));
    assert_eq!(intr.cell(TAPE_SIZE - 1), 1);
    let (out, r) = eval(&mut intr, ">.", "");
    assert_eq!(r, Err(EvalError::OutOfBounds));
    assert!(out.is_empty());
    assert_eq!(intr.cursor(), TAPE_SIZE as i64);
}

#[test]
fn end_of_input_fails() {
    let mut intr = Interpreter::new();
    let (out, r) = eval(&mut intr, ".,.", "");
    assert_eq!(r, Err(EvalError::EndOfInput));
    assert_eq!(out, vec![0u8]);
}

#[test]
fn input_code_is_taken_modulo_256() {
    let mut intr = Interpreter::new();
    let (out, r) = eval(&mut intr, ",.", "\u{141}");
    assert_eq!(r, Ok(()));
    assert_eq!(out, vec![0x41u8]);
}

#[test]
fn unresolved_bracket_is_unsupported() {
    let mut intr = Interpreter::new();
    let prog = vec![Cmd::LoopStart];
    assert_eq!(intr.step(&prog, 0), Step::Fail(EvalError::UnsupportedInstruction));
}

#[test]
fn step_past_the_end_halts() {
    let mut intr = Interpreter::new();
    let prog = vec![Cmd::Increment];
    assert_eq!(intr.step(&prog, 0), Step::Next(1));
    assert_eq!(intr.step(&prog, 1), Step::Halt);
    assert_eq!(intr.cell(0), 1);
}

#[test]
fn jumps_resume_at_their_target() {
    let mut intr = Interpreter::new();
    let prog = vec![Cmd::JumpIfZero(7), Cmd::JumpIfNonZero(3), Cmd::Increment];
    assert_eq!(intr.step(&prog, 0), Step::Next(7));
    assert_eq!(intr.step(&prog, 1), Step::Next(2));
    assert_eq!(intr.step(&prog, 2), Step::Next(3));
    assert_eq!(intr.step(&prog, 0), Step::Next(1));
    assert_eq!(intr.step(&prog, 1), Step::Next(3));
}

#[test]
fn loop_after_loop_runs_following_instruction() {
    let mut intr = Interpreter::new();
    let (out, r) = eval(&mut intr, "[]+.++[-]+.", "");
    assert_eq!(r, Ok(()));
    assert_eq!(out, vec![1u8, 1u8]);
}

#[test]
fn tokenize_maps_each_character() {
    let chars: Vec<char> = "><+-.,[]a ".chars().collect();
    assert_eq!(
        Interpreter::tokenize(&chars),
        vec![
            Cmd::MoveRight,
            Cmd::MoveLeft,
            Cmd::Increment,
            Cmd::Decrement,
            Cmd::Output,
            Cmd::Input,
            Cmd::LoopStart,
            Cmd::LoopEnd,
            Cmd::Noop,
            Cmd::Noop,
        ]
    );
    assert_eq!(Cmd::from_char('#'), Cmd::Noop);
    assert_eq!(Cmd::from_char('['), Cmd::LoopStart);
}

#[test]
fn resolve_pairs_nested_brackets() {
    let chars: Vec<char> = "+[-[>]<]".chars().collect();
    let prog = Interpreter::prepare(&chars).unwrap();
    assert_eq!(
        prog,
        vec![
            Cmd::Increment,
            Cmd::JumpIfZero(8),
            Cmd::Decrement,
            Cmd::JumpIfZero(6),
            Cmd::MoveRight,
            Cmd::JumpIfNonZero(3),
            Cmd::MoveLeft,
            Cmd::JumpIfNonZero(1),
        ]
    );
}

#[test]
fn resolve_pairs_sibling_brackets() {
    let prog = resolve(vec![
        Cmd::LoopStart,
        Cmd::LoopEnd,
        Cmd::LoopStart,
        Cmd::Noop,
        Cmd::LoopEnd,
    ])
    .unwrap();
    assert_eq!(
        prog,
        vec![
            Cmd::JumpIfZero(2),
            Cmd::JumpIfNonZero(0),
            Cmd::JumpIfZero(5),
            Cmd::Noop,
            Cmd::JumpIfNonZero(2),
        ]
    );
}

#[test]
fn resolve_rejects_close_before_open() {
    assert_eq!(
        resolve(vec![Cmd::LoopEnd, Cmd::LoopStart]),
        Err(EvalError::UnmatchedBracket)
    );
    assert_eq!(resolve(vec![]), Ok(vec![]));
}

#[test]
fn new_machine_is_zeroed() {
    let intr = Interpreter::new();
    assert_eq!(intr.cursor(), 0);
    assert!(intr.is_ptr_valid());
    assert_eq!(intr.cell(0), 0);
    assert_eq!(intr.cell(TAPE_SIZE - 1), 0);
}

#[test]
fn error_messages() {
    assert_eq!(EvalError::UnmatchedBracket.message(), "unmatched bracket");
    assert_eq!(EvalError::OutOfBounds.message(), "pointer out of bounds");
    assert_eq!(EvalError::EndOfInput.message(), "end of input");
}
