use bfvm::errors::{CompileError, RuntimeError};
use bfvm::interpret::{interpret, RunOutcome};

#[test]
fn unmatched_open_is_rejected() {
    assert_eq!(
        bfvm::optimizations::compile("["),
        Err(CompileError::UnmatchedOpen { position: 0 })
    );
    // The innermost unclosed bracket is reported.
    assert_eq!(
        bfvm::optimizations::compile("+[-[>"),
        Err(CompileError::UnmatchedOpen { position: 3 })
    );
}

#[test]
fn unmatched_close_is_rejected() {
    assert_eq!(
        bfvm::optimizations::compile("]"),
        Err(CompileError::UnmatchedClose { position: 0 })
    );
    // The first stray `]` is reported, at its token position.
    assert_eq!(
        bfvm::optimizations::compile("+[-]]]"),
        Err(CompileError::UnmatchedClose { position: 4 })
    );
}

#[test]
fn comments_do_not_shift_error_positions() {
    // Positions name tokens, not source bytes.
    assert_eq!(
        bfvm::optimizations::compile("hello + world ]"),
        Err(CompileError::UnmatchedClose { position: 1 })
    );
}

#[test]
fn tape_underflow_is_fatal() {
    let program = bfvm::optimizations::compile("<").unwrap();
    match interpret(&program, Vec::new(), 256, 100) {
        RunOutcome::Failed(RuntimeError::TapeUnderflow) => {}
        _ => panic!("moving left of cell 0 must fail"),
    }
}

#[test]
fn underflow_after_work() {
    let program = bfvm::optimizations::compile("+>+<<-").unwrap();
    match interpret(&program, Vec::new(), 256, 100) {
        RunOutcome::Failed(RuntimeError::TapeUnderflow) => {}
        _ => panic!("the run steps below the tape"),
    }
}
