//! Compile-time and run-time errors.  Both kinds are fatal: the
//! compiler returns no partial result, and the interpreter aborts the
//! program.

use vstd::prelude::*;

verus! {

/// A bracket mismatch found while lifting loops.  The position is the
/// index of the offending symbol in the token stream (the source with
/// comments removed).
#[derive(Clone, Copy, PartialEq, Eq, Debug)]
pub enum CompileError {
    /// A `[` that is never closed; the position is that of the
    /// innermost unclosed `[`.
    UnmatchedOpen { position: usize },
    /// A `]` with no `[` open; the position is that of the first such
    /// `]`.
    UnmatchedClose { position: usize },
}

/// A fatal error during execution.
#[derive(Clone, Copy, PartialEq, Eq, Debug)]
pub enum RuntimeError {
    /// The pointer was moved, or a cell was addressed, below index 0.
    TapeUnderflow,
    /// The pointer was moved, or a cell was addressed, past the
    /// highest index this machine can hold.
    TapeOverflow,
}

} // verus!
