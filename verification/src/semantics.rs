//! The mathematical model of execution.
//!
//! A program runs against an abstract machine state: a growable tape
//! of 8-bit cells, a pointer, the remaining input and the output
//! emitted so far.  The model is a fuel-indexed big-step evaluator:
//! `fuel` bounds how many loop re-entries may be nested along any one
//! path, so every spec function here terminates, while a run that
//! needs more iterations yields `OutOfFuel`.  Raising the fuel never
//! changes a finished outcome.
//!
//! The executable interpreter is proved to return exactly what this
//! model says, and the optimizer's passes are related to this model by
//! the lemmas in the `equivalence` module.

use vstd::prelude::*;

use crate::instructions::InstrView;
use crate::instructions::height;
use crate::instructions::height_seq;

verus! {

/// Addition of two cells, wrapping modulo 256.
pub open spec fn wadd(a: u8, b: u8) -> u8 {
    ((a + b) % 256) as u8
}

/// Multiplication of two cells, wrapping modulo 256.
pub open spec fn wmul(a: u8, b: u8) -> u8 {
    ((a * b) % 256) as u8
}

/// Negation of a cell, wrapping modulo 256.
pub open spec fn wneg(a: u8) -> u8 {
    ((256 - a) % 256) as u8
}

/// The value of cell `i`: cells beyond the tape's current length hold
/// zero, since growth always zero-fills.
pub open spec fn cell_at(tape: Seq<u8>, i: int) -> u8 {
    if 0 <= i < tape.len() {
        tape[i]
    } else {
        0
    }
}

/// The tape extended with zeroes so that its length is at least `n`.
pub open spec fn grow(tape: Seq<u8>, n: int) -> Seq<u8> {
    if n <= tape.len() {
        tape
    } else {
        tape + Seq::new((n - tape.len()) as nat, |j: int| 0u8)
    }
}

/// The tape with cell `i` set to `v`, grown first so that the cell
/// exists.
pub open spec fn write_cell(tape: Seq<u8>, i: int, v: u8) -> Seq<u8>
    recommends
        i >= 0,
{
    grow(tape, i + 1).update(i, v)
}

/// The highest tape length this machine can address.
pub open spec fn tape_limit() -> int {
    usize::MAX as int
}

/// The abstract machine state.
pub struct RunState {
    /// The tape; cells beyond its length read as zero.
    pub tape: Seq<u8>,
    /// The index of the current cell.
    pub ptr: int,
    /// The input bytes not yet read.
    pub input: Seq<u8>,
    /// The output bytes emitted so far.
    pub output: Seq<u8>,
}

impl RunState {
    /// The pointer always rests on an existing cell, and the tape fits
    /// the machine.
    pub open spec fn wf(self) -> bool {
        0 <= self.ptr < self.tape.len() <= tape_limit()
    }

    /// The value of the current cell.
    pub open spec fn cell(self) -> u8 {
        cell_at(self.tape, self.ptr)
    }
}

/// The outcome of running a program fragment.
pub enum RunResult {
    /// The fragment ran to its end, leaving this state.
    Done(RunState),
    /// The pointer, or an addressed cell, went below index 0.
    Underflow,
    /// The pointer, or an addressed cell, went past the machine's
    /// highest index.
    Overflow,
    /// The fuel bound was hit before the fragment finished.
    OutOfFuel,
}

/// The machine as execution starts: `memory_size` zeroed cells (at
/// least one, so the pointer rests on a cell), the pointer at 0, the
/// whole input ahead and no output.
pub open spec fn init_state(memory_size: int, input: Seq<u8>) -> RunState {
    RunState {
        tape: Seq::new(if memory_size >= 1 { memory_size as nat } else { 1 }, |j: int| 0u8),
        ptr: 0,
        input: input,
        output: Seq::empty(),
    }
}

/// Move the pointer by `delta`, growing the tape so the pointer rests
/// on a cell.
pub open spec fn move_ptr(st: RunState, delta: int) -> RunResult {
    let p = st.ptr + delta;
    if p < 0 {
        RunResult::Underflow
    } else if p + 1 > tape_limit() {
        RunResult::Overflow
    } else {
        RunResult::Done(RunState { tape: grow(st.tape, p + 1), ptr: p, ..st })
    }
}

/// The tape after adding `data[i]` (wrapping) to cell `base + i` for
/// each `i < n`.
pub open spec fn apply_run(tape: Seq<u8>, base: int, data: Seq<u8>, n: int) -> Seq<u8>
    decreases n,
{
    if n <= 0 {
        tape
    } else {
        let t = apply_run(tape, base, data, n - 1);
        t.update(base + n - 1, wadd(cell_at(t, base + n - 1), data[n - 1]))
    }
}

/// The tape after adding `data[i] * q` (wrapping) to cell `base + i`
/// for each `i < n`: one pass of a linear loop's closed form.
pub open spec fn apply_run_scaled(tape: Seq<u8>, base: int, data: Seq<u8>, n: int, q: u8) -> Seq<
    u8,
>
    decreases n,
{
    if n <= 0 {
        tape
    } else {
        let t = apply_run_scaled(tape, base, data, n - 1, q);
        t.update(base + n - 1, wadd(cell_at(t, base + n - 1), wmul(data[n - 1], q)))
    }
}

/// One `ModifyRun`: add `data[i]` at displacement `offset + i` for
/// each `i`, then move the pointer by `shift`.  A run with no deltas
/// only shifts.
pub open spec fn step_modify_run(st: RunState, shift: int, offset: int, data: Seq<u8>) -> RunResult {
    if data.len() == 0 {
        move_ptr(st, shift)
    } else {
        let base = st.ptr + offset;
        if base < 0 {
            RunResult::Underflow
        } else if base + data.len() > tape_limit() {
            RunResult::Overflow
        } else {
            let tape = apply_run(grow(st.tape, base + data.len()), base, data, data.len() as int);
            move_ptr(RunState { tape, ..st }, shift)
        }
    }
}

/// Write `v` to the cell at displacement `o`, growing the tape so the
/// cell exists.  The pointer does not move.
pub open spec fn step_write_at(st: RunState, o: int, v: u8) -> RunResult {
    let idx = st.ptr + o;
    if idx < 0 {
        RunResult::Underflow
    } else if idx + 1 > tape_limit() {
        RunResult::Overflow
    } else {
        RunResult::Done(RunState { tape: write_cell(st.tape, idx, v), ..st })
    }
}

/// One non-looping instruction.  The bracket symbols have no effect of
/// their own: loop lifting gives them meaning, and the interpreter
/// refuses programs that still contain them.
pub open spec fn step_flat(i: InstrView, st: RunState) -> RunResult
    recommends
        !(i matches InstrView::Loop(_)),
        !(i matches InstrView::SimpleLoop { .. }),
        !(i matches InstrView::SearchLoop { .. }),
        !(i matches InstrView::LinearLoop { .. }),
{
    match i {
        InstrView::Increment => RunResult::Done(
            RunState { tape: write_cell(st.tape, st.ptr, wadd(st.cell(), 1)), ..st },
        ),
        InstrView::Decrement => RunResult::Done(
            RunState { tape: write_cell(st.tape, st.ptr, wadd(st.cell(), 255)), ..st },
        ),
        InstrView::Right => move_ptr(st, 1),
        InstrView::Left => move_ptr(st, -1),
        InstrView::Print => RunResult::Done(
            RunState { output: st.output.push(st.cell()), ..st },
        ),
        InstrView::Read => RunResult::Done(
            RunState {
                tape: write_cell(
                    st.tape,
                    st.ptr,
                    if st.input.len() == 0 {
                        0
                    } else {
                        st.input[0]
                    },
                ),
                input: if st.input.len() == 0 {
                    st.input
                } else {
                    st.input.drop_first()
                },
                ..st
            },
        ),
        InstrView::Clear => RunResult::Done(
            RunState { tape: write_cell(st.tape, st.ptr, 0), ..st },
        ),
        InstrView::Shift(d) => move_ptr(st, d),
        InstrView::SetCell(v) => RunResult::Done(
            RunState { tape: write_cell(st.tape, st.ptr, v), ..st },
        ),
        InstrView::Modify(v) => RunResult::Done(
            RunState { tape: write_cell(st.tape, st.ptr, wadd(st.cell(), v)), ..st },
        ),
        InstrView::SetOffset(v, o) => step_write_at(st, o, v),
        InstrView::ModifyOffset(v, o) => step_write_at(
            st,
            o,
            wadd(cell_at(st.tape, st.ptr + o), v),
        ),
        InstrView::ModifyRun { shift, offset, data } => step_modify_run(st, shift, offset, data),
        _ => RunResult::Done(st),
    }
}

/// A `SimpleLoop`: apply the `ModifyRun` until the current cell is
/// zero.  Each re-entry costs one unit of fuel.
pub open spec fn run_simple(
    st: RunState,
    shift: int,
    offset: int,
    data: Seq<u8>,
    fuel: nat,
) -> RunResult
    decreases fuel,
{
    if st.cell() == 0 {
        RunResult::Done(st)
    } else if fuel == 0 {
        RunResult::OutOfFuel
    } else {
        match step_modify_run(st, shift, offset, data) {
            RunResult::Done(st1) => run_simple(st1, shift, offset, data, (fuel - 1) as nat),
            e => e,
        }
    }
}

/// A `SearchLoop`: move the pointer by `step` until the current cell
/// is zero.
pub open spec fn run_search(st: RunState, step: int, fuel: nat) -> RunResult
    decreases fuel,
{
    if st.cell() == 0 {
        RunResult::Done(st)
    } else if fuel == 0 {
        RunResult::OutOfFuel
    } else {
        match move_ptr(st, step) {
            RunResult::Done(st1) => run_search(st1, step, (fuel - 1) as nat),
            e => e,
        }
    }
}

/// A `LinearLoop`.  When the factor evenly divides the current cell,
/// the whole loop is one pass adding `data[i] * (cell / factor)` at
/// each displacement; otherwise — and whenever the factor is zero, so
/// that no closed form exists — the loop degrades to `SimpleLoop`
/// semantics with no shift.
pub open spec fn run_linear(
    st: RunState,
    offset: int,
    factor: u8,
    data: Seq<u8>,
    fuel: nat,
) -> RunResult {
    let c = st.cell();
    if c == 0 {
        RunResult::Done(st)
    } else if factor != 0 && c % factor == 0 {
        let q = c / factor;
        let base = st.ptr + offset;
        if data.len() == 0 {
            run_simple(st, 0, offset, data, fuel)
        } else if base < 0 {
            RunResult::Underflow
        } else if base + data.len() > tape_limit() {
            RunResult::Overflow
        } else {
            let tape = apply_run_scaled(
                grow(st.tape, base + data.len()),
                base,
                data,
                data.len() as int,
                q,
            );
            RunResult::Done(RunState { tape, ..st })
        }
    } else {
        run_simple(st, 0, offset, data, fuel)
    }
}

/// One instruction.  Every loop form re-evaluates its guard after each
/// pass of its body; one unit of fuel pays for each re-entry.
pub open spec fn run_instr(i: InstrView, st: RunState, fuel: nat) -> RunResult
    decreases fuel, height(i), 0int,
{
    match i {
        InstrView::Loop(body) => {
            if st.cell() == 0 {
                RunResult::Done(st)
            } else if fuel == 0 {
                RunResult::OutOfFuel
            } else {
                match run_seq(body, st, (fuel - 1) as nat) {
                    RunResult::Done(st1) => run_instr(i, st1, (fuel - 1) as nat),
                    e => e,
                }
            }
        },
        InstrView::SimpleLoop { shift, offset, data } => run_simple(st, shift, offset, data, fuel),
        InstrView::SearchLoop { step } => run_search(st, step, fuel),
        InstrView::LinearLoop { offset, linearity_factor, data } => run_linear(
            st,
            offset,
            linearity_factor,
            data,
            fuel,
        ),
        _ => step_flat(i, st),
    }
}

/// A sibling sequence, first instruction first.
pub open spec fn run_seq(s: Seq<InstrView>, st: RunState, fuel: nat) -> RunResult
    decreases fuel, height_seq(s), s.len() + 1,
{
    if s.len() == 0 {
        RunResult::Done(st)
    } else {
        match run_instr(s[0], st, fuel) {
            RunResult::Done(st1) => run_seq(s.drop_first(), st1, fuel),
            e => e,
        }
    }
}

/// Two states that differ only in trailing zero cells on the tape.
/// Compaction may grow the tape less far than the primitives it
/// replaces, but the extra cells are all zero, so every observation
/// agrees.
pub open spec fn equiv(a: RunState, b: RunState) -> bool {
    &&& a.ptr == b.ptr
    &&& a.input == b.input
    &&& a.output == b.output
    &&& forall|i: int| #![trigger cell_at(a.tape, i), cell_at(b.tape, i)]
        cell_at(a.tape, i) == cell_at(b.tape, i)
}

/// Finished outcomes with equivalent states; errors must agree
/// exactly.
pub open spec fn result_equiv(a: RunResult, b: RunResult) -> bool {
    match (a, b) {
        (RunResult::Done(s1), RunResult::Done(s2)) => equiv(s1, s2),
        (RunResult::Underflow, RunResult::Underflow) => true,
        (RunResult::Overflow, RunResult::Overflow) => true,
        (RunResult::OutOfFuel, RunResult::OutOfFuel) => true,
        _ => false,
    }
}

/// True of an instruction stream in which loop lifting has consumed
/// every bracket symbol, at every nesting depth.
pub open spec fn block_free_instr(i: InstrView) -> bool
    decreases i,
{
    match i {
        InstrView::BlockStart => false,
        InstrView::BlockEnd => false,
        InstrView::Loop(body) => block_free_seq(body),
        _ => true,
    }
}

/// `block_free_instr`, over a sibling sequence.
pub open spec fn block_free_seq(s: Seq<InstrView>) -> bool
    decreases s,
{
    forall|i: int| 0 <= i < s.len() ==> block_free_instr(#[trigger] s[i])
}

} // verus!
