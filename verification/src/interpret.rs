//! The interpreter: a tree-walking evaluator over the instruction
//! stream, proved to return exactly what the model in `semantics`
//! says.
//!
//! Loops cannot be bounded in general — the language is Turing
//! complete — so execution takes an explicit fuel bound: one unit
//! pays for each loop re-entry, and a run that exhausts the bound
//! reports so instead of looping forever.

use vstd::prelude::*;

use crate::errors::RuntimeError;
use crate::instructions::InstrView;
use crate::instructions::Instruction;
use crate::instructions::height;
use crate::instructions::height_seq;
use crate::instructions::iview;
use crate::instructions::iview_seq;
use crate::instructions::lemma_height_member;
use crate::instructions::lemma_iview_seq_index;
use crate::memory::Memory;
use crate::semantics::RunResult;
use crate::semantics::RunState;
use crate::semantics::block_free_instr;
use crate::semantics::block_free_seq;
use crate::semantics::init_state;
use crate::semantics::run_instr;
use crate::semantics::run_linear;
use crate::semantics::run_search;
use crate::semantics::run_seq;
use crate::semantics::run_simple;
use crate::semantics::step_flat;
use crate::semantics::step_modify_run;
use crate::semantics::step_write_at;
use crate::semantics::apply_run;
use crate::semantics::apply_run_scaled;
use crate::semantics::cell_at;
use crate::semantics::grow;

verus! {

/// The running machine: memory, the input with a cursor over it, and
/// the output gathered so far.
pub struct Machine {
    /// The tape and pointer.
    pub memory: Memory,
    /// All input bytes handed to this run.
    pub input: Vec<u8>,
    /// How many input bytes have been read.
    pub input_pos: usize,
    /// The output bytes emitted so far.
    pub output: Vec<u8>,
}

impl Machine {
    /// The tape is well formed and the input cursor is within the
    /// input.
    pub open spec fn wf(self) -> bool {
        &&& self.memory.wf()
        &&& self.input_pos <= self.input@.len()
    }
}

impl View for Machine {
    type V = RunState;

    /// The abstract state this machine realizes: its tape, pointer,
    /// the input not yet read, and the output so far.
    open spec fn view(&self) -> RunState {
        RunState {
            tape: self.memory.data@,
            ptr: self.memory.ptr as int,
            input: self.input@.skip(self.input_pos as int),
            output: self.output@,
        }
    }
}

/// What one fragment of the program did to the machine.
pub enum Status {
    /// The fragment ran to its end.
    Ran,
    /// A fatal runtime error; the machine is abandoned.
    Failed(RuntimeError),
    /// The fuel bound was hit.
    OutOfFuel,
}

/// The result of a whole run.
pub enum RunOutcome {
    /// The program ran to its end, leaving this machine.
    Done(Machine),
    /// A fatal runtime error.
    Failed(RuntimeError),
    /// The fuel bound was hit before the program finished.
    OutOfFuel,
}

/// The executable status `r` reports exactly the model's outcome
/// `spec_r`, with `mwf`/`mv` the well-formedness and abstract state of
/// the machine after the call.
pub open spec fn status_agrees(r: Status, mwf: bool, mv: RunState, spec_r: RunResult) -> bool {
    match r {
        Status::Ran => mwf && spec_r == RunResult::Done(mv),
        Status::Failed(RuntimeError::TapeUnderflow) => spec_r == RunResult::Underflow,
        Status::Failed(RuntimeError::TapeOverflow) => spec_r == RunResult::Overflow,
        Status::OutOfFuel => spec_r == RunResult::OutOfFuel,
    }
}

/// As `status_agrees`, for helpers that cannot run out of fuel.
pub open spec fn step_agrees(
    r: Result<(), RuntimeError>,
    mwf: bool,
    mv: RunState,
    spec_r: RunResult,
) -> bool {
    match r {
        Ok(()) => mwf && spec_r == RunResult::Done(mv),
        Err(RuntimeError::TapeUnderflow) => spec_r == RunResult::Underflow,
        Err(RuntimeError::TapeOverflow) => spec_r == RunResult::Overflow,
    }
}

/// Read one input byte into the current cell, or 0 once the input is
/// exhausted.
fn read_char(m: &mut Machine)
    requires
        old(m).wf(),
    ensures
        final(m).wf(),
        step_flat(InstrView::Read, old(m)@) == RunResult::Done(final(m)@),
{
    proof {
        assert(grow(m.memory.data@, m.memory.ptr + 1) == m.memory.data@);
    }
    if m.input_pos < m.input.len() {
        let b = m.input[m.input_pos];
        m.input_pos = m.input_pos + 1;
        m.memory.set(b);
        proof {
            assert(old(m)@.input[0] == b);
            assert(m@.input =~= old(m)@.input.drop_first());
        }
    } else {
        m.memory.set(0);
        proof {
            assert(m@.input =~= old(m)@.input);
        }
    }
}

/// Apply one `ModifyRun`: add each delta at its displacement, then
/// shift the pointer.
fn modify_run(m: &mut Machine, offset: isize, data: &Vec<u8>, shift: isize) -> (r: Result<
    (),
    RuntimeError,
>)
    requires
        old(m).wf(),
    ensures
        step_agrees(
            r,
            final(m).wf(),
            final(m)@,
            step_modify_run(old(m)@, shift as int, offset as int, data@),
        ),
        final(m)@.input == old(m)@.input,
        final(m)@.output == old(m)@.output,
{
    if data.len() == 0 {
        let r = m.memory.shift(shift);
        return r;
    }
    let base: i128 = m.memory.ptr as i128 + offset as i128;
    if base < 0 {
        return Err(RuntimeError::TapeUnderflow);
    }
    if base > usize::MAX as i128 - data.len() as i128 {
        return Err(RuntimeError::TapeOverflow);
    }
    let b = base as usize;
    let end = b + data.len();
    m.memory.check_length(end);
    let ghost grown = grow(old(m)@.tape, b + data@.len());
    let mut k: usize = 0;
    while k < data.len()
        invariant
            m.wf(),
            k <= data.len(),
            b + data@.len() == end,
            end <= m.memory.data@.len(),
            m.memory.ptr == old(m).memory.ptr,
            m.input == old(m).input,
            m.input_pos == old(m).input_pos,
            m.output == old(m).output,
            m.memory.data@ == apply_run(grown, b as int, data@, k as int),
            m.memory.data@.len() == grown.len(),
        decreases data.len() - k,
    {
        let idx = b + k;
        let v = m.memory.data[idx];
        m.memory.data.set(idx, v.wrapping_add(data[k]));
        k = k + 1;
    }
    let r = m.memory.shift(shift);
    r
}

/// One pass of a `SimpleLoop`'s guard-and-body cycle, repeated until
/// the current cell is zero or the fuel runs out.
fn simple_loop(m: &mut Machine, offset: isize, data: &Vec<u8>, shift: isize, fuel: u64) -> (r:
    Status)
    requires
        old(m).wf(),
    ensures
        status_agrees(
            r,
            final(m).wf(),
            final(m)@,
            run_simple(old(m)@, shift as int, offset as int, data@, fuel as nat),
        ),
{
    let mut f = fuel;
    while m.memory.get() != 0
        invariant
            m.wf(),
            f <= fuel,
            run_simple(old(m)@, shift as int, offset as int, data@, fuel as nat) == run_simple(
                m@,
                shift as int,
                offset as int,
                data@,
                f as nat,
            ),
        decreases f,
    {
        if f == 0 {
            return Status::OutOfFuel;
        }
        f = f - 1;
        let ghost pre = m@;
        match modify_run(m, offset, data, shift) {
            Ok(()) => {},
            Err(e) => {
                return Status::Failed(e);
            },
        }
        proof {
            assert(run_simple(pre, shift as int, offset as int, data@, (f + 1) as nat)
                == run_simple(m@, shift as int, offset as int, data@, f as nat));
        }
    }
    Status::Ran
}

/// A `SearchLoop`: move the pointer by `step` until the current cell
/// is zero or the fuel runs out.
fn search_loop(m: &mut Machine, step: isize, fuel: u64) -> (r: Status)
    requires
        old(m).wf(),
    ensures
        status_agrees(
            r,
            final(m).wf(),
            final(m)@,
            run_search(old(m)@, step as int, fuel as nat),
        ),
{
    let mut f = fuel;
    while m.memory.get() != 0
        invariant
            m.wf(),
            f <= fuel,
            run_search(old(m)@, step as int, fuel as nat) == run_search(m@, step as int, f as nat),
        decreases f,
    {
        if f == 0 {
            return Status::OutOfFuel;
        }
        f = f - 1;
        let ghost pre = m@;
        match m.memory.shift(step) {
            Ok(()) => {},
            Err(e) => {
                return Status::Failed(e);
            },
        }
        proof {
            assert(run_search(pre, step as int, (f + 1) as nat) == run_search(
                m@,
                step as int,
                f as nat,
            ));
        }
    }
    Status::Ran
}

/// A `LinearLoop`: when the factor evenly divides the current cell,
/// one pass adds `data[i] * (cell / factor)` at each displacement;
/// otherwise the loop degrades to `SimpleLoop` semantics.
fn linear_loop(m: &mut Machine, linearity_factor: u8, offset: isize, data: &Vec<u8>, fuel: u64) -> (
    r: Status)
    requires
        old(m).wf(),
    ensures
        status_agrees(
            r,
            final(m).wf(),
            final(m)@,
            run_linear(old(m)@, offset as int, linearity_factor, data@, fuel as nat),
        ),
{
    let c = m.memory.get();
    if c == 0 {
        return Status::Ran;
    }
    if linearity_factor != 0 && c % linearity_factor == 0 {
        let q = c / linearity_factor;
        if data.len() == 0 {
            return simple_loop(m, offset, data, 0, fuel);
        }
        let base: i128 = m.memory.ptr as i128 + offset as i128;
        if base < 0 {
            return Status::Failed(RuntimeError::TapeUnderflow);
        }
        if base > usize::MAX as i128 - data.len() as i128 {
            return Status::Failed(RuntimeError::TapeOverflow);
        }
        let b = base as usize;
        let end = b + data.len();
        m.memory.check_length(end);
        let ghost grown = grow(old(m)@.tape, b + data@.len());
        let mut k: usize = 0;
        while k < data.len()
            invariant
                m.wf(),
                k <= data.len(),
                b + data@.len() == end,
                end <= m.memory.data@.len(),
                m.memory.ptr == old(m).memory.ptr,
                m.input == old(m).input,
                m.input_pos == old(m).input_pos,
                m.output == old(m).output,
                m.memory.data@ == apply_run_scaled(grown, b as int, data@, k as int, q),
                m.memory.data@.len() == grown.len(),
            decreases data.len() - k,
        {
            let idx = b + k;
            let v = m.memory.data[idx];
            m.memory.data.set(idx, v.wrapping_add(data[k].wrapping_mul(q)));
            k = k + 1;
        }
        Status::Ran
    } else {
        simple_loop(m, offset, data, 0, fuel)
    }
}

/// Write `value` to the cell at displacement `o` from the pointer.
fn write_at(m: &mut Machine, o: isize, value: u8) -> (r: Result<(), RuntimeError>)
    requires
        old(m).wf(),
    ensures
        step_agrees(r, final(m).wf(), final(m)@, step_write_at(old(m)@, o as int, value)),
{
    let idx: i128 = m.memory.ptr as i128 + o as i128;
    if idx < 0 {
        return Err(RuntimeError::TapeUnderflow);
    }
    if idx > usize::MAX as i128 - 1 {
        return Err(RuntimeError::TapeOverflow);
    }
    let i = idx as usize;
    m.memory.check_length(i + 1);
    m.memory.data.set(i, value);
    Ok(())
}

/// A structural `Loop`: run the body until the current cell is zero
/// or the fuel runs out.
fn nested_loop(body: &Vec<Instruction>, m: &mut Machine, fuel: u64) -> (r: Status)
    requires
        old(m).wf(),
        block_free_seq(iview_seq(body@)),
    ensures
        status_agrees(
            r,
            final(m).wf(),
            final(m)@,
            run_instr(InstrView::Loop(iview_seq(body@)), old(m)@, fuel as nat),
        ),
    decreases fuel, height_seq(iview_seq(body@)), 3int,
{
    let mut f = fuel;
    while m.memory.get() != 0
        invariant
            m.wf(),
            f <= fuel,
            block_free_seq(iview_seq(body@)),
            run_instr(InstrView::Loop(iview_seq(body@)), old(m)@, fuel as nat) == run_instr(
                InstrView::Loop(iview_seq(body@)),
                m@,
                f as nat,
            ),
        decreases f,
    {
        if f == 0 {
            return Status::OutOfFuel;
        }
        f = f - 1;
        let ghost pre = m@;
        match _interpret(body.as_slice(), m, f) {
            Status::Ran => {},
            Status::Failed(e) => {
                proof {
                    assert(run_instr(InstrView::Loop(iview_seq(body@)), pre, (f + 1) as nat)
                        == run_seq(iview_seq(body@), pre, f as nat));
                }
                return Status::Failed(e);
            },
            Status::OutOfFuel => {
                proof {
                    assert(run_instr(InstrView::Loop(iview_seq(body@)), pre, (f + 1) as nat)
                        == run_seq(iview_seq(body@), pre, f as nat));
                }
                return Status::OutOfFuel;
            },
        }
        proof {
            assert(run_instr(InstrView::Loop(iview_seq(body@)), pre, (f + 1) as nat) == run_instr(
                InstrView::Loop(iview_seq(body@)),
                m@,
                f as nat,
            ));
        }
    }
    Status::Ran
}

/// One non-looping instruction.
#[verifier::rlimit(40)]
fn run_flat(op: &Instruction, m: &mut Machine) -> (r: Result<(), RuntimeError>)
    requires
        old(m).wf(),
        !(op matches Instruction::Loop(_)),
        !(op matches Instruction::SimpleLoop { .. }),
        !(op matches Instruction::SearchLoop { .. }),
        !(op matches Instruction::LinearLoop { .. }),
    ensures
        step_agrees(r, final(m).wf(), final(m)@, step_flat(iview(*op), old(m)@)),
{
    proof {
        assert(grow(m.memory.data@, m.memory.ptr + 1) == m.memory.data@);
    }
    match op {
        Instruction::Increment => {
            let v = m.memory.get();
            m.memory.set(v.wrapping_add(1));
            Ok(())
        },
        Instruction::Decrement => {
            let v = m.memory.get();
            m.memory.set(v.wrapping_sub(1));
            Ok(())
        },
        Instruction::Right => m.memory.shift(1),
        Instruction::Left => m.memory.shift(-1),
        Instruction::Print => {
            let v = m.memory.get();
            m.output.push(v);
            Ok(())
        },
        Instruction::Read => {
            read_char(m);
            Ok(())
        },
        Instruction::Clear => {
            m.memory.set(0);
            Ok(())
        },
        Instruction::Shift(amount) => m.memory.shift(*amount),
        Instruction::SetCell(v) => {
            m.memory.set(*v);
            Ok(())
        },
        Instruction::Modify(v) => {
            let c = m.memory.get();
            m.memory.set(c.wrapping_add(*v));
            Ok(())
        },
        Instruction::SetOffset(v, o) => write_at(m, *o, *v),
        Instruction::ModifyOffset(v, o) => {
            let idx: i128 = m.memory.ptr as i128 + *o as i128;
            if idx < 0 {
                return Err(RuntimeError::TapeUnderflow);
            }
            if idx > usize::MAX as i128 - 1 {
                return Err(RuntimeError::TapeOverflow);
            }
            let i = idx as usize;
            m.memory.check_length(i + 1);
            let c = m.memory.data[i];
            proof {
                assert(c == cell_at(old(m)@.tape, old(m)@.ptr + *o));
            }
            m.memory.data.set(i, c.wrapping_add(*v));
            Ok(())
        },
        Instruction::ModifyRun { shift, offset, data } => modify_run(m, *offset, data, *shift),
        _ => Ok(()),
    }
}

/// Execute one instruction against the machine.
fn run_one(op: &Instruction, m: &mut Machine, fuel: u64) -> (r: Status)
    requires
        old(m).wf(),
        block_free_instr(iview(*op)),
    ensures
        status_agrees(r, final(m).wf(), final(m)@, run_instr(iview(*op), old(m)@, fuel as nat)),
    decreases fuel, height(iview(*op)), 0int,
{
    match op {
        Instruction::LinearLoop { offset, linearity_factor, data } => linear_loop(
            m,
            *linearity_factor,
            *offset,
            data,
            fuel,
        ),
        Instruction::SimpleLoop { shift, offset, data } => simple_loop(
            m,
            *offset,
            data,
            *shift,
            fuel,
        ),
        Instruction::SearchLoop { step } => search_loop(m, *step, fuel),
        Instruction::Loop(body) => {
            proof {
                assert(block_free_seq(iview_seq(body@)));
            }
            nested_loop(body, m, fuel)
        },
        _ => {
            match run_flat(op, m) {
                Ok(()) => Status::Ran,
                Err(e) => Status::Failed(e),
            }
        },
    }
}

/// Execute a sibling sequence in order against the machine.
fn _interpret(instructions: &[Instruction], m: &mut Machine, fuel: u64) -> (r: Status)
    requires
        old(m).wf(),
        block_free_seq(iview_seq(instructions@)),
    ensures
        status_agrees(
            r,
            final(m).wf(),
            final(m)@,
            run_seq(iview_seq(instructions@), old(m)@, fuel as nat),
        ),
    decreases fuel, height_seq(iview_seq(instructions@)), 1int,
{
    proof {
        lemma_iview_seq_index(instructions@);
        assert(iview_seq(instructions@).skip(0) =~= iview_seq(instructions@));
    }
    let mut i: usize = 0;
    while i < instructions.len()
        invariant
            m.wf(),
            i <= instructions@.len(),
            block_free_seq(iview_seq(instructions@)),
            iview_seq(instructions@).len() == instructions@.len(),
            run_seq(iview_seq(instructions@), old(m)@, fuel as nat) == run_seq(
                iview_seq(instructions@).skip(i as int),
                m@,
                fuel as nat,
            ),
        decreases instructions@.len() - i,
    {
        let ghost views = iview_seq(instructions@);
        proof {
            lemma_iview_seq_index(instructions@);
            lemma_height_member(views, i as int);
            assert(block_free_instr(views[i as int]));
        }
        let st = run_one(&instructions[i], m, fuel);
        proof {
            assert(views.skip(i as int)[0] == views[i as int]);
            assert(views.skip(i as int).drop_first() =~= views.skip(i + 1));
        }
        match st {
            Status::Ran => {},
            Status::Failed(e) => {
                return Status::Failed(e);
            },
            Status::OutOfFuel => {
                return Status::OutOfFuel;
            },
        }
        i = i + 1;
    }
    proof {
        assert(iview_seq(instructions@).skip(instructions@.len() as int) =~= Seq::<
            InstrView,
        >::empty());
    }
    Status::Ran
}

/// Run a compiled program.
///
/// The program must be free of bare bracket symbols: loop lifting has
/// already turned them into `Loop` nodes.  `input` is the whole input
/// stream; a `Read` past its end yields 0.  `memory_size` is the
/// starting tape length.  `fuel` bounds how many loop re-entries may
/// be nested along any path of the run; an exhausted bound is
/// reported, never silently truncated work.
pub fn interpret(instructions: &[Instruction], input: Vec<u8>, memory_size: usize, fuel: u64) -> (r:
    RunOutcome)
    requires
        block_free_seq(iview_seq(instructions@)),
    ensures
        match r {
            RunOutcome::Done(m) => m.wf() && run_seq(
                iview_seq(instructions@),
                init_state(memory_size as int, input@),
                fuel as nat,
            ) == RunResult::Done(m@),
            RunOutcome::Failed(RuntimeError::TapeUnderflow) => run_seq(
                iview_seq(instructions@),
                init_state(memory_size as int, input@),
                fuel as nat,
            ) == RunResult::Underflow,
            RunOutcome::Failed(RuntimeError::TapeOverflow) => run_seq(
                iview_seq(instructions@),
                init_state(memory_size as int, input@),
                fuel as nat,
            ) == RunResult::Overflow,
            RunOutcome::OutOfFuel => run_seq(
                iview_seq(instructions@),
                init_state(memory_size as int, input@),
                fuel as nat,
            ) == RunResult::OutOfFuel,
        },
{
    let ghost input0 = input@;
    let mut m = Machine { memory: Memory::new(memory_size), input, input_pos: 0, output: Vec::new() };
    proof {
        assert(m@.input =~= input0);
        assert(m@ == init_state(memory_size as int, input0));
    }
    let st = _interpret(instructions, &mut m, fuel);
    match st {
        Status::Ran => RunOutcome::Done(m),
        Status::Failed(e) => RunOutcome::Failed(e),
        Status::OutOfFuel => RunOutcome::OutOfFuel,
    }
}


/// Whether loop lifting has consumed every bracket symbol: only such
/// a program can be run.
pub fn is_block_free(instructions: &[Instruction]) -> (r: bool)
    ensures
        r == block_free_seq(iview_seq(instructions@)),
    decreases height_seq(iview_seq(instructions@)),
{
    let ghost v = iview_seq(instructions@);
    proof {
        lemma_iview_seq_index(instructions@);
    }
    let mut i: usize = 0;
    while i < instructions.len()
        invariant
            v == iview_seq(instructions@),
            v.len() == instructions@.len(),
            forall|k: int| 0 <= k < instructions@.len() ==> v[k] == iview(#[trigger] instructions@[k]),
            i <= instructions@.len(),
            forall|k: int| 0 <= k < i ==> block_free_instr(#[trigger] v[k]),
        decreases instructions@.len() - i,
    {
        match &instructions[i] {
            Instruction::BlockStart => {
                return false;
            },
            Instruction::BlockEnd => {
                return false;
            },
            Instruction::Loop(body) => {
                proof {
                    lemma_height_member(v, i as int);
                }
                if !is_block_free(body.as_slice()) {
                    return false;
                }
            },
            _ => {},
        }
        i = i + 1;
    }
    true
}

} // verus!

