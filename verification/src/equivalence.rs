//! Semantic preservation of the optimizer's passes.
//!
//! Each lemma here says that when a program fragment runs to its end,
//! the fragment a pass turns it into runs to the same end.  The
//! direction matters: an optimization may finish where the original
//! spun forever — an empty loop is dropped, a clear loop runs in one
//! step — so equivalence is claimed for terminating runs.

use vstd::prelude::*;

use crate::instructions::InstrView;
use crate::instructions::height;
use crate::instructions::height_seq;
use crate::semantics::RunResult;
use crate::semantics::RunState;
use crate::semantics::cell_at;
use crate::semantics::grow;
use crate::semantics::move_ptr;
use crate::semantics::run_instr;
use crate::semantics::run_linear;
use crate::semantics::run_search;
use crate::semantics::run_seq;
use crate::semantics::run_simple;
use crate::semantics::step_flat;
use crate::semantics::step_modify_run;
use crate::semantics::step_write_at;
use crate::semantics::tape_limit;
use crate::semantics::equiv;
use crate::semantics::result_equiv;
use crate::semantics::wadd;
use crate::semantics::write_cell;

verus! {

/// A pointer move leaves a well-formed state.
proof fn lemma_move_ptr_wf(st: RunState, d: int)
    requires
        st.wf(),
    ensures
        move_ptr(st, d) matches RunResult::Done(st1) ==> st1.wf(),
{
}

/// A write at a displacement leaves a well-formed state.
proof fn lemma_step_write_at_wf(st: RunState, o: int, v: u8)
    requires
        st.wf(),
    ensures
        step_write_at(st, o, v) matches RunResult::Done(st1) ==> st1.wf(),
{
}

/// Applying a run never changes the tape's length.
proof fn lemma_apply_run_len(t: Seq<u8>, b: int, d: Seq<u8>, n: int)
    requires
        0 <= b,
        b + n <= t.len(),
    ensures
        crate::semantics::apply_run(t, b, d, n).len() == t.len(),
    decreases n,
{
    if n > 0 {
        lemma_apply_run_len(t, b, d, n - 1);
    }
}

/// Applying a scaled run never changes the tape's length.
proof fn lemma_apply_run_scaled_len(t: Seq<u8>, b: int, d: Seq<u8>, n: int, q: u8)
    requires
        0 <= b,
        b + n <= t.len(),
    ensures
        crate::semantics::apply_run_scaled(t, b, d, n, q).len() == t.len(),
    decreases n,
{
    if n > 0 {
        lemma_apply_run_scaled_len(t, b, d, n - 1, q);
    }
}

/// One run application leaves a well-formed state.
proof fn lemma_step_modify_run_wf(st: RunState, shift: int, offset: int, data: Seq<u8>)
    requires
        st.wf(),
    ensures
        step_modify_run(st, shift, offset, data) matches RunResult::Done(st1) ==> st1.wf(),
{
    if data.len() == 0 {
        lemma_move_ptr_wf(st, shift);
    } else {
        let base = st.ptr + offset;
        if base >= 0 && base + data.len() <= tape_limit() {
            let grown = grow(st.tape, base + data.len());
            lemma_apply_run_len(grown, base, data, data.len() as int);
            let mid = RunState {
                tape: crate::semantics::apply_run(grown, base, data, data.len() as int),
                ..st
            };
            lemma_move_ptr_wf(mid, shift);
        }
    }
}

/// One non-looping instruction leaves a well-formed state.
proof fn lemma_step_flat_wf(i: InstrView, st: RunState)
    requires
        st.wf(),
    ensures
        step_flat(i, st) matches RunResult::Done(st1) ==> st1.wf(),
{
    match i {
        InstrView::Right => lemma_move_ptr_wf(st, 1),
        InstrView::Left => lemma_move_ptr_wf(st, -1),
        InstrView::Shift(d) => lemma_move_ptr_wf(st, d),
        InstrView::SetOffset(v, o) => lemma_step_write_at_wf(st, o, v),
        InstrView::ModifyOffset(v, o) => lemma_step_write_at_wf(
            st,
            o,
            wadd(cell_at(st.tape, st.ptr + o), v),
        ),
        InstrView::ModifyRun { shift, offset, data } => lemma_step_modify_run_wf(
            st,
            shift,
            offset,
            data,
        ),
        _ => {
            assert(write_cell(st.tape, st.ptr, 0).len() == st.tape.len());
        },
    }
}

/// An iterated run leaves a well-formed state.
proof fn lemma_run_simple_wf(st: RunState, shift: int, offset: int, data: Seq<u8>, fuel: nat)
    requires
        st.wf(),
    ensures
        run_simple(st, shift, offset, data, fuel) matches RunResult::Done(st1) ==> st1.wf(),
    decreases fuel,
{
    if st.cell() != 0 && fuel > 0 {
        lemma_step_modify_run_wf(st, shift, offset, data);
        match step_modify_run(st, shift, offset, data) {
            RunResult::Done(st1) => {
                lemma_run_simple_wf(st1, shift, offset, data, (fuel - 1) as nat);
            },
            _ => {},
        }
    }
}

/// A pointer scan leaves a well-formed state.
proof fn lemma_run_search_wf(st: RunState, step: int, fuel: nat)
    requires
        st.wf(),
    ensures
        run_search(st, step, fuel) matches RunResult::Done(st1) ==> st1.wf(),
    decreases fuel,
{
    if st.cell() != 0 && fuel > 0 {
        lemma_move_ptr_wf(st, step);
        match move_ptr(st, step) {
            RunResult::Done(st1) => {
                lemma_run_search_wf(st1, step, (fuel - 1) as nat);
            },
            _ => {},
        }
    }
}

/// A linear loop leaves a well-formed state.
proof fn lemma_run_linear_wf(st: RunState, offset: int, factor: u8, data: Seq<u8>, fuel: nat)
    requires
        st.wf(),
    ensures
        run_linear(st, offset, factor, data, fuel) matches RunResult::Done(st1) ==> st1.wf(),
{
    lemma_run_simple_wf(st, 0, offset, data, fuel);
    let c = st.cell();
    if c != 0 && factor != 0 && c % factor == 0 && data.len() > 0 {
        let base = st.ptr + offset;
        if base >= 0 && base + data.len() <= tape_limit() {
            lemma_apply_run_scaled_len(
                grow(st.tape, base + data.len()),
                base,
                data,
                data.len() as int,
                c / factor,
            );
        }
    }
}

/// Every instruction leaves a well-formed state.
pub proof fn lemma_run_instr_wf(i: InstrView, st: RunState, fuel: nat)
    requires
        st.wf(),
    ensures
        run_instr(i, st, fuel) matches RunResult::Done(st1) ==> st1.wf(),
    decreases fuel, height(i), 0int,
{
    match i {
        InstrView::Loop(body) => {
            if st.cell() != 0 && fuel > 0 {
                lemma_run_seq_wf(body, st, (fuel - 1) as nat);
                match run_seq(body, st, (fuel - 1) as nat) {
                    RunResult::Done(st1) => {
                        lemma_run_instr_wf(i, st1, (fuel - 1) as nat);
                    },
                    _ => {},
                }
            }
        },
        InstrView::SimpleLoop { shift, offset, data } => {
            lemma_run_simple_wf(st, shift, offset, data, fuel);
        },
        InstrView::SearchLoop { step } => {
            lemma_run_search_wf(st, step, fuel);
        },
        InstrView::LinearLoop { offset, linearity_factor, data } => {
            lemma_run_linear_wf(st, offset, linearity_factor, data, fuel);
        },
        _ => {
            lemma_step_flat_wf(i, st);
        },
    }
}

/// Every fragment leaves a well-formed state.
pub proof fn lemma_run_seq_wf(s: Seq<InstrView>, st: RunState, fuel: nat)
    requires
        st.wf(),
    ensures
        run_seq(s, st, fuel) matches RunResult::Done(st1) ==> st1.wf(),
    decreases fuel, height_seq(s), s.len() + 1,
{
    if s.len() > 0 {
        lemma_run_instr_wf(s[0], st, fuel);
        match run_instr(s[0], st, fuel) {
            RunResult::Done(st1) => {
                lemma_run_seq_wf(s.drop_first(), st1, fuel);
            },
            _ => {},
        }
    }
}


/// A loop with an empty body can finish only without entering: its
/// guard cell was zero and the state is untouched.
proof fn lemma_loop_empty(st: RunState, fuel: nat)
    ensures
        run_instr(InstrView::Loop(Seq::empty()), st, fuel) matches RunResult::Done(st1) ==> st1
            == st,
    decreases fuel,
{
    if st.cell() != 0 && fuel > 0 {
        assert(run_seq(Seq::empty(), st, (fuel - 1) as nat) == RunResult::Done(st));
        lemma_loop_empty(st, (fuel - 1) as nat);
    }
}

/// The two one-instruction bodies that add a constant to the guard
/// cell and touch nothing else.
spec fn body_is_add(b: Seq<InstrView>, v: u8) -> bool {
    b == seq![InstrView::Modify(v)] || b == seq![
        InstrView::ModifyRun { shift: 0, offset: 0, data: seq![v] },
    ]
}

/// One pass of an adding body from a well-formed state.
proof fn lemma_add_body_step(b: Seq<InstrView>, v: u8, st: RunState, fuel: nat)
    requires
        st.wf(),
        body_is_add(b, v),
    ensures
        run_seq(b, st, fuel) == RunResult::Done(
            RunState { tape: st.tape.update(st.ptr, wadd(st.cell(), v)), ..st },
        ),
{
    let target = RunState { tape: st.tape.update(st.ptr, wadd(st.cell(), v)), ..st };
    assert(b.drop_first() =~= Seq::<InstrView>::empty());
    if b == seq![InstrView::Modify(v)] {
        assert(write_cell(st.tape, st.ptr, wadd(st.cell(), v)) == st.tape.update(
            st.ptr,
            wadd(st.cell(), v),
        )) by {
            assert(grow(st.tape, st.ptr + 1) == st.tape);
        }
        assert(run_instr(b[0], st, fuel) == RunResult::Done(target));
        assert(b.drop_first().len() == 0);
        assert(run_seq(b.drop_first(), target, fuel) == RunResult::Done(target));
        assert(run_seq(b, st, fuel) == RunResult::Done(target));
    } else {
        let d = seq![v];
        assert(b[0] == (InstrView::ModifyRun { shift: 0, offset: 0, data: d }));
        let grown = grow(st.tape, st.ptr + 1);
        assert(grown == st.tape);
        assert(crate::semantics::apply_run(grown, st.ptr, d, 1) == st.tape.update(
            st.ptr,
            wadd(st.cell(), v),
        )) by {
            assert(crate::semantics::apply_run(grown, st.ptr, d, 0) == grown);
        }
        assert(step_modify_run(st, 0, 0, d) == move_ptr(target, 0));
        assert(grow(target.tape, st.ptr + 1) == target.tape);
        assert(move_ptr(target, 0) == RunResult::Done(target));
        assert(run_instr(b[0], st, fuel) == RunResult::Done(target));
        assert(b.drop_first().len() == 0);
        assert(run_seq(b.drop_first(), target, fuel) == RunResult::Done(target));
        assert(run_seq(b, st, fuel) == RunResult::Done(target));
    }
}

/// A clear loop finishes only with its guard cell zeroed and nothing
/// else touched: exactly what `Clear` does in one step.
proof fn lemma_clear_loop(b: Seq<InstrView>, v: u8, st: RunState, fuel: nat)
    requires
        st.wf(),
        body_is_add(b, v),
    ensures
        run_instr(InstrView::Loop(b), st, fuel) matches RunResult::Done(st1) ==> run_instr(
            InstrView::Clear,
            st,
            fuel,
        ) == RunResult::Done(st1),
    decreases fuel,
{
    let cleared = RunState { tape: st.tape.update(st.ptr, 0), ..st };
    assert(write_cell(st.tape, st.ptr, 0) == st.tape.update(st.ptr, 0)) by {
        assert(grow(st.tape, st.ptr + 1) == st.tape);
    }
    if st.cell() == 0 {
        assert(st.tape.update(st.ptr, 0) =~= st.tape);
        assert(run_instr(InstrView::Loop(b), st, fuel) == RunResult::Done(st));
        assert(run_instr(InstrView::Clear, st, fuel) == RunResult::Done(cleared));
        assert(cleared == st);
    } else if fuel > 0 {
        lemma_add_body_step(b, v, st, (fuel - 1) as nat);
        let stm = RunState { tape: st.tape.update(st.ptr, wadd(st.cell(), v)), ..st };
        assert(stm.wf());
        lemma_clear_loop(b, v, stm, (fuel - 1) as nat);
        match run_instr(InstrView::Loop(b), st, fuel) {
            RunResult::Done(st1) => {
                assert(run_instr(InstrView::Clear, stm, (fuel - 1) as nat) == RunResult::Done(
                    st1,
                ));
                assert(st1 == RunState { tape: stm.tape.update(stm.ptr, 0), ..stm });
                assert(stm.tape.update(stm.ptr, 0) =~= st.tape.update(st.ptr, 0));
                assert(run_instr(InstrView::Clear, st, fuel) == RunResult::Done(st1));
            },
            _ => {},
        }
    }
}

/// A loop whose body is one `Shift` is, step for step, the pointer
/// scan.
proof fn lemma_search_equiv(d: int, st: RunState, fuel: nat)
    ensures
        run_instr(InstrView::Loop(seq![InstrView::Shift(d)]), st, fuel) == run_search(
            st,
            d,
            fuel,
        ),
    decreases fuel,
{
    let b = seq![InstrView::Shift(d)];
    assert(b.drop_first() =~= Seq::<InstrView>::empty());
    if st.cell() != 0 && fuel > 0 {
        assert(run_instr(b[0], st, (fuel - 1) as nat) == move_ptr(st, d));
        match move_ptr(st, d) {
            RunResult::Done(st1) => {
                assert(b.drop_first().len() == 0);
                assert(run_seq(b.drop_first(), st1, (fuel - 1) as nat) == RunResult::Done(st1));
                assert(run_seq(b, st, (fuel - 1) as nat) == RunResult::Done(st1));
                lemma_search_equiv(d, st1, (fuel - 1) as nat);
            },
            _ => {},
        }
    }
}

/// A loop whose body is one `ModifyRun` is, step for step, the
/// iterated run.
proof fn lemma_simple_equiv(sh: int, off: int, data: Seq<u8>, st: RunState, fuel: nat)
    ensures
        run_instr(
            InstrView::Loop(seq![InstrView::ModifyRun { shift: sh, offset: off, data: data }]),
            st,
            fuel,
        ) == run_simple(st, sh, off, data, fuel),
    decreases fuel,
{
    let b = seq![InstrView::ModifyRun { shift: sh, offset: off, data: data }];
    assert(b.drop_first() =~= Seq::<InstrView>::empty());
    if st.cell() != 0 && fuel > 0 {
        assert(run_instr(b[0], st, (fuel - 1) as nat) == step_modify_run(st, sh, off, data));
        match step_modify_run(st, sh, off, data) {
            RunResult::Done(st1) => {
                assert(b.drop_first().len() == 0);
                assert(run_seq(b.drop_first(), st1, (fuel - 1) as nat) == RunResult::Done(st1));
                assert(run_seq(b, st, (fuel - 1) as nat) == RunResult::Done(st1));
                lemma_simple_equiv(sh, off, data, st1, (fuel - 1) as nat);
            },
            _ => {},
        }
    }
}

/// A recognized linear loop finishes exactly as the loop it replaced
/// did.
proof fn lemma_linear_equiv(off: int, data: Seq<u8>, st: RunState, fuel: nat)
    requires
        st.wf(),
        off <= 0,
        -off < data.len(),
        data[-off] != 0,
    ensures
        run_instr(
            InstrView::Loop(seq![InstrView::ModifyRun { shift: 0, offset: off, data: data }]),
            st,
            fuel,
        ) matches RunResult::Done(st1) ==> run_linear(
            st,
            off,
            crate::semantics::wneg(data[-off]),
            data,
            fuel,
        ) == RunResult::Done(st1),
{
    lemma_simple_equiv(0, off, data, st, fuel);
    let factor = crate::semantics::wneg(data[-off]);
    assert(factor != 0 && crate::semantics::wneg(factor) == data[-off]);
    let c = st.cell();
    if run_simple(st, 0, off, data, fuel) is Done {
        if c != 0 && c % factor == 0 {
            crate::laws::lemma_simple_fuel(st, off, factor, data, fuel);
            crate::laws::lemma_linear_loop_sound(st, off, factor, data, fuel);
        }
    }
}

/// Loop-shape recognition preserves every terminating run, state for
/// state: what the program leaves behind, the recognized program
/// leaves behind too.
pub proof fn lemma_small_preserves_seq(s: Seq<InstrView>, st: RunState, fuel: nat)
    requires
        st.wf(),
    ensures
        run_seq(s, st, fuel) matches RunResult::Done(st1) ==> run_seq(
            crate::optimizations::small_loops_spec(s),
            st,
            fuel,
        ) == RunResult::Done(st1),
    decreases fuel, height_seq(s), s.len() + 1,
{
    let small = crate::optimizations::small_loops_spec(s);
    if s.len() == 0 {
    } else {
        match run_seq(s, st, fuel) {
            RunResult::Done(st1) => {
                let stm = match run_instr(s[0], st, fuel) {
                    RunResult::Done(m) => m,
                    _ => st,
                };
                assert(run_instr(s[0], st, fuel) == RunResult::Done(stm));
                lemma_run_instr_wf(s[0], st, fuel);
                lemma_small_preserves_seq(s.drop_first(), stm, fuel);
                let rest = crate::optimizations::small_loops_spec(s.drop_first());
                assert(run_seq(rest, stm, fuel) == RunResult::Done(st1));
                match s[0] {
                    InstrView::Loop(b) => {
                        if b.len() == 0 {
                            assert(b =~= Seq::<InstrView>::empty());
                            lemma_loop_empty(st, fuel);
                            assert(stm == st);
                            assert(small == rest);
                        } else {
                            match crate::optimizations::small_loop_subst(b) {
                                Some(x) => {
                                    lemma_subst_runs(b, x, st, fuel);
                                    assert(run_instr(x, st, fuel) == RunResult::Done(stm));
                                    assert(small == seq![x] + rest);
                                    assert(small[0] == x);
                                    assert(small.drop_first() =~= rest);
                                },
                                None => {
                                    crate::instructions::lemma_height_member(s, 0);
                                    lemma_small_loop_body(b, st, fuel);
                                    let rb = InstrView::Loop(
                                        crate::optimizations::small_loops_spec(b),
                                    );
                                    assert(run_instr(rb, st, fuel) == RunResult::Done(stm));
                                    assert(small == seq![rb] + rest);
                                    assert(small[0] == rb);
                                    assert(small.drop_first() =~= rest);
                                },
                            }
                        }
                    },
                    _ => {
                        assert(small == seq![s[0]] + rest);
                        assert(small[0] == s[0]);
                        assert(small.drop_first() =~= rest);
                    },
                }
            },
            _ => {},
        }
    }
}

/// A recognized one-instruction loop body finishes exactly as the
/// loop it replaced did.
proof fn lemma_subst_runs(b: Seq<InstrView>, x: InstrView, st: RunState, fuel: nat)
    requires
        st.wf(),
        b.len() > 0,
        crate::optimizations::small_loop_subst(b) == Some(x),
    ensures
        run_instr(InstrView::Loop(b), st, fuel) matches RunResult::Done(st1) ==> run_instr(
            x,
            st,
            fuel,
        ) == RunResult::Done(st1),
{
    assert(b.len() == 1);
    assert(b =~= seq![b[0]]);
    match b[0] {
        InstrView::Modify(v) => {
            lemma_clear_loop(b, v, st, fuel);
        },
        InstrView::ModifyRun { shift, offset, data } => {
            if shift == 0 && offset == 0 && data.len() == 1 {
                assert(data =~= seq![data[0]]);
                lemma_clear_loop(b, data[0], st, fuel);
            } else if shift == 0 && offset <= 0 && -offset < data.len() && data[-offset] != 0 {
                lemma_linear_equiv(offset, data, st, fuel);
            } else {
                lemma_simple_equiv(shift, offset, data, st, fuel);
            }
        },
        InstrView::Shift(d) => {
            lemma_search_equiv(d, st, fuel);
        },
        _ => {},
    }
}

/// A loop whose body was recognized recursively finishes exactly as
/// the loop it replaced did.
proof fn lemma_small_loop_body(b: Seq<InstrView>, st: RunState, fuel: nat)
    requires
        st.wf(),
    ensures
        run_instr(InstrView::Loop(b), st, fuel) matches RunResult::Done(st1) ==> run_instr(
            InstrView::Loop(crate::optimizations::small_loops_spec(b)),
            st,
            fuel,
        ) == RunResult::Done(st1),
    decreases fuel, height_seq(b) + 1, 0int,
{
    let sb = crate::optimizations::small_loops_spec(b);
    if st.cell() == 0 {
    } else if fuel > 0 {
        match run_seq(b, st, (fuel - 1) as nat) {
            RunResult::Done(stm) => {
                lemma_small_preserves_seq(b, st, (fuel - 1) as nat);
                lemma_run_seq_wf(b, st, (fuel - 1) as nat);
                lemma_small_loop_body(b, stm, (fuel - 1) as nat);
                assert(run_seq(sb, st, (fuel - 1) as nat) == RunResult::Done(stm));
            },
            _ => {},
        }
    }
}


/// Equivalence of states is reflexive and transitive.
proof fn lemma_equiv_trans(a: RunState, b: RunState, c: RunState)
    requires
        equiv(a, b),
        equiv(b, c),
    ensures
        equiv(a, c),
{
    assert forall|j: int| #![trigger cell_at(a.tape, j), cell_at(c.tape, j)]
        cell_at(a.tape, j) == cell_at(c.tape, j) by {
        assert(cell_at(a.tape, j) == cell_at(b.tape, j));
        assert(cell_at(b.tape, j) == cell_at(c.tape, j));
    }
}

/// Growth changes no cell's reading.
proof fn lemma_grow_cells(t: Seq<u8>, m: int)
    ensures
        forall|j: int| #![trigger cell_at(grow(t, m), j)] cell_at(grow(t, m), j) == cell_at(t, j),
        grow(t, m).len() >= m,
        grow(t, m).len() >= t.len(),
{
}

/// Moving the pointer respects equivalence.
proof fn lemma_move_ptr_cong(a: RunState, b: RunState, d: int)
    requires
        equiv(a, b),
    ensures
        result_equiv(move_ptr(a, d), move_ptr(b, d)),
{
    lemma_grow_cells(a.tape, a.ptr + d + 1);
    lemma_grow_cells(b.tape, b.ptr + d + 1);
}

/// Writing a cell respects equivalence.
proof fn lemma_write_cell_cong(ta: Seq<u8>, tb: Seq<u8>, i: int, v: u8)
    requires
        i >= 0,
        forall|j: int| #![trigger cell_at(ta, j), cell_at(tb, j)] cell_at(ta, j) == cell_at(tb, j),
    ensures
        forall|j: int|
            #![trigger cell_at(write_cell(ta, i, v), j), cell_at(write_cell(tb, i, v), j)]
            cell_at(write_cell(ta, i, v), j) == cell_at(write_cell(tb, i, v), j),
{
    lemma_grow_cells(ta, i + 1);
    lemma_grow_cells(tb, i + 1);
    assert forall|j: int|
        cell_at(write_cell(ta, i, v), j) == cell_at(write_cell(tb, i, v), j) by {
        if j == i {
            assert(cell_at(write_cell(ta, i, v), j) == v);
            assert(cell_at(write_cell(tb, i, v), j) == v);
        } else {
            assert(cell_at(write_cell(ta, i, v), j) == cell_at(grow(ta, i + 1), j));
            assert(cell_at(write_cell(tb, i, v), j) == cell_at(grow(tb, i + 1), j));
        }
    }
}

/// Applying a run respects equivalence.
proof fn lemma_apply_run_cong(ta: Seq<u8>, tb: Seq<u8>, base: int, d: Seq<u8>, n: int)
    requires
        0 <= base,
        0 <= n <= d.len(),
        base + n <= ta.len(),
        base + n <= tb.len(),
        forall|j: int| #![trigger cell_at(ta, j), cell_at(tb, j)] cell_at(ta, j) == cell_at(tb, j),
    ensures
        forall|j: int|
            #![trigger cell_at(crate::semantics::apply_run(ta, base, d, n), j), cell_at(crate::semantics::apply_run(tb, base, d, n), j)]
            cell_at(crate::semantics::apply_run(ta, base, d, n), j) == cell_at(
                crate::semantics::apply_run(tb, base, d, n),
                j,
            ),
{
    crate::laws::lemma_apply_run_char(ta, base, d, n);
    crate::laws::lemma_apply_run_char(tb, base, d, n);
}

/// One run application respects equivalence.
proof fn lemma_step_modify_run_cong(a: RunState, b: RunState, sh: int, off: int, d: Seq<u8>)
    requires
        equiv(a, b),
    ensures
        result_equiv(step_modify_run(a, sh, off, d), step_modify_run(b, sh, off, d)),
{
    if d.len() == 0 {
        lemma_move_ptr_cong(a, b, sh);
    } else {
        let base = a.ptr + off;
        if base >= 0 && base + d.len() <= tape_limit() {
            let ga = grow(a.tape, base + d.len());
            let gb = grow(b.tape, base + d.len());
            lemma_grow_cells(a.tape, base + d.len());
            lemma_grow_cells(b.tape, base + d.len());
            lemma_apply_run_cong(ga, gb, base, d, d.len() as int);
            lemma_apply_run_len(ga, base, d, d.len() as int);
            lemma_apply_run_len(gb, base, d, d.len() as int);
            let ma = RunState {
                tape: crate::semantics::apply_run(ga, base, d, d.len() as int),
                ..a
            };
            let mb = RunState {
                tape: crate::semantics::apply_run(gb, base, d, d.len() as int),
                ..b
            };
            assert(equiv(ma, mb));
            lemma_move_ptr_cong(ma, mb, sh);
        }
    }
}

/// Writing at a displacement respects equivalence.
proof fn lemma_step_write_at_cong(a: RunState, b: RunState, o: int, v: u8)
    requires
        equiv(a, b),
    ensures
        result_equiv(step_write_at(a, o, v), step_write_at(b, o, v)),
{
    if a.ptr + o >= 0 && a.ptr + o + 1 <= tape_limit() {
        lemma_write_cell_cong(a.tape, b.tape, a.ptr + o, v);
    }
}

/// Every non-looping instruction respects equivalence.
proof fn lemma_step_flat_cong(i: InstrView, a: RunState, b: RunState)
    requires
        0 <= a.ptr,
        equiv(a, b),
    ensures
        result_equiv(step_flat(i, a), step_flat(i, b)),
{
    match i {
        InstrView::Increment => lemma_write_cell_cong(a.tape, b.tape, a.ptr, wadd(a.cell(), 1)),
        InstrView::Decrement => lemma_write_cell_cong(
            a.tape,
            b.tape,
            a.ptr,
            wadd(a.cell(), 255),
        ),
        InstrView::Right => lemma_move_ptr_cong(a, b, 1),
        InstrView::Left => lemma_move_ptr_cong(a, b, -1),
        InstrView::Read => {
            let v = if a.input.len() == 0 {
                0
            } else {
                a.input[0]
            };
            lemma_write_cell_cong(a.tape, b.tape, a.ptr, v);
        },
        InstrView::Clear => lemma_write_cell_cong(a.tape, b.tape, a.ptr, 0),
        InstrView::Shift(d) => lemma_move_ptr_cong(a, b, d),
        InstrView::SetCell(v) => lemma_write_cell_cong(a.tape, b.tape, a.ptr, v),
        InstrView::Modify(v) => lemma_write_cell_cong(a.tape, b.tape, a.ptr, wadd(a.cell(), v)),
        InstrView::SetOffset(v, o) => lemma_step_write_at_cong(a, b, o, v),
        InstrView::ModifyOffset(v, o) => {
            assert(cell_at(a.tape, a.ptr + o) == cell_at(b.tape, b.ptr + o));
            lemma_step_write_at_cong(a, b, o, wadd(cell_at(a.tape, a.ptr + o), v));
        },
        InstrView::ModifyRun { shift, offset, data } => lemma_step_modify_run_cong(
            a,
            b,
            shift,
            offset,
            data,
        ),
        _ => {},
    }
}

/// The iterated run respects equivalence.
proof fn lemma_run_simple_cong(a: RunState, b: RunState, sh: int, off: int, d: Seq<u8>, fuel: nat)
    requires
        0 <= a.ptr,
        equiv(a, b),
    ensures
        result_equiv(
            run_simple(a, sh, off, d, fuel),
            run_simple(b, sh, off, d, fuel),
        ),
    decreases fuel,
{
    if a.cell() != 0 && fuel > 0 {
        lemma_step_modify_run_cong(a, b, sh, off, d);
        match (step_modify_run(a, sh, off, d), step_modify_run(b, sh, off, d)) {
            (RunResult::Done(a1), RunResult::Done(b1)) => {
                lemma_run_simple_cong(a1, b1, sh, off, d, (fuel - 1) as nat);
            },
            _ => {},
        }
    }
}

/// The pointer scan respects equivalence.
proof fn lemma_run_search_cong(a: RunState, b: RunState, d: int, fuel: nat)
    requires
        0 <= a.ptr,
        equiv(a, b),
    ensures
        result_equiv(run_search(a, d, fuel), run_search(b, d, fuel)),
    decreases fuel,
{
    if a.cell() != 0 && fuel > 0 {
        lemma_move_ptr_cong(a, b, d);
        match (move_ptr(a, d), move_ptr(b, d)) {
            (RunResult::Done(a1), RunResult::Done(b1)) => {
                lemma_run_search_cong(a1, b1, d, (fuel - 1) as nat);
            },
            _ => {},
        }
    }
}

/// The linear loop respects equivalence.
proof fn lemma_run_linear_cong(
    a: RunState,
    b: RunState,
    off: int,
    f: u8,
    d: Seq<u8>,
    fuel: nat,
)
    requires
        0 <= a.ptr,
        equiv(a, b),
    ensures
        result_equiv(run_linear(a, off, f, d, fuel), run_linear(b, off, f, d, fuel)),
{
    lemma_run_simple_cong(a, b, 0, off, d, fuel);
    let c = a.cell();
    if c != 0 && f != 0 && c % f == 0 && d.len() > 0 {
        let base = a.ptr + off;
        if base >= 0 && base + d.len() <= tape_limit() {
            let ga = grow(a.tape, base + d.len());
            let gb = grow(b.tape, base + d.len());
            lemma_grow_cells(a.tape, base + d.len());
            lemma_grow_cells(b.tape, base + d.len());
            crate::laws::lemma_apply_run_scaled_char(ga, base, d, d.len() as int, c / f);
            crate::laws::lemma_apply_run_scaled_char(gb, base, d, d.len() as int, c / f);
        }
    }
}

/// Every instruction respects equivalence.
pub proof fn lemma_run_instr_cong(i: InstrView, a: RunState, b: RunState, fuel: nat)
    requires
        0 <= a.ptr,
        equiv(a, b),
    ensures
        result_equiv(run_instr(i, a, fuel), run_instr(i, b, fuel)),
    decreases fuel, height(i), 0int,
{
    match i {
        InstrView::Loop(body) => {
            if a.cell() != 0 && fuel > 0 {
                lemma_run_seq_cong(body, a, b, (fuel - 1) as nat);
                lemma_run_seq_ptr(body, a, (fuel - 1) as nat);
                match (run_seq(body, a, (fuel - 1) as nat), run_seq(body, b, (fuel - 1) as nat)) {
                    (RunResult::Done(a1), RunResult::Done(b1)) => {
                        lemma_run_instr_cong(i, a1, b1, (fuel - 1) as nat);
                    },
                    _ => {},
                }
            }
        },
        InstrView::SimpleLoop { shift, offset, data } => {
            lemma_run_simple_cong(a, b, shift, offset, data, fuel);
        },
        InstrView::SearchLoop { step } => {
            lemma_run_search_cong(a, b, step, fuel);
        },
        InstrView::LinearLoop { offset, linearity_factor, data } => {
            lemma_run_linear_cong(a, b, offset, linearity_factor, data, fuel);
        },
        _ => {
            lemma_step_flat_cong(i, a, b);
        },
    }
}

/// Every fragment respects equivalence: runs from states that differ
/// only in trailing zero cells end in states that differ only so.
pub proof fn lemma_run_seq_cong(s: Seq<InstrView>, a: RunState, b: RunState, fuel: nat)
    requires
        0 <= a.ptr,
        equiv(a, b),
    ensures
        result_equiv(run_seq(s, a, fuel), run_seq(s, b, fuel)),
    decreases fuel, height_seq(s), s.len() + 1,
{
    if s.len() > 0 {
        lemma_run_instr_cong(s[0], a, b, fuel);
        lemma_run_instr_ptr(s[0], a, fuel);
        match (run_instr(s[0], a, fuel), run_instr(s[0], b, fuel)) {
            (RunResult::Done(a1), RunResult::Done(b1)) => {
                lemma_run_seq_cong(s.drop_first(), a1, b1, fuel);
            },
            _ => {},
        }
    }
}


/// Every finished instruction leaves the pointer at or right of cell
/// zero.
proof fn lemma_run_instr_ptr(i: InstrView, st: RunState, fuel: nat)
    requires
        0 <= st.ptr,
    ensures
        run_instr(i, st, fuel) matches RunResult::Done(st1) ==> 0 <= st1.ptr,
    decreases fuel, height(i), 0int,
{
    match i {
        InstrView::Loop(body) => {
            if st.cell() != 0 && fuel > 0 {
                lemma_run_seq_ptr(body, st, (fuel - 1) as nat);
                match run_seq(body, st, (fuel - 1) as nat) {
                    RunResult::Done(st1) => {
                        lemma_run_instr_ptr(i, st1, (fuel - 1) as nat);
                    },
                    _ => {},
                }
            }
        },
        InstrView::SimpleLoop { shift, offset, data } => {
            lemma_run_simple_ptr(st, shift, offset, data, fuel);
        },
        InstrView::SearchLoop { step } => {
            lemma_run_search_ptr(st, step, fuel);
        },
        InstrView::LinearLoop { offset, linearity_factor, data } => {
            lemma_run_simple_ptr(st, 0, offset, data, fuel);
        },
        _ => {},
    }
}

/// As `lemma_run_instr_ptr`, for the iterated run.
proof fn lemma_run_simple_ptr(st: RunState, sh: int, off: int, d: Seq<u8>, fuel: nat)
    requires
        0 <= st.ptr,
    ensures
        run_simple(st, sh, off, d, fuel) matches RunResult::Done(st1) ==> 0 <= st1.ptr,
    decreases fuel,
{
    if st.cell() != 0 && fuel > 0 {
        match step_modify_run(st, sh, off, d) {
            RunResult::Done(st1) => {
                lemma_run_simple_ptr(st1, sh, off, d, (fuel - 1) as nat);
            },
            _ => {},
        }
    }
}

/// As `lemma_run_instr_ptr`, for the pointer scan.
proof fn lemma_run_search_ptr(st: RunState, d: int, fuel: nat)
    requires
        0 <= st.ptr,
    ensures
        run_search(st, d, fuel) matches RunResult::Done(st1) ==> 0 <= st1.ptr,
    decreases fuel,
{
    if st.cell() != 0 && fuel > 0 {
        match move_ptr(st, d) {
            RunResult::Done(st1) => {
                lemma_run_search_ptr(st1, d, (fuel - 1) as nat);
            },
            _ => {},
        }
    }
}

/// As `lemma_run_instr_ptr`, for a fragment.
proof fn lemma_run_seq_ptr(s: Seq<InstrView>, st: RunState, fuel: nat)
    requires
        0 <= st.ptr,
    ensures
        run_seq(s, st, fuel) matches RunResult::Done(st1) ==> 0 <= st1.ptr,
    decreases fuel, height_seq(s), s.len() + 1,
{
    if s.len() > 0 {
        lemma_run_instr_ptr(s[0], st, fuel);
        match run_instr(s[0], st, fuel) {
            RunResult::Done(st1) => {
                lemma_run_seq_ptr(s.drop_first(), st1, fuel);
            },
            _ => {},
        }
    }
}


/// Running a concatenation is running the parts in order.
proof fn lemma_run_seq_concat(a: Seq<InstrView>, b: Seq<InstrView>, st: RunState, fuel: nat)
    ensures
        run_seq(a + b, st, fuel) == (match run_seq(a, st, fuel) {
            RunResult::Done(m) => run_seq(b, m, fuel),
            e => e,
        }),
    decreases a.len(),
{
    if a.len() == 0 {
        assert(a + b =~= b);
    } else {
        assert((a + b)[0] == a[0]);
        assert((a + b).drop_first() =~= a.drop_first() + b);
        match run_instr(a[0], st, fuel) {
            RunResult::Done(m) => {
                lemma_run_seq_concat(a.drop_first(), b, m, fuel);
            },
            _ => {},
        }
    }
}

/// A dropped or normalized instruction finishes as its replacement
/// does.
proof fn lemma_single_rule_sem(x: InstrView, st: RunState, fuel: nat)
    requires
        st.wf(),
        crate::folder::single_rule(x) is Some,
    ensures
        run_instr(x, st, fuel) matches RunResult::Done(st1) ==> match run_seq(
            crate::folder::single_rule(x)->0,
            st,
            fuel,
        ) {
            RunResult::Done(st2) => equiv(st1, st2),
            _ => false,
        },
{
    let rep = crate::folder::single_rule(x)->0;
    lemma_grow_cells(st.tape, st.ptr + 1);
    assert(grow(st.tape, st.ptr + 1) == st.tape);
    if rep.len() == 0 {
        assert(run_seq(rep, st, fuel) == RunResult::Done(st));
        match x {
            InstrView::Modify(v) => {
                assert(v == 0);
                assert(wadd(st.cell(), 0) == st.cell());
                assert(write_cell(st.tape, st.ptr, st.cell()) =~= st.tape);
            },
            InstrView::ModifyOffset(v, o) => {
                assert(v == 0);
                match step_write_at(st, o, wadd(cell_at(st.tape, st.ptr + o), 0)) {
                    RunResult::Done(st1) => {
                        lemma_grow_cells(st.tape, st.ptr + o + 1);
                        assert(wadd(cell_at(st.tape, st.ptr + o), 0) == cell_at(
                            st.tape,
                            st.ptr + o,
                        ));
                        assert forall|j: int|
                            #![trigger cell_at(st1.tape, j), cell_at(st.tape, j)]
                            cell_at(st1.tape, j) == cell_at(st.tape, j) by {
                            if j != st.ptr + o {
                                assert(cell_at(st1.tape, j) == cell_at(
                                    grow(st.tape, st.ptr + o + 1),
                                    j,
                                ));
                            }
                        }
                        assert(equiv(st1, st));
                    },
                    _ => {},
                }
            },
            InstrView::Shift(a) => {
                assert(a == 0);
            },
            _ => {},
        }
    } else {
        assert(rep.drop_first() =~= Seq::<InstrView>::empty());
        match x {
            InstrView::ModifyOffset(v, o) => {
                assert(o == 0);
                assert(rep[0] == InstrView::Modify(v));
                assert(step_write_at(st, 0, wadd(cell_at(st.tape, st.ptr), v)) == RunResult::Done(
                    RunState {
                        tape: write_cell(st.tape, st.ptr, wadd(st.cell(), v)),
                        ..st
                    },
                ));
                match run_instr(x, st, fuel) {
                    RunResult::Done(st1) => {
                        assert(run_instr(rep[0], st, fuel) == RunResult::Done(st1));
                        assert(run_seq(rep.drop_first(), st1, fuel) == RunResult::Done(st1));
                        assert(run_seq(rep, st, fuel) == RunResult::Done(st1));
                        assert(equiv(st1, st1));
                    },
                    _ => {},
                }
            },
            InstrView::SetOffset(v, o) => {
                assert(o == 0);
                assert(rep[0] == InstrView::SetCell(v));
                match run_instr(x, st, fuel) {
                    RunResult::Done(st1) => {
                        assert(run_instr(rep[0], st, fuel) == RunResult::Done(st1));
                        assert(run_seq(rep.drop_first(), st1, fuel) == RunResult::Done(st1));
                        assert(run_seq(rep, st, fuel) == RunResult::Done(st1));
                        assert(equiv(st1, st1));
                    },
                    _ => {},
                }
            },
            _ => {},
        }
    }
}


/// `SetCell` then `Modify` is one `SetCell`.
#[verifier::rlimit(80)]
#[verifier::spinoff_prover]
proof fn lemma_pair_set_modify(a: u8, b: u8, st: RunState, fuel: nat)
    requires
        st.wf(),
    ensures
        ({
            let w = seq![InstrView::SetCell(a), InstrView::Modify(b)];
            let rep = seq![InstrView::SetCell(wadd(a, b))];
            run_seq(w, st, fuel) matches RunResult::Done(st1) ==> match run_seq(rep, st, fuel) {
                RunResult::Done(st2) => equiv(st1, st2),
                _ => false,
            }
        }),
{
    let w = seq![InstrView::SetCell(a), InstrView::Modify(b)];
    let rep = seq![InstrView::SetCell(wadd(a, b))];
    assert(w.drop_first() =~= seq![w[1]]);
    assert(w.drop_first().drop_first() =~= Seq::<InstrView>::empty());
    assert(rep.drop_first() =~= Seq::<InstrView>::empty());
    let p = st.ptr;
    let t = st.tape;
    assert(grow(t, p + 1) == t);
    let st1 = RunState { tape: t.update(p, a), ..st };
    assert(run_instr(w[0], st, fuel) == RunResult::Done(st1));
    assert(st1.cell() == a);
    assert(grow(st1.tape, p + 1) == st1.tape);
    let st2 = RunState { tape: st1.tape.update(p, wadd(a, b)), ..st };
    assert(run_instr(w[1], st1, fuel) == RunResult::Done(st2));
    assert(w.drop_first()[0] == w[1]);
    assert(run_seq(w.drop_first().drop_first(), st2, fuel) == RunResult::Done(st2));
    assert(run_seq(w.drop_first(), st1, fuel) == RunResult::Done(st2));
    assert(run_seq(w, st, fuel) == RunResult::Done(st2));
    let st3 = RunState { tape: t.update(p, wadd(a, b)), ..st };
    assert(run_instr(rep[0], st, fuel) == RunResult::Done(st3));
    assert(run_seq(rep.drop_first(), st3, fuel) == RunResult::Done(st3));
    assert(run_seq(rep, st, fuel) == RunResult::Done(st3));
    assert(st2.tape =~= st3.tape);
    assert(equiv(st2, st3));
}

/// `SetCell` then `SetCell` is the second `SetCell`.
#[verifier::rlimit(80)]
#[verifier::spinoff_prover]
proof fn lemma_pair_set_set(a: u8, b: u8, st: RunState, fuel: nat)
    requires
        st.wf(),
    ensures
        ({
            let w = seq![InstrView::SetCell(a), InstrView::SetCell(b)];
            let rep = seq![InstrView::SetCell(b)];
            run_seq(w, st, fuel) matches RunResult::Done(st1) ==> match run_seq(rep, st, fuel) {
                RunResult::Done(st2) => equiv(st1, st2),
                _ => false,
            }
        }),
{
    let w = seq![InstrView::SetCell(a), InstrView::SetCell(b)];
    let rep = seq![InstrView::SetCell(b)];
    assert(w.drop_first() =~= seq![w[1]]);
    assert(w.drop_first().drop_first() =~= Seq::<InstrView>::empty());
    assert(rep.drop_first() =~= Seq::<InstrView>::empty());
    let p = st.ptr;
    let t = st.tape;
    assert(grow(t, p + 1) == t);
    let st1 = RunState { tape: t.update(p, a), ..st };
    assert(run_instr(w[0], st, fuel) == RunResult::Done(st1));
    assert(grow(st1.tape, p + 1) == st1.tape);
    let st2 = RunState { tape: st1.tape.update(p, b), ..st };
    assert(run_instr(w[1], st1, fuel) == RunResult::Done(st2));
    assert(w.drop_first()[0] == w[1]);
    assert(run_seq(w.drop_first().drop_first(), st2, fuel) == RunResult::Done(st2));
    assert(run_seq(w.drop_first(), st1, fuel) == RunResult::Done(st2));
    assert(run_seq(w, st, fuel) == RunResult::Done(st2));
    let st3 = RunState { tape: t.update(p, b), ..st };
    assert(run_instr(rep[0], st, fuel) == RunResult::Done(st3));
    assert(run_seq(rep.drop_first(), st3, fuel) == RunResult::Done(st3));
    assert(run_seq(rep, st, fuel) == RunResult::Done(st3));
    assert(st2.tape =~= st3.tape);
    assert(equiv(st2, st3));
}

/// Wrapping addition folds sums: adding `a` then `b` is adding their
/// wrapped sum.
proof fn lemma_wadd_assoc(c: u8, a: u8, b: u8)
    ensures
        wadd(wadd(c, a), b) == wadd(c, wadd(a, b)),
{
    vstd::arithmetic::div_mod::lemma_add_mod_noop(c + a, b as int, 256);
    vstd::arithmetic::div_mod::lemma_add_mod_noop_right(c as int, a + b, 256);
    vstd::arithmetic::div_mod::lemma_mod_twice(c + a, 256);
    vstd::arithmetic::div_mod::lemma_mod_twice(a + b, 256);
}

/// `Modify` then `Modify` is one `Modify` of the sum.
#[verifier::rlimit(100)]
#[verifier::spinoff_prover]
proof fn lemma_pair_modify_modify(a: u8, b: u8, st: RunState, fuel: nat)
    requires
        st.wf(),
    ensures
        ({
            let w = seq![InstrView::Modify(a), InstrView::Modify(b)];
            let rep = seq![InstrView::Modify(wadd(a, b))];
            run_seq(w, st, fuel) matches RunResult::Done(st1) ==> match run_seq(rep, st, fuel) {
                RunResult::Done(st2) => equiv(st1, st2),
                _ => false,
            }
        }),
{
    let w = seq![InstrView::Modify(a), InstrView::Modify(b)];
    let rep = seq![InstrView::Modify(wadd(a, b))];
    assert(w.drop_first() =~= seq![w[1]]);
    assert(w.drop_first().drop_first() =~= Seq::<InstrView>::empty());
    assert(rep.drop_first() =~= Seq::<InstrView>::empty());
    let p = st.ptr;
    let t = st.tape;
    let c = st.cell();
    assert(grow(t, p + 1) == t);
    let st1 = RunState { tape: t.update(p, wadd(c, a)), ..st };
    assert(run_instr(w[0], st, fuel) == RunResult::Done(st1));
    assert(st1.cell() == wadd(c, a));
    assert(grow(st1.tape, p + 1) == st1.tape);
    let st2 = RunState { tape: st1.tape.update(p, wadd(wadd(c, a), b)), ..st };
    assert(run_instr(w[1], st1, fuel) == RunResult::Done(st2));
    assert(w.drop_first()[0] == w[1]);
    assert(run_seq(w.drop_first().drop_first(), st2, fuel) == RunResult::Done(st2));
    assert(run_seq(w.drop_first(), st1, fuel) == RunResult::Done(st2));
    assert(run_seq(w, st, fuel) == RunResult::Done(st2));
    lemma_wadd_assoc(c, a, b);
    let st3 = RunState { tape: t.update(p, wadd(c, wadd(a, b))), ..st };
    assert(run_instr(rep[0], st, fuel) == RunResult::Done(st3));
    assert(run_seq(rep.drop_first(), st3, fuel) == RunResult::Done(st3));
    assert(run_seq(rep, st, fuel) == RunResult::Done(st3));
    assert(st2.tape =~= st3.tape);
    assert(equiv(st2, st3));
}

/// Two `Shift`s are one `Shift` of the sum.
#[verifier::rlimit(80)]
#[verifier::spinoff_prover]
proof fn lemma_pair_shift_shift(a: int, b: int, st: RunState, fuel: nat)
    requires
        st.wf(),
        crate::folder::fits(a + b),
    ensures
        ({
            let w = seq![InstrView::Shift(a), InstrView::Shift(b)];
            let rep = seq![InstrView::Shift(a + b)];
            run_seq(w, st, fuel) matches RunResult::Done(st1) ==> match run_seq(rep, st, fuel) {
                RunResult::Done(st2) => equiv(st1, st2),
                _ => false,
            }
        }),
{
    let w = seq![InstrView::Shift(a), InstrView::Shift(b)];
    let rep = seq![InstrView::Shift(a + b)];
    assert(w.drop_first() =~= seq![w[1]]);
    assert(w.drop_first().drop_first() =~= Seq::<InstrView>::empty());
    assert(rep.drop_first() =~= Seq::<InstrView>::empty());
    let p = st.ptr;
    let t = st.tape;
    match run_seq(w, st, fuel) {
        RunResult::Done(st1) => {
            assert(p + a >= 0 && p + a + 1 <= tape_limit());
            let m = RunState { tape: grow(t, p + a + 1), ptr: p + a, ..st };
            assert(run_instr(w[0], st, fuel) == RunResult::Done(m));
            assert(w.drop_first()[0] == w[1]);
            assert(p + a + b >= 0 && p + a + b + 1 <= tape_limit());
            let n1 = RunState { tape: grow(m.tape, p + a + b + 1), ptr: p + a + b, ..st };
            assert(run_instr(w[1], m, fuel) == RunResult::Done(n1));
            assert(run_seq(w.drop_first().drop_first(), n1, fuel) == RunResult::Done(n1));
            assert(run_seq(w.drop_first(), m, fuel) == RunResult::Done(n1));
            assert(run_seq(w, st, fuel) == RunResult::Done(n1));
            assert(st1 == n1);
            let st3 = RunState { tape: grow(t, p + a + b + 1), ptr: p + a + b, ..st };
            assert(run_instr(rep[0], st, fuel) == RunResult::Done(st3));
            assert(run_seq(rep.drop_first(), st3, fuel) == RunResult::Done(st3));
            assert(run_seq(rep, st, fuel) == RunResult::Done(st3));
            lemma_grow_cells(t, p + a + 1);
            lemma_grow_cells(grow(t, p + a + 1), p + a + b + 1);
            lemma_grow_cells(t, p + a + b + 1);
            assert forall|j: int|
                #![trigger cell_at(st1.tape, j), cell_at(st3.tape, j)]
                cell_at(st1.tape, j) == cell_at(st3.tape, j) by {
                assert(cell_at(st1.tape, j) == cell_at(t, j));
                assert(cell_at(st3.tape, j) == cell_at(t, j));
            }
            assert(equiv(st1, st3));
        },
        _ => {},
    }
}

/// A `ModifyOffset` followed by the `Shift` to its cell is the shift
/// first, then a plain `Modify` there.
#[verifier::rlimit(80)]
#[verifier::spinoff_prover]
proof fn lemma_pair_offset_shift(v: u8, a: int, st: RunState, fuel: nat)
    requires
        st.wf(),
    ensures
        ({
            let w = seq![InstrView::ModifyOffset(v, a), InstrView::Shift(a)];
            let rep = seq![InstrView::Shift(a), InstrView::Modify(v)];
            run_seq(w, st, fuel) matches RunResult::Done(st1) ==> match run_seq(rep, st, fuel) {
                RunResult::Done(st2) => equiv(st1, st2),
                _ => false,
            }
        }),
{
    let w = seq![InstrView::ModifyOffset(v, a), InstrView::Shift(a)];
    let rep = seq![InstrView::Shift(a), InstrView::Modify(v)];
    assert(w.drop_first() =~= seq![w[1]]);
    assert(w.drop_first().drop_first() =~= Seq::<InstrView>::empty());
    assert(rep.drop_first() =~= seq![rep[1]]);
    assert(rep.drop_first().drop_first() =~= Seq::<InstrView>::empty());
    let p = st.ptr;
    let t = st.tape;
    match run_seq(w, st, fuel) {
        RunResult::Done(st1) => {
            assert(p + a >= 0 && p + a + 1 <= tape_limit());
            let wv = wadd(cell_at(t, p + a), v);
            let t1 = write_cell(t, p + a, wv);
            let m = RunState { tape: t1, ..st };
            assert(run_instr(w[0], st, fuel) == RunResult::Done(m));
            assert(w.drop_first()[0] == w[1]);
            assert(t1.len() >= p + a + 1);
            assert(grow(t1, p + a + 1) == t1);
            let n1 = RunState { tape: t1, ptr: p + a, ..st };
            assert(run_instr(w[1], m, fuel) == RunResult::Done(n1));
            assert(run_seq(w.drop_first().drop_first(), n1, fuel) == RunResult::Done(n1));
            assert(run_seq(w.drop_first(), m, fuel) == RunResult::Done(n1));
            assert(run_seq(w, st, fuel) == RunResult::Done(n1));
            assert(st1 == n1);
            let tg = grow(t, p + a + 1);
            let m2 = RunState { tape: tg, ptr: p + a, ..st };
            assert(run_instr(rep[0], st, fuel) == RunResult::Done(m2));
            lemma_grow_cells(t, p + a + 1);
            assert(m2.cell() == cell_at(t, p + a));
            assert(grow(tg, p + a + 1) == tg);
            let st3 = RunState { tape: write_cell(tg, p + a, wv), ptr: p + a, ..st };
            assert(run_instr(rep[1], m2, fuel) == RunResult::Done(st3));
            assert(rep.drop_first()[0] == rep[1]);
            assert(run_seq(rep.drop_first().drop_first(), st3, fuel) == RunResult::Done(st3));
            assert(run_seq(rep.drop_first(), m2, fuel) == RunResult::Done(st3));
            assert(run_seq(rep, st, fuel) == RunResult::Done(st3));
            assert(write_cell(tg, p + a, wv) =~= t1);
            assert(equiv(st1, st3));
        },
        _ => {},
    }
}

/// A combined adjacent pair finishes as its combination does.
proof fn lemma_pair_rule_sem(x: InstrView, y: InstrView, st: RunState, fuel: nat)
    requires
        st.wf(),
        crate::folder::pair_rule(x, y) is Some,
    ensures
        run_seq(seq![x, y], st, fuel) matches RunResult::Done(st1) ==> match run_seq(
            crate::folder::pair_rule(x, y)->0,
            st,
            fuel,
        ) {
            RunResult::Done(st2) => equiv(st1, st2),
            _ => false,
        },
{
    match (x, y) {
        (InstrView::SetCell(a), InstrView::Modify(b)) => {
            lemma_pair_set_modify(a, b, st, fuel);
        },
        (InstrView::SetCell(a), InstrView::SetCell(b)) => {
            lemma_pair_set_set(a, b, st, fuel);
        },
        (InstrView::Modify(a), InstrView::Modify(b)) => {
            lemma_pair_modify_modify(a, b, st, fuel);
        },
        (InstrView::Shift(a), InstrView::Shift(b)) => {
            lemma_pair_shift_shift(a, b, st, fuel);
        },
        (InstrView::ModifyOffset(v, a), InstrView::Shift(b)) => {
            lemma_pair_offset_shift(v, a, st, fuel);
        },
        _ => {},
    }
}


/// A `Shift`-absorption window finishes as its rewrite does: the
/// middle write lands on the same absolute cell, and the two shifts
/// land the pointer on the same absolute spot.
#[verifier::rlimit(100)]
#[verifier::spinoff_prover]
proof fn lemma_triple_rule_sem(a: int, mid: InstrView, b2: int, st: RunState, fuel: nat)
    requires
        st.wf(),
        crate::folder::triple_mid(a, mid) is Some,
        crate::folder::fits(a + b2),
        crate::folder::triple_fits(a, mid),
    ensures
        ({
            let w = seq![InstrView::Shift(a), mid, InstrView::Shift(b2)];
            let rep = seq![crate::folder::triple_mid(a, mid)->0, InstrView::Shift(a + b2)];
            run_seq(w, st, fuel) matches RunResult::Done(st1) ==> match run_seq(rep, st, fuel) {
                RunResult::Done(st2) => equiv(st1, st2),
                _ => false,
            }
        }),
{
    let w = seq![InstrView::Shift(a), mid, InstrView::Shift(b2)];
    let tm = crate::folder::triple_mid(a, mid)->0;
    let rep = seq![tm, InstrView::Shift(a + b2)];
    assert(w.drop_first() =~= seq![mid, InstrView::Shift(b2)]);
    assert(w.drop_first().drop_first() =~= seq![InstrView::Shift(b2)]);
    assert(w.drop_first().drop_first().drop_first() =~= Seq::<InstrView>::empty());
    assert(rep.drop_first() =~= seq![InstrView::Shift(a + b2)]);
    assert(rep.drop_first().drop_first() =~= Seq::<InstrView>::empty());
    let p = st.ptr;
    let t = st.tape;
    match run_seq(w, st, fuel) {
        RunResult::Done(st1) => {
            assert(p + a >= 0 && p + a + 1 <= tape_limit());
            let m1 = RunState { tape: grow(t, p + a + 1), ptr: p + a, ..st };
            assert(run_instr(w[0], st, fuel) == RunResult::Done(m1));
            lemma_grow_cells(t, p + a + 1);
            // where the middle instruction writes, and what
            let q: int = match mid {
                InstrView::SetOffset(_, o) => p + a + o,
                InstrView::ModifyOffset(_, o) => p + a + o,
                _ => p + a,
            };
            let val: u8 = match mid {
                InstrView::SetCell(v) => v,
                InstrView::Modify(v) => wadd(cell_at(t, p + a), v),
                InstrView::SetOffset(v, _) => v,
                InstrView::ModifyOffset(v, _) => wadd(cell_at(t, q), v),
                _ => 0,
            };
            let t2 = write_cell(m1.tape, q, val);
            let m2 = RunState { tape: t2, ..m1 };
            assert(q >= 0 && q + 1 <= tape_limit() && run_instr(mid, m1, fuel) == RunResult::Done(
                m2,
            )) by {
                match mid {
                    InstrView::SetCell(v) => {
                        assert(grow(m1.tape, p + a + 1) == m1.tape);
                    },
                    InstrView::Modify(v) => {
                        assert(grow(m1.tape, p + a + 1) == m1.tape);
                        assert(m1.cell() == cell_at(t, p + a));
                    },
                    InstrView::SetOffset(v, o) => {
                        assert(run_instr(mid, m1, fuel) == step_write_at(m1, o, v));
                        assert(run_seq(w.drop_first(), m1, fuel) is Done);
                        assert(step_write_at(m1, o, v) is Done);
                    },
                    InstrView::ModifyOffset(v, o) => {
                        assert(run_instr(mid, m1, fuel) == step_write_at(
                            m1,
                            o,
                            wadd(cell_at(m1.tape, m1.ptr + o), v),
                        ));
                        assert(run_seq(w.drop_first(), m1, fuel) is Done);
                        assert(step_write_at(m1, o, wadd(cell_at(m1.tape, m1.ptr + o), v))
                            is Done);
                        assert(cell_at(m1.tape, q) == cell_at(t, q));
                    },
                    _ => {},
                }
            }
            assert(t2.len() >= q + 1);
            assert(p + a + b2 >= 0 && p + a + b2 + 1 <= tape_limit());
            let m3 = RunState { tape: grow(t2, p + a + b2 + 1), ptr: p + a + b2, ..st };
            assert(run_instr(w[2], m2, fuel) == RunResult::Done(m3));
            assert(w.drop_first()[0] == mid);
            assert(w.drop_first().drop_first()[0] == w[2]);
            assert(run_seq(w.drop_first().drop_first().drop_first(), m3, fuel) == RunResult::Done(
                m3,
            ));
            assert(run_seq(w.drop_first().drop_first(), m2, fuel) == RunResult::Done(m3));
            assert(run_seq(w.drop_first(), m1, fuel) == RunResult::Done(m3));
            assert(run_seq(w, st, fuel) == RunResult::Done(m3));
            assert(st1 == m3);
            // the rewritten pair
            let t2r = write_cell(t, q, val);
            let m2r = RunState { tape: t2r, ..st };
            assert(run_instr(rep[0], st, fuel) == RunResult::Done(m2r)) by {
                match mid {
                    InstrView::SetCell(v) => {
                        assert(tm == InstrView::SetOffset(v, a));
                    },
                    InstrView::Modify(v) => {
                        assert(tm == InstrView::ModifyOffset(v, a));
                    },
                    InstrView::SetOffset(v, o) => {
                        assert(tm == InstrView::SetOffset(v, a + o));
                    },
                    InstrView::ModifyOffset(v, o) => {
                        assert(tm == InstrView::ModifyOffset(v, a + o));
                        assert(cell_at(t, st.ptr + (a + o)) == cell_at(t, q));
                    },
                    _ => {},
                }
            }
            assert(t2r.len() >= q + 1);
            let m3r = RunState { tape: grow(t2r, p + a + b2 + 1), ptr: p + a + b2, ..st };
            assert(run_instr(rep[1], m2r, fuel) == RunResult::Done(m3r));
            assert(rep.drop_first()[0] == rep[1]);
            assert(run_seq(rep.drop_first().drop_first(), m3r, fuel) == RunResult::Done(m3r));
            assert(run_seq(rep.drop_first(), m2r, fuel) == RunResult::Done(m3r));
            assert(run_seq(rep, st, fuel) == RunResult::Done(m3r));
            // the final states read alike everywhere
            lemma_write_cell_cong(m1.tape, t, q, val);
            lemma_grow_cells(t2, p + a + b2 + 1);
            lemma_grow_cells(t2r, p + a + b2 + 1);
            assert forall|j: int|
                #![trigger cell_at(m3.tape, j), cell_at(m3r.tape, j)]
                cell_at(m3.tape, j) == cell_at(m3r.tape, j) by {
                assert(cell_at(m3.tape, j) == cell_at(t2, j));
                assert(cell_at(m3r.tape, j) == cell_at(t2r, j));
                assert(cell_at(t2, j) == cell_at(t2r, j));
            }
            assert(equiv(m3, m3r));
        },
        _ => {},
    }
}


/// One folding pass preserves every terminating run, up to trailing
/// zero cells on the tape.
#[verifier::rlimit(100)]
#[verifier::spinoff_prover]
pub proof fn lemma_fold_pass_preserves(s: Seq<InstrView>, st: RunState, fuel: nat)
    requires
        st.wf(),
    ensures
        run_seq(s, st, fuel) matches RunResult::Done(st1) ==> match run_seq(
            crate::folder::fold_pass(s),
            st,
            fuel,
        ) {
            RunResult::Done(st2) => equiv(st1, st2),
            _ => false,
        },
    decreases s.len(),
{
    crate::folder::lemma_pass_measure(s);
    if s.len() == 0 {
    } else {
        match run_seq(s, st, fuel) {
            RunResult::Done(st1) => {
                if s.len() >= 3 && (s[0] matches InstrView::Shift(_)) && (s[2]
                    matches InstrView::Shift(_)) && crate::folder::triple_mid(
                    crate::folder::shift_amt(s[0]),
                    s[1],
                ) is Some && crate::folder::fits(
                    crate::folder::shift_amt(s[0]) + crate::folder::shift_amt(s[2]),
                ) && crate::folder::triple_fits(crate::folder::shift_amt(s[0]), s[1]) {
                    let a = crate::folder::shift_amt(s[0]);
                    let b2 = crate::folder::shift_amt(s[2]);
                    let w = seq![InstrView::Shift(a), s[1], InstrView::Shift(b2)];
                    let rep = seq![crate::folder::triple_mid(a, s[1])->0, InstrView::Shift(
                        a + b2,
                    )];
                    assert(s[0] == InstrView::Shift(a));
                    assert(s[2] == InstrView::Shift(b2));
                    assert(s =~= w + s.skip(3));
                    lemma_run_seq_concat(w, s.skip(3), st, fuel);
                    match run_seq(w, st, fuel) {
                        RunResult::Done(stw) => {
                            assert(run_seq(s.skip(3), stw, fuel) == RunResult::Done(st1));
                            lemma_triple_rule_sem(a, s[1], b2, st, fuel);
                            lemma_run_seq_wf(w, st, fuel);
                            match run_seq(rep, st, fuel) {
                                RunResult::Done(stw2) => {
                                    assert(equiv(stw, stw2));
                                    lemma_fold_pass_preserves(s.skip(3), stw, fuel);
                                    let fp = crate::folder::fold_pass(s.skip(3));
                                    match run_seq(fp, stw, fuel) {
                                        RunResult::Done(m1) => {
                                            assert(equiv(st1, m1));
                                            lemma_run_seq_cong(fp, stw, stw2, fuel);
                                            match run_seq(fp, stw2, fuel) {
                                                RunResult::Done(m2) => {
                                                    lemma_equiv_trans(st1, m1, m2);
                                                    assert(crate::folder::fold_pass(s) == rep
                                                        + fp);
                                                    lemma_run_seq_concat(rep, fp, st, fuel);
                                                },
                                                _ => {},
                                            }
                                        },
                                        _ => {},
                                    }
                                },
                                _ => {},
                            }
                        },
                        _ => {},
                    }
                } else if s.len() >= 2 && crate::folder::pair_rule(s[0], s[1]) is Some {
                    let w = seq![s[0], s[1]];
                    let rep = crate::folder::pair_rule(s[0], s[1])->0;
                    assert(s =~= w + s.skip(2));
                    lemma_run_seq_concat(w, s.skip(2), st, fuel);
                    match run_seq(w, st, fuel) {
                        RunResult::Done(stw) => {
                            assert(run_seq(s.skip(2), stw, fuel) == RunResult::Done(st1));
                            lemma_pair_rule_sem(s[0], s[1], st, fuel);
                            lemma_run_seq_wf(w, st, fuel);
                            match run_seq(rep, st, fuel) {
                                RunResult::Done(stw2) => {
                                    assert(equiv(stw, stw2));
                                    lemma_fold_pass_preserves(s.skip(2), stw, fuel);
                                    let fp = crate::folder::fold_pass(s.skip(2));
                                    match run_seq(fp, stw, fuel) {
                                        RunResult::Done(m1) => {
                                            assert(equiv(st1, m1));
                                            lemma_run_seq_cong(fp, stw, stw2, fuel);
                                            match run_seq(fp, stw2, fuel) {
                                                RunResult::Done(m2) => {
                                                    lemma_equiv_trans(st1, m1, m2);
                                                    assert(crate::folder::fold_pass(s) == rep
                                                        + fp);
                                                    lemma_run_seq_concat(rep, fp, st, fuel);
                                                },
                                                _ => {},
                                            }
                                        },
                                        _ => {},
                                    }
                                },
                                _ => {},
                            }
                        },
                        _ => {},
                    }
                } else if crate::folder::single_rule(s[0]) is Some {
                    let rep = crate::folder::single_rule(s[0])->0;
                    match run_instr(s[0], st, fuel) {
                        RunResult::Done(stw) => {
                            assert(run_seq(s.drop_first(), stw, fuel) == RunResult::Done(st1));
                            assert(s.drop_first() =~= s.skip(1));
                            lemma_single_rule_sem(s[0], st, fuel);
                            lemma_run_instr_wf(s[0], st, fuel);
                            match run_seq(rep, st, fuel) {
                                RunResult::Done(stw2) => {
                                    assert(equiv(stw, stw2));
                                    lemma_fold_pass_preserves(s.skip(1), stw, fuel);
                                    let fp = crate::folder::fold_pass(s.skip(1));
                                    match run_seq(fp, stw, fuel) {
                                        RunResult::Done(m1) => {
                                            assert(equiv(st1, m1));
                                            lemma_run_seq_cong(fp, stw, stw2, fuel);
                                            match run_seq(fp, stw2, fuel) {
                                                RunResult::Done(m2) => {
                                                    lemma_equiv_trans(st1, m1, m2);
                                                    assert(crate::folder::fold_pass(s) == rep
                                                        + fp);
                                                    lemma_run_seq_concat(rep, fp, st, fuel);
                                                },
                                                _ => {},
                                            }
                                        },
                                        _ => {},
                                    }
                                },
                                _ => {},
                            }
                        },
                        _ => {},
                    }
                } else {
                    match run_instr(s[0], st, fuel) {
                        RunResult::Done(stw) => {
                            assert(run_seq(s.drop_first(), stw, fuel) == RunResult::Done(st1));
                            assert(s.drop_first() =~= s.skip(1));
                            lemma_run_instr_wf(s[0], st, fuel);
                            lemma_fold_pass_preserves(s.skip(1), stw, fuel);
                            let fp = crate::folder::fold_pass(s.skip(1));
                            match run_seq(fp, stw, fuel) {
                                RunResult::Done(m1) => {
                                    assert(equiv(st1, m1));
                                    assert(crate::folder::fold_pass(s) == seq![s[0]] + fp);
                                    lemma_run_seq_concat(seq![s[0]], fp, st, fuel);
                                    assert(seq![s[0]].drop_first() =~= Seq::<InstrView>::empty());
                                    assert(seq![s[0]][0] == s[0]);
                                    assert(run_seq(seq![s[0]].drop_first(), stw, fuel)
                                        == RunResult::Done(stw));
                                    assert(run_seq(seq![s[0]], st, fuel) == RunResult::Done(stw));
                                },
                                _ => {},
                            }
                        },
                        _ => {},
                    }
                }
            },
            _ => {},
        }
    }
}


/// Iterated passes preserve every terminating run.
pub proof fn lemma_fold_fix_preserves(s: Seq<InstrView>, st: RunState, fuel: nat)
    requires
        st.wf(),
    ensures
        run_seq(s, st, fuel) matches RunResult::Done(st1) ==> match run_seq(
            crate::folder::fold_fix(s),
            st,
            fuel,
        ) {
            RunResult::Done(st2) => equiv(st1, st2),
            _ => false,
        },
    decreases crate::folder::fold_measure(s),
{
    crate::folder::lemma_pass_measure(s);
    if crate::folder::fold_pass(s) == s {
    } else {
        match run_seq(s, st, fuel) {
            RunResult::Done(st1) => {
                lemma_fold_pass_preserves(s, st, fuel);
                match run_seq(crate::folder::fold_pass(s), st, fuel) {
                    RunResult::Done(m) => {
                        lemma_fold_fix_preserves(crate::folder::fold_pass(s), st, fuel);
                        match run_seq(
                            crate::folder::fold_fix(crate::folder::fold_pass(s)),
                            st,
                            fuel,
                        ) {
                            RunResult::Done(m2) => {
                                lemma_equiv_trans(st1, m, m2);
                            },
                            _ => {},
                        }
                    },
                    _ => {},
                }
            },
            _ => {},
        }
    }
}

/// A loop whose folded body folds to nothing can only spin without
/// effect: when it finishes, the state is untouched up to trailing
/// zeroes.
proof fn lemma_fold_empty_loop(b: Seq<InstrView>, st: RunState, fuel: nat)
    requires
        st.wf(),
        crate::folder::fold_spec(b).len() == 0,
    ensures
        run_instr(InstrView::Loop(b), st, fuel) matches RunResult::Done(st1) ==> equiv(st1, st),
    decreases b, 2int, fuel,
{
    if st.cell() != 0 && fuel > 0 {
        match run_seq(b, st, (fuel - 1) as nat) {
            RunResult::Done(m) => {
                lemma_fold_preserves_seq(b, st, (fuel - 1) as nat);
                assert(run_seq(crate::folder::fold_spec(b), st, (fuel - 1) as nat)
                    == RunResult::Done(st));
                assert(equiv(m, st));
                lemma_run_seq_wf(b, st, (fuel - 1) as nat);
                lemma_fold_empty_loop(b, m, (fuel - 1) as nat);
                match run_instr(InstrView::Loop(b), m, (fuel - 1) as nat) {
                    RunResult::Done(st1) => {
                        lemma_equiv_trans(st1, m, st);
                    },
                    _ => {},
                }
            },
            _ => {},
        }
    }
}

/// A loop finishes as the same loop with its body folded does.
proof fn lemma_fold_loop_body(b: Seq<InstrView>, st: RunState, fuel: nat)
    requires
        st.wf(),
    ensures
        run_instr(InstrView::Loop(b), st, fuel) matches RunResult::Done(st1) ==> match run_instr(
            InstrView::Loop(crate::folder::fold_spec(b)),
            st,
            fuel,
        ) {
            RunResult::Done(st2) => equiv(st1, st2),
            _ => false,
        },
    decreases b, 2int, fuel,
{
    let fb = crate::folder::fold_spec(b);
    if st.cell() != 0 && fuel > 0 {
        match run_seq(b, st, (fuel - 1) as nat) {
            RunResult::Done(m) => {
                match run_instr(InstrView::Loop(b), m, (fuel - 1) as nat) {
                    RunResult::Done(st1) => {
                        lemma_fold_preserves_seq(b, st, (fuel - 1) as nat);
                        lemma_run_seq_wf(b, st, (fuel - 1) as nat);
                        match run_seq(fb, st, (fuel - 1) as nat) {
                            RunResult::Done(m2) => {
                                assert(equiv(m, m2));
                                lemma_fold_loop_body(b, m, (fuel - 1) as nat);
                                match run_instr(InstrView::Loop(fb), m, (fuel - 1) as nat) {
                                    RunResult::Done(x) => {
                                        assert(equiv(st1, x));
                                        lemma_run_instr_cong(
                                            InstrView::Loop(fb),
                                            m,
                                            m2,
                                            (fuel - 1) as nat,
                                        );
                                        match run_instr(InstrView::Loop(fb), m2, (fuel - 1) as nat) {
                                            RunResult::Done(x2) => {
                                                lemma_equiv_trans(st1, x, x2);
                                            },
                                            _ => {},
                                        }
                                    },
                                    _ => {},
                                }
                            },
                            _ => {},
                        }
                    },
                    _ => {},
                }
            },
            _ => {},
        }
    }
}

/// Folding loop bodies preserves every terminating run.
proof fn lemma_fold_bodies_preserves(s: Seq<InstrView>, st: RunState, fuel: nat)
    requires
        st.wf(),
    ensures
        run_seq(s, st, fuel) matches RunResult::Done(st1) ==> match run_seq(
            crate::folder::fold_bodies(s),
            st,
            fuel,
        ) {
            RunResult::Done(st2) => equiv(st1, st2),
            _ => false,
        },
    decreases s, 0int, 0int,
{
    if s.len() == 0 {
    } else {
        match run_seq(s, st, fuel) {
            RunResult::Done(st1) => {
                let fbrest = crate::folder::fold_bodies(s.drop_first());
                match run_instr(s[0], st, fuel) {
                    RunResult::Done(stw) => {
                        assert(run_seq(s.drop_first(), stw, fuel) == RunResult::Done(st1));
                        lemma_run_instr_wf(s[0], st, fuel);
                        lemma_fold_bodies_preserves(s.drop_first(), stw, fuel);
                        match run_seq(fbrest, stw, fuel) {
                            RunResult::Done(m1) => {
                                assert(equiv(st1, m1));
                                match s[0] {
                                    InstrView::Loop(b) => {
                                        if crate::folder::fold_spec(b).len() == 0 {
                                            lemma_fold_empty_loop(b, st, fuel);
                                            assert(equiv(stw, st));
                                            assert(equiv(st, stw)) by {
                                                assert forall|j: int|
                                                    #![trigger cell_at(st.tape, j), cell_at(stw.tape, j)]
                                                    cell_at(st.tape, j) == cell_at(
                                                        stw.tape,
                                                        j,
                                                    ) by {
                                                    assert(cell_at(stw.tape, j) == cell_at(
                                                        st.tape,
                                                        j,
                                                    ));
                                                }
                                            }
                                            lemma_run_seq_cong(fbrest, stw, st, fuel);
                                            assert(crate::folder::fold_bodies(s) == fbrest);
                                            match run_seq(fbrest, st, fuel) {
                                                RunResult::Done(m2) => {
                                                    assert(equiv(m1, m2));
                                                    lemma_equiv_trans(st1, m1, m2);
                                                },
                                                _ => {},
                                            }
                                        } else {
                                            let rb = InstrView::Loop(crate::folder::fold_spec(b));
                                            lemma_fold_loop_body(b, st, fuel);
                                            match run_instr(rb, st, fuel) {
                                                RunResult::Done(stw2) => {
                                                    assert(equiv(stw, stw2));
                                                    lemma_run_seq_cong(fbrest, stw, stw2, fuel);
                                                    match run_seq(fbrest, stw2, fuel) {
                                                        RunResult::Done(m2) => {
                                                            assert(equiv(m1, m2));
                                                            lemma_equiv_trans(st1, m1, m2);
                                                            assert(crate::folder::fold_bodies(s)
                                                                == seq![rb] + fbrest);
                                                            lemma_run_seq_concat(
                                                                seq![rb],
                                                                fbrest,
                                                                st,
                                                                fuel,
                                                            );
                                                            assert(seq![rb].drop_first() =~= Seq::<
                                                                InstrView,
                                                            >::empty());
                                                            assert(seq![rb][0] == rb);
                                                            assert(run_seq(
                                                                seq![rb].drop_first(),
                                                                stw2,
                                                                fuel,
                                                            ) == RunResult::Done(stw2));
                                                            assert(run_seq(seq![rb], st, fuel)
                                                                == RunResult::Done(stw2));
                                                        },
                                                        _ => {},
                                                    }
                                                },
                                                _ => {},
                                            }
                                        }
                                    },
                                    _ => {
                                        assert(crate::folder::fold_bodies(s) == seq![s[0]]
                                            + fbrest);
                                        lemma_run_seq_concat(seq![s[0]], fbrest, st, fuel);
                                        assert(seq![s[0]].drop_first() =~= Seq::<
                                            InstrView,
                                        >::empty());
                                        assert(seq![s[0]][0] == s[0]);
                                        assert(run_seq(seq![s[0]].drop_first(), stw, fuel)
                                            == RunResult::Done(stw));
                                        assert(run_seq(seq![s[0]], st, fuel) == RunResult::Done(
                                            stw,
                                        ));
                                    },
                                }
                            },
                            _ => {},
                        }
                    },
                    _ => {},
                }
            },
            _ => {},
        }
    }
}

/// The folder preserves every terminating run: what the program
/// leaves behind, the folded program leaves behind too, up to
/// trailing zero cells on the tape.
pub proof fn lemma_fold_preserves_seq(s: Seq<InstrView>, st: RunState, fuel: nat)
    requires
        st.wf(),
    ensures
        run_seq(s, st, fuel) matches RunResult::Done(st1) ==> match run_seq(
            crate::folder::fold_spec(s),
            st,
            fuel,
        ) {
            RunResult::Done(st2) => equiv(st1, st2),
            _ => false,
        },
    decreases s, 1int, 0int,
{
    match run_seq(s, st, fuel) {
        RunResult::Done(st1) => {
            lemma_fold_bodies_preserves(s, st, fuel);
            match run_seq(crate::folder::fold_bodies(s), st, fuel) {
                RunResult::Done(m) => {
                    lemma_fold_fix_preserves(crate::folder::fold_bodies(s), st, fuel);
                    match run_seq(
                        crate::folder::fold_fix(crate::folder::fold_bodies(s)),
                        st,
                        fuel,
                    ) {
                        RunResult::Done(m2) => {
                            lemma_equiv_trans(st1, m, m2);
                        },
                        _ => {},
                    }
                },
                _ => {},
            }
        },
        _ => {},
    }
}

/// Recognition followed by folding preserves every terminating run:
/// the back half of the optimizer changes no outcome of a program
/// that finishes.
pub proof fn lemma_optimizer_back_half_preserves(s: Seq<InstrView>, st: RunState, fuel: nat)
    requires
        st.wf(),
    ensures
        run_seq(s, st, fuel) matches RunResult::Done(st1) ==> match run_seq(
            crate::folder::fold_spec(crate::optimizations::small_loops_spec(s)),
            st,
            fuel,
        ) {
            RunResult::Done(st2) => equiv(st1, st2),
            _ => false,
        },
{
    match run_seq(s, st, fuel) {
        RunResult::Done(st1) => {
            lemma_small_preserves_seq(s, st, fuel);
            lemma_fold_preserves_seq(crate::optimizations::small_loops_spec(s), st, fuel);
        },
        _ => {},
    }
}


/// What a terminated run of `+ - < >` symbols did: exactly what its
/// virtual-cursor summary says.  The pointer lands at the summary's
/// shift; every delta cell in the summary's window was visited, so
/// the window sits on the tape; and every cell reads as the start
/// state plus its delta.
#[verifier::rlimit(100)]
#[verifier::spinoff_prover]
proof fn lemma_run_prims(r: Seq<InstrView>, st: RunState, fuel: nat)
    requires
        st.wf(),
        forall|k: int| 0 <= k < r.len() ==> crate::optimizations::is_run_sym(#[trigger] r[k]),
    ensures
        run_seq(r, st, fuel) matches RunResult::Done(m) ==> ({
            let acc = crate::optimizations::run_sim(r);
            let base = st.ptr + acc.offset;
            &&& m.ptr == base + acc.cursor
            &&& base >= 0
            &&& base + acc.data.len() <= tape_limit()
            &&& m.wf()
            &&& m.input == st.input
            &&& m.output == st.output
            &&& forall|j: int|
                #![trigger cell_at(m.tape, j)]
                cell_at(m.tape, j) == (if base <= j < base + acc.data.len() {
                    wadd(cell_at(st.tape, j), acc.data[j - base])
                } else {
                    cell_at(st.tape, j)
                })
        }),
    decreases r.len(),
{
    crate::optimizations::lemma_run_sim_bounds(r);
    if r.len() == 0 {
        assert(crate::optimizations::run_sim(r).data =~= seq![0u8]);
        match run_seq(r, st, fuel) {
            RunResult::Done(m) => {
                assert(m == st);
                assert(st.ptr + 0 + 1 <= tape_limit());
            },
            _ => {},
        }
    } else {
        let head = r.drop_last();
        let sym = r.last();
        assert(r =~= head + seq![sym]);
        assert(forall|k: int|
            0 <= k < head.len() ==> crate::optimizations::is_run_sym(#[trigger] head[k]));
        crate::optimizations::lemma_run_sim_bounds(head);
        lemma_run_seq_concat(head, seq![sym], st, fuel);
        lemma_run_prims(head, st, fuel);
        match run_seq(head, st, fuel) {
            RunResult::Done(mh) => {
                let acch = crate::optimizations::run_sim(head);
                let acc = crate::optimizations::run_sim(r);
                assert(acc == crate::optimizations::run_step(acch, sym));
                let baseh = st.ptr + acch.offset;
                assert(seq![sym].drop_first() =~= Seq::<InstrView>::empty());
                match run_seq(seq![sym], mh, fuel) {
                    RunResult::Done(m) => {
                        assert(run_instr(sym, mh, fuel) == RunResult::Done(m)) by {
                            match run_instr(sym, mh, fuel) {
                                RunResult::Done(x) => {
                                    assert(run_seq(Seq::<InstrView>::empty(), x, fuel)
                                        == RunResult::Done(x));
                                },
                                _ => {},
                            }
                        }
                        match sym {
                            InstrView::Increment => {
                                let j0 = mh.ptr;
                                assert(j0 - baseh == acch.cursor);
                                assert(grow(mh.tape, j0 + 1) == mh.tape);
                                assert(m == RunState {
                                    tape: mh.tape.update(j0, wadd(mh.cell(), 1)),
                                    ..mh
                                });
                                assert(cell_at(mh.tape, j0) == wadd(
                                    cell_at(st.tape, j0),
                                    acch.data[acch.cursor],
                                ));
                                assert(wadd(wadd(cell_at(st.tape, j0), acch.data[acch.cursor]), 1)
                                    == wadd(
                                    cell_at(st.tape, j0),
                                    wadd(acch.data[acch.cursor], 1),
                                )) by {
                                    let c0 = cell_at(st.tape, j0);
                                    let d0 = acch.data[acch.cursor];
                                    vstd::arithmetic::div_mod::lemma_add_mod_noop(
                                        c0 + d0,
                                        1,
                                        256,
                                    );
                                    vstd::arithmetic::div_mod::lemma_add_mod_noop_right(
                                        c0 as int,
                                        d0 + 1,
                                        256,
                                    );
                                    vstd::arithmetic::div_mod::lemma_mod_twice(c0 + d0, 256);
                                    vstd::arithmetic::div_mod::lemma_mod_twice(d0 + 1, 256);
                                }
                                assert forall|j: int|
                                    cell_at(m.tape, j) == (if baseh <= j < baseh
                                        + acc.data.len() {
                                        wadd(cell_at(st.tape, j), acc.data[j - baseh])
                                    } else {
                                        cell_at(st.tape, j)
                                    }) by {
                                    if j != j0 {
                                        assert(cell_at(m.tape, j) == cell_at(mh.tape, j));
                                        if baseh <= j < baseh + acc.data.len() {
                                            assert(acc.data[j - baseh] == acch.data[j - baseh]);
                                        }
                                    }
                                }
                            },
                            InstrView::Decrement => {
                                let j0 = mh.ptr;
                                assert(j0 - baseh == acch.cursor);
                                assert(grow(mh.tape, j0 + 1) == mh.tape);
                                assert(m == RunState {
                                    tape: mh.tape.update(j0, wadd(mh.cell(), 255)),
                                    ..mh
                                });
                                assert(cell_at(mh.tape, j0) == wadd(
                                    cell_at(st.tape, j0),
                                    acch.data[acch.cursor],
                                ));
                                assert(wadd(
                                    wadd(cell_at(st.tape, j0), acch.data[acch.cursor]),
                                    255,
                                ) == wadd(
                                    cell_at(st.tape, j0),
                                    wadd(acch.data[acch.cursor], 255),
                                )) by {
                                    let c0 = cell_at(st.tape, j0);
                                    let d0 = acch.data[acch.cursor];
                                    vstd::arithmetic::div_mod::lemma_add_mod_noop(
                                        c0 + d0,
                                        255,
                                        256,
                                    );
                                    vstd::arithmetic::div_mod::lemma_add_mod_noop_right(
                                        c0 as int,
                                        d0 + 255,
                                        256,
                                    );
                                    vstd::arithmetic::div_mod::lemma_mod_twice(c0 + d0, 256);
                                    vstd::arithmetic::div_mod::lemma_mod_twice(d0 + 255, 256);
                                }
                                assert forall|j: int|
                                    cell_at(m.tape, j) == (if baseh <= j < baseh
                                        + acc.data.len() {
                                        wadd(cell_at(st.tape, j), acc.data[j - baseh])
                                    } else {
                                        cell_at(st.tape, j)
                                    }) by {
                                    if j != j0 {
                                        assert(cell_at(m.tape, j) == cell_at(mh.tape, j));
                                        if baseh <= j < baseh + acc.data.len() {
                                            assert(acc.data[j - baseh] == acch.data[j - baseh]);
                                        }
                                    }
                                }
                            },
                            InstrView::Right => {
                                assert(m.ptr == mh.ptr + 1);
                                lemma_grow_cells(mh.tape, mh.ptr + 2);
                                assert forall|j: int|
                                    cell_at(m.tape, j) == (if baseh <= j < baseh
                                        + acc.data.len() {
                                        wadd(cell_at(st.tape, j), acc.data[j - baseh])
                                    } else {
                                        cell_at(st.tape, j)
                                    }) by {
                                    assert(cell_at(m.tape, j) == cell_at(mh.tape, j));
                                    if baseh <= j < baseh + acch.data.len() {
                                        assert(acc.data[j - baseh] == acch.data[j - baseh]);
                                    } else if baseh + acch.data.len() <= j < baseh
                                        + acc.data.len() {
                                        assert(acc.data[j - baseh] == 0);
                                        assert(wadd(cell_at(st.tape, j), 0) == cell_at(
                                            st.tape,
                                            j,
                                        ));
                                    }
                                }
                            },
                            InstrView::Left => {
                                assert(m.ptr == mh.ptr - 1);
                                lemma_grow_cells(mh.tape, mh.ptr);
                                if acch.cursor > 0 {
                                    assert forall|j: int|
                                        cell_at(m.tape, j) == (if baseh <= j < baseh
                                            + acc.data.len() {
                                            wadd(cell_at(st.tape, j), acc.data[j - baseh])
                                        } else {
                                            cell_at(st.tape, j)
                                        }) by {
                                        assert(cell_at(m.tape, j) == cell_at(mh.tape, j));
                                    }
                                } else {
                                    let base = st.ptr + acc.offset;
                                    assert(base == baseh - 1);
                                    assert(acc.data =~= seq![0u8] + acch.data);
                                    assert forall|j: int|
                                        cell_at(m.tape, j) == (if base <= j < base
                                            + acc.data.len() {
                                            wadd(cell_at(st.tape, j), acc.data[j - base])
                                        } else {
                                            cell_at(st.tape, j)
                                        }) by {
                                        assert(cell_at(m.tape, j) == cell_at(mh.tape, j));
                                        if j == base {
                                            assert(acc.data[0] == 0);
                                            assert(wadd(cell_at(st.tape, j), 0) == cell_at(
                                                st.tape,
                                                j,
                                            ));
                                        } else if base < j < base + acc.data.len() {
                                            assert(acc.data[j - base] == acch.data[j - baseh]);
                                        }
                                    }
                                }
                            },
                            _ => {},
                        }
                    },
                    _ => {},
                }
            },
            _ => {},
        }
    }
}


/// Trimming the back removes only zeroes and keeps the front intact.
proof fn lemma_trim_back_facts(d: Seq<u8>)
    ensures
        crate::optimizations::trim_back(d).len() <= d.len(),
        forall|i: int|
            0 <= i < crate::optimizations::trim_back(d).len() ==> crate::optimizations::trim_back(
                d,
            )[i] == d[i],
        forall|i: int| crate::optimizations::trim_back(d).len() <= i < d.len() ==> d[i] == 0,
    decreases d.len(),
{
    if d.len() > 0 && d.last() == 0 {
        lemma_trim_back_facts(d.drop_last());
        assert(forall|i: int| 0 <= i < d.len() - 1 ==> d.drop_last()[i] == d[i]);
        assert forall|i: int|
            0 <= i < crate::optimizations::trim_back(d).len() implies crate::optimizations::trim_back(
            d,
        )[i] == d[i] by {
            assert(crate::optimizations::trim_back(d)[i] == d.drop_last()[i]);
        }
        assert forall|i: int|
            crate::optimizations::trim_back(d).len() <= i < d.len() implies d[i] == 0 by {
            if i < d.len() - 1 {
                assert(d.drop_last()[i] == 0);
            }
        }
    }
}

/// The counted leading zeroes are zeroes.
proof fn lemma_lead_zeros_facts(d: Seq<u8>)
    ensures
        0 <= crate::optimizations::lead_zeros(d) <= d.len(),
        forall|i: int| 0 <= i < crate::optimizations::lead_zeros(d) ==> d[i] == 0,
    decreases d.len(),
{
    if d.len() > 0 && d[0] == 0 {
        lemma_lead_zeros_facts(d.drop_first());
        assert forall|i: int|
            0 <= i < crate::optimizations::lead_zeros(d) implies d[i] == 0 by {
            if i > 0 {
                assert(d.drop_first()[i - 1] == d[i]);
            }
        }
    }
}

/// The state a terminated run leaves, described cell by cell from its
/// summary.
spec fn run_outcome_matches(st: RunState, m: RunState, o: int, dat: Seq<u8>, sh: int) -> bool {
    let base = st.ptr + o;
    &&& m.ptr == st.ptr + sh
    &&& base >= 0
    &&& base + dat.len() <= tape_limit()
    &&& m.wf()
    &&& st.wf()
    &&& m.input == st.input
    &&& m.output == st.output
    &&& forall|j: int|
        #![trigger cell_at(m.tape, j)]
        cell_at(m.tape, j) == (if base <= j < base + dat.len() {
            wadd(cell_at(st.tape, j), dat[j - base])
        } else {
            cell_at(st.tape, j)
        })
}

/// An emission whose trimmed deltas are empty reproduces the run's
/// outcome.
#[verifier::rlimit(60)]
#[verifier::spinoff_prover]
proof fn lemma_emit_none(st: RunState, m: RunState, o: int, dat: Seq<u8>, sh: int, fuel: nat)
    requires
        run_outcome_matches(st, m, o, dat, sh),
        forall|i: int| 0 <= i < dat.len() ==> dat[i] == 0,
        crate::optimizations::trim_back(dat).skip(
            crate::optimizations::lead_zeros(crate::optimizations::trim_back(dat)),
        ).len() == 0,
    ensures
        match run_seq(crate::optimizations::emit_run(o, dat, sh), st, fuel) {
            RunResult::Done(m2) => equiv(m, m2),
            _ => false,
        },
{
    let base = st.ptr + o;
    let em = crate::optimizations::emit_run(o, dat, sh);
    assert forall|j: int|
        #![trigger cell_at(m.tape, j)]
        cell_at(m.tape, j) == cell_at(st.tape, j) by {
        if base <= j < base + dat.len() {
            assert(dat[j - base] == 0);
            assert(wadd(cell_at(st.tape, j), 0) == cell_at(st.tape, j));
        }
    }
    if sh == 0 {
        assert(em =~= Seq::<InstrView>::empty());
        assert(run_seq(em, st, fuel) == RunResult::Done(st));
        assert(equiv(m, st));
    } else {
        assert(em =~= seq![InstrView::Shift(sh)]);
        assert(st.ptr + sh == m.ptr);
        assert(m.ptr >= 0 && m.ptr + 1 <= tape_limit());
        let m2 = RunState { tape: grow(st.tape, m.ptr + 1), ptr: m.ptr, ..st };
        assert(run_instr(em[0], st, fuel) == RunResult::Done(m2));
        assert(em.drop_first() =~= Seq::<InstrView>::empty());
        assert(run_seq(em.drop_first(), m2, fuel) == RunResult::Done(m2));
        assert(run_seq(em, st, fuel) == RunResult::Done(m2));
        lemma_grow_cells(st.tape, m.ptr + 1);
        assert forall|j: int|
            #![trigger cell_at(m2.tape, j)]
            cell_at(m2.tape, j) == cell_at(m.tape, j) by {
            assert(cell_at(m2.tape, j) == cell_at(st.tape, j));
        }
        assert(equiv(m, m2));
    }
}

/// An emission with one trimmed delta reproduces the run's outcome.
#[verifier::rlimit(100)]
#[verifier::spinoff_prover]
proof fn lemma_emit_single(st: RunState, m: RunState, o: int, dat: Seq<u8>, sh: int, fuel: nat)
    requires
        run_outcome_matches(st, m, o, dat, sh),
        ({
            let dt = crate::optimizations::trim_back(dat);
            let lz = crate::optimizations::lead_zeros(dt);
            &&& 0 <= lz
            &&& dt.skip(lz).len() == 1
            &&& lz + 1 == dt.len()
            &&& dt.len() <= dat.len()
            &&& (forall|i: int| 0 <= i < lz ==> dat[i] == 0)
            &&& (forall|i: int| lz + 1 <= i < dat.len() ==> dat[i] == 0)
            &&& dt.skip(lz)[0] == dat[lz]
        }),
    ensures
        match run_seq(crate::optimizations::emit_run(o, dat, sh), st, fuel) {
            RunResult::Done(m2) => equiv(m, m2),
            _ => false,
        },
{
    let base = st.ptr + o;
    let dt = crate::optimizations::trim_back(dat);
    let lz = crate::optimizations::lead_zeros(dt);
    let d2 = dt.skip(lz);
    let o2 = o + lz;
    let base2 = st.ptr + o2;
    let em = crate::optimizations::emit_run(o, dat, sh);
    let val = wadd(cell_at(st.tape, base2), d2[0]);
    let written = RunState { tape: write_cell(st.tape, base2, val), ..st };
    let first = em[0];
    assert(base2 >= base >= 0);
    assert(base2 + 1 <= base + dat.len() <= tape_limit());
    assert(run_instr(first, st, fuel) == RunResult::Done(written)) by {
        if o2 == 0 {
            assert(first == InstrView::Modify(d2[0]));
            assert(base2 == st.ptr);
            assert(grow(st.tape, st.ptr + 1) == st.tape);
        } else {
            assert(first == InstrView::ModifyOffset(d2[0], o2));
        }
    }
    lemma_grow_cells(st.tape, base2 + 1);
    assert(written.tape.len() >= base2 + 1);
    assert forall|j: int|
        #![trigger cell_at(written.tape, j)]
        cell_at(written.tape, j) == cell_at(m.tape, j) by {
        if j == base2 {
            assert(cell_at(written.tape, j) == val);
            assert(dat[j - base] == d2[0]);
        } else {
            assert(cell_at(written.tape, j) == cell_at(grow(st.tape, base2 + 1), j));
            assert(cell_at(written.tape, j) == cell_at(st.tape, j));
            if base <= j < base + dat.len() {
                assert(dat[j - base] == 0);
                assert(wadd(cell_at(st.tape, j), 0) == cell_at(st.tape, j));
            }
        }
    }
    if sh == 0 {
        assert(em =~= seq![first]);
        assert(written.ptr == m.ptr);
        assert(em.drop_first() =~= Seq::<InstrView>::empty());
        assert(run_seq(em.drop_first(), written, fuel) == RunResult::Done(written));
        assert(run_seq(em, st, fuel) == RunResult::Done(written));
        assert(equiv(m, written));
    } else {
        assert(em =~= seq![first, InstrView::Shift(sh)]);
        assert(st.ptr + sh == m.ptr);
        assert(m.ptr >= 0 && m.ptr + 1 <= tape_limit());
        let m2 = RunState { tape: grow(written.tape, m.ptr + 1), ptr: m.ptr, ..st };
        assert(run_instr(em[1], written, fuel) == RunResult::Done(m2));
        assert(em.drop_first() =~= seq![em[1]]);
        assert(em.drop_first().drop_first() =~= Seq::<InstrView>::empty());
        assert(run_seq(em.drop_first().drop_first(), m2, fuel) == RunResult::Done(m2));
        assert(run_seq(em.drop_first(), written, fuel) == RunResult::Done(m2));
        assert(run_seq(em, st, fuel) == RunResult::Done(m2));
        lemma_grow_cells(written.tape, m.ptr + 1);
        assert forall|j: int|
            #![trigger cell_at(m2.tape, j)]
            cell_at(m2.tape, j) == cell_at(m.tape, j) by {
            assert(cell_at(m2.tape, j) == cell_at(written.tape, j));
        }
        assert(equiv(m, m2));
    }
}

/// An emission with a full trimmed run reproduces the run's outcome.
#[verifier::rlimit(100)]
#[verifier::spinoff_prover]
proof fn lemma_emit_multi(st: RunState, m: RunState, o: int, dat: Seq<u8>, sh: int, fuel: nat)
    requires
        run_outcome_matches(st, m, o, dat, sh),
        ({
            let dt = crate::optimizations::trim_back(dat);
            let lz = crate::optimizations::lead_zeros(dt);
            &&& 0 <= lz
            &&& dt.skip(lz).len() >= 2
            &&& lz + dt.skip(lz).len() == dt.len()
            &&& dt.len() <= dat.len()
            &&& (forall|i: int| 0 <= i < lz ==> dat[i] == 0)
            &&& (forall|i: int| dt.len() <= i < dat.len() ==> dat[i] == 0)
            &&& (forall|i: int| 0 <= i < dt.skip(lz).len() ==> dt.skip(lz)[i] == dat[lz + i])
        }),
    ensures
        match run_seq(crate::optimizations::emit_run(o, dat, sh), st, fuel) {
            RunResult::Done(m2) => equiv(m, m2),
            _ => false,
        },
{
    let base = st.ptr + o;
    let dt = crate::optimizations::trim_back(dat);
    let lz = crate::optimizations::lead_zeros(dt);
    let d2 = dt.skip(lz);
    let o2 = o + lz;
    let base2 = st.ptr + o2;
    let em = crate::optimizations::emit_run(o, dat, sh);
    assert(em =~= seq![InstrView::ModifyRun { shift: sh, offset: o2, data: d2 }]);
    assert(base2 >= base >= 0);
    assert(base2 + d2.len() <= base + dat.len() <= tape_limit());
    let grown = grow(st.tape, base2 + d2.len());
    let tape1 = crate::semantics::apply_run(grown, base2, d2, d2.len() as int);
    lemma_grow_cells(st.tape, base2 + d2.len());
    crate::laws::lemma_apply_run_char(grown, base2, d2, d2.len() as int);
    assert(tape1.len() >= base2 + d2.len());
    let mid = RunState { tape: tape1, ..st };
    assert(st.ptr + sh == m.ptr);
    assert(m.ptr >= 0 && m.ptr + 1 <= tape_limit());
    let m2 = RunState { tape: grow(tape1, m.ptr + 1), ptr: m.ptr, ..st };
    assert(step_modify_run(st, sh, o2, d2) == move_ptr(mid, sh));
    assert(move_ptr(mid, sh) == RunResult::Done(m2));
    assert(run_instr(em[0], st, fuel) == RunResult::Done(m2));
    assert(em.drop_first() =~= Seq::<InstrView>::empty());
    assert(run_seq(em.drop_first(), m2, fuel) == RunResult::Done(m2));
    assert(run_seq(em, st, fuel) == RunResult::Done(m2));
    lemma_grow_cells(tape1, m.ptr + 1);
    assert forall|j: int|
        #![trigger cell_at(m2.tape, j)]
        cell_at(m2.tape, j) == cell_at(m.tape, j) by {
        assert(cell_at(m2.tape, j) == cell_at(tape1, j));
        if base2 <= j < base2 + d2.len() {
            assert(cell_at(tape1, j) == wadd(cell_at(grown, j), d2[j - base2]));
            assert(cell_at(grown, j) == cell_at(st.tape, j));
            assert(dat[j - base] == d2[j - base2]);
        } else {
            assert(cell_at(tape1, j) == cell_at(grown, j));
            assert(cell_at(tape1, j) == cell_at(st.tape, j));
            if base <= j < base + dat.len() {
                assert(dat[j - base] == 0);
                assert(wadd(cell_at(st.tape, j), 0) == cell_at(st.tape, j));
            }
        }
    }
    assert(equiv(m, m2));
}

/// A terminated run of `+ - < >` symbols finishes as its compact
/// emission does.
proof fn lemma_emit_sem(r: Seq<InstrView>, st: RunState, fuel: nat)
    requires
        st.wf(),
        forall|k: int| 0 <= k < r.len() ==> crate::optimizations::is_run_sym(#[trigger] r[k]),
    ensures
        run_seq(r, st, fuel) matches RunResult::Done(m) ==> ({
            let acc = crate::optimizations::run_sim(r);
            match run_seq(
                crate::optimizations::emit_run(acc.offset, acc.data, acc.cursor + acc.offset),
                st,
                fuel,
            ) {
                RunResult::Done(m2) => equiv(m, m2),
                _ => false,
            }
        }),
{
    lemma_run_prims(r, st, fuel);
    crate::optimizations::lemma_run_sim_bounds(r);
    match run_seq(r, st, fuel) {
        RunResult::Done(m) => {
            let acc = crate::optimizations::run_sim(r);
            let o = acc.offset;
            let dat = acc.data;
            let sh = acc.cursor + acc.offset;
            let dt = crate::optimizations::trim_back(dat);
            let lz = crate::optimizations::lead_zeros(dt);
            let d2 = dt.skip(lz);
            lemma_trim_back_facts(dat);
            lemma_lead_zeros_facts(dt);
            crate::optimizations::lemma_lead_zeros(dt);
            assert(run_outcome_matches(st, m, o, dat, sh));
            assert(forall|i: int| 0 <= i < lz ==> dat[i] == 0);
            assert(forall|i: int| dt.len() <= i < dat.len() ==> dat[i] == 0);
            assert(forall|i: int| 0 <= i < d2.len() ==> d2[i] == dat[lz + i]);
            if d2.len() == 0 {
                assert(lz == dt.len());
                assert(forall|i: int| 0 <= i < dat.len() ==> dat[i] == 0);
                lemma_emit_none(st, m, o, dat, sh, fuel);
            } else if d2.len() == 1 {
                lemma_emit_single(st, m, o, dat, sh, fuel);
            } else {
                lemma_emit_multi(st, m, o, dat, sh, fuel);
            }
        },
        _ => {},
    }
}


/// The counted run prefix is made of run symbols.
proof fn lemma_run_prefix_syms(s: Seq<InstrView>)
    ensures
        forall|k: int|
            0 <= k < crate::optimizations::run_prefix_len(s) ==> crate::optimizations::is_run_sym(
                #[trigger] s[k],
            ),
    decreases s.len(),
{
    crate::optimizations::lemma_run_prefix_bounds(s);
    if s.len() > 0 && crate::optimizations::is_run_sym(s[0]) {
        lemma_run_prefix_syms(s.drop_first());
        crate::optimizations::lemma_run_prefix_bounds(s.drop_first());
        assert forall|k: int|
            0 <= k < crate::optimizations::run_prefix_len(s) implies crate::optimizations::is_run_sym(
            #[trigger] s[k],
        ) by {
            if k > 0 {
                assert(s.drop_first()[k - 1] == s[k]);
            }
        }
    }
}

/// A loop finishes as the same loop with its body compacted does.
proof fn lemma_compress_loop_body(b: Seq<InstrView>, st: RunState, fuel: nat)
    requires
        st.wf(),
    ensures
        run_instr(InstrView::Loop(b), st, fuel) matches RunResult::Done(st1) ==> match run_instr(
            InstrView::Loop(crate::optimizations::compress_spec(b)),
            st,
            fuel,
        ) {
            RunResult::Done(st2) => equiv(st1, st2),
            _ => false,
        },
    decreases b, 2int, fuel,
{
    let fb = crate::optimizations::compress_spec(b);
    if st.cell() != 0 && fuel > 0 {
        match run_seq(b, st, (fuel - 1) as nat) {
            RunResult::Done(m) => {
                match run_instr(InstrView::Loop(b), m, (fuel - 1) as nat) {
                    RunResult::Done(st1) => {
                        lemma_compress_preserves_seq(b, st, (fuel - 1) as nat);
                        lemma_run_seq_wf(b, st, (fuel - 1) as nat);
                        match run_seq(fb, st, (fuel - 1) as nat) {
                            RunResult::Done(m2) => {
                                assert(equiv(m, m2));
                                lemma_compress_loop_body(b, m, (fuel - 1) as nat);
                                match run_instr(InstrView::Loop(fb), m, (fuel - 1) as nat) {
                                    RunResult::Done(x) => {
                                        assert(equiv(st1, x));
                                        lemma_run_instr_cong(
                                            InstrView::Loop(fb),
                                            m,
                                            m2,
                                            (fuel - 1) as nat,
                                        );
                                        match run_instr(InstrView::Loop(fb), m2, (fuel - 1) as nat) {
                                            RunResult::Done(x2) => {
                                                lemma_equiv_trans(st1, x, x2);
                                            },
                                            _ => {},
                                        }
                                    },
                                    _ => {},
                                }
                            },
                            _ => {},
                        }
                    },
                    _ => {},
                }
            },
            _ => {},
        }
    }
}

/// Run compaction preserves every terminating run, up to trailing
/// zero cells on the tape.
#[verifier::rlimit(100)]
#[verifier::spinoff_prover]
pub proof fn lemma_compress_preserves_seq(s: Seq<InstrView>, st: RunState, fuel: nat)
    requires
        st.wf(),
    ensures
        run_seq(s, st, fuel) matches RunResult::Done(st1) ==> match run_seq(
            crate::optimizations::compress_spec(s),
            st,
            fuel,
        ) {
            RunResult::Done(st2) => equiv(st1, st2),
            _ => false,
        },
    decreases s, 1int, 0int,
{
    if s.len() == 0 {
    } else {
        match run_seq(s, st, fuel) {
            RunResult::Done(st1) => {
                if crate::optimizations::is_run_sym(s[0]) {
                    crate::optimizations::lemma_run_prefix_bounds(s);
                    lemma_run_prefix_syms(s);
                    let n = crate::optimizations::run_prefix_len(s);
                    let w = s.take(n);
                    let acc = crate::optimizations::run_sim(w);
                    let em = crate::optimizations::emit_run(
                        acc.offset,
                        acc.data,
                        acc.cursor + acc.offset,
                    );
                    assert(s =~= w + s.skip(n));
                    assert(forall|k: int|
                        0 <= k < w.len() ==> crate::optimizations::is_run_sym(#[trigger] w[k]));
                    lemma_run_seq_concat(w, s.skip(n), st, fuel);
                    match run_seq(w, st, fuel) {
                        RunResult::Done(stw) => {
                            assert(run_seq(s.skip(n), stw, fuel) == RunResult::Done(st1));
                            lemma_emit_sem(w, st, fuel);
                            lemma_run_seq_wf(w, st, fuel);
                            match run_seq(em, st, fuel) {
                                RunResult::Done(stw2) => {
                                    assert(equiv(stw, stw2));
                                    lemma_compress_preserves_seq(s.skip(n), stw, fuel);
                                    let fp = crate::optimizations::compress_spec(s.skip(n));
                                    match run_seq(fp, stw, fuel) {
                                        RunResult::Done(m1) => {
                                            assert(equiv(st1, m1));
                                            lemma_run_seq_cong(fp, stw, stw2, fuel);
                                            match run_seq(fp, stw2, fuel) {
                                                RunResult::Done(m2) => {
                                                    lemma_equiv_trans(st1, m1, m2);
                                                    assert(crate::optimizations::compress_spec(s)
                                                        == em + fp);
                                                    lemma_run_seq_concat(em, fp, st, fuel);
                                                },
                                                _ => {},
                                            }
                                        },
                                        _ => {},
                                    }
                                },
                                _ => {},
                            }
                        },
                        _ => {},
                    }
                } else {
                    match run_instr(s[0], st, fuel) {
                        RunResult::Done(stw) => {
                            assert(run_seq(s.drop_first(), stw, fuel) == RunResult::Done(st1));
                            lemma_run_instr_wf(s[0], st, fuel);
                            lemma_compress_preserves_seq(s.drop_first(), stw, fuel);
                            let fprest = crate::optimizations::compress_spec(s.drop_first());
                            match run_seq(fprest, stw, fuel) {
                                RunResult::Done(m1) => {
                                    assert(equiv(st1, m1));
                                    match s[0] {
                                        InstrView::Loop(b) => {
                                            let rb = InstrView::Loop(
                                                crate::optimizations::compress_spec(b),
                                            );
                                            lemma_compress_loop_body(b, st, fuel);
                                            match run_instr(rb, st, fuel) {
                                                RunResult::Done(stw2) => {
                                                    assert(equiv(stw, stw2));
                                                    lemma_run_seq_cong(fprest, stw, stw2, fuel);
                                                    match run_seq(fprest, stw2, fuel) {
                                                        RunResult::Done(m2) => {
                                                            assert(equiv(m1, m2));
                                                            lemma_equiv_trans(st1, m1, m2);
                                                            assert(
                                                                crate::optimizations::compress_spec(
                                                                    s,
                                                                ) == seq![rb] + fprest);
                                                            lemma_run_seq_concat(
                                                                seq![rb],
                                                                fprest,
                                                                st,
                                                                fuel,
                                                            );
                                                            assert(seq![rb].drop_first() =~= Seq::<
                                                                InstrView,
                                                            >::empty());
                                                            assert(seq![rb][0] == rb);
                                                            assert(run_seq(
                                                                seq![rb].drop_first(),
                                                                stw2,
                                                                fuel,
                                                            ) == RunResult::Done(stw2));
                                                            assert(run_seq(seq![rb], st, fuel)
                                                                == RunResult::Done(stw2));
                                                        },
                                                        _ => {},
                                                    }
                                                },
                                                _ => {},
                                            }
                                        },
                                        _ => {
                                            assert(crate::optimizations::compress_spec(s)
                                                == seq![s[0]] + fprest);
                                            lemma_run_seq_concat(seq![s[0]], fprest, st, fuel);
                                            assert(seq![s[0]].drop_first() =~= Seq::<
                                                InstrView,
                                            >::empty());
                                            assert(seq![s[0]][0] == s[0]);
                                            assert(run_seq(seq![s[0]].drop_first(), stw, fuel)
                                                == RunResult::Done(stw));
                                            assert(run_seq(seq![s[0]], st, fuel)
                                                == RunResult::Done(stw));
                                        },
                                    }
                                },
                                _ => {},
                            }
                        },
                        _ => {},
                    }
                }
            },
            _ => {},
        }
    }
}

/// The optimizer's whole rewriting — run compaction, loop-shape
/// recognition, folding — preserves every terminating run of the
/// lifted program: same output, same input consumed, same cells, the
/// pointer on the same spot; only trailing zero cells on the tape may
/// differ.
pub proof fn lemma_optimizer_preserves(s: Seq<InstrView>, st: RunState, fuel: nat)
    requires
        st.wf(),
    ensures
        run_seq(s, st, fuel) matches RunResult::Done(st1) ==> match run_seq(
            crate::folder::fold_spec(
                crate::optimizations::small_loops_spec(
                    crate::optimizations::compress_spec(s),
                ),
            ),
            st,
            fuel,
        ) {
            RunResult::Done(st2) => equiv(st1, st2),
            _ => false,
        },
{
    match run_seq(s, st, fuel) {
        RunResult::Done(st1) => {
            lemma_compress_preserves_seq(s, st, fuel);
            lemma_optimizer_back_half_preserves(
                crate::optimizations::compress_spec(s),
                st,
                fuel,
            );
            let c = crate::optimizations::compress_spec(s);
            match run_seq(c, st, fuel) {
                RunResult::Done(m) => {
                    match run_seq(
                        crate::folder::fold_spec(crate::optimizations::small_loops_spec(c)),
                        st,
                        fuel,
                    ) {
                        RunResult::Done(m2) => {
                            lemma_equiv_trans(st1, m, m2);
                        },
                        _ => {},
                    }
                },
                _ => {},
            }
        },
        _ => {},
    }
}

} // verus!











