//! Laws of the instruction set that relate several definitions at
//! once: cell arithmetic wraps modulo 256, and a `LinearLoop`'s
//! closed form computes exactly what iterating its run would.

use vstd::prelude::*;

use crate::instructions::InstrView;
use crate::semantics::RunResult;
use crate::semantics::RunState;
use crate::semantics::apply_run;
use crate::semantics::apply_run_scaled;
use crate::semantics::cell_at;
use crate::semantics::grow;
use crate::semantics::move_ptr;
use crate::semantics::run_instr;
use crate::semantics::run_linear;
use crate::semantics::run_simple;
use crate::semantics::step_modify_run;
use crate::semantics::tape_limit;
use crate::semantics::wadd;
use crate::semantics::wmul;
use crate::semantics::wneg;

verus! {

/// Cell arithmetic wraps modulo 256: adding 255 is subtracting one,
/// so `Modify(255)` — the byte written `-1` — executed once leaves
/// exactly the state one `Decrement` leaves, whatever the state and
/// fuel.
pub proof fn lemma_wrapping_decrement(st: RunState, fuel: nat)
    ensures
        run_instr(InstrView::Modify(255), st, fuel) == run_instr(InstrView::Decrement, st, fuel),
        wadd(st.cell(), 255) == (if st.cell() == 0 {
            255
        } else {
            (st.cell() - 1) as u8
        }),
{
}

/// Growth never changes what any cell reads.
proof fn lemma_grow_cell(t: Seq<u8>, m: int)
    ensures
        forall|j: int| #![trigger cell_at(grow(t, m), j)] cell_at(grow(t, m), j) == cell_at(t, j),
        grow(t, m).len() >= m,
        grow(t, m).len() == (if m <= t.len() {
            t.len() as int
        } else {
            m
        }),
{
}

/// What each cell reads after a run is applied.
pub proof fn lemma_apply_run_char(t: Seq<u8>, b: int, d: Seq<u8>, n: int)
    requires
        0 <= b,
        0 <= n <= d.len(),
        b + n <= t.len(),
    ensures
        apply_run(t, b, d, n).len() == t.len(),
        forall|j: int|
            #![trigger cell_at(apply_run(t, b, d, n), j)]
            cell_at(apply_run(t, b, d, n), j) == (if b <= j < b + n {
                wadd(cell_at(t, j), d[j - b])
            } else {
                cell_at(t, j)
            }),
    decreases n,
{
    if n > 0 {
        lemma_apply_run_char(t, b, d, n - 1);
        let prev = apply_run(t, b, d, n - 1);
        let cur = apply_run(t, b, d, n);
        assert(cur == prev.update(b + n - 1, wadd(cell_at(prev, b + n - 1), d[n - 1])));
        assert forall|j: int|
            cell_at(cur, j) == (if b <= j < b + n {
                wadd(cell_at(t, j), d[j - b])
            } else {
                cell_at(t, j)
            }) by {
            if j == b + n - 1 {
                assert(cell_at(prev, j) == cell_at(t, j));
                assert(cell_at(cur, j) == wadd(cell_at(t, j), d[j - b]));
            } else if 0 <= j < t.len() {
                assert(cell_at(cur, j) == cell_at(prev, j));
            } else {
                assert(cell_at(cur, j) == 0);
                assert(cell_at(prev, j) == 0);
            }
        }
    }
}

/// What each cell reads after a run is applied scaled.
pub proof fn lemma_apply_run_scaled_char(t: Seq<u8>, b: int, d: Seq<u8>, n: int, q: u8)
    requires
        0 <= b,
        0 <= n <= d.len(),
        b + n <= t.len(),
    ensures
        apply_run_scaled(t, b, d, n, q).len() == t.len(),
        forall|j: int|
            #![trigger cell_at(apply_run_scaled(t, b, d, n, q), j)]
            cell_at(apply_run_scaled(t, b, d, n, q), j) == (if b <= j < b + n {
                wadd(cell_at(t, j), wmul(d[j - b], q))
            } else {
                cell_at(t, j)
            }),
    decreases n,
{
    if n > 0 {
        lemma_apply_run_scaled_char(t, b, d, n - 1, q);
        let prev = apply_run_scaled(t, b, d, n - 1, q);
        let cur = apply_run_scaled(t, b, d, n, q);
        assert(cur == prev.update(b + n - 1, wadd(cell_at(prev, b + n - 1), wmul(d[n - 1], q))));
        assert forall|j: int|
            cell_at(cur, j) == (if b <= j < b + n {
                wadd(cell_at(t, j), wmul(d[j - b], q))
            } else {
                cell_at(t, j)
            }) by {
            if j == b + n - 1 {
                assert(cell_at(prev, j) == cell_at(t, j));
                assert(cell_at(cur, j) == wadd(cell_at(t, j), wmul(d[j - b], q)));
            } else if 0 <= j < t.len() {
                assert(cell_at(cur, j) == cell_at(prev, j));
            } else {
                assert(cell_at(cur, j) == 0);
                assert(cell_at(prev, j) == 0);
            }
        }
    }
}

/// Adding a delta once more on top of `k` scaled copies gives `k + 1`
/// scaled copies.
proof fn lemma_wadd_accumulate(c: u8, d: u8, k: u8)
    requires
        k < 255,
    ensures
        wadd(wadd(c, d), wmul(d, k)) == wadd(c, wmul(d, (k + 1) as u8)),
{
    let m: int = 256;
    assert(d * (k + 1) == d * k + d) by (nonlinear_arith);
    vstd::arithmetic::div_mod::lemma_add_mod_noop(c + d, d * k, m);
    vstd::arithmetic::div_mod::lemma_add_mod_noop(c as int, d * (k + 1), m);
    vstd::arithmetic::div_mod::lemma_add_mod_noop(c as int, d * k + d, m);
    vstd::arithmetic::div_mod::lemma_mod_twice(c + d, m);
    vstd::arithmetic::div_mod::lemma_mod_twice(d * k, m);
    vstd::arithmetic::div_mod::lemma_mod_twice(d * (k + 1), m);
    assert(((c + d) % 256 + (d * k) % 256) % 256 == ((c + d) + d * k) % 256);
    assert((c + (d * (k + 1)) % 256) % 256 == (c + d * (k + 1)) % 256);
}

/// The state the closed form of a linear loop produces.
pub open spec fn scaled_state(st: RunState, b: int, d: Seq<u8>, q: u8) -> RunState {
    RunState {
        tape: apply_run_scaled(grow(st.tape, b + d.len()), b, d, d.len() as int, q),
        ..st
    }
}

/// Iterating the run of a linear loop until the guard cell reaches
/// zero leaves exactly the closed form's state.
proof fn lemma_simple_reaches_scaled(
    st: RunState,
    offset: int,
    factor: u8,
    data: Seq<u8>,
    fuel: nat,
)
    requires
        factor != 0,
        offset <= 0,
        -offset < data.len(),
        data[-offset] == wneg(factor),
        st.cell() % factor == 0,
        st.cell() != 0,
        fuel >= st.cell() / factor,
        st.ptr + offset >= 0,
        st.ptr + offset + data.len() <= tape_limit(),
        0 <= st.ptr,
    ensures
        run_simple(st, 0, offset, data, fuel) == RunResult::Done(
            scaled_state(st, st.ptr + offset, data, (st.cell() / factor) as u8),
        ),
    decreases st.cell(),
{
    let c = st.cell();
    let q = (c / factor) as u8;
    let b = st.ptr + offset;
    let n = data.len() as int;
    let grown = grow(st.tape, b + n);
    lemma_grow_cell(st.tape, b + n);
    lemma_apply_run_char(grown, b, data, n);
    let t1 = apply_run(grown, b, data, n);
    // one pass of the run
    assert(step_modify_run(st, 0, offset, data) == move_ptr(RunState { tape: t1, ..st }, 0));
    assert(grow(t1, st.ptr + 1) == t1) by {
        assert(t1.len() >= b + n);
        assert(b + n >= st.ptr + 1);
    }
    let st1 = RunState { tape: t1, ..st };
    assert(move_ptr(st1, 0) == RunResult::Done(st1));
    // the guard cell went down by exactly the factor
    assert(cell_at(t1, st.ptr) == wadd(c, wneg(factor)));
    assert(c >= factor) by (nonlinear_arith)
        requires
            factor > 0,
            c > 0,
            c % factor == 0,
    ;
    assert(wadd(c, wneg(factor)) == (c - factor) as u8);
    assert(st1.cell() == c - factor);
    assert((c - factor) as int % factor as int == 0) by {
        vstd::arithmetic::div_mod::lemma_mod_sub_multiples_vanish(c as int, factor as int);
    }
    assert((c - factor) as int / factor as int == q - 1) by {
        vstd::arithmetic::div_mod::lemma_fundamental_div_mod(c as int, factor as int);
        assert(c == (c as int / factor as int) * factor);
        assert((c - factor) as int == (q - 1) * factor as int) by (nonlinear_arith)
            requires
                c == (c as int / factor as int) * factor,
                q == c as int / factor as int,
                factor > 0,
        ;
        vstd::arithmetic::div_mod::lemma_fundamental_div_mod_converse_div(
            (c - factor) as int,
            factor as int,
            q - 1,
            0,
        );
    }
    if st1.cell() == 0 {
        // the loop exits after this pass
        assert(q == 1) by {
            assert(c == factor);
            vstd::arithmetic::div_mod::lemma_fundamental_div_mod_converse_div(
                c as int,
                factor as int,
                1,
                0,
            );
        }
        assert(run_simple(st1, 0, offset, data, (fuel - 1) as nat) == RunResult::Done(st1));
        assert(run_simple(st, 0, offset, data, fuel) == RunResult::Done(st1));
        lemma_apply_run_scaled_char(grown, b, data, n, q);
        assert forall|j: int|
            0 <= j < t1.len() implies t1[j] == apply_run_scaled(grown, b, data, n, q)[j] by {
            assert(cell_at(t1, j) == cell_at(apply_run_scaled(grown, b, data, n, q), j)) by {
                if b <= j < b + n {
                    assert(wmul(data[j - b], 1) == data[j - b]);
                }
            }
        }
        assert(t1 =~= apply_run_scaled(grown, b, data, n, q));
    } else {
        lemma_simple_reaches_scaled(st1, offset, factor, data, (fuel - 1) as nat);
        assert(run_simple(st, 0, offset, data, fuel) == RunResult::Done(
            scaled_state(st1, b, data, (q - 1) as u8),
        ));
        // one pass then k more scaled copies is k + 1 scaled copies
        let g1 = grow(t1, b + n);
        assert(g1 == t1);
        lemma_apply_run_scaled_char(t1, b, data, n, (q - 1) as u8);
        lemma_apply_run_scaled_char(grown, b, data, n, q);
        let lhs = apply_run_scaled(t1, b, data, n, (q - 1) as u8);
        let rhs = apply_run_scaled(grown, b, data, n, q);
        assert forall|j: int| 0 <= j < lhs.len() implies lhs[j] == rhs[j] by {
            assert(cell_at(lhs, j) == cell_at(rhs, j)) by {
                if b <= j < b + n {
                    assert(q - 1 < 255);
                    lemma_wadd_accumulate(cell_at(grown, j), data[j - b], (q - 1) as u8);
                }
            }
        }
        assert(lhs =~= rhs);
        assert(scaled_state(st1, b, data, (q - 1) as u8) == scaled_state(st, b, data, q));
    }
}

/// Soundness of the linear loop: when the factor evenly divides the
/// guard cell, the closed-form pass leaves exactly the state that
/// iterating the run as a `SimpleLoop` until the cell reaches zero
/// would, given fuel for those iterations.
pub proof fn lemma_linear_loop_sound(
    st: RunState,
    offset: int,
    factor: u8,
    data: Seq<u8>,
    fuel: nat,
)
    requires
        factor != 0,
        offset <= 0,
        -offset < data.len(),
        data[-offset] == wneg(factor),
        st.cell() % factor == 0,
        fuel >= st.cell() / factor,
        0 <= st.ptr,
    ensures
        run_linear(st, offset, factor, data, fuel) == run_simple(st, 0, offset, data, fuel),
{
    let c = st.cell();
    if c == 0 {
    } else {
        let b = st.ptr + offset;
        let n = data.len() as int;
        assert(c / factor >= 1) by {
            vstd::arithmetic::div_mod::lemma_fundamental_div_mod(c as int, factor as int);
        }
        if b < 0 {
            assert(run_linear(st, offset, factor, data, fuel) == RunResult::Underflow);
            assert(step_modify_run(st, 0, offset, data) == RunResult::Underflow);
            assert(run_simple(st, 0, offset, data, fuel) == RunResult::Underflow);
        } else if b + n > tape_limit() {
            assert(run_linear(st, offset, factor, data, fuel) == RunResult::Overflow);
            assert(step_modify_run(st, 0, offset, data) == RunResult::Overflow);
            assert(run_simple(st, 0, offset, data, fuel) == RunResult::Overflow);
        } else {
            lemma_simple_reaches_scaled(st, offset, factor, data, fuel);
            assert(run_linear(st, offset, factor, data, fuel) == RunResult::Done(
                scaled_state(st, b, data, (c / factor) as u8),
            ));
        }
    }
}


/// A linear loop's iterative form finishes only when the fuel covers
/// the quotient: each pass costs one unit and lowers the guard cell
/// by exactly the factor.
pub proof fn lemma_simple_fuel(st: RunState, offset: int, factor: u8, data: Seq<u8>, fuel: nat)
    requires
        factor != 0,
        offset <= 0,
        -offset < data.len(),
        data[-offset] == wneg(factor),
        st.cell() % factor == 0,
        0 <= st.ptr,
        run_simple(st, 0, offset, data, fuel) is Done,
    ensures
        fuel >= st.cell() / factor,
    decreases st.cell(),
{
    let c = st.cell();
    if c != 0 {
        let q = c / factor;
        let b = st.ptr + offset;
        let n = data.len() as int;
        assert(fuel > 0);
        assert(c >= factor) by (nonlinear_arith)
            requires
                factor > 0,
                c > 0,
                c % factor == 0,
        ;
        assert(q >= 1) by {
            vstd::arithmetic::div_mod::lemma_fundamental_div_mod(c as int, factor as int);
            assert(c == factor * q);
            if q <= 0 {
                assert(factor * q <= 0) by (nonlinear_arith)
                    requires
                        factor > 0,
                        q <= 0,
                ;
            }
        }
        match step_modify_run(st, 0, offset, data) {
            RunResult::Done(st1) => {
                let grown = grow(st.tape, b + n);
                lemma_grow_cell(st.tape, b + n);
                lemma_apply_run_char(grown, b, data, n);
                assert(grow(apply_run(grown, b, data, n), st.ptr + 1) == apply_run(
                    grown,
                    b,
                    data,
                    n,
                ));
                assert(st1.cell() == wadd(c, wneg(factor)));
                assert(st1.cell() == c - factor);
                assert((c - factor) as int % factor as int == 0) by {
                    vstd::arithmetic::div_mod::lemma_mod_sub_multiples_vanish(
                        c as int,
                        factor as int,
                    );
                }
                assert((c - factor) as int / factor as int == q - 1) by {
                    vstd::arithmetic::div_mod::lemma_fundamental_div_mod(c as int, factor as int);
                    assert(c == (c as int / factor as int) * factor);
                    assert((c - factor) as int == (q - 1) * factor as int) by (nonlinear_arith)
                        requires
                            c == (c as int / factor as int) * factor,
                            q == c as int / factor as int,
                            factor > 0,
                    ;
                    vstd::arithmetic::div_mod::lemma_fundamental_div_mod_converse_div(
                        (c - factor) as int,
                        factor as int,
                        q - 1,
                        0,
                    );
                }
                lemma_simple_fuel(st1, offset, factor, data, (fuel - 1) as nat);
            },
            _ => {},
        }
    }
}

} // verus!

