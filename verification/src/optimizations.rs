//! The optimizer: loop lifting, run compaction, loop-shape
//! recognition, and (in the `folder` module) adjacent-instruction
//! folding.
//!
//! Loop lifting turns the flat token stream into a forest in which
//! each bracketed region is a `Loop` node, reporting unmatched
//! brackets.  Its contract pins the output as the unique forest that
//! flattens back to the token stream.

use vstd::prelude::*;
use vstd::string::StringSliceAdditionalSpecFns;

use crate::errors::CompileError;
use crate::instructions::InstrView;
use crate::instructions::Instruction;
use crate::instructions::height_seq;
use crate::instructions::is_primitive;
use crate::instructions::iview;
use crate::instructions::iview_seq;
use crate::instructions::lemma_iview_seq_index;
use crate::instructions::lemma_iview_seq_push;
use crate::instructions::primitives_only;
use crate::semantics::wadd;
use crate::semantics::wneg;

verus! {

/// The token stream an instruction came from: a `Loop` flattens to
/// its body between a bracket pair; everything else is one token.
pub open spec fn flatten_instr(i: InstrView) -> Seq<InstrView>
    decreases i,
{
    match i {
        InstrView::Loop(body) => seq![InstrView::BlockStart] + flatten_seq(body) + seq![
            InstrView::BlockEnd,
        ],
        _ => seq![i],
    }
}

/// `flatten_instr` over a sibling sequence, in order.
pub open spec fn flatten_seq(s: Seq<InstrView>) -> Seq<InstrView>
    decreases s,
{
    if s.len() == 0 {
        Seq::empty()
    } else {
        flatten_instr(s[0]) + flatten_seq(s.drop_first())
    }
}

/// Flattening distributes over `push`.
pub proof fn lemma_flatten_push(s: Seq<InstrView>, x: InstrView)
    ensures
        flatten_seq(s.push(x)) == flatten_seq(s) + flatten_instr(x),
    decreases s.len(),
{
    let p = s.push(x);
    if s.len() == 0 {
        assert(p[0] == x);
        assert(p.drop_first() =~= Seq::<InstrView>::empty());
        assert(flatten_seq(p.drop_first()) == Seq::<InstrView>::empty());
        assert(flatten_seq(p) == flatten_instr(x) + Seq::<InstrView>::empty());
        assert(flatten_instr(x) + Seq::<InstrView>::empty() =~= flatten_seq(s) + flatten_instr(
            x,
        ));
    } else {
        lemma_flatten_push(s.drop_first(), x);
        assert(p[0] == s[0]);
        assert(p.drop_first() =~= s.drop_first().push(x));
        assert(flatten_seq(p) == flatten_instr(s[0]) + (flatten_seq(s.drop_first())
            + flatten_instr(x)));
        assert(flatten_instr(s[0]) + (flatten_seq(s.drop_first()) + flatten_instr(x)) =~= (
        flatten_instr(s[0]) + flatten_seq(s.drop_first())) + flatten_instr(x));
    }
}

/// Bracket depth after the first `i` tokens.
pub open spec fn depth(s: Seq<InstrView>, i: int) -> int
    decreases i,
{
    if i <= 0 {
        0
    } else {
        depth(s, i - 1) + if s[i - 1] == InstrView::BlockStart {
            1
        } else if s[i - 1] == InstrView::BlockEnd {
            -1
        } else {
            0
        }
    }
}

/// Every `[` is closed and every `]` was opened: the depth never goes
/// negative and ends at zero.
pub open spec fn balanced(s: Seq<InstrView>) -> bool {
    &&& depth(s, s.len() as int) == 0
    &&& forall|i: int| 0 <= i <= s.len() ==> depth(s, i) >= 0
}

/// Token `p` is the first `]` that closes nothing.
pub open spec fn close_violation_at(s: Seq<InstrView>, p: int) -> bool {
    &&& 0 <= p < s.len()
    &&& s[p] == InstrView::BlockEnd
    &&& depth(s, p) == 0
    &&& forall|j: int| 0 <= j < p ==> !(s[j] == InstrView::BlockEnd && depth(s, j) == 0)
}

/// No `]` in the stream closes nothing.
pub open spec fn no_close_violation(s: Seq<InstrView>) -> bool {
    forall|j: int| 0 <= j < s.len() ==> !(s[j] == InstrView::BlockEnd && depth(s, j) == 0)
}

/// The `[` at token `q` is still open after the first `i` tokens: the
/// depth never returns to what it was when that bracket opened.
pub open spec fn open_pending(s: Seq<InstrView>, q: int, i: int) -> bool {
    &&& 0 <= q < i
    &&& s[q] == InstrView::BlockStart
    &&& forall|k: int| q < k <= i ==> depth(s, k) > depth(s, q)
}

/// A lifted forest: only the six effectful primitive symbols and
/// `Loop` nodes, at every nesting depth.  Bare brackets are gone.
pub open spec fn lifted_instr(i: InstrView) -> bool
    decreases i,
{
    match i {
        InstrView::Increment => true,
        InstrView::Decrement => true,
        InstrView::Right => true,
        InstrView::Left => true,
        InstrView::Print => true,
        InstrView::Read => true,
        InstrView::Loop(body) => lifted_seq(body),
        _ => false,
    }
}

/// `lifted_instr` over a sibling sequence.
pub open spec fn lifted_seq(s: Seq<InstrView>) -> bool
    decreases s,
{
    forall|i: int| 0 <= i < s.len() ==> lifted_instr(#[trigger] s[i])
}

/// A fresh copy of a primitive symbol.
fn copy_primitive(i: &Instruction) -> (r: Instruction)
    requires
        is_primitive(*i),
    ensures
        r == *i,
{
    match i {
        Instruction::Increment => Instruction::Increment,
        Instruction::Decrement => Instruction::Decrement,
        Instruction::Right => Instruction::Right,
        Instruction::Left => Instruction::Left,
        Instruction::Print => Instruction::Print,
        Instruction::Read => Instruction::Read,
        Instruction::BlockStart => Instruction::BlockStart,
        _ => Instruction::BlockEnd,
    }
}

/// The tokens that the still-open loop levels have consumed: for each
/// level, its buffered body followed by the `[` that opened the next
/// level.
pub open spec fn stack_flat(st: Seq<(usize, Vec<Instruction>)>) -> Seq<InstrView>
    decreases st,
{
    if st.len() == 0 {
        Seq::empty()
    } else {
        stack_flat(st.drop_last()) + flatten_seq(iview_seq(st.last().1@)) + seq![
            InstrView::BlockStart,
        ]
    }
}

/// Lift each bracket-matched region of the token stream into a nested
/// `Loop` node.
///
/// On success the result is the unique lifted forest that flattens
/// back to the token stream; the stream must have balanced brackets,
/// and is rejected otherwise: a `]` closing nothing is reported at the
/// first such `]`, and a `[` never closed is reported at the innermost
/// such `[`.
pub fn collect_loops(input: &[Instruction]) -> (r: Result<Vec<Instruction>, CompileError>)
    requires
        primitives_only(input@),
    ensures
        r is Ok <==> balanced(iview_seq(input@)),
        r matches Ok(tree) ==> {
            &&& lifted_seq(iview_seq(tree@))
            &&& flatten_seq(iview_seq(tree@)) == iview_seq(input@)
        },
        r matches Err(e) ==> match e {
            CompileError::UnmatchedClose { position } => close_violation_at(
                iview_seq(input@),
                position as int,
            ),
            CompileError::UnmatchedOpen { position } => {
                &&& open_pending(iview_seq(input@), position as int, input@.len() as int)
                &&& forall|q: int|
                    position < q < input@.len() ==> !open_pending(
                        iview_seq(input@),
                        q,
                        input@.len() as int,
                    )
                &&& no_close_violation(iview_seq(input@))
            },
        },
{
    let ghost t = iview_seq(input@);
    proof {
        lemma_iview_seq_index(input@);
    }
    let mut stack: Vec<(usize, Vec<Instruction>)> = Vec::new();
    let mut cur: Vec<Instruction> = Vec::new();
    proof {
        assert(iview_seq(cur@) =~= Seq::<InstrView>::empty());
        assert(stack_flat(stack@) + flatten_seq(iview_seq(cur@)) =~= t.take(0));
    }
    let mut i: usize = 0;
    while i < input.len()
        invariant
            t == iview_seq(input@),
            t.len() == input@.len(),
            forall|j: int| 0 <= j < input@.len() ==> t[j] == iview(#[trigger] input@[j]),
            primitives_only(input@),
            i <= input@.len(),
            stack@.len() == depth(t, i as int),
            forall|k: int| 0 <= k <= i ==> depth(t, k) >= 0,
            stack_flat(stack@) + flatten_seq(iview_seq(cur@)) == t.take(i as int),
            lifted_seq(iview_seq(cur@)),
            forall|j: int|
                0 <= j < stack@.len() ==> lifted_seq(iview_seq(#[trigger] stack@[j].1@)),
            forall|j: int|
                0 <= j < stack@.len() ==> {
                    &&& (#[trigger] stack@[j].0) < i
                    &&& t[stack@[j].0 as int] == InstrView::BlockStart
                    &&& depth(t, stack@[j].0 as int) == j
                    &&& forall|k: int| stack@[j].0 < k <= i ==> depth(t, k) > j
                },
            forall|j: int| 0 <= j < i ==> !(t[j] == InstrView::BlockEnd && depth(t, j) == 0),
            forall|q: int|
                0 <= q < i && #[trigger] open_pending(t, q, i as int) ==> exists|j: int|
                    0 <= j < stack@.len() && (#[trigger] stack@[j].0) as int == q,
            forall|j1: int, j2: int|
                0 <= j1 < j2 < stack@.len() ==> (#[trigger] stack@[j1].0) < (
                #[trigger] stack@[j2].0),
        decreases input@.len() - i,
    {
        let op = &input[i];
        proof {
            assert(t.take(i + 1) =~= t.take(i as int).push(t[i as int]));
        }
        match op {
            Instruction::BlockStart => {
                let ghost stack0 = stack@;
                let ghost cur0 = cur@;
                stack.push((i, cur));
                cur = Vec::new();
                proof {
                    assert(stack@.drop_last() =~= stack0);
                    assert(iview_seq(cur@) =~= Seq::<InstrView>::empty());
                    assert(stack_flat(stack@) == stack_flat(stack0) + flatten_seq(
                        iview_seq(cur0),
                    ) + seq![InstrView::BlockStart]);
                    assert(stack_flat(stack@) + flatten_seq(iview_seq(cur@)) =~= t.take(i + 1));
                    assert forall|j: int|
                        0 <= j < stack@.len() implies lifted_seq(
                        iview_seq(#[trigger] stack@[j].1@),
                    ) by {
                        if j < stack0.len() {
                            assert(stack@[j] == stack0[j]);
                            assert(lifted_seq(iview_seq(stack0[j].1@)));
                        } else {
                            assert(stack@[j].1@ == cur0);
                            assert(lifted_seq(iview_seq(cur0)));
                        }
                    }
                    assert forall|q: int|
                        0 <= q < i + 1 && #[trigger] open_pending(t, q, i + 1) implies exists|
                        j: int,
                    |
                        0 <= j < stack@.len() && (#[trigger] stack@[j].0) as int == q by {
                        if q == i {
                            assert(stack@[stack@.len() - 1].0 as int == q);
                        } else {
                            assert(open_pending(t, q, i as int));
                            let j = choose|j: int|
                                0 <= j < stack0.len() && (#[trigger] stack0[j].0) as int == q;
                            assert(stack@[j].0 as int == q);
                        }
                    }
                }
            },
            Instruction::BlockEnd => {
                if stack.len() == 0 {
                    proof {
                        assert(depth(t, i + 1) == -1);
                        assert(!balanced(t));
                    }
                    return Err(CompileError::UnmatchedClose { position: i });
                }
                let ghost stack0 = stack@;
                proof {
                    assert(depth(t, i as int) == stack0.len());
                    assert(depth(t, i as int) != 0);
                }
                let popped = stack.pop();
                match popped {
                    Some(pair) => {
                        let mut outer = pair.1;
                        let ghost outer0 = outer@;
                        let ghost cur0 = cur@;
                        outer.push(Instruction::Loop(cur));
                        proof {
                            let elem = outer@.last();
                            assert(outer@ == outer0.push(elem));
                            assert(iview(elem) == InstrView::Loop(iview_seq(cur0)));
                            lemma_iview_seq_push(outer0, elem);
                            lemma_flatten_push(iview_seq(outer0), iview(elem));
                            assert(stack@ =~= stack0.drop_last());
                            assert forall|j: int|
                                0 <= j < stack@.len() implies #[trigger] stack@[j] == stack0[j] by {
                            }
                            assert forall|j: int|
                                0 <= j < stack@.len() implies lifted_seq(
                                iview_seq(#[trigger] stack@[j].1@),
                            ) by {
                                assert(stack@[j] == stack0[j]);
                                assert(lifted_seq(iview_seq(stack0[j].1@)));
                            }
                            assert(stack_flat(stack0) == stack_flat(stack@) + flatten_seq(
                                iview_seq(outer0),
                            ) + seq![InstrView::BlockStart]);
                            assert(iview_seq(outer@) =~= iview_seq(outer0).push(iview(elem)));
                            assert(flatten_seq(iview_seq(outer@)) =~= flatten_seq(
                                iview_seq(outer0),
                            ) + flatten_instr(iview(elem)));
                            assert(stack_flat(stack@) + flatten_seq(iview_seq(outer@)) =~= t.take(
                                i + 1,
                            ));
                            assert(lifted_instr(iview(elem)));
                            assert forall|q: int|
                                0 <= q < i + 1 && #[trigger] open_pending(t, q, i + 1) implies
                                exists|j: int|
                                0 <= j < stack@.len() && (#[trigger] stack@[j].0) as int == q by {
                                assert(open_pending(t, q, i as int));
                                assert(exists|j: int|
                                    0 <= j < stack0.len() && (#[trigger] stack0[j].0) as int == q);
                                let j = choose|j: int|
                                    0 <= j < stack0.len() && (#[trigger] stack0[j].0) as int == q;
                                if j == stack0.len() - 1 {
                                    assert(depth(t, q) == j);
                                    assert(depth(t, i + 1) == stack0.len() - 1);
                                    assert(depth(t, i + 1) > depth(t, q));
                                    assert(false);
                                } else {
                                    assert(0 <= j < stack@.len());
                                    assert(stack@[j].0 as int == q);
                                }
                            }
                        }
                        cur = outer;
                    },
                    None => {
                        proof {
                            assert(false);
                        }
                        return Err(CompileError::UnmatchedClose { position: i });
                    },
                }
            },
            _ => {
                let c = copy_primitive(op);
                let ghost cur0 = cur@;
                proof {
                    lemma_iview_seq_push(cur@, *op);
                    lemma_flatten_push(iview_seq(cur@), iview(*op));
                }
                cur.push(c);
                proof {
                    assert(iview_seq(cur@) == iview_seq(cur0) + seq![iview(*op)]);
                    assert(iview_seq(cur@) =~= iview_seq(cur0).push(iview(*op)));
                    assert(flatten_instr(iview(*op)) =~= seq![t[i as int]]);
                    assert(stack_flat(stack@) + flatten_seq(iview_seq(cur@)) =~= t.take(i + 1));
                    assert(lifted_instr(iview(*op)));
                    assert forall|j: int|
                        0 <= j < iview_seq(cur@).len() implies lifted_instr(
                        #[trigger] iview_seq(cur@)[j],
                    ) by {
                        if j < iview_seq(cur0).len() {
                            assert(iview_seq(cur@)[j] == iview_seq(cur0)[j]);
                        }
                    }
                    assert(t[i as int] != InstrView::BlockStart);
                    assert(depth(t, i + 1) == depth(t, i as int));
                    assert forall|q: int|
                        0 <= q < i + 1 && #[trigger] open_pending(t, q, i + 1) implies exists|
                        j: int,
                    |
                        0 <= j < stack@.len() && (#[trigger] stack@[j].0) as int == q by {
                        assert(open_pending(t, q, i as int));
                    }
                }
            },
        }
        i = i + 1;
    }
    if stack.len() > 0 {
        let position = stack[stack.len() - 1].0;
        proof {
            assert(depth(t, t.len() as int) == stack@.len());
            assert(!balanced(t));
            assert(open_pending(t, position as int, t.len() as int));
            assert forall|q: int|
                position < q < input@.len() implies !open_pending(t, q, input@.len() as int) by {
                if open_pending(t, q, input@.len() as int) {
                    let j = choose|j: int|
                        0 <= j < stack@.len() && (#[trigger] stack@[j].0) as int == q;
                    if j < stack@.len() - 1 {
                        assert(stack@[j].0 < stack@[stack@.len() - 1].0);
                    }
                    assert(false);
                }
            }
        }
        return Err(CompileError::UnmatchedOpen { position });
    }
    proof {
        assert(t.take(t.len() as int) =~= t);
        assert(stack_flat(stack@) =~= Seq::<InstrView>::empty());
        assert(flatten_seq(iview_seq(cur@)) == t);
        assert(balanced(t));
    }
    Ok(cur)
}


/// The four symbols a run is made of.
pub open spec fn is_run_sym(i: InstrView) -> bool {
    match i {
        InstrView::Increment => true,
        InstrView::Decrement => true,
        InstrView::Right => true,
        InstrView::Left => true,
        _ => false,
    }
}

/// Length of the maximal prefix of run symbols.
pub open spec fn run_prefix_len(s: Seq<InstrView>) -> int
    decreases s,
{
    if s.len() == 0 || !is_run_sym(s[0]) {
        0
    } else {
        1 + run_prefix_len(s.drop_first())
    }
}

/// A run prefix never runs past the sequence.
pub proof fn lemma_run_prefix_bounds(s: Seq<InstrView>)
    ensures
        0 <= run_prefix_len(s) <= s.len(),
        s.len() > 0 && is_run_sym(s[0]) ==> 1 <= run_prefix_len(s),
    decreases s.len(),
{
    if s.len() > 0 && is_run_sym(s[0]) {
        lemma_run_prefix_bounds(s.drop_first());
    }
}

/// A prefix of run symbols that is not followed by another run symbol
/// is the maximal one.
pub proof fn lemma_run_prefix(s: Seq<InstrView>, n: int)
    requires
        0 <= n <= s.len(),
        forall|k: int| 0 <= k < n ==> is_run_sym(#[trigger] s[k]),
        n == s.len() || !is_run_sym(s[n]),
    ensures
        run_prefix_len(s) == n,
    decreases n,
{
    if n > 0 {
        lemma_run_prefix(s.drop_first(), n - 1);
        assert(forall|k: int| 0 <= k < n - 1 ==> s.drop_first()[k] == s[k + 1]);
    }
}

/// The virtual cursor a run is folded through: per-cell deltas around
/// the starting cell, the displacement of the leftmost delta, and the
/// cursor's place inside the deltas.
pub struct RunAcc {
    /// Index of the cursor within `data`.
    pub cursor: int,
    /// Displacement of `data[0]` from the cell the run started on.
    pub offset: int,
    /// The per-cell deltas gathered so far.
    pub data: Seq<u8>,
}

/// One run symbol folded into the accumulator.
pub open spec fn run_step(acc: RunAcc, i: InstrView) -> RunAcc {
    match i {
        InstrView::Increment => RunAcc {
            data: acc.data.update(acc.cursor, wadd(acc.data[acc.cursor], 1)),
            ..acc
        },
        InstrView::Decrement => RunAcc {
            data: acc.data.update(acc.cursor, wadd(acc.data[acc.cursor], 255)),
            ..acc
        },
        InstrView::Right => RunAcc {
            cursor: acc.cursor + 1,
            data: if acc.cursor + 1 >= acc.data.len() {
                acc.data.push(0)
            } else {
                acc.data
            },
            ..acc
        },
        InstrView::Left => {
            if acc.cursor > 0 {
                RunAcc { cursor: acc.cursor - 1, ..acc }
            } else {
                RunAcc { offset: acc.offset - 1, data: seq![0u8] + acc.data, ..acc }
            }
        },
        _ => acc,
    }
}

/// A whole run folded left to right, starting from one untouched cell
/// under the cursor.
pub open spec fn run_sim(s: Seq<InstrView>) -> RunAcc
    decreases s.len(),
{
    if s.len() == 0 {
        RunAcc { cursor: 0, offset: 0, data: seq![0u8] }
    } else {
        run_step(run_sim(s.drop_last()), s.last())
    }
}

/// The deltas with trailing zeroes removed.
pub open spec fn trim_back(d: Seq<u8>) -> Seq<u8>
    decreases d.len(),
{
    if d.len() > 0 && d.last() == 0 {
        trim_back(d.drop_last())
    } else {
        d
    }
}

/// How many zeroes lead the deltas.
pub open spec fn lead_zeros(d: Seq<u8>) -> int
    decreases d.len(),
{
    if d.len() > 0 && d[0] == 0 {
        1 + lead_zeros(d.drop_first())
    } else {
        0
    }
}

/// The instructions a summarized run compiles to: nothing for a pure
/// no-op, a bare `Shift`, a one-cell `Modify`/`ModifyOffset` with its
/// shift, or a full `ModifyRun`.
pub open spec fn emit_run(offset: int, data: Seq<u8>, shift: int) -> Seq<InstrView> {
    let dt = trim_back(data);
    let lz = lead_zeros(dt);
    let d2 = dt.skip(lz);
    let o2 = offset + lz;
    if d2.len() == 0 {
        if shift == 0 {
            Seq::empty()
        } else {
            seq![InstrView::Shift(shift)]
        }
    } else if d2.len() == 1 && o2 == 0 {
        if shift == 0 {
            seq![InstrView::Modify(d2[0])]
        } else {
            seq![InstrView::Modify(d2[0]), InstrView::Shift(shift)]
        }
    } else if d2.len() == 1 {
        if shift == 0 {
            seq![InstrView::ModifyOffset(d2[0], o2)]
        } else {
            seq![InstrView::ModifyOffset(d2[0], o2), InstrView::Shift(shift)]
        }
    } else {
        seq![InstrView::ModifyRun { shift: shift, offset: o2, data: d2 }]
    }
}

/// Run compaction: every maximal run of `+ - < >` becomes its
/// summary's emission; loop bodies are compacted recursively;
/// everything else is kept.
pub open spec fn compress_spec(s: Seq<InstrView>) -> Seq<InstrView>
    decreases s,
    via compress_spec_decreases
{
    if s.len() == 0 {
        Seq::empty()
    } else if is_run_sym(s[0]) {
        let n = run_prefix_len(s);
        let acc = run_sim(s.take(n));
        emit_run(acc.offset, acc.data, acc.cursor + acc.offset) + compress_spec(s.skip(n))
    } else {
        match s[0] {
            InstrView::Loop(b) => seq![InstrView::Loop(compress_spec(b))] + compress_spec(
                s.drop_first(),
            ),
            _ => seq![s[0]] + compress_spec(s.drop_first()),
        }
    }
}

#[via_fn]
proof fn compress_spec_decreases(s: Seq<InstrView>) {
    if s.len() > 0 && is_run_sym(s[0]) {
        lemma_run_prefix_bounds(s);
    }
}

/// Whether this instruction is one of the four run symbols.
fn is_run_instr(i: &Instruction) -> (r: bool)
    ensures
        r == is_run_sym(iview(*i)),
{
    match i {
        Instruction::Increment => true,
        Instruction::Decrement => true,
        Instruction::Right => true,
        Instruction::Left => true,
        _ => false,
    }
}


/// Every sibling sequence, at every nesting depth, fits the machine's
/// signed range.  True of anything loop lifting built from a real
/// token slice, and needed so a run's displacements fit in `isize`.
pub open spec fn len_bounded(s: Seq<InstrView>) -> bool
    decreases s,
{
    &&& s.len() <= isize::MAX
    &&& forall|i: int|
        0 <= i < s.len() ==> match #[trigger] s[i] {
            InstrView::Loop(b) => len_bounded(b),
            _ => true,
        }
}

/// A forest never flattens to fewer tokens than it has nodes, and a
/// member's flattening is part of the whole.
pub proof fn lemma_flatten_len(s: Seq<InstrView>)
    ensures
        flatten_seq(s).len() >= s.len(),
        forall|i: int|
            0 <= i < s.len() ==> flatten_seq(s).len() >= flatten_instr(#[trigger] s[i]).len(),
    decreases s.len(),
{
    if s.len() > 0 {
        lemma_flatten_len(s.drop_first());
        assert(flatten_instr(s[0]).len() >= 1);
        assert forall|i: int|
            0 <= i < s.len() implies flatten_seq(s).len() >= flatten_instr(
            #[trigger] s[i],
        ).len() by {
            if i > 0 {
                assert(s.drop_first()[i - 1] == s[i]);
            }
        }
    }
}

/// A forest whose flattening fits the signed range is bounded at
/// every nesting depth.
pub proof fn lemma_len_bounded(s: Seq<InstrView>)
    requires
        flatten_seq(s).len() <= isize::MAX,
    ensures
        len_bounded(s),
    decreases s,
{
    lemma_flatten_len(s);
    assert forall|i: int|
        0 <= i < s.len() implies match #[trigger] s[i] {
        InstrView::Loop(b) => len_bounded(b),
        _ => true,
    } by {
        match s[i] {
            InstrView::Loop(b) => {
                assert(flatten_instr(s[i]) == seq![InstrView::BlockStart] + flatten_seq(b) + seq![
                    InstrView::BlockEnd,
                ]);
                assert(flatten_seq(b).len() <= flatten_instr(s[i]).len());
                lemma_len_bounded(b);
            },
            _ => {},
        }
    }
}

/// Trimmed deltas keep a non-zero last element, so their leading
/// zeroes never cover them whole.
pub proof fn lemma_lead_zeros(d: Seq<u8>)
    ensures
        0 <= lead_zeros(d) <= d.len(),
        d.len() > 0 && d.last() != 0 ==> lead_zeros(d) < d.len(),
    decreases d.len(),
{
    if d.len() > 0 && d[0] == 0 {
        lemma_lead_zeros(d.drop_first());
        if d.len() > 1 {
            assert(d.drop_first().last() == d.last());
        }
    }
}


/// Fold one maximal run of `+ - < >` starting at `start` through the
/// virtual cursor.  Returns where the run ended, the leading offset,
/// the net shift, and the per-cell deltas, exactly as `run_sim`
/// summarizes that run.
fn summarize_run(source: &[Instruction], start: usize) -> (r: (usize, isize, isize, Vec<u8>))
    requires
        source@.len() <= isize::MAX,
        start < source@.len(),
        is_run_sym(iview_seq(source@)[start as int]),
    ensures
        start < r.0 <= source@.len(),
        run_prefix_len(iview_seq(source@).skip(start as int)) == r.0 - start,
        ({
            let acc = run_sim(iview_seq(source@).subrange(start as int, r.0 as int));
            &&& r.1 == acc.offset
            &&& r.3@ == acc.data
            &&& r.2 == acc.cursor + acc.offset
        }),
{
    let ghost v = iview_seq(source@);
    proof {
        lemma_iview_seq_index(source@);
        assert(v.subrange(start as int, start as int) =~= Seq::<InstrView>::empty());
    }
    let mut cursor: usize = 0;
    let mut offset: isize = 0;
    let mut data: Vec<u8> = Vec::new();
    data.push(0);
    proof {
        assert(data@ =~= seq![0u8]);
    }
    let mut j: usize = start;
    while j < source.len() && is_run_instr(&source[j])
        invariant
            v == iview_seq(source@),
            v.len() == source@.len(),
            forall|k: int| 0 <= k < source@.len() ==> v[k] == iview(#[trigger] source@[k]),
            source@.len() <= isize::MAX,
            start <= j <= source@.len(),
            cursor < data@.len(),
            data@.len() <= 1 + (j - start),
            -(j - start) <= offset <= 0,
            run_sim(v.subrange(start as int, j as int)) == (RunAcc {
                cursor: cursor as int,
                offset: offset as int,
                data: data@,
            }),
            forall|k: int| start <= k < j ==> is_run_sym(#[trigger] v[k]),
        decreases source@.len() - j,
    {
        let ghost accpre = run_sim(v.subrange(start as int, j as int));
        proof {
            assert(v.subrange(start as int, j + 1).drop_last() =~= v.subrange(
                start as int,
                j as int,
            ));
            assert(v.subrange(start as int, j + 1).last() == v[j as int]);
        }
        match &source[j] {
            Instruction::Increment => {
                let c = data[cursor];
                data.set(cursor, c.wrapping_add(1));
            },
            Instruction::Decrement => {
                let c = data[cursor];
                data.set(cursor, c.wrapping_sub(1));
            },
            Instruction::Right => {
                cursor = cursor + 1;
                if cursor >= data.len() {
                    data.push(0);
                }
            },
            Instruction::Left => {
                if cursor > 0 {
                    cursor = cursor - 1;
                } else {
                    offset = offset - 1;
                    let ghost data0 = data@;
                    data.insert(0, 0);
                    proof {
                        assert(data@ =~= seq![0u8] + data0);
                    }
                }
            },
            _ => {
                proof {
                    assert(false);
                }
            },
        }
        j = j + 1;
        proof {
            assert(run_sim(v.subrange(start as int, j as int)) == run_step(accpre, v[j - 1]));
        }
    }
    proof {
        assert forall|k: int| 0 <= k < j - start implies is_run_sym(
            #[trigger] v.skip(start as int)[k],
        ) by {
            assert(v.skip(start as int)[k] == v[start + k]);
        }
        if j < source@.len() {
            assert(v.skip(start as int)[j - start] == v[j as int]);
        }
        lemma_run_prefix(v.skip(start as int), j - start);
        assert(v.skip(start as int).take(j - start) =~= v.subrange(start as int, j as int));
    }
    let shift: isize = cursor as isize + offset;
    (j, offset, shift, data)
}

/// Trim the summarized run and push its compact form.
fn emit_compacted(offset: isize, data: Vec<u8>, shift: isize, result: &mut Vec<Instruction>)
    requires
        offset <= 0,
        offset + data@.len() <= isize::MAX + 1,
    ensures
        iview_seq(final(result)@) == iview_seq(old(result)@) + emit_run(
            offset as int,
            data@,
            shift as int,
        ),
{
    let ghost res0 = iview_seq(result@);
    let ghost data_mid = data@;
    let ghost off_mid = offset as int;
    let mut data = data;
    let mut offset = offset;
    while data.len() > 0 && data[data.len() - 1] == 0
        invariant
            trim_back(data@) == trim_back(data_mid),
            data@.len() <= data_mid.len(),
        decreases data@.len(),
    {
        let ghost d0 = data@;
        let _popped = data.pop();
        proof {
            assert(data@ =~= d0.drop_last());
        }
    }
    proof {
        assert(trim_back(data@) == data@);
        assert(data@ == trim_back(data_mid));
        lemma_lead_zeros(data@);
        assert(data@.len() <= data_mid.len());
        if data@.len() > 0 {
            assert(data@.last() != 0);
            assert(lead_zeros(data@) < data@.len());
        }
    }
    let ghost dt = data@;
    while data.len() > 0 && data[0] == 0
        invariant
            offset as int + lead_zeros(data@) == off_mid + lead_zeros(dt),
            data@.skip(lead_zeros(data@)) == dt.skip(lead_zeros(dt)),
            data@.len() <= dt.len(),
            off_mid <= offset as int,
            0 <= lead_zeros(data@) <= data@.len(),
            dt.len() > 0 ==> dt.last() != 0,
            offset as int + lead_zeros(data@) <= isize::MAX,
        decreases data@.len(),
    {
        let ghost d0 = data@;
        proof {
            lemma_lead_zeros(d0);
            lemma_lead_zeros(d0.drop_first());
            assert(lead_zeros(d0) == 1 + lead_zeros(d0.drop_first()));
            assert(offset as int + 1 <= isize::MAX);
        }
        let _removed = data.remove(0);
        offset = offset + 1;
        proof {
            assert(data@ =~= d0.drop_first());
        }
    }
    proof {
        assert(lead_zeros(data@) == 0);
        assert(data@ == dt.skip(lead_zeros(dt)));
        assert(offset as int == off_mid + lead_zeros(dt));
    }
    let ghost em = emit_run(off_mid, data_mid, shift as int);
    if data.len() == 0 {
        if shift != 0 {
            let ghost r0 = result@;
            result.push(Instruction::Shift(shift));
            proof {
                lemma_iview_seq_push(r0, Instruction::Shift(shift));
                assert(iview_seq(result@) =~= res0 + em);
            }
        } else {
            proof {
                assert(iview_seq(result@) =~= res0 + em);
            }
        }
    } else if data.len() == 1 && offset == 0 {
        let d0 = data[0];
        let ghost r0 = result@;
        result.push(Instruction::Modify(d0));
        proof {
            lemma_iview_seq_push(r0, Instruction::Modify(d0));
        }
        if shift != 0 {
            let ghost r1 = result@;
            result.push(Instruction::Shift(shift));
            proof {
                lemma_iview_seq_push(r1, Instruction::Shift(shift));
            }
        }
        proof {
            assert(iview_seq(result@) =~= res0 + em);
        }
    } else if data.len() == 1 {
        let d0 = data[0];
        let ghost r0 = result@;
        result.push(Instruction::ModifyOffset(d0, offset));
        proof {
            lemma_iview_seq_push(r0, Instruction::ModifyOffset(d0, offset));
        }
        if shift != 0 {
            let ghost r1 = result@;
            result.push(Instruction::Shift(shift));
            proof {
                lemma_iview_seq_push(r1, Instruction::Shift(shift));
            }
        }
        proof {
            assert(iview_seq(result@) =~= res0 + em);
        }
    } else {
        let ghost r0 = result@;
        result.push(Instruction::ModifyRun { shift, offset, data });
        proof {
            lemma_iview_seq_push(r0, result@.last());
            assert(iview(result@.last()) == (InstrView::ModifyRun {
                shift: shift as int,
                offset: offset as int,
                data: dt.skip(lead_zeros(dt)),
            }));
            assert(iview_seq(result@) =~= res0 + em);
        }
    }
}

/// Collapse every maximal run of the four cell-and-cursor primitives
/// into its compact form, recursively inside loop bodies; everything
/// else is kept as it stands.
fn compress_modify_runs(source: &[Instruction]) -> (r: Vec<Instruction>)
    requires
        lifted_seq(iview_seq(source@)),
        len_bounded(iview_seq(source@)),
    ensures
        iview_seq(r@) == compress_spec(iview_seq(source@)),
    decreases height_seq(iview_seq(source@)),
{
    let ghost v = iview_seq(source@);
    proof {
        lemma_iview_seq_index(source@);
        assert(v.skip(0) =~= v);
        assert(iview_seq(Seq::<Instruction>::empty()) =~= Seq::<InstrView>::empty());
    }
    let mut result: Vec<Instruction> = Vec::new();
    let mut i: usize = 0;
    while i < source.len()
        invariant
            v == iview_seq(source@),
            v.len() == source@.len(),
            forall|k: int| 0 <= k < source@.len() ==> v[k] == iview(#[trigger] source@[k]),
            lifted_seq(v),
            len_bounded(v),
            i <= source@.len(),
            compress_spec(v) == iview_seq(result@) + compress_spec(v.skip(i as int)),
        decreases source@.len() - i,
    {
        let ghost res0 = iview_seq(result@);
        if is_run_instr(&source[i]) {
            let (j, offset, shift, data) = summarize_run(source, i);
            let ghost acc = run_sim(v.subrange(i as int, j as int));
            proof {
                lemma_run_sim_bounds(v.subrange(i as int, j as int));
                assert(acc.data.len() <= 1 + (j - i));
                assert(offset + data@.len() <= isize::MAX + 1);
            }
            emit_compacted(offset, data, shift, &mut result);
            proof {
                assert(v.skip(i as int)[0] == v[i as int]);
                lemma_run_prefix_bounds(v.skip(i as int));
                assert(v.skip(i as int).take(j - i) =~= v.subrange(i as int, j as int));
                assert(v.skip(i as int).skip(j - i) =~= v.skip(j as int));
                assert(compress_spec(v.skip(i as int)) == emit_run(
                    acc.offset,
                    acc.data,
                    acc.cursor + acc.offset,
                ) + compress_spec(v.skip(j as int)));
                assert(iview_seq(result@) == res0 + emit_run(
                    acc.offset,
                    acc.data,
                    acc.cursor + acc.offset,
                ));
                assert(compress_spec(v) =~= iview_seq(result@) + compress_spec(v.skip(j as int)));
            }
            i = j;
        } else {
            match &source[i] {
                Instruction::Loop(body) => {
                    proof {
                        assert(lifted_instr(v[i as int]));
                        assert(v[i as int] == InstrView::Loop(iview_seq(body@)));
                        crate::instructions::lemma_height_member(v, i as int);
                    }
                    let inner = compress_modify_runs(body.as_slice());
                    let ghost r0 = result@;
                    result.push(Instruction::Loop(inner));
                    proof {
                        lemma_iview_seq_push(r0, result@.last());
                        assert(iview(result@.last()) == InstrView::Loop(
                            compress_spec(iview_seq(body@)),
                        ));
                        assert(v.skip(i as int)[0] == v[i as int]);
                        assert(v.skip(i as int).drop_first() =~= v.skip(i + 1));
                        assert(compress_spec(v) =~= iview_seq(result@) + compress_spec(
                            v.skip(i + 1),
                        ));
                    }
                    i = i + 1;
                },
                _ => {
                    let c = copy_primitive(&source[i]);
                    let ghost r0 = result@;
                    result.push(c);
                    proof {
                        lemma_iview_seq_push(r0, c);
                        assert(v.skip(i as int)[0] == v[i as int]);
                        assert(v.skip(i as int).drop_first() =~= v.skip(i + 1));
                        assert(compress_spec(v) =~= iview_seq(result@) + compress_spec(
                            v.skip(i + 1),
                        ));
                    }
                    i = i + 1;
                },
            }
        }
    }
    proof {
        assert(v.skip(v.len() as int) =~= Seq::<InstrView>::empty());
        assert(iview_seq(result@) =~= compress_spec(v));
    }
    result
}

/// A run's deltas never outnumber its symbols plus the starting cell.
pub proof fn lemma_run_sim_bounds(s: Seq<InstrView>)
    ensures
        0 <= run_sim(s).cursor < run_sim(s).data.len(),
        run_sim(s).data.len() <= 1 + s.len(),
        -(s.len() as int) <= run_sim(s).offset <= 0,
    decreases s.len(),
{
    if s.len() > 0 {
        lemma_run_sim_bounds(s.drop_last());
    }
}


/// The single instruction that replaces a one-instruction loop body,
/// where a shape is recognized: `Clear` for a lone cell decrement,
/// `SearchLoop` for a lone shift, `LinearLoop` for a run that steps
/// the guard cell by a constant, `SimpleLoop` for any other lone run.
pub open spec fn small_loop_subst(b: Seq<InstrView>) -> Option<InstrView> {
    if b.len() == 1 {
        match b[0] {
            InstrView::Modify(_) => Some(InstrView::Clear),
            InstrView::ModifyRun { shift, offset, data } => {
                if shift == 0 && offset == 0 && data.len() == 1 {
                    Some(InstrView::Clear)
                } else if shift == 0 && offset <= 0 && -offset < data.len() && data[-offset]
                    != 0 {
                    Some(
                        InstrView::LinearLoop {
                            offset,
                            linearity_factor: wneg(data[-offset]),
                            data,
                        },
                    )
                } else {
                    Some(InstrView::SimpleLoop { shift, offset, data })
                }
            },
            InstrView::Shift(st) => {
                if st != 0 {
                    Some(InstrView::SearchLoop { step: st })
                } else {
                    None
                }
            },
            _ => None,
        }
    } else {
        None
    }
}

/// Loop-shape recognition: empty loops are removed, one-instruction
/// bodies of a known shape are replaced, and every other loop is kept
/// with its body recognized recursively.
pub open spec fn small_loops_spec(s: Seq<InstrView>) -> Seq<InstrView>
    decreases s,
{
    if s.len() == 0 {
        Seq::empty()
    } else {
        let rest = small_loops_spec(s.drop_first());
        match s[0] {
            InstrView::Loop(b) => {
                if b.len() == 0 {
                    rest
                } else {
                    match small_loop_subst(b) {
                        Some(x) => seq![x] + rest,
                        None => seq![InstrView::Loop(small_loops_spec(b))] + rest,
                    }
                }
            },
            _ => seq![s[0]] + rest,
        }
    }
}

/// A fresh vector with the same bytes.
fn copy_bytes(v: &Vec<u8>) -> (r: Vec<u8>)
    ensures
        r@ == v@,
{
    let mut r: Vec<u8> = Vec::new();
    let mut i: usize = 0;
    while i < v.len()
        invariant
            i <= v@.len(),
            r@ == v@.take(i as int),
        decreases v@.len() - i,
    {
        r.push(v[i]);
        i = i + 1;
        proof {
            assert(v@.take(i as int) =~= v@.take(i - 1).push(v@[i - 1]));
        }
    }
    proof {
        assert(v@.take(v@.len() as int) =~= v@);
    }
    r
}

/// A fresh instruction with the same view, for anything but a `Loop`.
pub(crate) fn copy_flat(i: &Instruction) -> (r: Instruction)
    requires
        !(i matches Instruction::Loop(_)),
    ensures
        iview(r) == iview(*i),
{
    match i {
        Instruction::Increment => Instruction::Increment,
        Instruction::Decrement => Instruction::Decrement,
        Instruction::Right => Instruction::Right,
        Instruction::Left => Instruction::Left,
        Instruction::Print => Instruction::Print,
        Instruction::Read => Instruction::Read,
        Instruction::BlockStart => Instruction::BlockStart,
        Instruction::BlockEnd => Instruction::BlockEnd,
        Instruction::Clear => Instruction::Clear,
        Instruction::Shift(d) => Instruction::Shift(*d),
        Instruction::SetCell(v) => Instruction::SetCell(*v),
        Instruction::Modify(v) => Instruction::Modify(*v),
        Instruction::SetOffset(v, o) => Instruction::SetOffset(*v, *o),
        Instruction::ModifyOffset(v, o) => Instruction::ModifyOffset(*v, *o),
        Instruction::ModifyRun { shift, offset, data } => Instruction::ModifyRun {
            shift: *shift,
            offset: *offset,
            data: copy_bytes(data),
        },
        Instruction::LinearLoop { offset, linearity_factor, data } => Instruction::LinearLoop {
            offset: *offset,
            linearity_factor: *linearity_factor,
            data: copy_bytes(data),
        },
        Instruction::SimpleLoop { shift, offset, data } => Instruction::SimpleLoop {
            shift: *shift,
            offset: *offset,
            data: copy_bytes(data),
        },
        Instruction::SearchLoop { step } => Instruction::SearchLoop { step: *step },
        Instruction::Loop(_) => Instruction::Clear,
    }
}

/// The replacement for a one-instruction loop body, if its shape is
/// recognized.
fn recognize_loop(body: &Vec<Instruction>) -> (r: Option<Instruction>)
    ensures
        match r {
            Some(x) => small_loop_subst(iview_seq(body@)) == Some(iview(x)),
            None => small_loop_subst(iview_seq(body@)) is None,
        },
{
    proof {
        lemma_iview_seq_index(body@);
    }
    if body.len() != 1 {
        return None;
    }
    match &body[0] {
        Instruction::Modify(_) => Some(Instruction::Clear),
        Instruction::ModifyRun { shift, offset, data } => {
            if *shift == 0 && *offset == 0 && data.len() == 1 {
                Some(Instruction::Clear)
            } else {
                let negoff: i128 = -(*offset as i128);
                if *shift == 0 && *offset <= 0 && negoff < data.len() as i128 && data[negoff
                    as usize] != 0 {
                    let factor = 0u8.wrapping_sub(data[negoff as usize]);
                    Some(
                        Instruction::LinearLoop {
                            offset: *offset,
                            linearity_factor: factor,
                            data: copy_bytes(data),
                        },
                    )
                } else {
                    Some(
                        Instruction::SimpleLoop {
                            shift: *shift,
                            offset: *offset,
                            data: copy_bytes(data),
                        },
                    )
                }
            }
        },
        Instruction::Shift(st) => {
            if *st != 0 {
                Some(Instruction::SearchLoop { step: *st })
            } else {
                None
            }
        },
        _ => None,
    }
}

/// Walk the forest, removing empty loops and replacing every
/// recognized one-instruction loop body with its specialized form.
fn optimize_small_loops(source: &[Instruction]) -> (r: Vec<Instruction>)
    ensures
        iview_seq(r@) == small_loops_spec(iview_seq(source@)),
    decreases height_seq(iview_seq(source@)),
{
    let ghost v = iview_seq(source@);
    proof {
        lemma_iview_seq_index(source@);
        assert(v.skip(0) =~= v);
    }
    let mut result: Vec<Instruction> = Vec::new();
    let mut i: usize = 0;
    while i < source.len()
        invariant
            v == iview_seq(source@),
            v.len() == source@.len(),
            forall|k: int| 0 <= k < source@.len() ==> v[k] == iview(#[trigger] source@[k]),
            i <= source@.len(),
            small_loops_spec(v) == iview_seq(result@) + small_loops_spec(v.skip(i as int)),
        decreases source@.len() - i,
    {
        proof {
            assert(v.skip(i as int)[0] == v[i as int]);
            assert(v.skip(i as int).drop_first() =~= v.skip(i + 1));
        }
        match &source[i] {
            Instruction::Loop(body) => {
                proof {
                    assert(v[i as int] == InstrView::Loop(iview_seq(body@)));
                    lemma_iview_seq_index(body@);
                }
                if body.len() == 0 {
                } else {
                    match recognize_loop(body) {
                        Some(x) => {
                            let ghost r0 = result@;
                            result.push(x);
                            proof {
                                lemma_iview_seq_push(r0, result@.last());
                                assert(small_loops_spec(v) =~= iview_seq(result@)
                                    + small_loops_spec(v.skip(i + 1)));
                            }
                        },
                        None => {
                            proof {
                                crate::instructions::lemma_height_member(v, i as int);
                            }
                            let inner = optimize_small_loops(body.as_slice());
                            let ghost r0 = result@;
                            result.push(Instruction::Loop(inner));
                            proof {
                                lemma_iview_seq_push(r0, result@.last());
                                assert(iview(result@.last()) == InstrView::Loop(
                                    small_loops_spec(iview_seq(body@)),
                                ));
                                assert(small_loops_spec(v) =~= iview_seq(result@)
                                    + small_loops_spec(v.skip(i + 1)));
                            }
                        },
                    }
                }
            },
            _ => {
                let c = copy_flat(&source[i]);
                let ghost r0 = result@;
                result.push(c);
                proof {
                    lemma_iview_seq_push(r0, c);
                    assert(small_loops_spec(v) =~= iview_seq(result@) + small_loops_spec(
                        v.skip(i + 1),
                    ));
                }
            },
        }
        i = i + 1;
    }
    proof {
        assert(v.skip(v.len() as int) =~= Seq::<InstrView>::empty());
        assert(iview_seq(result@) =~= small_loops_spec(v));
    }
    result
}


/// The shape every compiled instruction keeps from compaction on: no
/// bare bracket survives loop lifting; a `ModifyRun`'s deltas are
/// trimmed, so they are non-empty with non-zero first and last
/// elements; a `SearchLoop` steps; and a `LinearLoop` decrements its
/// guard cell by its non-zero factor, which its delta at displacement
/// zero records in negated form.
pub open spec fn well_shaped_instr(i: InstrView) -> bool
    decreases i,
{
    match i {
        InstrView::BlockStart => false,
        InstrView::BlockEnd => false,
        InstrView::ModifyRun { shift, offset, data } => data.len() > 0 && data[0] != 0
            && data.last() != 0,
        InstrView::SearchLoop { step } => step != 0,
        InstrView::LinearLoop { offset, linearity_factor, data } => {
            &&& offset <= 0
            &&& -offset < data.len()
            &&& linearity_factor != 0
            &&& data[-offset] == wneg(linearity_factor)
            &&& data.len() > 0
            &&& data[0] != 0
            &&& data.last() != 0
        },
        InstrView::SimpleLoop { shift, offset, data } => data.len() > 0 && data[0] != 0
            && data.last() != 0,
        InstrView::Loop(b) => well_shaped_seq(b),
        _ => true,
    }
}

/// `well_shaped_instr` over a sibling sequence.
pub open spec fn well_shaped_seq(s: Seq<InstrView>) -> bool
    decreases s,
{
    forall|k: int| 0 <= k < s.len() ==> well_shaped_instr(#[trigger] s[k])
}

/// A well-shaped program has no bare brackets at any depth.
pub proof fn lemma_well_shaped_block_free(s: Seq<InstrView>)
    requires
        well_shaped_seq(s),
    ensures
        crate::semantics::block_free_seq(s),
    decreases s,
{
    assert forall|k: int|
        0 <= k < s.len() implies crate::semantics::block_free_instr(#[trigger] s[k]) by {
        match s[k] {
            InstrView::Loop(b) => {
                assert(well_shaped_instr(s[k]));
                lemma_well_shaped_block_free(b);
            },
            _ => {
                assert(well_shaped_instr(s[k]));
            },
        }
    }
}

/// Trimming from the back leaves no trailing zero.
proof fn lemma_trim_back_last(d: Seq<u8>)
    ensures
        trim_back(d).len() > 0 ==> trim_back(d).last() != 0,
        trim_back(d).len() <= d.len(),
    decreases d.len(),
{
    if d.len() > 0 && d.last() == 0 {
        lemma_trim_back_last(d.drop_last());
    }
}

/// The leading zeroes stop right before a non-zero element.
proof fn lemma_lead_zeros_stop(d: Seq<u8>)
    ensures
        0 <= lead_zeros(d) <= d.len(),
        lead_zeros(d) < d.len() ==> d[lead_zeros(d)] != 0,
    decreases d.len(),
{
    if d.len() > 0 && d[0] == 0 {
        lemma_lead_zeros_stop(d.drop_first());
        if lead_zeros(d) < d.len() {
            assert(d.drop_first()[lead_zeros(d.drop_first())] == d[lead_zeros(d)]);
        }
    }
}

/// What a run compiles to is well shaped.
proof fn lemma_emit_well_shaped(offset: int, data: Seq<u8>, shift: int)
    ensures
        forall|k: int|
            0 <= k < emit_run(offset, data, shift).len() ==> well_shaped_instr(
                #[trigger] emit_run(offset, data, shift)[k],
            ),
{
    let dt = trim_back(data);
    let lz = lead_zeros(dt);
    let d2 = dt.skip(lz);
    let o2 = offset + lz;
    let em = emit_run(offset, data, shift);
    lemma_trim_back_last(data);
    lemma_lead_zeros_stop(dt);
    lemma_lead_zeros(dt);
    if d2.len() > 0 {
        assert(d2[0] == dt[lz]);
        assert(d2.last() == dt.last());
        assert(dt.last() != 0);
        assert(d2[0] != 0);
    }
    assert forall|k: int| 0 <= k < em.len() implies well_shaped_instr(#[trigger] em[k]) by {
        if d2.len() == 0 {
            if shift != 0 {
                assert(em == seq![InstrView::Shift(shift)]);
                assert(em[k] == InstrView::Shift(shift));
            }
        } else if d2.len() == 1 && o2 == 0 {
            if k == 0 {
                assert(em[0] == InstrView::Modify(d2[0]));
            } else {
                assert(em[k] == InstrView::Shift(shift));
            }
        } else if d2.len() == 1 {
            if k == 0 {
                assert(em[0] == InstrView::ModifyOffset(d2[0], o2));
            } else {
                assert(em[k] == InstrView::Shift(shift));
            }
        } else {
            assert(em[k] == (InstrView::ModifyRun { shift: shift, offset: o2, data: d2 }));
            assert(well_shaped_instr(em[k]));
        }
    }
}

/// Compaction yields a well-shaped program.
pub proof fn lemma_compress_well_shaped(s: Seq<InstrView>)
    requires
        lifted_seq(s),
    ensures
        well_shaped_seq(compress_spec(s)),
    decreases s,
{
    if s.len() == 0 {
    } else if is_run_sym(s[0]) {
        let n = run_prefix_len(s);
        let acc = run_sim(s.take(n));
        let em = emit_run(acc.offset, acc.data, acc.cursor + acc.offset);
        lemma_run_prefix_bounds(s);
        lemma_emit_well_shaped(acc.offset, acc.data, acc.cursor + acc.offset);
        assert forall|k: int|
            0 <= k < s.skip(n).len() implies lifted_instr(#[trigger] s.skip(n)[k]) by {
            assert(s.skip(n)[k] == s[k + n]);
        }
        lemma_compress_well_shaped(s.skip(n));
        assert forall|k: int|
            0 <= k < compress_spec(s).len() implies well_shaped_instr(
            #[trigger] compress_spec(s)[k],
        ) by {
            if k >= em.len() {
                assert(compress_spec(s)[k] == compress_spec(s.skip(n))[k - em.len()]);
            }
        }
    } else {
        assert(lifted_instr(s[0]));
        assert forall|k: int|
            0 <= k < s.drop_first().len() implies lifted_instr(#[trigger] s.drop_first()[k]) by {
            assert(s.drop_first()[k] == s[k + 1]);
        }
        lemma_compress_well_shaped(s.drop_first());
        match s[0] {
            InstrView::Loop(b) => {
                lemma_compress_well_shaped(b);
                assert(well_shaped_instr(InstrView::Loop(compress_spec(b))));
                assert forall|k: int|
                    0 <= k < compress_spec(s).len() implies well_shaped_instr(
                    #[trigger] compress_spec(s)[k],
                ) by {
                    if k >= 1 {
                        assert(compress_spec(s)[k] == compress_spec(s.drop_first())[k - 1]);
                    }
                }
            },
            _ => {
                assert(well_shaped_instr(s[0]));
                assert forall|k: int|
                    0 <= k < compress_spec(s).len() implies well_shaped_instr(
                    #[trigger] compress_spec(s)[k],
                ) by {
                    if k >= 1 {
                        assert(compress_spec(s)[k] == compress_spec(s.drop_first())[k - 1]);
                    }
                }
            },
        }
    }
}

/// The involution of wrapping negation.
proof fn lemma_wneg_wneg(x: u8)
    ensures
        wneg(wneg(x)) == x,
        x != 0 ==> wneg(x) != 0,
{
}

/// Recognition keeps a program well shaped.
pub proof fn lemma_small_well_shaped(s: Seq<InstrView>)
    requires
        well_shaped_seq(s),
    ensures
        well_shaped_seq(small_loops_spec(s)),
    decreases s,
{
    if s.len() == 0 {
    } else {
        assert forall|k: int|
            0 <= k < s.drop_first().len() implies well_shaped_instr(
            #[trigger] s.drop_first()[k],
        ) by {
            assert(s.drop_first()[k] == s[k + 1]);
        }
        lemma_small_well_shaped(s.drop_first());
        let rest = small_loops_spec(s.drop_first());
        assert(well_shaped_instr(s[0]));
        match s[0] {
            InstrView::Loop(b) => {
                if b.len() == 0 {
                } else {
                    match small_loop_subst(b) {
                        Some(x) => {
                            assert(well_shaped_instr(x)) by {
                                assert(well_shaped_instr(b[0]));
                                match b[0] {
                                    InstrView::ModifyRun { shift, offset, data } => {
                                        if !(shift == 0 && offset == 0 && data.len() == 1) {
                                            if shift == 0 && offset <= 0 && -offset < data.len()
                                                && data[-offset] != 0 {
                                                lemma_wneg_wneg(data[-offset]);
                                            }
                                        }
                                    },
                                    _ => {},
                                }
                            }
                            assert forall|k: int|
                                0 <= k < small_loops_spec(s).len() implies well_shaped_instr(
                                #[trigger] small_loops_spec(s)[k],
                            ) by {
                                if k >= 1 {
                                    assert(small_loops_spec(s)[k] == rest[k - 1]);
                                }
                            }
                        },
                        None => {
                            lemma_small_well_shaped(b);
                            assert(well_shaped_instr(InstrView::Loop(small_loops_spec(b))));
                            assert forall|k: int|
                                0 <= k < small_loops_spec(s).len() implies well_shaped_instr(
                                #[trigger] small_loops_spec(s)[k],
                            ) by {
                                if k >= 1 {
                                    assert(small_loops_spec(s)[k] == rest[k - 1]);
                                }
                            }
                        },
                    }
                }
            },
            _ => {
                assert forall|k: int|
                    0 <= k < small_loops_spec(s).len() implies well_shaped_instr(
                    #[trigger] small_loops_spec(s)[k],
                ) by {
                    if k >= 1 {
                        assert(small_loops_spec(s)[k] == rest[k - 1]);
                    }
                }
            },
        }
    }
}


/// The whole optimizer: lift loops, compact runs, recognize loop
/// shapes, fold to a fixpoint.
///
/// On success the result is the folded, recognized compaction of the
/// unique lifted forest of the token stream; it is well shaped (every
/// `ModifyRun` trimmed, every `SearchLoop` stepping, every
/// `LinearLoop` recording its factor), free of bare brackets and of
/// empty loops, and a fixpoint of the folder.  A stream with
/// unbalanced brackets is rejected exactly as loop lifting rejects
/// it.
pub fn optimize(instructions: &[Instruction]) -> (r: Result<Vec<Instruction>, CompileError>)
    requires
        primitives_only(instructions@),
        instructions@.len() <= isize::MAX,
    ensures
        r is Ok <==> balanced(iview_seq(instructions@)),
        r matches Ok(out) ==> ({
            &&& exists|t: Seq<InstrView>|
                {
                    &&& #[trigger] flatten_seq(t) == iview_seq(instructions@)
                    &&& lifted_seq(t)
                    &&& iview_seq(out@) == crate::folder::fold_spec(
                        small_loops_spec(compress_spec(t)),
                    )
                }
            &&& well_shaped_seq(iview_seq(out@))
            &&& crate::semantics::block_free_seq(iview_seq(out@))
            &&& crate::folder::folded_seq(iview_seq(out@))
            &&& crate::folder::no_empty_loops_seq(iview_seq(out@))
        }),
        r matches Err(e) ==> match e {
            CompileError::UnmatchedClose { position } => close_violation_at(
                iview_seq(instructions@),
                position as int,
            ),
            CompileError::UnmatchedOpen { position } => {
                &&& open_pending(iview_seq(instructions@), position as int, instructions@.len() as int)
                &&& forall|q: int|
                    position < q < instructions@.len() ==> !open_pending(
                        iview_seq(instructions@),
                        q,
                        instructions@.len() as int,
                    )
                &&& no_close_violation(iview_seq(instructions@))
            },
        },
{
    let tree = match collect_loops(instructions) {
        Ok(t) => t,
        Err(e) => {
            return Err(e);
        },
    };
    let ghost t = iview_seq(tree@);
    proof {
        lemma_iview_seq_index(instructions@);
        assert(flatten_seq(t).len() <= isize::MAX);
        lemma_len_bounded(t);
    }
    let compressed = compress_modify_runs(tree.as_slice());
    let recognized = optimize_small_loops(compressed.as_slice());
    let folded = crate::folder::fold_dce(recognized.as_slice());
    proof {
        lemma_compress_well_shaped(t);
        lemma_small_well_shaped(compress_spec(t));
        crate::folder::lemma_fold_well_shaped(small_loops_spec(compress_spec(t)));
        crate::folder::lemma_fold_spec_folded(small_loops_spec(compress_spec(t)));
        crate::folder::lemma_folded_no_empty_loops(iview_seq(folded@));
        lemma_well_shaped_block_free(iview_seq(folded@));
        assert(flatten_seq(t) == iview_seq(instructions@));
    }
    Ok(folded)
}

/// The lexer never yields more tokens than the source has bytes.
pub proof fn lemma_lex_len(s: Seq<u8>)
    ensures
        crate::parser::lex(s).len() <= s.len(),
    decreases s.len(),
{
    if s.len() > 0 {
        lemma_lex_len(s.drop_last());
    }
}

/// The whole compiler: lex the source, then optimize the token
/// stream.
pub fn compile(source: &str) -> (r: Result<Vec<Instruction>, CompileError>)
    requires
        source.spec_bytes().len() <= isize::MAX,
    ensures
        r is Ok <==> balanced(iview_seq(crate::parser::lex(source.spec_bytes()))),
        r matches Ok(out) ==> ({
            &&& exists|t: Seq<InstrView>|
                {
                    &&& #[trigger] flatten_seq(t) == iview_seq(
                        crate::parser::lex(source.spec_bytes()),
                    )
                    &&& lifted_seq(t)
                    &&& iview_seq(out@) == crate::folder::fold_spec(
                        small_loops_spec(compress_spec(t)),
                    )
                }
            &&& well_shaped_seq(iview_seq(out@))
            &&& crate::semantics::block_free_seq(iview_seq(out@))
            &&& crate::folder::folded_seq(iview_seq(out@))
            &&& crate::folder::no_empty_loops_seq(iview_seq(out@))
        }),
{
    let parsed = crate::parser::parse(source);
    proof {
        lemma_lex_len(source.spec_bytes());
    }
    optimize(parsed.as_slice())
}

} // verus!






