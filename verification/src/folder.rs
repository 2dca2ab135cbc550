//! The folder and dead-code eliminator.
//!
//! One pass walks a sibling sequence left to right and applies, at
//! each position, the first matching rewrite: a `Shift` absorbed into
//! its neighbour's displacement, an adjacent pair combined into one
//! instruction, or a dead instruction dropped and a zero-displacement
//! form normalized.  Passes repeat until one changes nothing; a
//! weight that every rewrite strictly lowers bounds the repetition.
//! Loop bodies are folded first, and a loop whose body folds away is
//! itself dropped.

use vstd::prelude::*;

use crate::instructions::InstrView;
use crate::instructions::Instruction;
use crate::instructions::iview;
use crate::instructions::iview_seq;
use crate::instructions::lemma_iview_seq_index;
use crate::instructions::lemma_iview_seq_push;
use crate::instructions::height_seq;
use crate::optimizations::well_shaped_instr;
use crate::optimizations::well_shaped_seq;
use crate::semantics::wadd;

verus! {

/// The two instruction forms that carry an explicit displacement.
pub open spec fn is_offset_form(i: InstrView) -> bool {
    match i {
        InstrView::SetOffset(_, _) => true,
        InstrView::ModifyOffset(_, _) => true,
        _ => false,
    }
}

/// The weight of one instruction under folding.
pub open spec fn fold_cost(i: InstrView) -> nat {
    if is_offset_form(i) {
        3
    } else {
        2
    }
}

/// The weight of a sibling sequence: every rewrite strictly lowers
/// it, so folding terminates.
pub open spec fn fold_measure(s: Seq<InstrView>) -> nat
    decreases s.len(),
{
    if s.len() == 0 {
        0
    } else {
        fold_cost(s[0]) + fold_measure(s.drop_first())
    }
}

/// The weight adds over concatenation.
pub proof fn lemma_measure_concat(a: Seq<InstrView>, b: Seq<InstrView>)
    ensures
        fold_measure(a + b) == fold_measure(a) + fold_measure(b),
    decreases a.len(),
{
    if a.len() == 0 {
        assert(a + b =~= b);
    } else {
        lemma_measure_concat(a.drop_first(), b);
        assert((a + b).drop_first() =~= a.drop_first() + b);
        assert((a + b)[0] == a[0]);
    }
}

/// Whether a displacement sum stays within the machine's range.
pub open spec fn fits(n: int) -> bool {
    isize::MIN <= n <= isize::MAX
}

/// The displacement of a `Shift`, and 0 for anything else.
pub open spec fn shift_amt(i: InstrView) -> int {
    match i {
        InstrView::Shift(a) => a,
        _ => 0,
    }
}

/// One folding pass.  At each position the first matching rewrite
/// fires and scanning resumes after its result; the junctions this
/// leaves unexamined are caught by the next pass.
pub open spec fn fold_pass(s: Seq<InstrView>) -> Seq<InstrView>
    decreases s.len(),
{
    if s.len() == 0 {
        Seq::empty()
    } else if s.len() >= 3 && (s[0] matches InstrView::Shift(_)) && (s[2]
        matches InstrView::Shift(_)) && triple_mid(shift_amt(s[0]), s[1]) is Some && fits(shift_amt(s[0]) + shift_amt(s[2]))
        && triple_fits(shift_amt(s[0]), s[1]) {
        seq![triple_mid(shift_amt(s[0]), s[1])->0, InstrView::Shift(shift_amt(s[0]) + shift_amt(s[2]))] + fold_pass(
            s.skip(3),
        )
    } else if s.len() >= 2 && pair_rule(s[0], s[1]) is Some {
        pair_rule(s[0], s[1])->0 + fold_pass(s.skip(2))
    } else if single_rule(s[0]) is Some {
        single_rule(s[0])->0 + fold_pass(s.skip(1))
    } else {
        seq![s[0]] + fold_pass(s.skip(1))
    }
}

/// What a `Shift(a)` turns its follower into when a later `Shift`
/// absorbs it: the follower's target cell is named relative to the
/// pointer before the first shift.
pub open spec fn triple_mid(a: int, mid: InstrView) -> Option<InstrView> {
    match mid {
        InstrView::SetCell(v) => Some(InstrView::SetOffset(v, a)),
        InstrView::Modify(v) => Some(InstrView::ModifyOffset(v, a)),
        InstrView::SetOffset(v, o) => Some(InstrView::SetOffset(v, a + o)),
        InstrView::ModifyOffset(v, o) => Some(InstrView::ModifyOffset(v, a + o)),
        _ => None,
    }
}

/// Whether the absorbed displacement of `triple_mid` stays in range.
pub open spec fn triple_fits(a: int, mid: InstrView) -> bool {
    match mid {
        InstrView::SetOffset(_, o) => fits(a + o),
        InstrView::ModifyOffset(_, o) => fits(a + o),
        _ => true,
    }
}

/// The adjacent-pair rewrites.
pub open spec fn pair_rule(x: InstrView, y: InstrView) -> Option<Seq<InstrView>> {
    match (x, y) {
        (InstrView::SetCell(a), InstrView::Modify(b)) => Some(seq![InstrView::SetCell(wadd(a, b))]),
        (InstrView::SetCell(_), InstrView::SetCell(b)) => Some(seq![InstrView::SetCell(b)]),
        (InstrView::Modify(a), InstrView::Modify(b)) => Some(seq![InstrView::Modify(wadd(a, b))]),
        (InstrView::Shift(a), InstrView::Shift(b)) => if fits(a + b) {
            Some(seq![InstrView::Shift(a + b)])
        } else {
            None
        },
        (InstrView::ModifyOffset(v, a), InstrView::Shift(b)) => if a == b {
            Some(seq![InstrView::Shift(a), InstrView::Modify(v)])
        } else {
            None
        },
        _ => None,
    }
}

/// The dead-instruction drops and zero-displacement normalizations.
pub open spec fn single_rule(x: InstrView) -> Option<Seq<InstrView>> {
    match x {
        InstrView::Modify(v) => if v == 0 {
            Some(Seq::empty())
        } else {
            None
        },
        InstrView::ModifyOffset(v, o) => if v == 0 {
            Some(Seq::empty())
        } else if o == 0 {
            Some(seq![InstrView::Modify(v)])
        } else {
            None
        },
        InstrView::Shift(a) => if a == 0 {
            Some(Seq::empty())
        } else {
            None
        },
        InstrView::SetOffset(v, o) => if o == 0 {
            Some(seq![InstrView::SetCell(v)])
        } else {
            None
        },
        _ => None,
    }
}

/// A pass either changes nothing or strictly lowers the weight, and
/// never raises it.
#[verifier::rlimit(40)]
pub proof fn lemma_pass_measure(s: Seq<InstrView>)
    ensures
        fold_pass(s) == s || fold_measure(fold_pass(s)) < fold_measure(s),
        fold_measure(fold_pass(s)) <= fold_measure(s),
        s.len() > 0 && fold_pass(s) == s ==> fold_pass(s) == seq![s[0]] + fold_pass(s.skip(1)),
    decreases s.len(),
{
    if s.len() == 0 {
    } else if s.len() >= 3 && (s[0] matches InstrView::Shift(_)) && (s[2]
        matches InstrView::Shift(_)) && triple_mid(shift_amt(s[0]), s[1]) is Some && fits(shift_amt(s[0]) + shift_amt(s[2]))
        && triple_fits(shift_amt(s[0]), s[1]) {
        lemma_pass_measure(s.skip(3));
        let rep = seq![triple_mid(shift_amt(s[0]), s[1])->0, InstrView::Shift(shift_amt(s[0]) + shift_amt(s[2]))];
        lemma_measure_concat(rep, fold_pass(s.skip(3)));
        assert(rep.drop_first() =~= seq![InstrView::Shift(shift_amt(s[0]) + shift_amt(s[2]))]);
        assert(rep.drop_first().drop_first() =~= Seq::<InstrView>::empty());
        assert(fold_measure(rep.drop_first().drop_first()) == 0);
        assert(fold_measure(rep.drop_first()) == fold_cost(rep.drop_first()[0]));
        assert(fold_measure(rep) == fold_cost(rep[0]) + fold_cost(rep[1]));
        assert(fold_cost(rep[1]) == 2);
        assert(fold_cost(rep[0]) <= fold_cost(s[1]) + 1);
        assert(s.drop_first()[0] == s[1]);
        assert(s.drop_first().drop_first()[0] == s[2]);
        assert(s.drop_first().drop_first().drop_first() =~= s.skip(3));
        assert(fold_measure(s) == fold_cost(s[0]) + fold_measure(s.drop_first()));
        assert(fold_measure(s.drop_first()) == fold_cost(s[1]) + fold_measure(
            s.drop_first().drop_first(),
        ));
        assert(fold_measure(s.drop_first().drop_first()) == fold_cost(s[2]) + fold_measure(
            s.skip(3),
        ));
    } else if s.len() >= 2 && pair_rule(s[0], s[1]) is Some {
        lemma_pass_measure(s.skip(2));
        let rep = pair_rule(s[0], s[1])->0;
        lemma_measure_concat(rep, fold_pass(s.skip(2)));
        assert(fold_measure(rep) < fold_cost(s[0]) + fold_cost(s[1])) by {
            lemma_pair_rep_measure(s[0], s[1]);
        }
        assert(s.drop_first()[0] == s[1]);
        assert(s.drop_first().drop_first() =~= s.skip(2));
        assert(fold_measure(s) == fold_cost(s[0]) + fold_measure(s.drop_first()));
        assert(fold_measure(s.drop_first()) == fold_cost(s[1]) + fold_measure(s.skip(2)));
    } else if single_rule(s[0]) is Some {
        lemma_pass_measure(s.skip(1));
        let rep = single_rule(s[0])->0;
        lemma_measure_concat(rep, fold_pass(s.skip(1)));
        assert(fold_measure(rep) < fold_cost(s[0])) by {
            lemma_single_rep_measure(s[0]);
        }
        assert(s.drop_first() =~= s.skip(1));
    } else {
        lemma_pass_measure(s.skip(1));
        lemma_measure_concat(seq![s[0]], fold_pass(s.skip(1)));
        assert(seq![s[0]].drop_first() =~= Seq::<InstrView>::empty());
        assert(fold_measure(seq![s[0]].drop_first()) == 0);
        assert(fold_measure(seq![s[0]]) == fold_cost(s[0]));
        assert(s.drop_first() =~= s.skip(1));
        if fold_pass(s.skip(1)) == s.skip(1) {
            assert(fold_pass(s) =~= s);
        } else {
            assert(fold_pass(s) != s) by {
                if fold_pass(s) == s {
                    assert(fold_pass(s).drop_first() =~= fold_pass(s.skip(1)));
                    assert(s.drop_first() =~= s.skip(1));
                }
            }
        }
    }
}

/// A pair rewrite's result weighs less than the pair.
proof fn lemma_pair_rep_measure(x: InstrView, y: InstrView)
    requires
        pair_rule(x, y) is Some,
    ensures
        fold_measure(pair_rule(x, y)->0) < fold_cost(x) + fold_cost(y),
{
    let rep = pair_rule(x, y)->0;
    if rep.len() == 1 {
        assert(rep.drop_first() =~= Seq::<InstrView>::empty());
        assert(fold_measure(rep.drop_first()) == 0);
        assert(fold_measure(rep) == fold_cost(rep[0]));
        assert(fold_cost(rep[0]) <= 3);
        assert(fold_cost(x) >= 2 && fold_cost(y) >= 2);
    } else {
        assert(rep.drop_first() =~= seq![rep[1]]);
        assert(rep.drop_first().drop_first() =~= Seq::<InstrView>::empty());
        assert(fold_measure(rep.drop_first().drop_first()) == 0);
        assert(fold_measure(rep.drop_first()) == fold_cost(rep.drop_first()[0]));
        assert(fold_measure(rep) == fold_cost(rep[0]) + fold_cost(rep[1]));
        assert(fold_cost(rep[0]) == 2 && fold_cost(rep[1]) == 2);
        assert(is_offset_form(x));
        assert(fold_cost(x) == 3);
    }
}

/// A single rewrite's result weighs less than the instruction.
proof fn lemma_single_rep_measure(x: InstrView)
    requires
        single_rule(x) is Some,
    ensures
        fold_measure(single_rule(x)->0) < fold_cost(x),
{
    let rep = single_rule(x)->0;
    if rep.len() == 1 {
        assert(rep.drop_first() =~= Seq::<InstrView>::empty());
        assert(fold_measure(rep.drop_first()) == 0);
        assert(fold_measure(rep) == fold_cost(rep[0]));
        assert(fold_cost(rep[0]) == 2);
        assert(is_offset_form(x));
    } else {
        assert(fold_measure(rep) == 0);
    }
}

/// Passes repeated to a fixpoint.
pub open spec fn fold_fix(s: Seq<InstrView>) -> Seq<InstrView>
    decreases fold_measure(s),
    via fold_fix_decreases
{
    if fold_pass(s) == s {
        s
    } else {
        fold_fix(fold_pass(s))
    }
}

#[via_fn]
proof fn fold_fix_decreases(s: Seq<InstrView>) {
    lemma_pass_measure(s);
}

/// The fixpoint of passes is itself unchanged by a pass, and reaching
/// it from an input that is already a fixpoint changes nothing.
pub proof fn lemma_fold_fix(s: Seq<InstrView>)
    ensures
        fold_pass(fold_fix(s)) == fold_fix(s),
        fold_pass(s) == s ==> fold_fix(s) == s,
    decreases fold_measure(s),
{
    if fold_pass(s) == s {
    } else {
        lemma_pass_measure(s);
        lemma_fold_fix(fold_pass(s));
    }
}


/// Loop bodies folded recursively; a loop whose body folds to nothing
/// is dropped.  This runs before the top-level passes, which treat
/// the remaining `Loop` nodes as opaque.
pub open spec fn fold_bodies(s: Seq<InstrView>) -> Seq<InstrView>
    decreases s, 0int,
{
    if s.len() == 0 {
        Seq::empty()
    } else {
        let rest = fold_bodies(s.drop_first());
        match s[0] {
            InstrView::Loop(b) => {
                if fold_spec(b).len() == 0 {
                    rest
                } else {
                    seq![InstrView::Loop(fold_spec(b))] + rest
                }
            },
            _ => seq![s[0]] + rest,
        }
    }
}

/// The folder: bodies first, then top-level passes to a fixpoint.
pub open spec fn fold_spec(s: Seq<InstrView>) -> Seq<InstrView>
    decreases s, 1int,
{
    fold_fix(fold_bodies(s))
}

/// One instruction the folder can do nothing more to: any `Loop` has
/// a non-empty, fully folded body.
pub open spec fn folded_instr(i: InstrView) -> bool
    decreases i,
{
    match i {
        InstrView::Loop(b) => b.len() > 0 && folded_seq(b),
        _ => true,
    }
}

/// A sequence the folder can do nothing more to: a pass leaves it
/// unchanged and every loop body is itself folded and non-empty.
pub open spec fn folded_seq(s: Seq<InstrView>) -> bool
    decreases s,
{
    &&& fold_pass(s) == s
    &&& forall|k: int| 0 <= k < s.len() ==> folded_instr(#[trigger] s[k])
}

/// A pass keeps every `Loop` node as it stands, so it preserves
/// folded loop bodies.
proof fn lemma_pass_keeps(s: Seq<InstrView>)
    requires
        forall|k: int| 0 <= k < s.len() ==> folded_instr(#[trigger] s[k]),
    ensures
        forall|k: int|
            0 <= k < fold_pass(s).len() ==> folded_instr(#[trigger] fold_pass(s)[k]),
    decreases s.len(),
{
    if s.len() == 0 {
    } else if s.len() >= 3 && (s[0] matches InstrView::Shift(_)) && (s[2]
        matches InstrView::Shift(_)) && triple_mid(shift_amt(s[0]), s[1]) is Some && fits(
        shift_amt(s[0]) + shift_amt(s[2]),
    ) && triple_fits(shift_amt(s[0]), s[1]) {
        assert(forall|k: int|
            0 <= k < s.skip(3).len() ==> folded_instr(#[trigger] s.skip(3)[k]));
        lemma_pass_keeps(s.skip(3));
        let rep = seq![triple_mid(shift_amt(s[0]), s[1])->0, InstrView::Shift(
            shift_amt(s[0]) + shift_amt(s[2]),
        )];
        assert forall|k: int|
            0 <= k < fold_pass(s).len() implies folded_instr(#[trigger] fold_pass(s)[k]) by {
            if k >= 2 {
                assert(fold_pass(s)[k] == fold_pass(s.skip(3))[k - 2]);
            }
        }
    } else if s.len() >= 2 && pair_rule(s[0], s[1]) is Some {
        assert(forall|k: int|
            0 <= k < s.skip(2).len() ==> folded_instr(#[trigger] s.skip(2)[k]));
        lemma_pass_keeps(s.skip(2));
        let rep = pair_rule(s[0], s[1])->0;
        assert(forall|k: int| 0 <= k < rep.len() ==> !(#[trigger] rep[k] matches InstrView::Loop(
            _,
        )));
        assert forall|k: int|
            0 <= k < fold_pass(s).len() implies folded_instr(#[trigger] fold_pass(s)[k]) by {
            if k >= rep.len() {
                assert(fold_pass(s)[k] == fold_pass(s.skip(2))[k - rep.len()]);
            }
        }
    } else if single_rule(s[0]) is Some {
        assert(forall|k: int|
            0 <= k < s.skip(1).len() ==> folded_instr(#[trigger] s.skip(1)[k]));
        lemma_pass_keeps(s.skip(1));
        let rep = single_rule(s[0])->0;
        assert forall|k: int|
            0 <= k < fold_pass(s).len() implies folded_instr(#[trigger] fold_pass(s)[k]) by {
            if k >= rep.len() {
                assert(fold_pass(s)[k] == fold_pass(s.skip(1))[k - rep.len()]);
            }
        }
    } else {
        assert(forall|k: int|
            0 <= k < s.skip(1).len() ==> folded_instr(#[trigger] s.skip(1)[k]));
        lemma_pass_keeps(s.skip(1));
        assert forall|k: int|
            0 <= k < fold_pass(s).len() implies folded_instr(#[trigger] fold_pass(s)[k]) by {
            if k >= 1 {
                assert(fold_pass(s)[k] == fold_pass(s.skip(1))[k - 1]);
            } else {
                assert(fold_pass(s)[0] == s[0]);
            }
        }
    }
}

/// Iterated passes preserve folded loop bodies.
proof fn lemma_fix_keeps(s: Seq<InstrView>)
    requires
        forall|k: int| 0 <= k < s.len() ==> folded_instr(#[trigger] s[k]),
    ensures
        forall|k: int|
            0 <= k < fold_fix(s).len() ==> folded_instr(#[trigger] fold_fix(s)[k]),
    decreases fold_measure(s),
{
    if fold_pass(s) == s {
        assert forall|k: int|
            0 <= k < fold_fix(s).len() implies folded_instr(#[trigger] fold_fix(s)[k]) by {
            assert(fold_fix(s) == s);
            assert(fold_fix(s)[k] == s[k]);
        }
    } else {
        lemma_pass_measure(s);
        lemma_pass_keeps(s);
        lemma_fix_keeps(fold_pass(s));
        assert forall|k: int|
            0 <= k < fold_fix(s).len() implies folded_instr(#[trigger] fold_fix(s)[k]) by {
            assert(fold_fix(s) == fold_fix(fold_pass(s)));
        }
    }
}

/// Every loop body that survives body folding is folded and
/// non-empty.
proof fn lemma_bodies_folded(s: Seq<InstrView>)
    ensures
        forall|k: int|
            0 <= k < fold_bodies(s).len() ==> folded_instr(#[trigger] fold_bodies(s)[k]),
    decreases s, 0int,
{
    if s.len() > 0 {
        lemma_bodies_folded(s.drop_first());
        let rest = fold_bodies(s.drop_first());
        match s[0] {
            InstrView::Loop(b) => {
                lemma_fold_spec_folded(b);
                if fold_spec(b).len() == 0 {
                } else {
                    assert(folded_instr(InstrView::Loop(fold_spec(b))));
                    assert forall|k: int|
                        0 <= k < fold_bodies(s).len() implies folded_instr(
                        #[trigger] fold_bodies(s)[k],
                    ) by {
                        if k >= 1 {
                            assert(fold_bodies(s)[k] == rest[k - 1]);
                        }
                    }
                }
            },
            _ => {
                assert(folded_instr(s[0]));
                assert forall|k: int|
                    0 <= k < fold_bodies(s).len() implies folded_instr(
                    #[trigger] fold_bodies(s)[k],
                ) by {
                    if k >= 1 {
                        assert(fold_bodies(s)[k] == rest[k - 1]);
                    }
                }
            },
        }
    }
}

/// What the folder returns is folded: a further pass changes nothing,
/// at any depth.
pub proof fn lemma_fold_spec_folded(s: Seq<InstrView>)
    ensures
        folded_seq(fold_spec(s)),
    decreases s, 1int,
{
    lemma_bodies_folded(s);
    lemma_fix_keeps(fold_bodies(s));
    lemma_fold_fix(fold_bodies(s));
}

/// A fixpoint of a pass is one position by position.
proof fn lemma_pass_fix_tail(s: Seq<InstrView>)
    requires
        s.len() > 0,
        fold_pass(s) == s,
    ensures
        fold_pass(s.drop_first()) == s.drop_first(),
{
    lemma_pass_measure(s);
    assert(fold_pass(s) == seq![s[0]] + fold_pass(s.skip(1)));
    assert forall|k: int|
        0 <= k < s.drop_first().len() implies fold_pass(s.skip(1))[k] == s.drop_first()[k] by {
        assert((seq![s[0]] + fold_pass(s.skip(1)))[k + 1] == fold_pass(s.skip(1))[k]);
        assert(s[k + 1] == s.drop_first()[k]);
    }
    assert(fold_pass(s.skip(1)).len() == s.len() - 1);
    assert(s.skip(1) =~= s.drop_first());
    assert(fold_pass(s.drop_first()) =~= s.drop_first());
}

/// Folding a folded program changes nothing: the folder is
/// idempotent.
pub proof fn lemma_fold_spec_of_folded(s: Seq<InstrView>)
    requires
        folded_seq(s),
    ensures
        fold_spec(s) == s,
    decreases s, 1int,
{
    assert(fold_bodies(s) == s) by {
        lemma_bodies_of_folded(s);
    }
    lemma_fold_fix(s);
}

/// Body folding leaves a folded program alone.
proof fn lemma_bodies_of_folded(s: Seq<InstrView>)
    requires
        folded_seq(s),
    ensures
        fold_bodies(s) == s,
    decreases s, 0int,
{
    if s.len() > 0 {
        lemma_pass_fix_tail(s);
        assert(folded_seq(s.drop_first())) by {
            assert(forall|k: int|
                0 <= k < s.drop_first().len() ==> #[trigger] s.drop_first()[k] == s[k + 1]);
        }
        lemma_bodies_of_folded(s.drop_first());
        match s[0] {
            InstrView::Loop(b) => {
                assert(folded_instr(s[0]));
                assert(b.len() > 0 && folded_seq(b));
                lemma_fold_spec_of_folded(b);
                assert(fold_bodies(s) =~= s);
            },
            _ => {
                assert(fold_bodies(s) =~= s);
            },
        }
    }
}

/// The folder applied twice is the folder applied once.
pub proof fn lemma_fold_idempotent(s: Seq<InstrView>)
    ensures
        fold_spec(fold_spec(s)) == fold_spec(s),
{
    lemma_fold_spec_folded(s);
    lemma_fold_spec_of_folded(fold_spec(s));
}


/// The weight of one instruction alone.
proof fn lemma_measure_single(x: InstrView)
    ensures
        fold_measure(seq![x]) == fold_cost(x),
{
    assert(seq![x].drop_first() =~= Seq::<InstrView>::empty());
    assert(fold_measure(seq![x].drop_first()) == 0);
}

/// The weight of the Shift-absorption result against its window.
proof fn lemma_triple_strict(s: Seq<InstrView>)
    requires
        s.len() >= 3,
        s[0] matches InstrView::Shift(_),
        s[2] matches InstrView::Shift(_),
        triple_mid(shift_amt(s[0]), s[1]) is Some,
        fits(shift_amt(s[0]) + shift_amt(s[2])),
        triple_fits(shift_amt(s[0]), s[1]),
    ensures
        fold_measure(
            seq![triple_mid(shift_amt(s[0]), s[1])->0, InstrView::Shift(
                shift_amt(s[0]) + shift_amt(s[2]),
            )],
        ) + fold_measure(s.skip(3)) < fold_measure(s),
        fold_pass(s) == seq![triple_mid(shift_amt(s[0]), s[1])->0, InstrView::Shift(
            shift_amt(s[0]) + shift_amt(s[2]),
        )] + fold_pass(s.skip(3)),
{
    let rep = seq![triple_mid(shift_amt(s[0]), s[1])->0, InstrView::Shift(
        shift_amt(s[0]) + shift_amt(s[2]),
    )];
    assert(rep.drop_first() =~= seq![rep[1]]);
    assert(rep.drop_first().drop_first() =~= Seq::<InstrView>::empty());
    assert(fold_measure(rep.drop_first().drop_first()) == 0);
    assert(fold_measure(rep.drop_first()) == fold_cost(rep[1]));
    assert(fold_measure(rep) == fold_cost(rep[0]) + fold_cost(rep[1]));
    assert(fold_cost(rep[1]) == 2);
    assert(fold_cost(rep[0]) <= fold_cost(s[1]) + 1);
    assert(s.drop_first()[0] == s[1]);
    assert(s.drop_first().drop_first()[0] == s[2]);
    assert(s.drop_first().drop_first().drop_first() =~= s.skip(3));
    assert(fold_measure(s) == fold_cost(s[0]) + fold_measure(s.drop_first()));
    assert(fold_measure(s.drop_first()) == fold_cost(s[1]) + fold_measure(
        s.drop_first().drop_first(),
    ));
    assert(fold_measure(s.drop_first().drop_first()) == fold_cost(s[2]) + fold_measure(s.skip(3)));
}

/// The weight of a pair rewrite's result against its window.
proof fn lemma_pair_strict(s: Seq<InstrView>)
    requires
        s.len() >= 2,
        !(s.len() >= 3 && (s[0] matches InstrView::Shift(_)) && (s[2]
            matches InstrView::Shift(_)) && triple_mid(shift_amt(s[0]), s[1]) is Some && fits(
            shift_amt(s[0]) + shift_amt(s[2]),
        ) && triple_fits(shift_amt(s[0]), s[1])),
        pair_rule(s[0], s[1]) is Some,
    ensures
        fold_measure(pair_rule(s[0], s[1])->0) + fold_measure(s.skip(2)) < fold_measure(s),
        fold_pass(s) == pair_rule(s[0], s[1])->0 + fold_pass(s.skip(2)),
{
    lemma_pair_rep_measure(s[0], s[1]);
    assert(s.drop_first()[0] == s[1]);
    assert(s.drop_first().drop_first() =~= s.skip(2));
    assert(fold_measure(s) == fold_cost(s[0]) + fold_measure(s.drop_first()));
    assert(fold_measure(s.drop_first()) == fold_cost(s[1]) + fold_measure(s.skip(2)));
}

/// The weight of a single rewrite's result against its instruction.
proof fn lemma_single_strict(s: Seq<InstrView>)
    requires
        s.len() >= 1,
        !(s.len() >= 3 && (s[0] matches InstrView::Shift(_)) && (s[2]
            matches InstrView::Shift(_)) && triple_mid(shift_amt(s[0]), s[1]) is Some && fits(
            shift_amt(s[0]) + shift_amt(s[2]),
        ) && triple_fits(shift_amt(s[0]), s[1])),
        !(s.len() >= 2 && pair_rule(s[0], s[1]) is Some),
        single_rule(s[0]) is Some,
    ensures
        fold_measure(single_rule(s[0])->0) + fold_measure(s.skip(1)) < fold_measure(s),
        fold_pass(s) == single_rule(s[0])->0 + fold_pass(s.skip(1)),
{
    lemma_single_rep_measure(s[0]);
    assert(s.drop_first() =~= s.skip(1));
    assert(fold_measure(s) == fold_cost(s[0]) + fold_measure(s.skip(1)));
}

/// Views commute with dropping a front element.
proof fn lemma_iview_seq_skip(s: Seq<Instruction>, k: int)
    requires
        0 <= k <= s.len(),
    ensures
        iview_seq(s.skip(k)) == iview_seq(s).skip(k),
{
    lemma_iview_seq_index(s);
    lemma_iview_seq_index(s.skip(k));
    assert forall|j: int|
        0 <= j < s.len() - k implies iview_seq(s.skip(k))[j] == iview_seq(s).skip(k)[j] by {
        assert(s.skip(k)[j] == s[j + k]);
    }
    assert(iview_seq(s.skip(k)) =~= iview_seq(s).skip(k));
}

/// Apply the first matching rewrite at the front of `v`, or move the
/// front instruction to `out` unchanged.  Consumes what the window
/// used and reports whether a rewrite fired.
#[verifier::rlimit(80)]
fn try_rules(v: &mut Vec<Instruction>, out: &mut Vec<Instruction>) -> (fired: bool)
    requires
        old(v)@.len() > 0,
    ensures
        ({
            let s = iview_seq(old(v)@);
            let emitted = iview_seq(final(out)@).skip(iview_seq(old(out)@).len() as int);
            &&& final(v)@.len() < old(v)@.len()
            &&& final(v)@ == old(v)@.skip(old(v)@.len() - final(v)@.len())
            &&& iview_seq(final(out)@) == iview_seq(old(out)@) + emitted
            &&& fold_pass(s) == emitted + fold_pass(iview_seq(final(v)@))
            &&& (fired ==> fold_measure(emitted) + fold_measure(iview_seq(final(v)@))
                < fold_measure(s))
            &&& (!fired ==> emitted == seq![s[0]] && final(v)@.len() == old(v)@.len() - 1)
        }),
{
    let ghost v0 = v@;
    let ghost s = iview_seq(v0);
    let ghost res0 = iview_seq(out@);
    proof {
        lemma_iview_seq_index(v0);
        assert(s[0] == iview(v0[0]));
    }
    // the Shift-absorption window
    if v.len() >= 3 {
        let ok = match (&v[0], &v[2]) {
            (Instruction::Shift(_), Instruction::Shift(_)) => true,
            _ => false,
        };
        if ok {
            let a = match &v[0] {
                Instruction::Shift(x) => *x,
                _ => 0,
            };
            let b = match &v[2] {
                Instruction::Shift(x) => *x,
                _ => 0,
            };
            let sum: i128 = a as i128 + b as i128;
            if sum >= isize::MIN as i128 && sum <= isize::MAX as i128 {
                let mid: Option<Instruction> = match &v[1] {
                    Instruction::SetCell(x) => Some(Instruction::SetOffset(*x, a)),
                    Instruction::Modify(x) => Some(Instruction::ModifyOffset(*x, a)),
                    Instruction::SetOffset(x, o) => {
                        let ao: i128 = a as i128 + *o as i128;
                        if ao >= isize::MIN as i128 && ao <= isize::MAX as i128 {
                            Some(Instruction::SetOffset(*x, ao as isize))
                        } else {
                            None
                        }
                    },
                    Instruction::ModifyOffset(x, o) => {
                        let ao: i128 = a as i128 + *o as i128;
                        if ao >= isize::MIN as i128 && ao <= isize::MAX as i128 {
                            Some(Instruction::ModifyOffset(*x, ao as isize))
                        } else {
                            None
                        }
                    },
                    _ => None,
                };
                match mid {
                    Some(m) => {
                        let _w0 = v.remove(0);
                        let _w1 = v.remove(0);
                        let _w2 = v.remove(0);
                        let ghost r0 = out@;
                        out.push(m);
                        let ghost r1 = out@;
                        out.push(Instruction::Shift(sum as isize));
                        proof {
                            assert(v@ =~= v0.skip(3));
                            lemma_iview_seq_skip(v0, 3);
                            lemma_iview_seq_push(r0, m);
                            lemma_iview_seq_push(r1, Instruction::Shift(sum as isize));
                            let rep = seq![triple_mid(shift_amt(s[0]), s[1])->0, InstrView::Shift(
                                shift_amt(s[0]) + shift_amt(s[2]),
                            )];
                            assert(iview(m) == triple_mid(shift_amt(s[0]), s[1])->0);
                            assert(iview_seq(out@) =~= res0 + rep);
                            assert((res0 + rep).skip(res0.len() as int) =~= rep);
                            lemma_triple_strict(s);
                        }
                        return true;
                    },
                    None => {},
                }
            }
        }
    }
    // the adjacent-pair window
    if v.len() >= 2 {
        let rep: Option<(Instruction, Option<Instruction>)> = match (&v[0], &v[1]) {
            (Instruction::SetCell(a), Instruction::Modify(b)) => Some(
                (Instruction::SetCell(a.wrapping_add(*b)), None),
            ),
            (Instruction::SetCell(_), Instruction::SetCell(b)) => Some(
                (Instruction::SetCell(*b), None),
            ),
            (Instruction::Modify(a), Instruction::Modify(b)) => Some(
                (Instruction::Modify(a.wrapping_add(*b)), None),
            ),
            (Instruction::Shift(a), Instruction::Shift(b)) => {
                let sum: i128 = *a as i128 + *b as i128;
                if sum >= isize::MIN as i128 && sum <= isize::MAX as i128 {
                    Some((Instruction::Shift(sum as isize), None))
                } else {
                    None
                }
            },
            (Instruction::ModifyOffset(x, a), Instruction::Shift(b)) => {
                if *a == *b {
                    Some((Instruction::Shift(*a), Some(Instruction::Modify(*x))))
                } else {
                    None
                }
            },
            _ => None,
        };
        match rep {
            Some(pair) => {
                let _w0 = v.remove(0);
                let _w1 = v.remove(0);
                let ghost r0 = out@;
                out.push(pair.0);
                proof {
                    lemma_iview_seq_push(r0, pair.0);
                }
                match pair.1 {
                    Some(sec) => {
                        let ghost r1 = out@;
                        out.push(sec);
                        proof {
                            lemma_iview_seq_push(r1, sec);
                        }
                    },
                    None => {},
                }
                proof {
                    assert(v@ =~= v0.skip(2));
                    lemma_iview_seq_skip(v0, 2);
                    assert(iview_seq(out@) =~= res0 + pair_rule(s[0], s[1])->0);
                    assert((res0 + pair_rule(s[0], s[1])->0).skip(res0.len() as int) =~= pair_rule(
                        s[0],
                        s[1],
                    )->0);
                    lemma_pair_strict(s);
                }
                return true;
            },
            None => {},
        }
    }
    // the single-instruction window
    let single: Option<Option<Instruction>> = match &v[0] {
        Instruction::Modify(x) => if *x == 0 {
            Some(None)
        } else {
            None
        },
        Instruction::ModifyOffset(x, o) => if *x == 0 {
            Some(None)
        } else if *o == 0 {
            Some(Some(Instruction::Modify(*x)))
        } else {
            None
        },
        Instruction::Shift(a) => if *a == 0 {
            Some(None)
        } else {
            None
        },
        Instruction::SetOffset(x, o) => if *o == 0 {
            Some(Some(Instruction::SetCell(*x)))
        } else {
            None
        },
        _ => None,
    };
    match single {
        Some(rep) => {
            let _w0 = v.remove(0);
            match rep {
                Some(one) => {
                    let ghost r0 = out@;
                    out.push(one);
                    proof {
                        lemma_iview_seq_push(r0, one);
                    }
                },
                None => {},
            }
            proof {
                assert(v@ =~= v0.skip(1));
                lemma_iview_seq_skip(v0, 1);
                assert(iview_seq(out@) =~= res0 + single_rule(s[0])->0);
                assert((res0 + single_rule(s[0])->0).skip(res0.len() as int) =~= single_rule(
                    s[0],
                )->0);
                lemma_single_strict(s);
            }
            true
        },
        None => {
            let x = v.remove(0);
            let ghost r0 = out@;
            out.push(x);
            proof {
                assert(v@ =~= v0.skip(1));
                lemma_iview_seq_skip(v0, 1);
                lemma_iview_seq_push(r0, x);
                assert(iview(x) == s[0]);
                assert(iview_seq(out@) =~= res0 + seq![s[0]]);
                assert((res0 + seq![s[0]]).skip(res0.len() as int) =~= seq![s[0]]);
                assert(fold_pass(s) == seq![s[0]] + fold_pass(s.skip(1)));
            }
            false
        },
    }
}

/// One full pass over a sibling sequence, reporting whether any
/// rewrite fired; no rewrite firing means the sequence came back
/// exactly as it went in.
fn fold_pass_exec(v: Vec<Instruction>) -> (r: (Vec<Instruction>, bool))
    ensures
        iview_seq(r.0@) == fold_pass(iview_seq(v@)),
        r.1 == (fold_pass(iview_seq(v@)) != iview_seq(v@)),
{
    let ghost w = iview_seq(v@);
    let mut rest = v;
    let mut out: Vec<Instruction> = Vec::new();
    let mut changed = false;
    proof {
        assert(iview_seq(out@) =~= Seq::<InstrView>::empty());
        assert(iview_seq(out@) + fold_pass(iview_seq(rest@)) =~= fold_pass(w));
        assert(iview_seq(out@) + iview_seq(rest@) =~= w);
    }
    while rest.len() > 0
        invariant
            fold_pass(w) == iview_seq(out@) + fold_pass(iview_seq(rest@)),
            !changed ==> w == iview_seq(out@) + iview_seq(rest@),
            changed ==> fold_measure(iview_seq(out@)) + fold_measure(iview_seq(rest@))
                < fold_measure(w),
        decreases rest@.len(),
    {
        let ghost out_pre = iview_seq(out@);
        let ghost rest_pre = iview_seq(rest@);
        let ghost changed_pre = changed;
        let fired = try_rules(&mut rest, &mut out);
        if fired {
            changed = true;
        }
        proof {
            let emitted = iview_seq(out@).skip(out_pre.len() as int);
            assert(iview_seq(out@) == out_pre + emitted);
            assert(fold_pass(w) =~= iview_seq(out@) + fold_pass(iview_seq(rest@)));
            lemma_measure_concat(out_pre, emitted);
            if !changed_pre {
                lemma_measure_concat(out_pre, rest_pre);
            }
            if fired {
                assert(fold_measure(iview_seq(out@)) + fold_measure(iview_seq(rest@))
                    < fold_measure(w));
            } else {
                lemma_measure_single(rest_pre[0]);
                assert(rest_pre.drop_first() =~= iview_seq(rest@));
                assert(fold_measure(rest_pre) == fold_cost(rest_pre[0]) + fold_measure(
                    iview_seq(rest@),
                ));
                if !changed_pre {
                    assert(w =~= iview_seq(out@) + iview_seq(rest@));
                }
            }
        }
    }
    proof {
        assert(iview_seq(rest@) =~= Seq::<InstrView>::empty());
        assert(fold_pass(iview_seq(rest@)) == Seq::<InstrView>::empty());
        assert(fold_pass(w) =~= iview_seq(out@));
        if changed {
            assert(fold_measure(iview_seq(out@)) < fold_measure(w));
            assert(fold_pass(w) != w);
        } else {
            assert(w =~= iview_seq(out@));
        }
    }
    (out, changed)
}

/// The folder: fold every loop body, drop loops whose body folds
/// away, then repeat top-level passes until one changes nothing.
pub fn fold_dce(source: &[Instruction]) -> (r: Vec<Instruction>)
    ensures
        iview_seq(r@) == fold_spec(iview_seq(source@)),
    decreases height_seq(iview_seq(source@)),
{
    let ghost v = iview_seq(source@);
    proof {
        lemma_iview_seq_index(source@);
        assert(v.skip(0) =~= v);
        assert(iview_seq(Seq::<Instruction>::empty()) =~= Seq::<InstrView>::empty());
    }
    let mut work: Vec<Instruction> = Vec::new();
    let mut i: usize = 0;
    while i < source.len()
        invariant
            v == iview_seq(source@),
            v.len() == source@.len(),
            forall|k: int| 0 <= k < source@.len() ==> v[k] == iview(#[trigger] source@[k]),
            i <= source@.len(),
            fold_bodies(v) == iview_seq(work@) + fold_bodies(v.skip(i as int)),
        decreases source@.len() - i,
    {
        proof {
            assert(v.skip(i as int)[0] == v[i as int]);
            assert(v.skip(i as int).drop_first() =~= v.skip(i + 1));
        }
        match &source[i] {
            Instruction::Loop(body) => {
                proof {
                    assert(v[i as int] == InstrView::Loop(iview_seq(body@)));
                    crate::instructions::lemma_height_member(v, i as int);
                }
                let fb = fold_dce(body.as_slice());
                if fb.len() > 0 {
                    let ghost r0 = work@;
                    work.push(Instruction::Loop(fb));
                    proof {
                        lemma_iview_seq_push(r0, work@.last());
                        assert(iview(work@.last()) == InstrView::Loop(
                            fold_spec(iview_seq(body@)),
                        ));
                        assert(fold_bodies(v) =~= iview_seq(work@) + fold_bodies(v.skip(i + 1)));
                    }
                } else {
                    proof {
                        assert(fold_spec(iview_seq(body@)).len() == 0);
                        assert(fold_bodies(v) =~= iview_seq(work@) + fold_bodies(v.skip(i + 1)));
                    }
                }
            },
            _ => {
                let c = crate::optimizations::copy_flat(&source[i]);
                let ghost r0 = work@;
                work.push(c);
                proof {
                    lemma_iview_seq_push(r0, c);
                    assert(fold_bodies(v) =~= iview_seq(work@) + fold_bodies(v.skip(i + 1)));
                }
            },
        }
        i = i + 1;
    }
    proof {
        assert(v.skip(v.len() as int) =~= Seq::<InstrView>::empty());
        assert(iview_seq(work@) =~= fold_bodies(v));
    }
    let ghost m0 = iview_seq(work@);
    loop
        invariant_except_break
            fold_fix(m0) == fold_fix(iview_seq(work@)),
        ensures
            iview_seq(work@) == fold_fix(m0),
        decreases fold_measure(iview_seq(work@)),
    {
        let ghost wpre = iview_seq(work@);
        let step = fold_pass_exec(work);
        work = step.0;
        if !step.1 {
            proof {
                lemma_fold_fix(wpre);
            }
            break;
        }
        proof {
            lemma_pass_measure(wpre);
            assert(fold_fix(wpre) == fold_fix(fold_pass(wpre)));
        }
    }
    work
}


/// A pass emits only shift and cell instructions and keeps everything
/// else, so it preserves well-shapedness.
proof fn lemma_pass_well_shaped(s: Seq<InstrView>)
    requires
        forall|k: int| 0 <= k < s.len() ==> well_shaped_instr(#[trigger] s[k]),
    ensures
        forall|k: int|
            0 <= k < fold_pass(s).len() ==> well_shaped_instr(#[trigger] fold_pass(s)[k]),
    decreases s.len(),
{
    if s.len() == 0 {
    } else if s.len() >= 3 && (s[0] matches InstrView::Shift(_)) && (s[2]
        matches InstrView::Shift(_)) && triple_mid(shift_amt(s[0]), s[1]) is Some && fits(
        shift_amt(s[0]) + shift_amt(s[2]),
    ) && triple_fits(shift_amt(s[0]), s[1]) {
        assert(forall|k: int|
            0 <= k < s.skip(3).len() ==> well_shaped_instr(#[trigger] s.skip(3)[k]));
        lemma_pass_well_shaped(s.skip(3));
        assert forall|k: int|
            0 <= k < fold_pass(s).len() implies well_shaped_instr(#[trigger] fold_pass(s)[k]) by {
            if k >= 2 {
                assert(fold_pass(s)[k] == fold_pass(s.skip(3))[k - 2]);
            }
        }
    } else if s.len() >= 2 && pair_rule(s[0], s[1]) is Some {
        assert(forall|k: int|
            0 <= k < s.skip(2).len() ==> well_shaped_instr(#[trigger] s.skip(2)[k]));
        lemma_pass_well_shaped(s.skip(2));
        let rep = pair_rule(s[0], s[1])->0;
        assert forall|k: int|
            0 <= k < fold_pass(s).len() implies well_shaped_instr(#[trigger] fold_pass(s)[k]) by {
            if k >= rep.len() {
                assert(fold_pass(s)[k] == fold_pass(s.skip(2))[k - rep.len()]);
            }
        }
    } else if single_rule(s[0]) is Some {
        assert(forall|k: int|
            0 <= k < s.skip(1).len() ==> well_shaped_instr(#[trigger] s.skip(1)[k]));
        lemma_pass_well_shaped(s.skip(1));
        let rep = single_rule(s[0])->0;
        assert forall|k: int|
            0 <= k < fold_pass(s).len() implies well_shaped_instr(#[trigger] fold_pass(s)[k]) by {
            if k >= rep.len() {
                assert(fold_pass(s)[k] == fold_pass(s.skip(1))[k - rep.len()]);
            }
        }
    } else {
        assert(forall|k: int|
            0 <= k < s.skip(1).len() ==> well_shaped_instr(#[trigger] s.skip(1)[k]));
        lemma_pass_well_shaped(s.skip(1));
        assert forall|k: int|
            0 <= k < fold_pass(s).len() implies well_shaped_instr(#[trigger] fold_pass(s)[k]) by {
            if k >= 1 {
                assert(fold_pass(s)[k] == fold_pass(s.skip(1))[k - 1]);
            } else {
                assert(fold_pass(s)[0] == s[0]);
            }
        }
    }
}

/// Iterated passes preserve well-shapedness.
proof fn lemma_fix_well_shaped(s: Seq<InstrView>)
    requires
        forall|k: int| 0 <= k < s.len() ==> well_shaped_instr(#[trigger] s[k]),
    ensures
        forall|k: int|
            0 <= k < fold_fix(s).len() ==> well_shaped_instr(#[trigger] fold_fix(s)[k]),
    decreases fold_measure(s),
{
    if fold_pass(s) == s {
        assert forall|k: int|
            0 <= k < fold_fix(s).len() implies well_shaped_instr(#[trigger] fold_fix(s)[k]) by {
            assert(fold_fix(s) == s);
            assert(fold_fix(s)[k] == s[k]);
        }
    } else {
        lemma_pass_measure(s);
        lemma_pass_well_shaped(s);
        lemma_fix_well_shaped(fold_pass(s));
        assert forall|k: int|
            0 <= k < fold_fix(s).len() implies well_shaped_instr(#[trigger] fold_fix(s)[k]) by {
            assert(fold_fix(s) == fold_fix(fold_pass(s)));
        }
    }
}

/// Body folding preserves well-shapedness.
proof fn lemma_bodies_well_shaped(s: Seq<InstrView>)
    requires
        well_shaped_seq(s),
    ensures
        forall|k: int|
            0 <= k < fold_bodies(s).len() ==> well_shaped_instr(#[trigger] fold_bodies(s)[k]),
    decreases s, 0int,
{
    if s.len() > 0 {
        assert(well_shaped_instr(s[0]));
        assert forall|k: int|
            0 <= k < s.drop_first().len() implies well_shaped_instr(
            #[trigger] s.drop_first()[k],
        ) by {
            assert(s.drop_first()[k] == s[k + 1]);
        }
        lemma_bodies_well_shaped(s.drop_first());
        let rest = fold_bodies(s.drop_first());
        match s[0] {
            InstrView::Loop(b) => {
                lemma_fold_well_shaped(b);
                if fold_spec(b).len() == 0 {
                } else {
                    assert(well_shaped_instr(InstrView::Loop(fold_spec(b))));
                    assert forall|k: int|
                        0 <= k < fold_bodies(s).len() implies well_shaped_instr(
                        #[trigger] fold_bodies(s)[k],
                    ) by {
                        if k >= 1 {
                            assert(fold_bodies(s)[k] == rest[k - 1]);
                        }
                    }
                }
            },
            _ => {
                assert forall|k: int|
                    0 <= k < fold_bodies(s).len() implies well_shaped_instr(
                    #[trigger] fold_bodies(s)[k],
                ) by {
                    if k >= 1 {
                        assert(fold_bodies(s)[k] == rest[k - 1]);
                    }
                }
            },
        }
    }
}

/// The folder keeps a program well shaped.
pub proof fn lemma_fold_well_shaped(s: Seq<InstrView>)
    requires
        well_shaped_seq(s),
    ensures
        well_shaped_seq(fold_spec(s)),
    decreases s, 1int,
{
    lemma_bodies_well_shaped(s);
    lemma_fix_well_shaped(fold_bodies(s));
}

/// Every loop in the instruction stream has a non-empty body, at
/// every nesting depth.
pub open spec fn no_empty_loops_instr(i: InstrView) -> bool
    decreases i,
{
    match i {
        InstrView::Loop(b) => b.len() > 0 && no_empty_loops_seq(b),
        _ => true,
    }
}

/// `no_empty_loops_instr` over a sibling sequence.
pub open spec fn no_empty_loops_seq(s: Seq<InstrView>) -> bool
    decreases s,
{
    forall|k: int| 0 <= k < s.len() ==> no_empty_loops_instr(#[trigger] s[k])
}

/// A folded program holds no empty loop.
pub proof fn lemma_folded_no_empty_loops(s: Seq<InstrView>)
    requires
        folded_seq(s),
    ensures
        no_empty_loops_seq(s),
    decreases s,
{
    assert forall|k: int|
        0 <= k < s.len() implies no_empty_loops_instr(#[trigger] s[k]) by {
        assert(folded_instr(s[k]));
        match s[k] {
            InstrView::Loop(b) => {
                lemma_folded_no_empty_loops(b);
            },
            _ => {},
        }
    }
}

} // verus!

