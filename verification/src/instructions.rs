//! The instruction set shared by every stage of the pipeline.
//!
//! The first eight variants are the primitive symbols that the parser
//! emits.  The remaining variants are produced by the optimizer: runs
//! of cell edits are compacted into `ModifyRun` and its one-cell
//! special cases, and single-body loops are replaced by the recognized
//! shapes `Clear`, `SearchLoop`, `LinearLoop` and `SimpleLoop`.

use vstd::prelude::*;

verus! {

/// One instruction of the intermediate representation.
///
/// Cell values are 8-bit and wrap modulo 256; tape displacements are
/// signed.  `data` vectors hold per-cell deltas applied at consecutive
/// tape positions starting at the instruction's `offset` relative to
/// the current cell.
#[derive(PartialEq, Eq, Debug)]
pub enum Instruction {
    /// Primitive `+`: add one to the current cell.
    Increment,
    /// Primitive `-`: subtract one from the current cell.
    Decrement,
    /// Primitive `>`: move the pointer one cell right.
    Right,
    /// Primitive `<`: move the pointer one cell left.
    Left,
    /// Primitive `.`: emit the current cell.
    Print,
    /// Primitive `,`: read one input byte into the current cell, or 0
    /// at end of input.
    Read,
    /// Primitive `[`: opens a loop; only appears before loop lifting.
    BlockStart,
    /// Primitive `]`: closes a loop; only appears before loop lifting.
    BlockEnd,
    /// Set the current cell to 0.
    Clear,
    /// Move the pointer by the given displacement.
    Shift(isize),
    /// Set the current cell to the given value.
    SetCell(u8),
    /// Add the given value to the current cell.
    Modify(u8),
    /// Set the cell at the given displacement to the given value.
    SetOffset(u8, isize),
    /// Add the given value to the cell at the given displacement.
    ModifyOffset(u8, isize),
    /// Add `data[i]` to the cell at displacement `offset + i` for each
    /// `i`, then move the pointer by `shift`.
    ModifyRun { shift: isize, offset: isize, data: Vec<u8> },
    /// While the current cell is non-zero, add `data[i]` at
    /// displacement `offset + i`; executed in closed form when
    /// `linearity_factor` evenly divides the current cell.
    LinearLoop { offset: isize, linearity_factor: u8, data: Vec<u8> },
    /// While the current cell is non-zero, apply the `ModifyRun` with
    /// these fields.
    SimpleLoop { shift: isize, offset: isize, data: Vec<u8> },
    /// While the current cell is non-zero, move the pointer by `step`.
    SearchLoop { step: isize },
    /// While the current cell is non-zero, execute the body in order.
    Loop(Vec<Instruction>),
}

/// The mathematical shape of one instruction: the same variants, with
/// displacements as unbounded integers and delta vectors as sequences.
/// Contracts and the execution model speak of this view.
pub enum InstrView {
    /// `+`
    Increment,
    /// `-`
    Decrement,
    /// `>`
    Right,
    /// `<`
    Left,
    /// `.`
    Print,
    /// `,`
    Read,
    /// `[`
    BlockStart,
    /// `]`
    BlockEnd,
    /// cell[ptr] <- 0
    Clear,
    /// ptr <- ptr + delta
    Shift(int),
    /// cell[ptr] <- v
    SetCell(u8),
    /// cell[ptr] <- cell[ptr] + v
    Modify(u8),
    /// cell[ptr + o] <- v
    SetOffset(u8, int),
    /// cell[ptr + o] <- cell[ptr + o] + v
    ModifyOffset(u8, int),
    /// the compacted run
    ModifyRun { shift: int, offset: int, data: Seq<u8> },
    /// the multiply-and-add loop
    LinearLoop { offset: int, linearity_factor: u8, data: Seq<u8> },
    /// the iterated run loop
    SimpleLoop { shift: int, offset: int, data: Seq<u8> },
    /// the pointer scan loop
    SearchLoop { step: int },
    /// the nested loop
    Loop(Seq<InstrView>),
}

/// The view of one instruction.
pub open spec fn iview(i: Instruction) -> InstrView
    decreases i,
{
    match i {
        Instruction::Increment => InstrView::Increment,
        Instruction::Decrement => InstrView::Decrement,
        Instruction::Right => InstrView::Right,
        Instruction::Left => InstrView::Left,
        Instruction::Print => InstrView::Print,
        Instruction::Read => InstrView::Read,
        Instruction::BlockStart => InstrView::BlockStart,
        Instruction::BlockEnd => InstrView::BlockEnd,
        Instruction::Clear => InstrView::Clear,
        Instruction::Shift(d) => InstrView::Shift(d as int),
        Instruction::SetCell(v) => InstrView::SetCell(v),
        Instruction::Modify(v) => InstrView::Modify(v),
        Instruction::SetOffset(v, o) => InstrView::SetOffset(v, o as int),
        Instruction::ModifyOffset(v, o) => InstrView::ModifyOffset(v, o as int),
        Instruction::ModifyRun { shift, offset, data } => InstrView::ModifyRun {
            shift: shift as int,
            offset: offset as int,
            data: data@,
        },
        Instruction::LinearLoop { offset, linearity_factor, data } => InstrView::LinearLoop {
            offset: offset as int,
            linearity_factor,
            data: data@,
        },
        Instruction::SimpleLoop { shift, offset, data } => InstrView::SimpleLoop {
            shift: shift as int,
            offset: offset as int,
            data: data@,
        },
        Instruction::SearchLoop { step } => InstrView::SearchLoop { step: step as int },
        Instruction::Loop(body) => InstrView::Loop(iview_seq(body@)),
    }
}

/// The view of a sibling sequence, element by element.
pub open spec fn iview_seq(s: Seq<Instruction>) -> Seq<InstrView>
    decreases s,
{
    if s.len() == 0 {
        Seq::empty()
    } else {
        seq![iview(s[0])] + iview_seq(s.drop_first())
    }
}

/// Views map sequences element by element.
pub broadcast proof fn lemma_iview_seq_index(s: Seq<Instruction>)
    ensures
        (#[trigger] iview_seq(s)).len() == s.len(),
        forall|i: int| 0 <= i < s.len() ==> iview_seq(s)[i] == iview(#[trigger] s[i]),
    decreases s.len(),
{
    if s.len() > 0 {
        lemma_iview_seq_index(s.drop_first());
        assert forall|i: int| 0 <= i < s.len() implies iview_seq(s)[i] == iview(#[trigger] s[i]) by {
            if i > 0 {
                assert(s.drop_first()[i - 1] == s[i]);
            }
        }
    }
}

/// Views commute with `push`.
pub proof fn lemma_iview_seq_push(s: Seq<Instruction>, x: Instruction)
    ensures
        iview_seq(s.push(x)) == iview_seq(s) + seq![iview(x)],
{
    lemma_iview_seq_index(s.push(x));
    lemma_iview_seq_index(s);
    assert forall|i: int| 0 <= i < s.len() + 1 implies iview_seq(s.push(x))[i] == (iview_seq(s)
        + seq![iview(x)])[i] by {
        if i < s.len() {
            assert(s.push(x)[i] == s[i]);
        } else {
            assert(s.push(x)[i] == x);
        }
    }
    assert(iview_seq(s.push(x)) =~= iview_seq(s) + seq![iview(x)]);
}

/// Nesting depth of one instruction view: 0 for everything but
/// `Loop`.
pub open spec fn height(i: InstrView) -> nat
    decreases i,
{
    match i {
        InstrView::Loop(body) => (height_seq(body) + 1) as nat,
        _ => 0,
    }
}

/// Nesting depth of a sibling sequence: the largest depth of a member.
pub open spec fn height_seq(s: Seq<InstrView>) -> nat
    decreases s,
{
    if s.len() == 0 {
        0
    } else {
        let h0 = height(s[0]);
        let hr = height_seq(s.drop_first());
        if h0 >= hr {
            h0
        } else {
            hr
        }
    }
}

/// Every member of a sibling sequence nests no deeper than the
/// sequence itself.
pub proof fn lemma_height_member(s: Seq<InstrView>, i: int)
    requires
        0 <= i < s.len(),
    ensures
        height(s[i]) <= height_seq(s),
    decreases s.len(),
{
    if i > 0 {
        lemma_height_member(s.drop_first(), i - 1);
        assert(s.drop_first()[i - 1] == s[i]);
    }
}

/// True of the eight primitive symbols that the parser emits.
pub open spec fn is_primitive(i: Instruction) -> bool {
    match i {
        Instruction::Increment => true,
        Instruction::Decrement => true,
        Instruction::Right => true,
        Instruction::Left => true,
        Instruction::Print => true,
        Instruction::Read => true,
        Instruction::BlockStart => true,
        Instruction::BlockEnd => true,
        _ => false,
    }
}

/// True of the parser's output: only the eight primitive symbols.
pub open spec fn primitives_only(s: Seq<Instruction>) -> bool {
    forall|i: int| 0 <= i < s.len() ==> is_primitive(#[trigger] s[i])
}

} // verus!
