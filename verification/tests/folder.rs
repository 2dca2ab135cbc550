use bfvm::folder::fold_dce;
use bfvm::instructions::Instruction::{
    Clear, Loop, Modify, ModifyOffset, Print, SetCell, SetOffset, Shift,
};
use bfvm::interpret::{interpret, RunOutcome};

#[test]
fn fold_absorbs_shift_into_neighbour() {
    let folded = fold_dce(&[Shift(2), Modify(3), Shift(1)]);
    assert_eq!(folded, vec![ModifyOffset(3, 2), Shift(3)]);
    let folded = fold_dce(&[Shift(2), SetCell(9), Shift(-2)]);
    assert_eq!(folded, vec![SetOffset(9, 2)]);
    let folded = fold_dce(&[Shift(1), SetOffset(9, 3), Shift(1)]);
    assert_eq!(folded, vec![SetOffset(9, 4), Shift(2)]);
}

#[test]
fn fold_combines_pairs() {
    assert_eq!(fold_dce(&[SetCell(1), Modify(2)]), vec![SetCell(3)]);
    assert_eq!(fold_dce(&[SetCell(1), SetCell(2)]), vec![SetCell(2)]);
    assert_eq!(fold_dce(&[Modify(200), Modify(100)]), vec![Modify(44)]);
    assert_eq!(fold_dce(&[Shift(3), Shift(-1)]), vec![Shift(2)]);
    assert_eq!(
        fold_dce(&[ModifyOffset(7, 4), Shift(4)]),
        vec![Shift(4), Modify(7)]
    );
}

#[test]
fn fold_drops_dead_instructions() {
    assert_eq!(fold_dce(&[Modify(0)]), Vec::new());
    assert_eq!(fold_dce(&[ModifyOffset(0, 5)]), Vec::new());
    assert_eq!(fold_dce(&[Shift(0)]), Vec::new());
    assert_eq!(fold_dce(&[Shift(3), Shift(-3)]), Vec::new());
    assert_eq!(fold_dce(&[SetOffset(5, 0)]), vec![SetCell(5)]);
    assert_eq!(fold_dce(&[ModifyOffset(5, 0)]), vec![Modify(5)]);
}

#[test]
fn fold_prunes_loops_whose_body_folds_away() {
    assert_eq!(fold_dce(&[Loop(vec![Shift(0)])]), Vec::new());
    let folded = fold_dce(&[Loop(vec![Clear, Modify(0)])]);
    assert_eq!(folded, vec![Loop(vec![Clear])]);
}

#[test]
fn offset_writes_execute_in_place() {
    let program = [SetOffset(65, 2), ModifyOffset(1, 2), Shift(2), Print];
    match interpret(&program, Vec::new(), 1, 10) {
        RunOutcome::Done(m) => {
            assert_eq!(m.output, vec![66]);
            assert_eq!(m.memory.ptr, 2);
            assert_eq!(m.memory.data, vec![0, 0, 66]);
        }
        _ => panic!("the run should finish"),
    }
}
