use bfvm::instructions::Instruction;
use bfvm::interpret::{interpret, RunOutcome};

fn no_empty_loops(program: &[Instruction]) -> bool {
    program.iter().all(|op| match op {
        Instruction::Loop(body) => !body.is_empty() && no_empty_loops(body),
        _ => true,
    })
}

fn runs_normalized(program: &[Instruction]) -> bool {
    program.iter().all(|op| match op {
        Instruction::ModifyRun { data, .. } => {
            !data.is_empty() && data[0] != 0 && data[data.len() - 1] != 0
        }
        Instruction::Loop(body) => runs_normalized(body),
        _ => true,
    })
}

#[test]
fn optimizer_prunes_empty_loops() {
    // Every empty loop is gone from the optimizer's output.
    let program = bfvm::optimizations::compile("[][[]]+[][-]").unwrap();
    assert!(no_empty_loops(&program));
    let tricky = bfvm::optimizations::compile("+[>+<[]]").unwrap();
    assert!(no_empty_loops(&tricky));
}

#[test]
fn modify_runs_are_trimmed() {
    // `>+<` touches cell 1 only, so the run
    // carries one delta at offset 1, not a padded vector.
    let program = bfvm::optimizations::compile(">+<>++<.+-+>><<").unwrap();
    assert!(runs_normalized(&program));
}

#[test]
fn folder_is_idempotent() {
    // Folding what the optimizer returns
    // changes nothing.
    let sources = ["+[------->++<]>--.+++.---.", ">>><<<+-", "[-]+++[.]", ",[.,]"];
    for source in sources {
        let program = bfvm::optimizations::compile(source).unwrap();
        let refolded = bfvm::folder::fold_dce(&program);
        assert_eq!(program, refolded);
    }
}

#[test]
fn wrapping_modify_equals_decrement() {
    // Modify(255) is Modify(-1): cell arithmetic wraps modulo 256.
    let a = interpret(&[Instruction::Modify(255)], Vec::new(), 4, 100);
    let b = interpret(&[Instruction::Decrement], Vec::new(), 4, 100);
    match (a, b) {
        (RunOutcome::Done(m1), RunOutcome::Done(m2)) => {
            assert_eq!(m1.memory.data, m2.memory.data);
            assert_eq!(m1.memory.data[0], 255);
        }
        _ => panic!("both runs should finish"),
    }
}

#[test]
fn wrapping_increment_overflows_to_zero() {
    // 256 increments wrap the cell back to zero.
    let source = "+".repeat(256) + ".";
    let program = bfvm::optimizations::compile(&source).unwrap();
    match interpret(&program, Vec::new(), 4, 100) {
        RunOutcome::Done(m) => assert_eq!(m.output, vec![0]),
        _ => panic!("the run should finish"),
    }
}

#[test]
fn linear_loop_matches_simple_loop() {
    // Ten in the guard cell, factor five, two
    // added at offset one per pass.
    let linear = Instruction::LinearLoop {
        offset: 0,
        linearity_factor: 5,
        data: vec![251, 2],
    };
    let simple = Instruction::SimpleLoop { shift: 0, offset: 0, data: vec![251, 2] };
    let setup_a = Instruction::ModifyRun { shift: 0, offset: 0, data: vec![10] };
    let setup_b = Instruction::ModifyRun { shift: 0, offset: 0, data: vec![10] };
    let a = interpret(&[setup_a, linear], Vec::new(), 4, 1000);
    let b = interpret(&[setup_b, simple], Vec::new(), 4, 1000);
    match (a, b) {
        (RunOutcome::Done(m1), RunOutcome::Done(m2)) => {
            assert_eq!(m1.memory.data, m2.memory.data);
            assert_eq!(m1.memory.data[0], 0);
            assert_eq!(m1.memory.data[1], 4);
        }
        _ => panic!("both runs should finish"),
    }
}

#[test]
fn search_loop_finds_zero_cell() {
    // `[>>]` scans by two until a zero cell.
    let m = match interpret(
        &bfvm::optimizations::compile("++>+>++>+>++[>>]").unwrap(),
        Vec::new(),
        8,
        1000,
    ) {
        RunOutcome::Done(m) => m,
        _ => panic!("the run should finish"),
    };
    assert_eq!(m.memory.ptr, 6);
}
