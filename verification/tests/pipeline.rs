use bfvm::interpret::{interpret, Machine, RunOutcome};

fn run(source: &str, input: &[u8], memory_size: usize) -> Machine {
    let program = bfvm::optimizations::compile(source).expect("program should compile");
    match interpret(&program, input.to_vec(), memory_size, u64::MAX) {
        RunOutcome::Done(machine) => machine,
        RunOutcome::Failed(e) => panic!("runtime error: {:?}", e),
        RunOutcome::OutOfFuel => panic!("ran out of fuel"),
    }
}

#[test]
fn multiply_loop_prints_a() {
    let m = run("++++++++[>++++++++<-]>+.", &[], 256);
    assert_eq!(m.output, vec![0x41]);
}

#[test]
fn echo_three_bytes() {
    let m = run(",.,.,.", b"abc", 256);
    assert_eq!(m.output, b"abc".to_vec());
}

#[test]
fn linear_loop_factor_seven() {
    // The loop body compacts to deltas [-7, +2], so the loop is
    // recognized with factor 7.  One is not a multiple of 7, so the
    // loop degrades to its iterative form: 183 passes zero the guard
    // cell and leave 2 * 183 mod 256 = 110 in the next cell.
    let m = run("+[------->++<]>+.+++++++..+++.", &[], 256);
    assert_eq!(m.output, vec![111, 118, 118, 121]);
}

#[test]
fn clear_loop_prints_nul() {
    let m = run("+++[-].", &[], 256);
    assert_eq!(m.output, vec![0]);
}

#[test]
fn shift_grows_tape() {
    let m = run(">>>>>,.", &[0x42], 1);
    assert_eq!(m.output, vec![0x42]);
    assert_eq!(m.memory.ptr, 5);
}

#[test]
fn nested_loops_multiply() {
    // A loop inside a loop: the inner body is recognized on its own,
    // and the outer stays a structural loop around it.
    let m = run("+++[>+++[>+<-]<-]>>.", &[], 256);
    assert_eq!(m.output, vec![9]);
}

#[test]
fn read_past_end_of_input_yields_zero() {
    let m = run(",.,.", b"a", 256);
    assert_eq!(m.output, vec![b'a', 0]);
}

#[test]
fn naive_and_optimized_agree() {
    // The same program, once through the optimizer and once as the
    // bare loop forest, must print the same bytes.
    let source = "++++++++[>++++++++<-]>+.>,[-<+>]<.";
    let input = b"\x07";
    let optimized = bfvm::optimizations::compile(source).unwrap();
    let parsed = bfvm::parser::parse(source);
    let naive = bfvm::optimizations::collect_loops(&parsed).unwrap();
    assert!(bfvm::interpret::is_block_free(&naive));
    let a = match interpret(&optimized, input.to_vec(), 256, u64::MAX) {
        RunOutcome::Done(m) => m.output,
        other_outcome => panic!("optimized run failed: {:?}", outcome_name(&other_outcome)),
    };
    let b = match interpret(&naive, input.to_vec(), 256, u64::MAX) {
        RunOutcome::Done(m) => m.output,
        other_outcome => panic!("naive run failed: {:?}", outcome_name(&other_outcome)),
    };
    assert_eq!(a, b);
}

fn outcome_name(o: &RunOutcome) -> &'static str {
    match o {
        RunOutcome::Done(_) => "done",
        RunOutcome::Failed(_) => "failed",
        RunOutcome::OutOfFuel => "out of fuel",
    }
}

#[test]
fn out_of_fuel_is_reported() {
    let program = bfvm::optimizations::compile("+[.]").unwrap();
    match interpret(&program, Vec::new(), 256, 10) {
        RunOutcome::OutOfFuel => {}
        _ => panic!("a print loop on a non-zero cell never finishes"),
    }
}
