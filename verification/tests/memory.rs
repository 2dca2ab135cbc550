use bfvm::errors::RuntimeError;
use bfvm::memory::Memory;

#[test]
fn new_memory_is_zeroed() {
    let m = Memory::new(4);
    assert_eq!(m.data, vec![0, 0, 0, 0]);
    assert_eq!(m.ptr, 0);
    assert_eq!(m.get(), 0);
    assert_eq!(m.get_raw(), 0);
}

#[test]
fn empty_memory_still_has_a_cell() {
    let m = Memory::new(0);
    assert_eq!(m.data.len(), 1);
    assert_eq!(m.get(), 0);
}

#[test]
fn set_writes_the_current_cell() {
    let mut m = Memory::new(2);
    m.set(7);
    assert_eq!(m.get(), 7);
    assert_eq!(m.data, vec![7, 0]);
}

#[test]
fn check_length_grows_zero_filled() {
    let mut m = Memory::new(1);
    m.set(9);
    m.check_length(4);
    assert_eq!(m.data, vec![9, 0, 0, 0]);
    m.check_length(2);
    assert_eq!(m.data, vec![9, 0, 0, 0]);
}

#[test]
fn shift_moves_and_grows() {
    let mut m = Memory::new(1);
    assert_eq!(m.shift(3), Ok(()));
    assert_eq!(m.ptr, 3);
    assert_eq!(m.data.len(), 4);
    assert_eq!(m.shift(-3), Ok(()));
    assert_eq!(m.ptr, 0);
}

#[test]
fn shift_below_zero_underflows() {
    let mut m = Memory::new(4);
    assert_eq!(m.shift(-1), Err(RuntimeError::TapeUnderflow));
    assert_eq!(m.ptr, 0);
    assert_eq!(m.data.len(), 4);
}
