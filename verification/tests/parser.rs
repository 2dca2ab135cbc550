use bfvm::instructions::Instruction::{
    BlockEnd, BlockStart, Decrement, Increment, Left, Print, Right,
};

#[test]
fn parse_simple() {
    let program = "+[------->++<]>--.+++.---.";
    let parsed = bfvm::parser::parse(program);

    assert_eq!(
        parsed,
        &[
            Increment, BlockStart, Decrement, Decrement, Decrement, Decrement, Decrement,
            Decrement, Decrement, Right, Increment, Increment, Left, BlockEnd, Right, Decrement,
            Decrement, Print, Increment, Increment, Increment, Print, Decrement, Decrement,
            Decrement, Print,
        ]
    );
}

#[test]
fn parse_ignores_comments() {
    // Only the eight significant symbols count.
    let with_noise = bfvm::parser::parse("a + b\n- hello < world > .,[]!");
    let scrubbed = bfvm::parser::parse("+-<>.,[]");
    assert_eq!(with_noise, scrubbed);
}

#[test]
fn parse_empty_source() {
    assert_eq!(bfvm::parser::parse(""), Vec::new());
    assert_eq!(bfvm::parser::parse("no symbols here at all?"), Vec::new());
}

#[test]
fn memory_size_default() {
    assert_eq!(bfvm::parser::parse_memory_size(None), Some(256));
}

#[test]
fn memory_size_units() {
    assert_eq!(bfvm::parser::parse_memory_size(Some("12")), Some(12));
    assert_eq!(bfvm::parser::parse_memory_size(Some("5B")), Some(5));
    assert_eq!(bfvm::parser::parse_memory_size(Some("1k")), Some(1024));
    assert_eq!(bfvm::parser::parse_memory_size(Some("2M")), Some(2 * 1024 * 1024));
    assert_eq!(bfvm::parser::parse_memory_size(Some("3G")), Some(3 * 1024 * 1024 * 1024));
    assert_eq!(bfvm::parser::parse_memory_size(Some("10kxyz")), Some(10240));
}

#[test]
fn memory_size_invalid() {
    assert_eq!(bfvm::parser::parse_memory_size(Some("")), None);
    assert_eq!(bfvm::parser::parse_memory_size(Some("k")), None);
    assert_eq!(bfvm::parser::parse_memory_size(Some("12Q")), None);
    assert_eq!(bfvm::parser::parse_memory_size(Some("99999999999999999999999999")), None);
}
