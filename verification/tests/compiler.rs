use bf_ast::compiler::{
    build_exception, decode_to_opcodes, get_reason, getc_for_opcode, ExceptionFlag, Instruction,
    Node, Opcode,
};

#[test]
fn test_decode_to_opcodes() {
    let ops = decode_to_opcodes(String::from("+-><[]., and some commentary"));
    assert_eq!(ops, vec![
        Opcode::IncrementValue,
        Opcode::DecrementValue,
        Opcode::IncrementPointer,
        Opcode::DecrementPointer,
        Opcode::LoopStart,
        Opcode::LoopExit,
        Opcode::PrintStatement,
        Opcode::GetCStatement,
    ]);
}

#[test]
fn test_decode_drops_unknown() {
    let ops = decode_to_opcodes(String::from("xyz qvestion?"));
    assert!(ops.is_empty());
}

#[test]
fn test_getc_for_opcode() {
    assert_eq!(getc_for_opcode(Opcode::IncrementValue), '+');
    assert_eq!(getc_for_opcode(Opcode::DecrementValue), '-');
    assert_eq!(getc_for_opcode(Opcode::IncrementPointer), '>');
    assert_eq!(getc_for_opcode(Opcode::DecrementPointer), '<');
    assert_eq!(getc_for_opcode(Opcode::LoopStart), '[');
    assert_eq!(getc_for_opcode(Opcode::LoopExit), ']');
    assert_eq!(getc_for_opcode(Opcode::PrintStatement), '.');
    assert_eq!(getc_for_opcode(Opcode::GetCStatement), '\0');
    assert_eq!(getc_for_opcode(Opcode::UnknownOpcode), '\0');
}

#[test]
fn test_get_reason() {
    assert_eq!(
        get_reason(ExceptionFlag::NonClosedLoop),
        "One or more loops was caught without closed pair. Try adding a ']' somewhere."
    );
    assert_eq!(
        get_reason(ExceptionFlag::NonOpenLoop),
        "A ']' was found in code, remove it or add a opening bracket before it. ('[')"
    );
}

#[test]
fn test_build_exception() {
    let ops = decode_to_opcodes(String::from("++++[----]>>"));
    assert_eq!(ops.len(), 12);
    let trace = build_exception(&ops, ExceptionFlag::NonOpenLoop, 5);
    assert_eq!(trace.index, 5);
    assert!(matches!(trace.exc_type, ExceptionFlag::NonOpenLoop));
    assert_eq!(trace.previous_line, "++++");
    assert_eq!(trace.main_instruction, "[");
    assert_eq!(trace.next_line, "----]");
    assert_eq!(
        trace.reason,
        "A ']' was found in code, remove it or add a opening bracket before it. ('[')"
    );
}

#[test]
fn test_node_new() {
    let node = Node::new(Instruction::Start, 0);
    assert_eq!(node.instruction, Instruction::Start);
    assert_eq!(node.index, 0);
    assert!(node.children.is_empty());
}

#[test]
fn test_node_insert_child() {
    let mut node = Node::new(Instruction::Start, 0);
    node.insert_child(Instruction::ValueAddition(1), 1);
    node.insert_child(Instruction::LoopExit, 2);
    assert_eq!(node.children.len(), 2);
    let first = node.children[0].as_ref().unwrap();
    assert_eq!(first.instruction, Instruction::ValueAddition(1));
    assert_eq!(first.index, 1);
    assert!(first.children.is_empty());
    let second = node.children[1].as_ref().unwrap();
    assert_eq!(second.instruction, Instruction::LoopExit);
    assert_eq!(second.index, 2);
}
