use bf_ast::error_handler::Error;
use bf_ast::instruction::{is_command, Instruction, InstructionKind};
use bf_ast::parser::parse_source;

#[test]
fn test_single_inc() {
    let insts = parse_source("+").unwrap();
    assert_eq!(insts.len(), 1);
    assert_eq!(insts[0], Instruction { index: 0, kind: InstructionKind::IncByte, times: 1 });
}

#[test]
fn test_inc_loop_dec() {
    let insts = parse_source("++++[-]").unwrap();
    assert_eq!(insts.len(), 4);
    assert_eq!(insts[0], Instruction { index: 0, kind: InstructionKind::IncByte, times: 4 });
    assert_eq!(insts[1], Instruction {
        index: 1,
        kind: InstructionKind::LoopStart { end_index: 2 },
        times: 1,
    });
    assert_eq!(insts[2], Instruction { index: 2, kind: InstructionKind::DecByte, times: 1 });
    assert_eq!(insts[3], Instruction {
        index: 3,
        kind: InstructionKind::LoopEnd { start_index: 2 },
        times: 1,
    });
}

#[test]
fn test_unmatched_open() {
    assert_eq!(parse_source("[").unwrap_err(), Error::NonClosedBrackets);
}

#[test]
fn test_unmatched_close() {
    assert_eq!(parse_source("]").unwrap_err(), Error::NonClosedBrackets);
}

#[test]
fn test_empty_loop() {
    assert_eq!(parse_source("[]").unwrap_err(), Error::InfiniteLoop);
}

#[test]
fn test_stacked_brackets_empty_body() {
    // the two openings merge into one instruction and the innermost loop
    // body is empty, so the resolver flags a potential infinite loop
    assert_eq!(parse_source("[[]]").unwrap_err(), Error::InfiniteLoop);
}

#[test]
fn test_nested_loops() {
    let insts = parse_source("[+[-]+]").unwrap();
    assert_eq!(insts.len(), 7);
    assert_eq!(insts[0].kind, InstructionKind::LoopStart { end_index: 5 });
    assert_eq!(insts[1].kind, InstructionKind::IncByte);
    assert_eq!(insts[2].kind, InstructionKind::LoopStart { end_index: 3 });
    assert_eq!(insts[3].kind, InstructionKind::DecByte);
    assert_eq!(insts[4].kind, InstructionKind::LoopEnd { start_index: 3 });
    assert_eq!(insts[5].kind, InstructionKind::IncByte);
    assert_eq!(insts[6].kind, InstructionKind::LoopEnd { start_index: 1 });
}

#[test]
fn test_merged_nesting() {
    // two stacked openings fold into one instruction with times == 2, and
    // the two closes fold the same way; resolution still balances them
    let insts = parse_source("[[+]]").unwrap();
    assert_eq!(insts.len(), 3);
    assert_eq!(insts[0], Instruction {
        index: 0,
        kind: InstructionKind::LoopStart { end_index: 1 },
        times: 2,
    });
    assert_eq!(insts[1], Instruction { index: 1, kind: InstructionKind::IncByte, times: 1 });
    assert_eq!(insts[2], Instruction {
        index: 2,
        kind: InstructionKind::LoopEnd { start_index: 1 },
        times: 2,
    });
}

#[test]
fn test_run_lengths_preserve_counts() {
    // five '+' and three '>' among comment text: the repeat counts of each
    // kind sum back to the character counts, and the instruction count
    // never exceeds the command character count
    let insts = parse_source("+> plus + and > then +++>").unwrap();
    assert!(insts.len() <= 8);
    let plus: usize = insts
        .iter()
        .filter(|i| i.kind == InstructionKind::IncByte)
        .map(|i| i.times)
        .sum();
    let right: usize = insts
        .iter()
        .filter(|i| i.kind == InstructionKind::IncPtr)
        .map(|i| i.times)
        .sum();
    assert_eq!(plus, 5);
    assert_eq!(right, 3);
}

#[test]
fn test_comments_are_dropped() {
    let insts = parse_source("hello world! no commands here but qvestions?").unwrap();
    // 'v' and '?' are command characters; everything else is dropped
    assert_eq!(insts.len(), 2);
    assert_eq!(insts[0].kind, InstructionKind::RegDown);
    assert_eq!(insts[1].kind, InstructionKind::IfStatem);
}

#[test]
fn test_empty_source() {
    let insts = parse_source("").unwrap();
    assert!(insts.is_empty());
}

#[test]
fn test_jumps_lie_in_range() {
    let insts = parse_source("[-]").unwrap();
    assert_eq!(insts.len(), 3);
    for (i, inst) in insts.iter().enumerate() {
        match inst.kind {
            InstructionKind::LoopStart { end_index } => {
                assert!(i < end_index && end_index < insts.len());
            }
            InstructionKind::LoopEnd { start_index } => {
                assert!(0 < start_index && start_index < i);
            }
            _ => {}
        }
    }
    assert_eq!(insts[0].kind, InstructionKind::LoopStart { end_index: 1 });
    assert_eq!(insts[2].kind, InstructionKind::LoopEnd { start_index: 1 });
}

#[test]
fn test_all_fourteen_commands() {
    let insts = parse_source(">><+-.,^v()&?").unwrap();
    let kinds: Vec<InstructionKind> = insts.iter().map(|i| i.kind).collect();
    assert_eq!(kinds, vec![
        InstructionKind::IncPtr,
        InstructionKind::DecPtr,
        InstructionKind::IncByte,
        InstructionKind::DecByte,
        InstructionKind::WriteByte,
        InstructionKind::ReadByte,
        InstructionKind::RegUp,
        InstructionKind::RegDown,
        InstructionKind::EnvOpen,
        InstructionKind::EnvClose,
        InstructionKind::CopyFn,
        InstructionKind::IfStatem,
    ]);
    assert_eq!(insts[0].times, 2);
}

#[test]
fn test_is_command() {
    for c in ['>', '<', '+', '-', '.', ',', '[', ']', '^', 'v', '(', ')', '&', '?'] {
        assert!(is_command(c));
    }
    for c in ['a', ' ', '\n', 'V', '{', '0'] {
        assert!(!is_command(c));
    }
}

#[test]
fn test_instruction_new_and_repeat() {
    let mut inst = Instruction::new(3, '[');
    assert_eq!(inst, Instruction {
        index: 3,
        kind: InstructionKind::LoopStart { end_index: 0 },
        times: 1,
    });
    inst.add_repeat();
    assert_eq!(inst.times, 2);
    assert_eq!(inst.index, 3);
}

#[test]
fn test_add_jump_index() {
    let mut kind = InstructionKind::LoopStart { end_index: 0 };
    kind.add_jump_index(7);
    assert_eq!(kind, InstructionKind::LoopStart { end_index: 7 });
    let mut kind = InstructionKind::LoopEnd { start_index: 0 };
    kind.add_jump_index(4);
    assert_eq!(kind, InstructionKind::LoopEnd { start_index: 4 });
}

#[test]
fn test_error_messages() {
    assert_eq!(
        Error::NonClosedBrackets.message(),
        "error: some brackets are unclosed on source code"
    );
    assert_eq!(Error::InfiniteLoop.message(), "error: potential infinite loop in source code");
    assert_eq!(
        Error::PtrAboveLimit.message(),
        "error: mem pointer went above limit 30000"
    );
    assert_eq!(Error::PtrBelowZero.message(), "error: mem pointer went below zero.");
}
