//! The instruction alphabet: one tagged variant per command character, plus
//! the run-length-encoded instruction record that the parser emits.

use vstd::prelude::*;

verus! {

/// One command of the language. The two loop commands carry the jump target
/// that the resolver fills in: a loop opening records the index of the last
/// instruction of its body, a loop close records the index of the first.
/// Both targets start out at the sentinel value 0.
#[derive(Debug, PartialEq, Eq, Structural, Clone, Copy)]
pub enum InstructionKind {
    IncPtr,
    DecPtr,
    IncByte,
    DecByte,
    WriteByte,
    ReadByte,
    LoopStart { end_index: usize },
    LoopEnd { start_index: usize },
    RegUp,
    RegDown,
    EnvOpen,
    EnvClose,
    CopyFn,
    IfStatem,
}

/// True of the 14 characters that the language recognizes; every other
/// character of a source text is ignored.
pub open spec fn is_command_char(c: char) -> bool {
    ||| c == '>'
    ||| c == '<'
    ||| c == '+'
    ||| c == '-'
    ||| c == '.'
    ||| c == ','
    ||| c == '['
    ||| c == ']'
    ||| c == '^'
    ||| c == 'v'
    ||| c == '('
    ||| c == ')'
    ||| c == '&'
    ||| c == '?'
}

/// The instruction kind a command character stands for, with loop jump
/// targets still at their sentinel value.
pub open spec fn kind_of_char(c: char) -> InstructionKind {
    if c == '>' {
        InstructionKind::IncPtr
    } else if c == '<' {
        InstructionKind::DecPtr
    } else if c == '+' {
        InstructionKind::IncByte
    } else if c == '-' {
        InstructionKind::DecByte
    } else if c == '.' {
        InstructionKind::WriteByte
    } else if c == ',' {
        InstructionKind::ReadByte
    } else if c == '[' {
        InstructionKind::LoopStart { end_index: 0 }
    } else if c == ']' {
        InstructionKind::LoopEnd { start_index: 0 }
    } else if c == '^' {
        InstructionKind::RegUp
    } else if c == 'v' {
        InstructionKind::RegDown
    } else if c == '(' {
        InstructionKind::EnvOpen
    } else if c == ')' {
        InstructionKind::EnvClose
    } else if c == '&' {
        InstructionKind::CopyFn
    } else {
        InstructionKind::IfStatem
    }
}

/// Whether a character belongs to the instruction alphabet.
pub fn is_command(c: char) -> (r: bool)
    ensures
        r == is_command_char(c),
{
    match c {
        '>' | '<' | '+' | '-' | '.' | ',' | '[' | ']' | '^' | 'v' | '(' | ')' | '&' | '?' => true,
        _ => false,
    }
}

impl InstructionKind {
    /// Sets the jump target of a loop instruction. Only the resolver calls
    /// this, and only on loop kinds.
    pub fn add_jump_index(&mut self, jump_index: usize)
        requires
            old(self) matches InstructionKind::LoopStart { .. } || old(
                self,
            ) matches InstructionKind::LoopEnd { .. },
        ensures
            old(self) matches InstructionKind::LoopStart { .. } ==> *final(self)
                == (InstructionKind::LoopStart { end_index: jump_index }),
            old(self) matches InstructionKind::LoopEnd { .. } ==> *final(self)
                == (InstructionKind::LoopEnd { start_index: jump_index }),
    {
        match self {
            InstructionKind::LoopStart { end_index } => *end_index = jump_index,
            InstructionKind::LoopEnd { start_index } => *start_index = jump_index,
            _ => {},
        }
    }
}

/// A run-length-encoded unit of program behavior: its ordinal position in
/// the emitted sequence, its kind, and how many consecutive identical
/// command characters it absorbed.
#[derive(Debug, PartialEq, Eq, Structural, Clone, Copy)]
pub struct Instruction {
    pub index: usize,
    pub kind: InstructionKind,
    pub times: usize,
}

impl Instruction {
    /// A fresh instruction for one command character, before any merging.
    pub fn new(index: usize, instruction_char: char) -> (r: Self)
        requires
            is_command_char(instruction_char),
        ensures
            r.index == index,
            r.kind == kind_of_char(instruction_char),
            r.times == 1,
    {
        let kind = match instruction_char {
            '>' => InstructionKind::IncPtr,
            '<' => InstructionKind::DecPtr,
            '+' => InstructionKind::IncByte,
            '-' => InstructionKind::DecByte,
            ',' => InstructionKind::ReadByte,
            '.' => InstructionKind::WriteByte,
            '[' => InstructionKind::LoopStart { end_index: 0 },
            ']' => InstructionKind::LoopEnd { start_index: 0 },
            '^' => InstructionKind::RegUp,
            'v' => InstructionKind::RegDown,
            '(' => InstructionKind::EnvOpen,
            ')' => InstructionKind::EnvClose,
            '&' => InstructionKind::CopyFn,
            _ => InstructionKind::IfStatem,
        };
        Instruction { index, kind, times: 1 }
    }

    /// Absorbs one more consecutive occurrence of the same command.
    pub fn add_repeat(&mut self)
        requires
            old(self).times < usize::MAX,
        ensures
            final(self).index == old(self).index,
            final(self).kind == old(self).kind,
            final(self).times == old(self).times + 1,
    {
        self.times += 1;
    }
}

} // verus!
