//! A reduced front end over the classic 8-symbol alphabet: per-character
//! opcodes, the instruction forms of a tree-shaped program representation,
//! and the diagnostic trace built for an unmatched loop bracket. Building
//! the tree itself navigates with raw pointers and is left to unverified
//! callers; everything here is plain data work.

use vstd::prelude::*;

verus! {

#[derive(Debug, PartialEq, Eq, Structural, Clone, Copy)]
pub enum Opcode {
    IncrementPointer,
    DecrementPointer,
    PrintStatement,
    GetCStatement,
    LoopStart,
    LoopExit,
    IncrementValue,
    DecrementValue,
    UnknownOpcode,
}

/// The opcode a character decodes to; anything unrecognized is
/// `UnknownOpcode` and is dropped from the decoded stream.
pub open spec fn opcode_of_char(c: char) -> Opcode {
    if c == '>' {
        Opcode::IncrementPointer
    } else if c == '<' {
        Opcode::DecrementPointer
    } else if c == '+' {
        Opcode::IncrementValue
    } else if c == '-' {
        Opcode::DecrementValue
    } else if c == '[' {
        Opcode::LoopStart
    } else if c == ']' {
        Opcode::LoopExit
    } else if c == '.' {
        Opcode::PrintStatement
    } else if c == ',' {
        Opcode::GetCStatement
    } else {
        Opcode::UnknownOpcode
    }
}

/// The decoded opcode stream of a program text: one opcode per recognized
/// character, unrecognized characters dropped.
pub open spec fn decoded(cs: Seq<char>) -> Seq<Opcode>
    decreases cs.len(),
{
    if cs.len() == 0 {
        Seq::empty()
    } else {
        let rest = decoded(cs.drop_last());
        if opcode_of_char(cs.last()) == Opcode::UnknownOpcode {
            rest
        } else {
            rest.push(opcode_of_char(cs.last()))
        }
    }
}

/// Decodes a program text character by character.
pub fn decode_to_opcodes(code: String) -> (r: Vec<Opcode>)
    ensures
        r@ == decoded(code@),
{
    let s = code.as_str();
    let n = s.unicode_len();
    let mut code_operators: Vec<Opcode> = Vec::new();
    let mut idx: usize = 0;
    proof {
        assert(s@.subrange(0, 0) =~= Seq::<char>::empty());
    }
    while idx < n
        invariant
            n == s@.len(),
            s@ == code@,
            idx <= n,
            code_operators@ == decoded(s@.subrange(0, idx as int)),
        decreases n - idx,
    {
        let c = s.get_char(idx);
        proof {
            assert(s@.subrange(0, idx + 1).drop_last() =~= s@.subrange(0, idx as int));
            assert(s@.subrange(0, idx + 1).last() == c);
        }
        let token = match c {
            '>' => Opcode::IncrementPointer,
            '<' => Opcode::DecrementPointer,
            '+' => Opcode::IncrementValue,
            '-' => Opcode::DecrementValue,
            '[' => Opcode::LoopStart,
            ']' => Opcode::LoopExit,
            '.' => Opcode::PrintStatement,
            ',' => Opcode::GetCStatement,
            _ => Opcode::UnknownOpcode,
        };
        if token != Opcode::UnknownOpcode {
            code_operators.push(token);
        }
        idx += 1;
    }
    proof {
        assert(s@.subrange(0, n as int) =~= s@);
    }
    code_operators
}

/// One node's worth of program behavior in the tree representation.
#[derive(Debug, PartialEq, Eq, Structural, Clone, Copy)]
pub enum Instruction {
    Start,
    PointerAddition(i32),
    PointerSubtraction(i32),
    PrintStatement(i32),
    GetCStatement(i32),
    LoopStart(i32),
    LoopExit,
    ValueAddition(i32),
    ValueSubtraction(i32),
    UnknownOpcode,
    EOF,
}

/// A node of the tree representation: its instruction, its ordinal index
/// in the program, and its child branches.
pub struct Node {
    pub instruction: Instruction,
    pub index: i32,
    pub children: Vec<Option<Box<Node>>>,
}

impl Node {
    /// A leaf node.
    pub fn new(instruction: Instruction, index: i32) -> (r: Node)
        ensures
            r.instruction == instruction,
            r.index == index,
            r.children@.len() == 0,
    {
        Node { instruction, index, children: Vec::new() }
    }

    /// Appends a fresh leaf as the next child branch.
    pub fn insert_child(&mut self, instruction: Instruction, index: i32)
        ensures
            final(self).instruction == old(self).instruction,
            final(self).index == old(self).index,
            final(self).children@.len() == old(self).children@.len() + 1,
            forall|k: int|
                0 <= k < old(self).children@.len() ==> final(self).children@[k] == old(
                    self,
                ).children@[k],
            final(self).children@.last() matches Some(child) && child.instruction == instruction
                && child.index == index && child.children@.len() == 0,
    {
        self.children.push(Some(Box::new(Node::new(instruction, index))));
    }
}

#[derive(Copy, Clone, Debug)]
pub enum ExceptionFlag {
    NonClosedLoop,
    NonOpenLoop,
}

/// The rendered context of a bracket failure: the instruction it happened
/// at, a few instructions before and after it, and the explanation.
pub struct ExceptTrace {
    pub index: i32,
    pub exc_type: ExceptionFlag,
    pub previous_line: String,
    pub main_instruction: String,
    pub next_line: String,
    pub reason: String,
}

/// The display character of an opcode; opcodes with no glyph render as the
/// nul character.
pub open spec fn char_of_opcode(opcode: Opcode) -> char {
    match opcode {
        Opcode::IncrementValue => '+',
        Opcode::DecrementValue => '-',
        Opcode::IncrementPointer => '>',
        Opcode::DecrementPointer => '<',
        Opcode::LoopStart => '[',
        Opcode::LoopExit => ']',
        Opcode::PrintStatement => '.',
        _ => '\0',
    }
}

pub fn getc_for_opcode(opcode: Opcode) -> (r: char)
    ensures
        r == char_of_opcode(opcode),
{
    match opcode {
        Opcode::IncrementValue => '+',
        Opcode::DecrementValue => '-',
        Opcode::IncrementPointer => '>',
        Opcode::DecrementPointer => '<',
        Opcode::LoopStart => '[',
        Opcode::LoopExit => ']',
        Opcode::PrintStatement => '.',
        _ => '\0',
    }
}

/// The advice given for each kind of bracket failure.
pub open spec fn reason_spec(except: ExceptionFlag) -> Seq<char> {
    match except {
        ExceptionFlag::NonClosedLoop => "One or more loops was caught without closed pair. Try adding a ']' somewhere."@,
        ExceptionFlag::NonOpenLoop => "A ']' was found in code, remove it or add a opening bracket before it. ('[')"@,
    }
}

pub fn get_reason(except: ExceptionFlag) -> (r: String)
    ensures
        r@ == reason_spec(except),
{
    match except {
        ExceptionFlag::NonClosedLoop => "One or more loops was caught without closed pair. Try adding a ']' somewhere.".to_string(),
        ExceptionFlag::NonOpenLoop => "A ']' was found in code, remove it or add a opening bracket before it. ('[')".to_string(),
    }
}

/// Relies on std's `String::push`: it appends exactly the one character to
/// the end of the string.
pub assume_specification[ String::push ](s: &mut String, ch: char)
    ensures
        final(s)@ == old(s)@.push(ch),
;

/// Builds the diagnostic trace for a bracket failure at `index`: the
/// failing instruction's glyph, the four glyphs before it and the five
/// from it onward, and the explanation for the failure kind.
pub fn build_exception(instruction_set: &Vec<Opcode>, except: ExceptionFlag, index: usize) -> (r:
    ExceptTrace)
    requires
        5 <= index,
        index + 5 <= instruction_set@.len(),
        index <= i32::MAX,
    ensures
        r.index == index as i32,
        r.exc_type == except,
        r.main_instruction@ == seq![char_of_opcode(instruction_set@[index - 1])],
        r.previous_line@ == Seq::new(4, |k: int| char_of_opcode(instruction_set@[index - 5 + k])),
        r.next_line@ == Seq::new(5, |k: int| char_of_opcode(instruction_set@[index + k])),
        r.reason@ == reason_spec(except),
{
    let set_len: usize = instruction_set.len();
    proof {
        assert(instruction_set@.len() == set_len);
    }
    let error_instruction = instruction_set[index - 1];

    let mut next_line = String::new();
    let mut i: usize = index;
    while i < index + 5
        invariant
            5 <= index,
            index + 5 <= instruction_set@.len(),
            instruction_set@.len() <= usize::MAX,
            index <= i <= index + 5,
            next_line@.len() == i - index,
            forall|k: int|
                0 <= k < i - index ==> next_line@[k] == char_of_opcode(
                    instruction_set@[index + k],
                ),
        decreases index + 5 - i,
    {
        next_line.push(getc_for_opcode(instruction_set[i]));
        i += 1;
    }

    let mut previous_line = String::new();
    let mut p: usize = index - 5;
    while p < index - 1
        invariant
            5 <= index,
            index + 5 <= instruction_set@.len(),
            instruction_set@.len() <= usize::MAX,
            index - 5 <= p <= index - 1,
            previous_line@.len() == p - (index - 5),
            forall|k: int|
                0 <= k < p - (index - 5) ==> previous_line@[k] == char_of_opcode(
                    instruction_set@[index - 5 + k],
                ),
        decreases index - 1 - p,
    {
        previous_line.push(getc_for_opcode(instruction_set[p]));
        p += 1;
    }

    let mut main_instruction = String::new();
    main_instruction.push(getc_for_opcode(error_instruction));

    proof {
        assert(next_line@ =~= Seq::new(5, |k: int| char_of_opcode(instruction_set@[index + k])));
        assert(previous_line@ =~= Seq::new(
            4,
            |k: int| char_of_opcode(instruction_set@[index - 5 + k]),
        ));
        assert(main_instruction@ =~= seq![char_of_opcode(instruction_set@[index - 1])]);
    }

    ExceptTrace {
        index: index as i32,
        exc_type: except,
        previous_line,
        main_instruction,
        next_line,
        reason: get_reason(except),
    }
}

} // verus!
