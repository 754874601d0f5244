//! The machine's instructions as plain values.
//!
//! How an instruction is laid out in bits is the business of an instruction
//! encoder; the assembler only says which instruction it wants.

use vstd::prelude::*;

verus! {

/// The operations of the machine.
#[derive(Debug, Clone, Copy, PartialEq, Eq, Structural)]
pub enum Opcode {
    Load,
    LoadDouble,
    Store,
    StoreDouble,
    LoadIndex,
    StoreIndex,
    LoadStatus,
    StoreStatus,
    Add,
    AddDouble,
    Subtract,
    SubtractDouble,
    Multiply,
    Divide,
    And,
    Or,
    ExclusiveOr,
    ShiftLeft,
    ShiftRight,
    BranchSkipCondition,
    BranchStore,
    ModifyIndex,
    Wait,
    ExecuteInputOutput,
}

/// One machine instruction.
#[derive(Debug, Clone, Copy, PartialEq, Eq, Structural)]
pub enum Instruction {
    /// One word: operation, index register, signed displacement.
    Short { op: Opcode, tag: u8, disp: i8 },
    /// Two words: operation, index register, indirection, condition mask,
    /// 16-bit address.
    Long { op: Opcode, tag: u8, indirect: bool, mask: u8, address: u16 },
}

impl Instruction {
    /// The number of words that the instruction takes.
    pub open spec fn words(self) -> int {
        match self {
            Instruction::Short { .. } => 1,
            Instruction::Long { .. } => 2,
        }
    }

    pub open spec fn operation(self) -> Opcode {
        match self {
            Instruction::Short { op, .. } => op,
            Instruction::Long { op, .. } => op,
        }
    }
}

} // verus!
