//! The in-memory representation of one assembly statement: an instruction,
//! an optional label declaration, and any comments attached to either.

use vstd::prelude::*;

verus! {

/// An instruction operand: either a literal cell address or a symbolic
/// label reference, resolved by the assembler to the address of the
/// statement that declares the label.
#[derive(Debug, PartialEq, Eq)]
pub enum MemoryLocation {
    Address(u8),
    Label(String),
}

/// The closed set of LMC instructions. `Data` is the raw-data
/// pseudo-instruction: its value is stored in the cell verbatim.
#[derive(Debug, PartialEq, Eq)]
pub enum InstructionType {
    Add(MemoryLocation),
    Subtract(MemoryLocation),
    Store(MemoryLocation),
    Load(MemoryLocation),
    BranchAlways(MemoryLocation),
    BranchIfZero(MemoryLocation),
    BranchIfPositive(MemoryLocation),
    Input,
    Output,
    Halt,
    Data(usize),
}

/// A label declaration, together with the comments written above or
/// beside it. Comments never affect assembly.
#[derive(Debug, PartialEq, Eq)]
pub struct Label {
    pub label: String,
    pub comments: Vec<String>,
}

/// An instruction together with the comments written beside it.
#[derive(Debug, PartialEq, Eq)]
pub struct Instruction {
    pub instruction: InstructionType,
    pub comments: Vec<String>,
}

/// One assembly statement. A statement occupies exactly one memory cell
/// when assembled; its position in the program is its address.
#[derive(Debug, PartialEq, Eq)]
pub enum Statement {
    Labeled { label: Label, instruction: Instruction },
    UnLabeled { instruction: Instruction },
}

/// The whole instruction field of a statement, labeled or not.
pub open spec fn statement_instruction_full(s: Statement) -> Instruction {
    match s {
        Statement::Labeled { instruction, .. } => instruction,
        Statement::UnLabeled { instruction } => instruction,
    }
}

/// The instruction kind of a statement, labeled or not.
pub open spec fn statement_instruction(s: Statement) -> InstructionType {
    statement_instruction_full(s).instruction
}

/// The name of the label a statement declares, if any.
pub open spec fn statement_label(s: Statement) -> Option<Seq<char>> {
    match s {
        Statement::Labeled { label, .. } => Some(label.label@),
        Statement::UnLabeled { .. } => None,
    }
}

/// The operand of an instruction kind, for the seven kinds that carry one.
pub open spec fn instruction_operand(t: InstructionType) -> Option<MemoryLocation> {
    match t {
        InstructionType::Add(loc) => Some(loc),
        InstructionType::Subtract(loc) => Some(loc),
        InstructionType::Store(loc) => Some(loc),
        InstructionType::Load(loc) => Some(loc),
        InstructionType::BranchAlways(loc) => Some(loc),
        InstructionType::BranchIfZero(loc) => Some(loc),
        InstructionType::BranchIfPositive(loc) => Some(loc),
        InstructionType::Input => None,
        InstructionType::Output => None,
        InstructionType::Halt => None,
        InstructionType::Data(_) => None,
    }
}

impl Statement {
    /// The instruction of this statement, labeled or not: the whole
    /// field, comments included.
    pub fn instruction(&self) -> (r: &Instruction)
        ensures
            *r == statement_instruction_full(*self),
            r.instruction == statement_instruction(*self),
    {
        match self {
            Statement::Labeled { instruction, .. } => instruction,
            Statement::UnLabeled { instruction } => instruction,
        }
    }
}

} // verus!
