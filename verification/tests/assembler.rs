use lmc::assembler::{
    assemble_from_ast, extract_opcode_from_assembled, extract_value_from_assembled, AssemblerError,
};
use lmc::ast::{Instruction, InstructionType, Label, MemoryLocation, Statement};
use lmc::grammar::pass_program;

fn unlabeled(instruction: InstructionType) -> Statement {
    Statement::UnLabeled { instruction: Instruction { instruction, comments: vec![] } }
}

fn labeled(name: &str, instruction: InstructionType) -> Statement {
    Statement::Labeled {
        label: Label { label: String::from(name), comments: vec![] },
        instruction: Instruction { instruction, comments: vec![] },
    }
}

fn addr(a: u8) -> MemoryLocation {
    MemoryLocation::Address(a)
}

#[test]
fn encoding_table_per_opcode() {
    let ast = vec![
        unlabeled(InstructionType::Add(addr(5))),
        unlabeled(InstructionType::Subtract(addr(6))),
        unlabeled(InstructionType::Store(addr(7))),
        unlabeled(InstructionType::Load(addr(8))),
        unlabeled(InstructionType::BranchAlways(addr(9))),
        unlabeled(InstructionType::BranchIfZero(addr(10))),
        unlabeled(InstructionType::BranchIfPositive(addr(11))),
        unlabeled(InstructionType::Input),
        unlabeled(InstructionType::Output),
        unlabeled(InstructionType::Halt),
        unlabeled(InstructionType::Data(42)),
    ];
    let mut memory = vec![0usize; 100];
    assemble_from_ast(&ast, &mut memory).unwrap();
    assert_eq!(&memory[..11], &[105, 206, 307, 508, 609, 710, 811, 901, 902, 0, 42]);
    // Untouched cells keep their previous contents.
    assert!(memory[11..].iter().all(|w| *w == 0));
}

#[test]
fn forward_reference_resolves_to_later_index() {
    // The reference at cell 0 points at the label declared at cell 2.
    let ast = vec![
        unlabeled(InstructionType::BranchAlways(MemoryLocation::Label(String::from("end")))),
        unlabeled(InstructionType::Output),
        labeled("end", InstructionType::Halt),
    ];
    let mut memory = vec![0usize; 100];
    assemble_from_ast(&ast, &mut memory).unwrap();
    assert_eq!(memory[0], 602);
}

#[test]
fn assembly_is_deterministic_and_total() {
    let src = "start: INP\nSTA val\nLDA val\nOUT\nHLT\nval: DAT 0\n";
    let ast = pass_program(src).unwrap();
    let mut first = vec![0usize; 100];
    assemble_from_ast(&ast, &mut first).unwrap();
    let mut second = vec![0usize; 100];
    assemble_from_ast(&ast, &mut second).unwrap();
    assert_eq!(first, second);
}

#[test]
fn duplicate_label_reports_second_occurrence() {
    let ast = vec![
        labeled("x", InstructionType::Data(1)),
        unlabeled(InstructionType::Halt),
        labeled("x", InstructionType::Data(2)),
    ];
    let mut memory = vec![0usize; 100];
    let err = assemble_from_ast(&ast, &mut memory).unwrap_err();
    assert_eq!(err, AssemblerError::LabelAlreadyDefined { name: String::from("x"), index: 2 });
    // Nothing was written.
    assert!(memory.iter().all(|w| *w == 0));
}

#[test]
fn undefined_label_is_reported_by_name() {
    let ast = vec![unlabeled(InstructionType::Load(MemoryLocation::Label(String::from(
        "missing",
    ))))];
    let mut memory = vec![0usize; 100];
    let err = assemble_from_ast(&ast, &mut memory).unwrap_err();
    assert_eq!(err, AssemblerError::LabelNotDefined(String::from("missing")));
}

#[test]
fn too_many_statements_writes_nothing() {
    let mut ast = Vec::new();
    for _ in 0..101 {
        ast.push(unlabeled(InstructionType::Halt));
    }
    let mut memory = vec![7usize; 100];
    let err = assemble_from_ast(&ast, &mut memory).unwrap_err();
    assert_eq!(err, AssemblerError::TooManyInstructions { expected: 100, actual: 101 });
    assert!(memory.iter().all(|w| *w == 7));
}

#[test]
fn empty_program_writes_nothing() {
    let ast = pass_program("").unwrap();
    assert!(ast.is_empty());
    let mut memory = vec![3usize; 100];
    assemble_from_ast(&ast, &mut memory).unwrap();
    assert!(memory.iter().all(|w| *w == 3));
}

#[test]
fn exactly_one_hundred_statements_assemble() {
    let mut ast = Vec::new();
    for _ in 0..100 {
        ast.push(unlabeled(InstructionType::Halt));
    }
    let mut memory = vec![7usize; 100];
    assemble_from_ast(&ast, &mut memory).unwrap();
    assert!(memory.iter().all(|w| *w == 0));
}

#[test]
fn word_field_extraction() {
    assert_eq!(extract_opcode_from_assembled(508), 5);
    assert_eq!(extract_value_from_assembled(508), 8);
    assert_eq!(extract_opcode_from_assembled(901), 9);
    assert_eq!(extract_value_from_assembled(901), 1);
    assert_eq!(extract_opcode_from_assembled(0), 0);
    assert_eq!(extract_value_from_assembled(0), 0);
}
