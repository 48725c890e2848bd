use lmc::ast::{Instruction, InstructionType, Label, MemoryLocation, Statement};
use lmc::grammar::pass_program;

#[test]
fn test_simple_add() {
    let ast_actual = pass_program(
        r#"
; add two numbers
start:
    LDA a
    ADD b
    OUT
a: DAT 2
b: DAT 4
"#,
    )
    .unwrap();

    let ast_expected = vec![
        Statement::Labeled {
            label: Label {
                label: String::from("start"),
                comments: vec![String::from("add two numbers")],
            },
            instruction: Instruction {
                instruction: InstructionType::Load(MemoryLocation::Label(String::from("a"))),
                comments: vec![],
            },
        },
        Statement::UnLabeled {
            instruction: Instruction {
                instruction: InstructionType::Add(MemoryLocation::Label(String::from("b"))),
                comments: vec![],
            },
        },
        Statement::UnLabeled {
            instruction: Instruction { instruction: InstructionType::Output, comments: vec![] },
        },
        Statement::Labeled {
            label: Label { label: String::from("a"), comments: vec![] },
            instruction: Instruction {
                instruction: InstructionType::Data(2),
                comments: vec![],
            },
        },
        Statement::Labeled {
            label: Label { label: String::from("b"), comments: vec![] },
            instruction: Instruction {
                instruction: InstructionType::Data(4),
                comments: vec![],
            },
        },
    ];

    assert_eq!(ast_expected, ast_actual);
}

#[test]
fn operand_classification_follows_numeric_range() {
    // A bare number up to 255 is a literal address, leading zeros included.
    let ast = pass_program("LDA 007").unwrap();
    assert_eq!(
        ast[0],
        Statement::UnLabeled {
            instruction: Instruction {
                instruction: InstructionType::Load(MemoryLocation::Address(7)),
                comments: vec![],
            },
        }
    );
    // A number too big for the address field reads as a label name.
    let ast = pass_program("LDA 300").unwrap();
    assert_eq!(
        ast[0],
        Statement::UnLabeled {
            instruction: Instruction {
                instruction: InstructionType::Load(MemoryLocation::Label(String::from("300"))),
                comments: vec![],
            },
        }
    );
    // An absent operand defaults to address 0.
    let ast = pass_program("INP\nOUT\nHLT\nBRA").unwrap();
    assert_eq!(
        ast[3],
        Statement::UnLabeled {
            instruction: Instruction {
                instruction: InstructionType::BranchAlways(MemoryLocation::Address(0)),
                comments: vec![],
            },
        }
    );
}

#[test]
fn dat_operand_reads_as_machine_integer() {
    let ast = pass_program("DAT 998").unwrap();
    assert_eq!(
        ast[0],
        Statement::UnLabeled {
            instruction: Instruction { instruction: InstructionType::Data(998), comments: vec![] },
        }
    );
    // An unreadable DAT operand stores 0.
    let ast = pass_program("DAT 99999999999999999999999999").unwrap();
    assert_eq!(
        ast[0],
        Statement::UnLabeled {
            instruction: Instruction { instruction: InstructionType::Data(0), comments: vec![] },
        }
    );
}

#[test]
fn blank_and_comment_input_parses_to_nothing() {
    assert!(pass_program("").unwrap().is_empty());
    assert!(pass_program("  \n\t\n").unwrap().is_empty());
    assert!(pass_program("; just a note\n   ; another\n").unwrap().is_empty());
}

#[test]
fn statement_instruction_getter() {
    let stmt = Statement::Labeled {
        label: Label { label: String::from("x"), comments: vec![] },
        instruction: Instruction { instruction: InstructionType::Halt, comments: vec![] },
    };
    assert_eq!(stmt.instruction().instruction, InstructionType::Halt);
}
