use lmc::assembler::{assemble_from_ast, encode, AssembledInstruction};
use lmc::grammar::pass_program;
use lmc::runtime::{decode, image_fits, Machine, RuntimeError, StepOutcome};

fn image(cells: &[(usize, usize)]) -> Vec<usize> {
    let mut memory = vec![0usize; 100];
    for (index, word) in cells {
        memory[*index] = *word;
    }
    memory
}

#[test]
fn encode_decode_round_trip_per_kind() {
    let kinds = [
        AssembledInstruction::Add(23),
        AssembledInstruction::Subtract(0),
        AssembledInstruction::Store(99),
        AssembledInstruction::Load(1),
        AssembledInstruction::BranchAlways(50),
        AssembledInstruction::BranchIfZero(12),
        AssembledInstruction::BranchIfPositive(34),
        AssembledInstruction::Input,
        AssembledInstruction::Output,
        AssembledInstruction::Halt,
    ];
    for kind in kinds {
        assert_eq!(decode(encode(&kind)), Ok(kind));
    }
    assert_eq!(encode(&AssembledInstruction::Input), 901);
    assert_eq!(encode(&AssembledInstruction::Output), 902);
    assert_eq!(decode(901), Ok(AssembledInstruction::Input));
    assert_eq!(decode(902), Ok(AssembledInstruction::Output));
}

#[test]
fn invalid_words_fault_instead_of_crashing() {
    assert_eq!(
        decode(404),
        Err(RuntimeError::InvalidInstruction { opcode: 4, operand: 4 })
    );
    assert_eq!(
        decode(903),
        Err(RuntimeError::InvalidInstruction { opcode: 9, operand: 3 })
    );
    let mut machine = Machine::load_assembled(image(&[(0, 404)]));
    assert_eq!(
        machine.step(),
        Err(RuntimeError::InvalidInstruction { opcode: 4, operand: 4 })
    );
    // The fault leaves the machine untouched.
    assert_eq!(machine.program_counter, 0);
    assert!(!machine.halted);
}

#[test]
fn add_clamps_high() {
    // LDA 5; ADD 6 with cells 5 and 998: 5 + 998 clamps to 999.
    let mut machine = Machine::load_assembled(image(&[(0, 505), (1, 106), (5, 5), (6, 998)]));
    assert_eq!(machine.step(), Ok(StepOutcome::Continue));
    assert_eq!(machine.accumulator, 5);
    assert_eq!(machine.step(), Ok(StepOutcome::Continue));
    assert_eq!(machine.accumulator, 999);
}

#[test]
fn subtract_clamps_low_and_fixes_order() {
    // LDA 5 loads 900; SUB 6 with cell 6 = 0 computes 0 - 900, floored at 0.
    let mut machine = Machine::load_assembled(image(&[(0, 505), (1, 206), (5, 900)]));
    machine.step().unwrap();
    machine.step().unwrap();
    assert_eq!(machine.accumulator, 0);
    // The fixed direction is memory[operand] - accumulator: with the
    // accumulator at 2 and the cell at 10, the result is 8.
    let mut machine = Machine::load_assembled(image(&[(0, 505), (1, 206), (5, 2), (6, 10)]));
    machine.step().unwrap();
    machine.step().unwrap();
    assert_eq!(machine.accumulator, 8);
}

#[test]
fn branch_semantics() {
    // BRZ jumps exactly when the accumulator is 0.
    let mut machine = Machine::load_assembled(image(&[(0, 750)]));
    machine.step().unwrap();
    assert_eq!(machine.program_counter, 50);
    let mut machine = Machine::load_assembled(image(&[(0, 505), (1, 750), (5, 3)]));
    machine.step().unwrap();
    machine.step().unwrap();
    assert_eq!(machine.program_counter, 2);
    // BRP jumps on positive values but not on zero.
    let mut machine = Machine::load_assembled(image(&[(0, 505), (1, 850), (5, 3)]));
    machine.step().unwrap();
    machine.step().unwrap();
    assert_eq!(machine.program_counter, 50);
    let mut machine = Machine::load_assembled(image(&[(0, 850)]));
    machine.step().unwrap();
    assert_eq!(machine.program_counter, 1);
    // BRA always jumps and never advances afterwards.
    let mut machine = Machine::load_assembled(image(&[(0, 505), (1, 650), (5, 0)]));
    machine.step().unwrap();
    machine.step().unwrap();
    assert_eq!(machine.program_counter, 50);
}

#[test]
fn store_writes_accumulator() {
    let mut machine = Machine::load_assembled(image(&[(0, 505), (1, 310), (5, 42)]));
    machine.step().unwrap();
    machine.step().unwrap();
    assert_eq!(machine.memory[10], 42);
}

#[test]
fn input_is_requested_and_clamped() {
    let mut machine = Machine::load_assembled(image(&[(0, 901), (1, 901)]));
    assert_eq!(machine.step(), Ok(StepOutcome::InputRequested));
    assert_eq!(machine.program_counter, 0);
    machine.provide_input(7);
    assert_eq!(machine.accumulator, 7);
    assert_eq!(machine.program_counter, 1);
    assert_eq!(machine.step(), Ok(StepOutcome::InputRequested));
    machine.provide_input(123456);
    assert_eq!(machine.accumulator, 999);
}

#[test]
fn counter_overflow_is_an_implicit_halt() {
    // BRA 99 jumps to the last cell; the OUT there falls through, moving
    // the counter to 100: an implicit halt, not an out-of-range fetch.
    let mut machine = Machine::load_assembled(image(&[(0, 699), (99, 902)]));
    assert_eq!(machine.step(), Ok(StepOutcome::Continue));
    assert_eq!(machine.program_counter, 99);
    assert_eq!(machine.step(), Ok(StepOutcome::Output(0)));
    assert_eq!(machine.program_counter, 100);
    assert!(machine.halted);
    assert_eq!(machine.step(), Ok(StepOutcome::Halted));
}

#[test]
fn end_to_end_add_program_emits_six() {
    let src = "LDA a\nADD b\nOUT\nHLT\na: DAT 2\nb: DAT 4\n";
    let ast = pass_program(src).unwrap();
    let mut memory = vec![0usize; 100];
    assemble_from_ast(&ast, &mut memory).unwrap();
    assert!(image_fits(&memory));
    let mut machine = Machine::load_assembled(memory);
    let mut outputs = Vec::new();
    let mut steps = 0;
    loop {
        steps += 1;
        assert!(steps < 1000, "program did not halt");
        match machine.step().unwrap() {
            StepOutcome::Continue => {}
            StepOutcome::Output(v) => outputs.push(v),
            StepOutcome::Halted => break,
            StepOutcome::InputRequested => panic!("program asked for input"),
        }
    }
    assert_eq!(outputs, vec![6]);
}

#[test]
fn image_fits_detects_out_of_range_words() {
    assert!(image_fits(&vec![0usize; 100]));
    assert!(!image_fits(&image(&[(3, 1000)])));
}
