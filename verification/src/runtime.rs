//! The execution state machine: fetch, decode, execute, until halted.
//!
//! The machine owns the assembled memory image, a program counter and an
//! accumulator. Each `step` executes one instruction exactly as the
//! dispatch table of `step_rel` states. Console I/O stays outside: an
//! Input instruction makes `step` return `InputRequested` and the host
//! hands the value back through `provide_input`; an Output instruction
//! returns the emitted value with the outcome.
//!
//! Subtraction order: `Subtract` computes `memory[operand] -
//! accumulator`, saturating at zero; the result is clamped into the
//! machine's value range like `Add`.

use vstd::prelude::*;

use crate::assembler::{decoding, AssembledInstruction, MEMORY_SIZE};

verus! {

/// What a single execution step asks of the embedding program.
#[derive(Debug, Clone, Copy, PartialEq, Eq)]
pub enum StepOutcome {
    /// The instruction completed; execution continues at the new counter.
    Continue,
    /// The machine reached a halt condition.
    Halted,
    /// The machine waits for one input value; provide it and step again.
    InputRequested,
    /// The machine emitted this value on its output port.
    Output(usize),
}

/// An execution fault: the decoded word is outside the instruction
/// table. A corrupted or hand-edited image is reported, not crashed on.
#[derive(Debug, PartialEq, Eq)]
pub enum RuntimeError {
    InvalidInstruction { opcode: usize, operand: usize },
}

/// Decode the word at the program counter, or report the fault.
pub fn decode(word: usize) -> (r: Result<AssembledInstruction, RuntimeError>)
    ensures
        match decoding(word as int) {
            Some(inst) => r == Ok::<AssembledInstruction, RuntimeError>(inst),
            None => (r matches Err(RuntimeError::InvalidInstruction { opcode, operand })
                && opcode == word / 100 && operand == word % 100),
        },
{
    let opcode = word / 100;
    let operand = word % 100;
    match (opcode, operand) {
        (0, _) => Ok(AssembledInstruction::Halt),
        (1, _) => Ok(AssembledInstruction::Add(operand as u8)),
        (2, _) => Ok(AssembledInstruction::Subtract(operand as u8)),
        (3, _) => Ok(AssembledInstruction::Store(operand as u8)),
        (5, _) => Ok(AssembledInstruction::Load(operand as u8)),
        (6, _) => Ok(AssembledInstruction::BranchAlways(operand as u8)),
        (7, _) => Ok(AssembledInstruction::BranchIfZero(operand as u8)),
        (8, _) => Ok(AssembledInstruction::BranchIfPositive(operand as u8)),
        (9, 1) => Ok(AssembledInstruction::Input),
        (9, 2) => Ok(AssembledInstruction::Output),
        _ => Err(RuntimeError::InvalidInstruction { opcode, operand }),
    }
}

/// Whether every word of an image lies in the machine's word range, so
/// that a host can test the image invariant before loading it.
pub fn image_fits(memory: &Vec<usize>) -> (r: bool)
    ensures
        r == forall|i: int| 0 <= i < memory@.len() ==> (#[trigger] memory@[i]) <= 999,
{
    let mut i: usize = 0;
    while i < memory.len()
        invariant
            i <= memory@.len(),
            forall|k: int| 0 <= k < i ==> (#[trigger] memory@[k]) <= 999,
        decreases memory@.len() - i,
    {
        if memory[i] > 999 {
            return false;
        }
        i = i + 1;
    }
    true
}

/// The machine state: the 100-cell memory image, the address of the next
/// instruction, the single working register, and the halted flag.
pub struct Machine {
    pub memory: Vec<usize>,
    pub program_counter: usize,
    pub accumulator: usize,
    pub halted: bool,
}

/// Clamp a value into the machine's register range [0, 999].
pub open spec fn clamp_value(v: int) -> int {
    if v < 0 {
        0
    } else if v > 999 {
        999
    } else {
        v
    }
}

/// Counter and flag after a non-jump instruction: one cell forward, and
/// moving past the last cell is an implicit halt, never a fetch from
/// outside the memory.
pub open spec fn advances(pre: Machine, post: Machine) -> bool {
    if pre.program_counter + 1 == MEMORY_SIZE {
        post.program_counter == MEMORY_SIZE && post.halted
    } else {
        post.program_counter == pre.program_counter + 1 && !post.halted
    }
}

/// The outcome a non-jump instruction reports: `Halted` when the counter
/// ran off the end, `Continue` otherwise.
pub open spec fn advance_outcome(pre: Machine) -> StepOutcome {
    if pre.program_counter + 1 == MEMORY_SIZE {
        StepOutcome::Halted
    } else {
        StepOutcome::Continue
    }
}

impl Machine {
    /// A well-formed machine: a full image of in-range words, the
    /// accumulator in its register range, and a valid counter whenever
    /// the machine still runs.
    pub open spec fn wf(self) -> bool {
        &&& self.memory@.len() == MEMORY_SIZE
        &&& self.accumulator <= 999
        &&& forall|i: int| 0 <= i < self.memory@.len() ==> (#[trigger] self.memory@[i]) <= 999
        &&& !self.halted ==> self.program_counter < MEMORY_SIZE
    }
}

/// The complete transition relation of one execution step: what the new
/// state and the outcome are for every instruction of the dispatch
/// table, and that a word outside the table changes nothing and reports
/// the fault.
pub open spec fn step_rel(pre: Machine, post: Machine, r: Result<StepOutcome, RuntimeError>) -> bool {
    if pre.halted {
        same_state(pre, post) && r == Ok::<StepOutcome, RuntimeError>(StepOutcome::Halted)
    } else {
        let word = pre.memory@[pre.program_counter as int];
        match decoding(word as int) {
            Some(inst) => match inst {
                AssembledInstruction::Add(a) => {
                    &&& post.memory@ == pre.memory@
                    &&& post.accumulator == clamp_value(pre.accumulator + pre.memory@[a as int])
                    &&& advances(pre, post)
                    &&& r == Ok::<StepOutcome, RuntimeError>(advance_outcome(pre))
                },
                AssembledInstruction::Subtract(a) => {
                    &&& post.memory@ == pre.memory@
                    &&& post.accumulator == clamp_value(pre.memory@[a as int] - pre.accumulator)
                    &&& advances(pre, post)
                    &&& r == Ok::<StepOutcome, RuntimeError>(advance_outcome(pre))
                },
                AssembledInstruction::Store(a) => {
                    &&& post.memory@ == pre.memory@.update(a as int, pre.accumulator)
                    &&& post.accumulator == pre.accumulator
                    &&& advances(pre, post)
                    &&& r == Ok::<StepOutcome, RuntimeError>(advance_outcome(pre))
                },
                AssembledInstruction::Load(a) => {
                    &&& post.memory@ == pre.memory@
                    &&& post.accumulator == pre.memory@[a as int]
                    &&& advances(pre, post)
                    &&& r == Ok::<StepOutcome, RuntimeError>(advance_outcome(pre))
                },
                AssembledInstruction::BranchAlways(a) => {
                    &&& post.memory@ == pre.memory@
                    &&& post.accumulator == pre.accumulator
                    &&& post.program_counter == a
                    &&& !post.halted
                    &&& r == Ok::<StepOutcome, RuntimeError>(StepOutcome::Continue)
                },
                AssembledInstruction::BranchIfZero(a) => {
                    &&& post.memory@ == pre.memory@
                    &&& post.accumulator == pre.accumulator
                    &&& if pre.accumulator == 0 {
                        &&& post.program_counter == a
                        &&& !post.halted
                        &&& r == Ok::<StepOutcome, RuntimeError>(StepOutcome::Continue)
                    } else {
                        &&& advances(pre, post)
                        &&& r == Ok::<StepOutcome, RuntimeError>(advance_outcome(pre))
                    }
                },
                AssembledInstruction::BranchIfPositive(a) => {
                    &&& post.memory@ == pre.memory@
                    &&& post.accumulator == pre.accumulator
                    &&& if pre.accumulator > 0 {
                        &&& post.program_counter == a
                        &&& !post.halted
                        &&& r == Ok::<StepOutcome, RuntimeError>(StepOutcome::Continue)
                    } else {
                        &&& advances(pre, post)
                        &&& r == Ok::<StepOutcome, RuntimeError>(advance_outcome(pre))
                    }
                },
                AssembledInstruction::Input => {
                    &&& same_state(pre, post)
                    &&& r == Ok::<StepOutcome, RuntimeError>(StepOutcome::InputRequested)
                },
                AssembledInstruction::Output => {
                    &&& post.memory@ == pre.memory@
                    &&& post.accumulator == pre.accumulator
                    &&& advances(pre, post)
                    &&& r == Ok::<StepOutcome, RuntimeError>(StepOutcome::Output(pre.accumulator))
                },
                AssembledInstruction::Halt => {
                    &&& post.memory@ == pre.memory@
                    &&& post.accumulator == pre.accumulator
                    &&& post.program_counter == pre.program_counter
                    &&& post.halted
                    &&& r == Ok::<StepOutcome, RuntimeError>(StepOutcome::Halted)
                },
                AssembledInstruction::Data(_) => false,
            },
            None => {
                &&& same_state(pre, post)
                &&& (r matches Err(RuntimeError::InvalidInstruction { opcode, operand })
                    && opcode == word / 100 && operand == word % 100)
            },
        }
    }
}

/// Memory, registers and flag all unchanged.
pub open spec fn same_state(pre: Machine, post: Machine) -> bool {
    &&& post.memory@ == pre.memory@
    &&& post.program_counter == pre.program_counter
    &&& post.accumulator == pre.accumulator
    &&& post.halted == pre.halted
}

impl Machine {
    /// A machine over an assembled image: execution starts at address 0
    /// with accumulator 0.
    pub fn load_assembled(memory: Vec<usize>) -> (m: Machine)
        requires
            memory@.len() == MEMORY_SIZE,
            forall|i: int| 0 <= i < memory@.len() ==> (#[trigger] memory@[i]) <= 999,
        ensures
            m.wf(),
            m.memory@ == memory@,
            m.program_counter == 0,
            m.accumulator == 0,
            !m.halted,
    {
        Machine { memory, program_counter: 0, accumulator: 0, halted: false }
    }

    /// Move the counter past a non-jump instruction, halting at the end
    /// of memory instead of fetching outside it.
    fn advance(&mut self) -> (r: StepOutcome)
        requires
            old(self).wf(),
            !old(self).halted,
        ensures
            final(self).wf(),
            final(self).memory@ == old(self).memory@,
            final(self).accumulator == old(self).accumulator,
            advances(*old(self), *final(self)),
            r == advance_outcome(*old(self)),
    {
        if self.program_counter + 1 == MEMORY_SIZE {
            self.program_counter = MEMORY_SIZE;
            self.halted = true;
            StepOutcome::Halted
        } else {
            self.program_counter = self.program_counter + 1;
            StepOutcome::Continue
        }
    }

    /// Execute the instruction at the program counter, exactly as
    /// `step_rel` states. A halted machine stays halted; a word outside
    /// the dispatch table is reported as a fault with nothing changed.
    pub fn step(&mut self) -> (r: Result<StepOutcome, RuntimeError>)
        requires
            old(self).wf(),
        ensures
            final(self).wf(),
            step_rel(*old(self), *final(self), r),
    {
        if self.halted {
            return Ok(StepOutcome::Halted);
        }
        let word = self.memory[self.program_counter];
        let inst = match decode(word) {
            Ok(inst) => inst,
            Err(e) => {
                return Err(e);
            },
        };
        match inst {
            AssembledInstruction::Add(a) => {
                let m = self.memory[a as usize];
                let sum = self.accumulator + m;
                self.accumulator = if sum > 999 {
                    999
                } else {
                    sum
                };
                Ok(self.advance())
            },
            AssembledInstruction::Subtract(a) => {
                let m = self.memory[a as usize];
                self.accumulator = if m >= self.accumulator {
                    m - self.accumulator
                } else {
                    0
                };
                Ok(self.advance())
            },
            AssembledInstruction::Store(a) => {
                let v = self.accumulator;
                self.memory[a as usize] = v;
                Ok(self.advance())
            },
            AssembledInstruction::Load(a) => {
                self.accumulator = self.memory[a as usize];
                Ok(self.advance())
            },
            AssembledInstruction::BranchAlways(a) => {
                self.program_counter = a as usize;
                Ok(StepOutcome::Continue)
            },
            AssembledInstruction::BranchIfZero(a) => {
                if self.accumulator == 0 {
                    self.program_counter = a as usize;
                    Ok(StepOutcome::Continue)
                } else {
                    Ok(self.advance())
                }
            },
            AssembledInstruction::BranchIfPositive(a) => {
                if self.accumulator > 0 {
                    self.program_counter = a as usize;
                    Ok(StepOutcome::Continue)
                } else {
                    Ok(self.advance())
                }
            },
            AssembledInstruction::Input => Ok(StepOutcome::InputRequested),
            AssembledInstruction::Output => {
                let v = self.accumulator;
                let _ = self.advance();
                Ok(StepOutcome::Output(v))
            },
            AssembledInstruction::Halt => {
                self.halted = true;
                Ok(StepOutcome::Halted)
            },
            // Decoding never yields Data.
            AssembledInstruction::Data(_) => unreached(),
        }
    }

    /// Complete a pending Input instruction: the value, clamped to at
    /// most 999, goes into the accumulator and the counter moves on.
    pub fn provide_input(&mut self, value: usize) -> (r: StepOutcome)
        requires
            old(self).wf(),
            !old(self).halted,
            decoding(old(self).memory@[old(self).program_counter as int] as int) == Some(
                AssembledInstruction::Input,
            ),
        ensures
            final(self).wf(),
            final(self).memory@ == old(self).memory@,
            final(self).accumulator == if value > 999 {
                999int
            } else {
                value as int
            },
            advances(*old(self), *final(self)),
            r == advance_outcome(*old(self)),
    {
        self.accumulator = if value > 999 {
            999
        } else {
            value
        };
        self.advance()
    }
}

// ---------------------------------------------------------------------
// The laws the machine obeys.
// ---------------------------------------------------------------------

/// Arithmetic clamps: after an Add or a Subtract step the accumulator
/// lies inside [0, 999], whatever the accumulator and the cell held.
pub proof fn lemma_arithmetic_clamped(
    pre: Machine,
    post: Machine,
    r: Result<StepOutcome, RuntimeError>,
    a: u8,
)
    requires
        !pre.halted,
        step_rel(pre, post, r),
        decoding(pre.memory@[pre.program_counter as int] as int) matches Some(inst) && (inst
            == AssembledInstruction::Add(a) || inst == AssembledInstruction::Subtract(a)),
    ensures
        0 <= post.accumulator <= 999,
{
}

/// BranchAlways always jumps to its operand and never advances the
/// counter afterwards.
pub proof fn lemma_branch_always(
    pre: Machine,
    post: Machine,
    r: Result<StepOutcome, RuntimeError>,
    a: u8,
)
    requires
        !pre.halted,
        step_rel(pre, post, r),
        decoding(pre.memory@[pre.program_counter as int] as int) == Some(
            AssembledInstruction::BranchAlways(a),
        ),
    ensures
        post.program_counter == a,
        !post.halted,
        post.accumulator == pre.accumulator,
        post.memory@ == pre.memory@,
{
}

/// BranchIfZero jumps exactly when the accumulator is zero; otherwise
/// the counter advances past the instruction.
pub proof fn lemma_branch_if_zero(
    pre: Machine,
    post: Machine,
    r: Result<StepOutcome, RuntimeError>,
    a: u8,
)
    requires
        !pre.halted,
        step_rel(pre, post, r),
        decoding(pre.memory@[pre.program_counter as int] as int) == Some(
            AssembledInstruction::BranchIfZero(a),
        ),
    ensures
        pre.accumulator == 0 ==> post.program_counter == a && !post.halted,
        pre.accumulator != 0 ==> advances(pre, post),
        post.accumulator == pre.accumulator,
        post.memory@ == pre.memory@,
{
}

/// BranchIfPositive jumps exactly when the accumulator is strictly
/// positive: zero does not count as positive.
pub proof fn lemma_branch_if_positive(
    pre: Machine,
    post: Machine,
    r: Result<StepOutcome, RuntimeError>,
    a: u8,
)
    requires
        !pre.halted,
        step_rel(pre, post, r),
        decoding(pre.memory@[pre.program_counter as int] as int) == Some(
            AssembledInstruction::BranchIfPositive(a),
        ),
    ensures
        pre.accumulator > 0 ==> post.program_counter == a && !post.halted,
        pre.accumulator == 0 ==> advances(pre, post),
        post.accumulator == pre.accumulator,
        post.memory@ == pre.memory@,
{
}

/// An instruction that neither jumps nor halts nor waits for input.
pub open spec fn silent_kind(inst: AssembledInstruction) -> bool {
    match inst {
        AssembledInstruction::Add(_) => true,
        AssembledInstruction::Subtract(_) => true,
        AssembledInstruction::Store(_) => true,
        AssembledInstruction::Load(_) => true,
        AssembledInstruction::Output => true,
        _ => false,
    }
}

/// Counter overflow is an implicit halt: a non-jump instruction at the
/// last address moves the counter to 100 and halts the machine rather
/// than fetching outside the memory.
pub proof fn lemma_counter_overflow_halts(
    pre: Machine,
    post: Machine,
    r: Result<StepOutcome, RuntimeError>,
)
    requires
        !pre.halted,
        pre.program_counter == MEMORY_SIZE - 1,
        step_rel(pre, post, r),
        decoding(pre.memory@[pre.program_counter as int] as int) matches Some(inst)
            && silent_kind(inst),
    ensures
        post.halted,
        post.program_counter == MEMORY_SIZE,
{
}

/// The interface a host environment implements to execute an assembled
/// program: it owns the console the machine itself leaves abstract.
pub trait Runtime: Sized {
    /// Load from an assembled program image.
    fn load_assembled(memory: Vec<usize>) -> Self;

    /// Run the whole program until completion.
    fn run(&mut self);

    /// Execute the next instruction, returning whether the program is
    /// complete.
    fn step(&mut self) -> bool;
}

} // verus!
