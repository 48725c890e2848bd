//! The two-pass assembler: pass 1 collects label declarations into a
//! table, pass 2 encodes each statement into a machine word, resolving
//! symbolic operands through that table.
//!
//! The encoding is positional: statement `i` always becomes memory cell
//! `i`. A non-data instruction encodes as `opcode * 100 + address`; the
//! `Data` pseudo-instruction stores its literal value verbatim. Input and
//! Output share opcode family 9 and are told apart by the operand alone
//! (901 and 902).

use vstd::prelude::*;

use crate::ast::{
    instruction_operand, statement_instruction, statement_label, InstructionType, MemoryLocation,
    Statement,
};

verus! {

pub const OPCODE_ADD: usize = 1;

pub const OPCODE_SUB: usize = 2;

pub const OPCODE_STA: usize = 3;

pub const OPCODE_LDA: usize = 5;

pub const OPCODE_BRA: usize = 6;

pub const OPCODE_BRZ: usize = 7;

pub const OPCODE_BRP: usize = 8;

pub const OPCODE_INP: usize = 9;

pub const OPCODE_OUT: usize = 9;

pub const OPCODE_HLT: usize = 0;

/// The number of memory cells: addresses run from 0 to 99.
pub const MEMORY_SIZE: usize = 100;

/// The opcode is the hundreds digit of an encoded word.
pub fn extract_opcode_from_assembled(assembled: usize) -> (r: usize)
    ensures
        r == assembled / 100,
{
    assembled / 100
}

/// The operand is the low two digits of an encoded word.
pub fn extract_value_from_assembled(assembled: usize) -> (r: usize)
    ensures
        r == assembled % 100,
{
    assembled % 100
}

/// Why an assembly run failed. All three abort the run immediately.
#[derive(Debug, PartialEq, Eq)]
pub enum AssemblerError {
    /// The program has more statements than the memory has cells.
    TooManyInstructions { expected: usize, actual: usize },
    /// The same label name is declared twice; `index` is the position of
    /// the second declaration.
    LabelAlreadyDefined { name: String, index: usize },
    /// An operand refers to a label that no statement declares.
    LabelNotDefined(String),
}

// ---------------------------------------------------------------------
// The mathematical model of label resolution and encoding.
// ---------------------------------------------------------------------

/// The decoded form of a machine word: an instruction kind together with
/// its resolved operand. `Data` never comes out of decoding; it is the
/// assembler-side form of a raw word.
#[derive(Debug, Clone, Copy, PartialEq, Eq)]
pub enum AssembledInstruction {
    Add(u8),
    Subtract(u8),
    Store(u8),
    Load(u8),
    BranchAlways(u8),
    BranchIfZero(u8),
    BranchIfPositive(u8),
    Input,
    Output,
    Halt,
    Data(usize),
}

/// The operand fits its field: addresses take two digits, data takes a
/// whole word.
pub open spec fn instruction_fits(inst: AssembledInstruction) -> bool {
    match inst {
        AssembledInstruction::Add(a) => a < 100,
        AssembledInstruction::Subtract(a) => a < 100,
        AssembledInstruction::Store(a) => a < 100,
        AssembledInstruction::Load(a) => a < 100,
        AssembledInstruction::BranchAlways(a) => a < 100,
        AssembledInstruction::BranchIfZero(a) => a < 100,
        AssembledInstruction::BranchIfPositive(a) => a < 100,
        AssembledInstruction::Input => true,
        AssembledInstruction::Output => true,
        AssembledInstruction::Halt => true,
        AssembledInstruction::Data(v) => v <= 999,
    }
}

/// The machine word an instruction encodes to: `opcode * 100 + address`,
/// with Input and Output sharing opcode family 9 as 901 and 902, Halt as
/// 0, and Data verbatim.
pub open spec fn encoding(inst: AssembledInstruction) -> int {
    match inst {
        AssembledInstruction::Add(a) => 100 + a,
        AssembledInstruction::Subtract(a) => 200 + a,
        AssembledInstruction::Store(a) => 300 + a,
        AssembledInstruction::Load(a) => 500 + a,
        AssembledInstruction::BranchAlways(a) => 600 + a,
        AssembledInstruction::BranchIfZero(a) => 700 + a,
        AssembledInstruction::BranchIfPositive(a) => 800 + a,
        AssembledInstruction::Input => 901,
        AssembledInstruction::Output => 902,
        AssembledInstruction::Halt => 0,
        AssembledInstruction::Data(v) => v as int,
    }
}

/// The instruction a word decodes to, if any: the hundreds digit picks
/// the kind, the low two digits the operand. Opcode family 9 holds Input
/// as operand 1 and Output as operand 2; any word in the 0 family halts;
/// every other pair is outside the table.
pub open spec fn decoding(word: int) -> Option<AssembledInstruction> {
    let opcode = word / 100;
    let operand = word % 100;
    if opcode == 0 {
        Some(AssembledInstruction::Halt)
    } else if opcode == 1 {
        Some(AssembledInstruction::Add(operand as u8))
    } else if opcode == 2 {
        Some(AssembledInstruction::Subtract(operand as u8))
    } else if opcode == 3 {
        Some(AssembledInstruction::Store(operand as u8))
    } else if opcode == 5 {
        Some(AssembledInstruction::Load(operand as u8))
    } else if opcode == 6 {
        Some(AssembledInstruction::BranchAlways(operand as u8))
    } else if opcode == 7 {
        Some(AssembledInstruction::BranchIfZero(operand as u8))
    } else if opcode == 8 {
        Some(AssembledInstruction::BranchIfPositive(operand as u8))
    } else if opcode == 9 && operand == 1 {
        Some(AssembledInstruction::Input)
    } else if opcode == 9 && operand == 2 {
        Some(AssembledInstruction::Output)
    } else {
        None
    }
}

/// Encode one instruction into its machine word.
pub fn encode(inst: &AssembledInstruction) -> (r: usize)
    requires
        instruction_fits(*inst),
    ensures
        r == encoding(*inst),
{
    match inst {
        AssembledInstruction::Add(a) => OPCODE_ADD * 100 + *a as usize,
        AssembledInstruction::Subtract(a) => OPCODE_SUB * 100 + *a as usize,
        AssembledInstruction::Store(a) => OPCODE_STA * 100 + *a as usize,
        AssembledInstruction::Load(a) => OPCODE_LDA * 100 + *a as usize,
        AssembledInstruction::BranchAlways(a) => OPCODE_BRA * 100 + *a as usize,
        AssembledInstruction::BranchIfZero(a) => OPCODE_BRZ * 100 + *a as usize,
        AssembledInstruction::BranchIfPositive(a) => OPCODE_BRP * 100 + *a as usize,
        AssembledInstruction::Input => OPCODE_INP * 100 + 1,
        AssembledInstruction::Output => OPCODE_OUT * 100 + 2,
        AssembledInstruction::Halt => OPCODE_HLT * 100,
        AssembledInstruction::Data(v) => *v,
    }
}

/// The encoding invariant: for every instruction kind except Data,
/// decoding inverts encoding. In particular Input and Output encode to
/// 901 and 902 and come back from the `(9, 1)` and `(9, 2)` pairs.
pub proof fn lemma_decode_encode(inst: AssembledInstruction)
    requires
        instruction_fits(inst),
        !(inst is Data),
    ensures
        decoding(encoding(inst)) == Some(inst),
        encoding(AssembledInstruction::Input) == 901,
        encoding(AssembledInstruction::Output) == 902,
{
}

/// Some statement of the program declares this label name.
pub open spec fn label_defined(ast: Seq<Statement>, name: Seq<char>) -> bool {
    exists|i: int| 0 <= i < ast.len() && statement_label(ast[i]) == Some(name)
}

/// The first index at or after `i` whose statement declares `name`, or
/// `ast.len()` if there is none.
pub open spec fn first_label_from(ast: Seq<Statement>, name: Seq<char>, i: int) -> int
    decreases ast.len() - i,
{
    if i >= ast.len() {
        ast.len() as int
    } else if statement_label(ast[i]) == Some(name) {
        i
    } else {
        first_label_from(ast, name, i + 1)
    }
}

/// The address a label name resolves to: the index of the statement that
/// declares it (the first one, should it be declared more than once).
pub open spec fn label_addr(ast: Seq<Statement>, name: Seq<char>) -> int {
    first_label_from(ast, name, 0)
}

/// The statement at `j` declares a label that an earlier statement
/// already declared.
pub open spec fn dup_at(ast: Seq<Statement>, j: int) -> bool {
    &&& statement_label(ast[j]) is Some
    &&& exists|k: int| 0 <= k < j && statement_label(ast[k]) == statement_label(ast[j])
}

/// Some label name is declared twice.
pub open spec fn has_duplicate_label(ast: Seq<Statement>) -> bool {
    exists|j: int| 0 <= j < ast.len() && dup_at(ast, j)
}

/// The first index at or after `j` that repeats an earlier label, or
/// `ast.len()` if there is none.
pub open spec fn first_dup_from(ast: Seq<Statement>, j: int) -> int
    decreases ast.len() - j,
{
    if j >= ast.len() {
        ast.len() as int
    } else if dup_at(ast, j) {
        j
    } else {
        first_dup_from(ast, j + 1)
    }
}

/// The index of the second occurrence that the assembler reports.
pub open spec fn first_dup(ast: Seq<Statement>) -> int {
    first_dup_from(ast, 0)
}

/// An operand resolves: literal addresses always do, a label reference
/// only if the label is declared somewhere in the program.
pub open spec fn loc_resolves(ast: Seq<Statement>, loc: MemoryLocation) -> bool {
    match loc {
        MemoryLocation::Address(_) => true,
        MemoryLocation::Label(name) => label_defined(ast, name@),
    }
}

/// The address an operand stands for, once it resolves.
pub open spec fn resolve_loc(ast: Seq<Statement>, loc: MemoryLocation) -> int {
    match loc {
        MemoryLocation::Address(a) => a as int,
        MemoryLocation::Label(name) => label_addr(ast, name@),
    }
}

/// A statement's operand, if it has one, resolves.
pub open spec fn statement_resolves(ast: Seq<Statement>, s: Statement) -> bool {
    match instruction_operand(statement_instruction(s)) {
        Some(loc) => loc_resolves(ast, loc),
        None => true,
    }
}

/// Every statement of the program resolves.
pub open spec fn all_resolve(ast: Seq<Statement>) -> bool {
    forall|i: int| 0 <= i < ast.len() ==> statement_resolves(ast, #[trigger] ast[i])
}

/// The first index at or after `i` whose statement does not resolve, or
/// `ast.len()` if all do.
pub open spec fn first_unresolved_from(ast: Seq<Statement>, i: int) -> int
    decreases ast.len() - i,
{
    if i >= ast.len() {
        ast.len() as int
    } else if !statement_resolves(ast, ast[i]) {
        i
    } else {
        first_unresolved_from(ast, i + 1)
    }
}

/// The index of the first statement whose operand does not resolve.
pub open spec fn first_unresolved(ast: Seq<Statement>) -> int {
    first_unresolved_from(ast, 0)
}

/// The label name of a statement's unresolvable operand.
pub open spec fn unresolved_name(s: Statement) -> Seq<char> {
    match instruction_operand(statement_instruction(s)) {
        Some(MemoryLocation::Label(name)) => name@,
        _ => Seq::empty(),
    }
}

/// The program has no duplicate declaration and no dangling reference;
/// on such programs assembly always succeeds.
pub open spec fn no_label_errors(ast: Seq<Statement>) -> bool {
    &&& !has_duplicate_label(ast)
    &&& all_resolve(ast)
}

/// The machine word a statement assembles to (meaningful when the
/// statement resolves): `opcode * 100 + address` for the seven kinds that
/// carry an operand, 901 and 902 for Input and Output, 0 for Halt, and
/// the literal value for Data.
pub open spec fn encoded_word(ast: Seq<Statement>, s: Statement) -> int {
    match statement_instruction(s) {
        InstructionType::Add(loc) => 100 + resolve_loc(ast, loc),
        InstructionType::Subtract(loc) => 200 + resolve_loc(ast, loc),
        InstructionType::Store(loc) => 300 + resolve_loc(ast, loc),
        InstructionType::Load(loc) => 500 + resolve_loc(ast, loc),
        InstructionType::BranchAlways(loc) => 600 + resolve_loc(ast, loc),
        InstructionType::BranchIfZero(loc) => 700 + resolve_loc(ast, loc),
        InstructionType::BranchIfPositive(loc) => 800 + resolve_loc(ast, loc),
        InstructionType::Input => 901,
        InstructionType::Output => 902,
        InstructionType::Halt => 0,
        InstructionType::Data(v) => v as int,
    }
}

/// What `assemble_from_ast` guarantees, as a relation between the
/// statements, the memory before and after, and the returned result.
pub open spec fn assemble_post(
    ast: Seq<Statement>,
    pre: Seq<usize>,
    post: Seq<usize>,
    r: Result<(), AssemblerError>,
) -> bool {
    &&& post.len() == pre.len()
    &&& if ast.len() > pre.len() {
        &&& (r matches Err(AssemblerError::TooManyInstructions { expected, actual })
            && expected == pre.len() && actual == ast.len())
        &&& post == pre
    } else if has_duplicate_label(ast) {
        &&& (r matches Err(AssemblerError::LabelAlreadyDefined { name, index })
            && Some(name@) == statement_label(ast[first_dup(ast)]) && index == first_dup(ast))
        &&& post == pre
    } else if !all_resolve(ast) {
        &&& (r matches Err(AssemblerError::LabelNotDefined(name))
            && name@ == unresolved_name(ast[first_unresolved(ast)]))
        &&& forall|i: int| 0 <= i < first_unresolved(ast) ==> post[i] == encoded_word(ast, ast[i])
        &&& forall|i: int| first_unresolved(ast) <= i < pre.len() ==> post[i] == pre[i]
    } else {
        &&& r is Ok
        &&& forall|i: int| 0 <= i < ast.len() ==> post[i] == encoded_word(ast, ast[i])
        &&& forall|i: int| ast.len() <= i < pre.len() ==> post[i] == pre[i]
    }
}

// ---------------------------------------------------------------------
// The label table: an association list searched from the front.
// ---------------------------------------------------------------------

/// The value of the first entry at or after `k` whose key is `name`.
pub open spec fn lookup_from(table: Seq<(String, u8)>, name: Seq<char>, k: int) -> Option<u8>
    decreases table.len() - k,
{
    if k >= table.len() {
        None
    } else if table[k].0@ == name {
        Some(table[k].1)
    } else {
        lookup_from(table, name, k + 1)
    }
}

/// The address the table maps a label name to, if any.
pub open spec fn lookup(table: Seq<(String, u8)>, name: Seq<char>) -> Option<u8> {
    lookup_from(table, name, 0)
}

/// Linear search of the label table.
fn table_get(table: &Vec<(String, u8)>, name: &String) -> (r: Option<u8>)
    ensures
        r == lookup(table@, name@),
{
    let mut k: usize = 0;
    while k < table.len()
        invariant
            k <= table.len(),
            lookup(table@, name@) == lookup_from(table@, name@, k as int),
        decreases table.len() - k,
    {
        if table[k].0 == *name {
            return Some(table[k].1);
        }
        k = k + 1;
    }
    None
}

/// A successful lookup comes from some entry of the table.
proof fn lemma_lookup_some(table: Seq<(String, u8)>, name: Seq<char>, k: int, v: u8)
    requires
        0 <= k,
        lookup_from(table, name, k) == Some(v),
    ensures
        exists|e: int|
            k <= e < table.len() && (#[trigger] table[e].0)@ == name && table[e].1 == v,
    decreases table.len() - k,
{
    if k < table.len() && table[k].0@ != name {
        lemma_lookup_some(table, name, k + 1, v);
    }
}

/// Appending an entry leaves earlier findings in place; a name absent
/// before is now found exactly when the new entry carries it.
proof fn lemma_lookup_push(table: Seq<(String, u8)>, name: Seq<char>, x: (String, u8), k: int)
    requires
        0 <= k <= table.len(),
    ensures
        lookup_from(table.push(x), name, k) == match lookup_from(table, name, k) {
            Some(v) => Some(v),
            None => if x.0@ == name { Some(x.1) } else { None },
        },
    decreases table.len() - k,
{
    if k < table.len() {
        assert(table.push(x)[k] == table[k]);
        lemma_lookup_push(table, name, x, k + 1);
    } else {
        assert(table.push(x)[k] == x);
        assert(lookup_from(table, name, k) == None::<u8>);
        assert(lookup_from(table.push(x), name, k + 1) == None::<u8>);
    }
}

/// If no statement before `j` declares `name` and the one at `j` does,
/// then `name` resolves to `j`.
proof fn lemma_first_label_at(ast: Seq<Statement>, name: Seq<char>, i: int, j: int)
    requires
        0 <= i <= j < ast.len(),
        statement_label(ast[j]) == Some(name),
        forall|k: int| i <= k < j ==> statement_label(#[trigger] ast[k]) != Some(name),
    ensures
        first_label_from(ast, name, i) == j,
    decreases j - i,
{
    if i < j {
        lemma_first_label_at(ast, name, i + 1, j);
    }
}

/// If nothing up to `j` repeats a label and `j` does, the first reported
/// duplicate is `j`.
proof fn lemma_first_dup_at(ast: Seq<Statement>, i: int, j: int)
    requires
        0 <= i <= j < ast.len(),
        dup_at(ast, j),
        forall|k: int| i <= k < j ==> !dup_at(ast, k),
    ensures
        first_dup_from(ast, i) == j,
    decreases j - i,
{
    if i < j {
        lemma_first_dup_at(ast, i + 1, j);
    }
}

/// If every statement before `j` resolves and the one at `j` does not,
/// the first unresolved statement is `j`.
proof fn lemma_first_unresolved_at(ast: Seq<Statement>, i: int, j: int)
    requires
        0 <= i <= j < ast.len(),
        !statement_resolves(ast, ast[j]),
        forall|k: int| i <= k < j ==> statement_resolves(ast, #[trigger] ast[k]),
    ensures
        first_unresolved_from(ast, i) == j,
    decreases j - i,
{
    if i < j {
        lemma_first_unresolved_at(ast, i + 1, j);
    }
}

// ---------------------------------------------------------------------
// The laws the assembler obeys.
// ---------------------------------------------------------------------

/// With at most as many statements as cells and no label errors,
/// assembly never fails, and the image it writes is `encoded_word` of
/// each statement: a function of the statements alone, so two runs on
/// the same program produce the same image.
pub proof fn lemma_assemble_total(
    ast: Seq<Statement>,
    pre: Seq<usize>,
    post: Seq<usize>,
    r: Result<(), AssemblerError>,
)
    requires
        ast.len() <= pre.len(),
        no_label_errors(ast),
        assemble_post(ast, pre, post, r),
    ensures
        r is Ok,
        forall|i: int| 0 <= i < ast.len() ==> post[i] == encoded_word(ast, ast[i]),
{
}

/// Assembly is deterministic: two runs over the same statements, into
/// whatever buffers, succeed together and write the same words.
pub proof fn lemma_assemble_deterministic(
    ast: Seq<Statement>,
    pre1: Seq<usize>,
    post1: Seq<usize>,
    r1: Result<(), AssemblerError>,
    pre2: Seq<usize>,
    post2: Seq<usize>,
    r2: Result<(), AssemblerError>,
)
    requires
        ast.len() <= pre1.len(),
        ast.len() <= pre2.len(),
        no_label_errors(ast),
        assemble_post(ast, pre1, post1, r1),
        assemble_post(ast, pre2, post2, r2),
    ensures
        r1 is Ok,
        r2 is Ok,
        forall|i: int| 0 <= i < ast.len() ==> post1[i] == post2[i],
{
    lemma_assemble_total(ast, pre1, post1, r1);
    lemma_assemble_total(ast, pre2, post2, r2);
}

/// The two lemmas above combined at the image level: a program within
/// capacity and free of label errors assembles to `Ok`, every cell
/// holds its statement's encoded word, and a label reference anywhere
/// in the image stands for the index of the declaring statement — a
/// forward declaration included, since pass 1 records every label
/// before pass 2 encodes anything. For a statement `i` whose operand
/// names the label that statement `j` declares, `post[i]` is therefore
/// its opcode base plus `j`.
pub proof fn lemma_reference_resolves_in_image(
    ast: Seq<Statement>,
    pre: Seq<usize>,
    post: Seq<usize>,
    r: Result<(), AssemblerError>,
    j: int,
    name: Seq<char>,
)
    requires
        ast.len() <= pre.len(),
        no_label_errors(ast),
        assemble_post(ast, pre, post, r),
        0 <= j < ast.len(),
        statement_label(ast[j]) == Some(name),
    ensures
        r is Ok,
        label_addr(ast, name) == j,
        forall|i: int| 0 <= i < ast.len() ==> post[i] == encoded_word(ast, ast[i]),
{
    lemma_assemble_total(ast, pre, post, r);
    lemma_forward_reference(ast, name, j);
}

/// Two-pass correctness: a reference may point forward. In a program
/// with no duplicate labels, an operand naming the label that statement
/// `j` declares resolves to `j`, wherever the reference stands.
pub proof fn lemma_forward_reference(ast: Seq<Statement>, name: Seq<char>, j: int)
    requires
        0 <= j < ast.len(),
        statement_label(ast[j]) == Some(name),
        !has_duplicate_label(ast),
    ensures
        label_addr(ast, name) == j,
{
    assert forall|k: int| 0 <= k < j implies statement_label(#[trigger] ast[k]) != Some(name) by {
        if statement_label(ast[k]) == Some(name) {
            assert(dup_at(ast, j));
        }
    }
    lemma_first_label_at(ast, name, 0, j);
}

/// Literal operands and data values fit their fields: addresses take
/// two digits, data a whole word.
pub open spec fn statement_fits(s: Statement) -> bool {
    &&& match instruction_operand(statement_instruction(s)) {
        Some(MemoryLocation::Address(a)) => a < 100,
        _ => true,
    }
    &&& match statement_instruction(s) {
        InstructionType::Data(v) => v <= 999,
        _ => true,
    }
}

/// A declared label resolves to an address no later than any statement
/// that declares it.
proof fn lemma_first_label_bound(ast: Seq<Statement>, name: Seq<char>, i: int, k: int)
    requires
        0 <= i <= k < ast.len(),
        statement_label(ast[k]) == Some(name),
    ensures
        i <= first_label_from(ast, name, i) <= k,
    decreases k - i,
{
    if i < k && statement_label(ast[i]) != Some(name) {
        lemma_first_label_bound(ast, name, i + 1, k);
    }
}

/// In a program of at most 100 statements whose literal operands and
/// data fit, every word of the assembled image lies in [0, 999]: the
/// image invariant the runtime loads under.
pub proof fn lemma_image_fits(ast: Seq<Statement>)
    requires
        ast.len() <= 100,
        forall|i: int| 0 <= i < ast.len() ==> statement_fits(#[trigger] ast[i]),
        forall|i: int| 0 <= i < ast.len() ==> statement_resolves(ast, #[trigger] ast[i]),
    ensures
        forall|i: int| 0 <= i < ast.len() ==> 0 <= encoded_word(ast, #[trigger] ast[i]) <= 999,
{
    assert forall|i: int| 0 <= i < ast.len() implies 0 <= encoded_word(ast, #[trigger] ast[i])
        <= 999 by {
        match instruction_operand(statement_instruction(ast[i])) {
            Some(loc) => match loc {
                MemoryLocation::Address(_) => {},
                MemoryLocation::Label(name) => {
                    let k = choose|k: int|
                        0 <= k < ast.len() && statement_label(ast[k]) == Some(name@);
                    lemma_first_label_bound(ast, name@, 0, k);
                },
            },
            None => {},
        }
    }
}

// ---------------------------------------------------------------------
// The assembler itself.
// ---------------------------------------------------------------------

/// Resolve an operand through the label table: a literal address stands
/// as it is, a label reference is looked up, and a name the table does
/// not hold is reported as `LabelNotDefined`.
pub fn memory_location_to_addr(
    labels: &Vec<(String, u8)>,
    memory_location: &MemoryLocation,
) -> (r: Result<u8, AssemblerError>)
    ensures
        match *memory_location {
            MemoryLocation::Address(addr) => r matches Ok(a) && a == addr,
            MemoryLocation::Label(name) => match lookup(labels@, name@) {
                Some(v) => r matches Ok(a) && a == v,
                None => r matches Err(AssemblerError::LabelNotDefined(nm)) && nm@ == name@,
            },
        },
{
    match memory_location {
        MemoryLocation::Address(addr) => Ok(*addr),
        MemoryLocation::Label(name) => match table_get(labels, name) {
            Some(v) => Ok(v),
            None => Err(AssemblerError::LabelNotDefined(name.clone())),
        },
    }
}

/// Assemble an ordered statement sequence into the given 100-cell memory
/// image. Statement `i` becomes cell `i`. The whole behaviour, including
/// each failure case and the exact cells written, is `assemble_post`.
pub fn assemble_from_ast(ast: &Vec<Statement>, memory: &mut Vec<usize>) -> (r: Result<
    (),
    AssemblerError,
>)
    requires
        old(memory).len() == MEMORY_SIZE,
    ensures
        assemble_post(ast@, old(memory)@, final(memory)@, r),
{
    let n = ast.len();
    if n > memory.len() {
        return Err(AssemblerError::TooManyInstructions { expected: memory.len(), actual: n });
    }
    // Pass 1: collect label declarations, rejecting the first repeat.
    let mut labels: Vec<(String, u8)> = Vec::new();
    let mut i: usize = 0;
    while i < n
        invariant
            i <= n,
            n == ast@.len(),
            n <= MEMORY_SIZE,
            memory@ == old(memory)@,
            old(memory)@.len() == MEMORY_SIZE,
            forall|e: int| 0 <= e < labels@.len() ==> {
                &&& (#[trigger] labels@[e]).1 < i
                &&& statement_label(ast@[labels@[e].1 as int]) == Some(labels@[e].0@)
                &&& first_label_from(ast@, labels@[e].0@, 0) == labels@[e].1 as int
            },
            forall|k: int| 0 <= k < i ==> match statement_label(#[trigger] ast@[k]) {
                Some(nm) => lookup(labels@, nm) is Some,
                None => true,
            },
            forall|j: int| 0 <= j < i ==> !dup_at(ast@, j),
        decreases n - i,
    {
        if let Statement::Labeled { label, .. } = &ast[i] {
            match table_get(&labels, &label.label) {
                Some(_) => {
                    proof {
                        let v = lookup(labels@, label.label@)->Some_0;
                        lemma_lookup_some(labels@, label.label@, 0, v);
                        let e = choose|e: int|
                            0 <= e < labels@.len() && (#[trigger] labels@[e].0)@ == label.label@
                                && labels@[e].1 == v;
                        assert(statement_label(ast@[labels@[e].1 as int])
                            == statement_label(ast@[i as int]));
                        assert(dup_at(ast@, i as int));
                        lemma_first_dup_at(ast@, 0, i as int);
                    }
                    return Err(AssemblerError::LabelAlreadyDefined {
                        name: label.label.clone(),
                        index: i,
                    });
                },
                None => {
                    proof {
                        assert forall|k: int| 0 <= k < i implies statement_label(
                            #[trigger] ast@[k],
                        ) != Some(label.label@) by {
                            if statement_label(ast@[k]) == Some(label.label@) {
                                assert(lookup(labels@, label.label@) is Some);
                            }
                        }
                        lemma_first_label_at(ast@, label.label@, 0, i as int);
                    }
                    let ghost old_table = labels@;
                    labels.push((label.label.clone(), i as u8));
                    proof {
                        assert forall|nm: Seq<char>| true implies #[trigger] lookup(
                            labels@,
                            nm,
                        ) == match lookup(old_table, nm) {
                            Some(v) => Some(v),
                            None => if label.label@ == nm {
                                Some(i as u8)
                            } else {
                                None
                            },
                        } by {
                            lemma_lookup_push(old_table, nm, (label.label, i as u8), 0);
                            assert(labels@ =~= old_table.push((label.label, i as u8)));
                        }
                    }
                },
            }
        }
        i = i + 1;
    }
    proof {
        assert(!has_duplicate_label(ast@));
    }
    // Pass 2: encode each statement, resolving operands through the table.
    let mut i: usize = 0;
    while i < n
        invariant
            i <= n,
            n == ast@.len(),
            n <= MEMORY_SIZE,
            memory.len() == MEMORY_SIZE,
            old(memory)@.len() == MEMORY_SIZE,
            !has_duplicate_label(ast@),
            forall|e: int| 0 <= e < labels@.len() ==> {
                &&& (#[trigger] labels@[e]).1 < n
                &&& statement_label(ast@[labels@[e].1 as int]) == Some(labels@[e].0@)
                &&& first_label_from(ast@, labels@[e].0@, 0) == labels@[e].1 as int
            },
            forall|k: int| 0 <= k < n ==> match statement_label(#[trigger] ast@[k]) {
                Some(nm) => lookup(labels@, nm) is Some,
                None => true,
            },
            forall|m: int| 0 <= m < i ==> statement_resolves(ast@, #[trigger] ast@[m])
                && memory@[m] == encoded_word(ast@, ast@[m]),
            forall|m: int| i <= m < MEMORY_SIZE ==> memory@[m] == old(memory)@[m],
        decreases n - i,
    {
        proof {
            table_reflects_labels(ast@, labels@);
        }
        let inst = ast[i].instruction();
        let word: usize = match &inst.instruction {
            InstructionType::Add(loc) => match memory_location_to_addr(&labels, loc) {
                Ok(a) => OPCODE_ADD * 100 + a as usize,
                Err(e) => {
                    proof { report_unresolved(ast@, i as int); }
                    return Err(e);
                },
            },
            InstructionType::Subtract(loc) => match memory_location_to_addr(&labels, loc) {
                Ok(a) => OPCODE_SUB * 100 + a as usize,
                Err(e) => {
                    proof { report_unresolved(ast@, i as int); }
                    return Err(e);
                },
            },
            InstructionType::Store(loc) => match memory_location_to_addr(&labels, loc) {
                Ok(a) => OPCODE_STA * 100 + a as usize,
                Err(e) => {
                    proof { report_unresolved(ast@, i as int); }
                    return Err(e);
                },
            },
            InstructionType::Load(loc) => match memory_location_to_addr(&labels, loc) {
                Ok(a) => OPCODE_LDA * 100 + a as usize,
                Err(e) => {
                    proof { report_unresolved(ast@, i as int); }
                    return Err(e);
                },
            },
            InstructionType::BranchAlways(loc) => match memory_location_to_addr(&labels, loc) {
                Ok(a) => OPCODE_BRA * 100 + a as usize,
                Err(e) => {
                    proof { report_unresolved(ast@, i as int); }
                    return Err(e);
                },
            },
            InstructionType::BranchIfZero(loc) => match memory_location_to_addr(&labels, loc) {
                Ok(a) => OPCODE_BRZ * 100 + a as usize,
                Err(e) => {
                    proof { report_unresolved(ast@, i as int); }
                    return Err(e);
                },
            },
            InstructionType::BranchIfPositive(loc) => match memory_location_to_addr(&labels, loc) {
                Ok(a) => OPCODE_BRP * 100 + a as usize,
                Err(e) => {
                    proof { report_unresolved(ast@, i as int); }
                    return Err(e);
                },
            },
            InstructionType::Input => OPCODE_INP * 100 + 1,
            InstructionType::Output => OPCODE_OUT * 100 + 2,
            InstructionType::Halt => OPCODE_HLT * 100,
            InstructionType::Data(v) => *v,
        };
        memory[i] = word;
        i = i + 1;
    }
    Ok(())
}

/// In a table built by pass 1, a hit is the label's first declaration
/// and a miss means the label is declared nowhere.
proof fn table_reflects_labels(ast: Seq<Statement>, table: Seq<(String, u8)>)
    requires
        forall|e: int| 0 <= e < table.len() ==> {
            &&& (#[trigger] table[e]).1 < ast.len()
            &&& statement_label(ast[table[e].1 as int]) == Some(table[e].0@)
            &&& first_label_from(ast, table[e].0@, 0) == table[e].1 as int
        },
        forall|k: int| 0 <= k < ast.len() ==> match statement_label(#[trigger] ast[k]) {
            Some(nm) => lookup(table, nm) is Some,
            None => true,
        },
    ensures
        forall|nm: Seq<char>| #[trigger] lookup(table, nm) is Some ==> label_defined(ast, nm)
            && label_addr(ast, nm) == lookup(table, nm)->Some_0 as int,
        forall|nm: Seq<char>| #[trigger] lookup(table, nm) is None ==> !label_defined(ast, nm),
{
    assert forall|nm: Seq<char>| #[trigger] lookup(table, nm) is Some implies label_defined(
        ast,
        nm,
    ) && label_addr(ast, nm) == lookup(table, nm)->Some_0 as int by {
        let v = lookup(table, nm)->Some_0;
        lemma_lookup_some(table, nm, 0, v);
    }
    assert forall|nm: Seq<char>| #[trigger] lookup(table, nm) is None implies !label_defined(
        ast,
        nm,
    ) by {
        if label_defined(ast, nm) {
            let k = choose|k: int| 0 <= k < ast.len() && statement_label(ast[k]) == Some(nm);
            assert(statement_label(ast[k]) == Some(nm));
        }
    }
}

/// Helper for the error path of pass 2: the failing statement is the
/// first unresolved one.
proof fn report_unresolved(ast: Seq<Statement>, j: int)
    requires
        0 <= j < ast.len(),
        !statement_resolves(ast, ast[j]),
        forall|k: int| 0 <= k < j ==> statement_resolves(ast, #[trigger] ast[k]),
    ensures
        !all_resolve(ast),
        first_unresolved(ast) == j,
{
    lemma_first_unresolved_at(ast, 0, j);
}

} // verus!
