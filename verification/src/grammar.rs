//! A hand-written parser for the LMC assembly grammar: comments
//! introduced by `;` and running to the end of the line, label
//! declarations ending in `:`, case-insensitive three-letter mnemonics,
//! and operands that are either bare numbers or label names.
//!
//! An operand that parses as a number up to 255 is a literal address;
//! any other non-empty operand is a label reference; an absent operand
//! defaults to address 0. The `DAT` operand is read as a full machine
//! integer, with 0 standing in for anything unreadable.

use vstd::prelude::*;
use vstd::string::StrSliceExecFns;

use crate::ast::{Instruction, InstructionType, Label, MemoryLocation, Statement};

verus! {

/// A grammar rule that an input can be matched against.
#[allow(non_camel_case_types)]
#[derive(Debug, Clone, Copy, PartialEq, Eq)]
pub enum Rule {
    program,
    stmt,
    label,
    labelName,
    instruction,
    instructionName,
    memoryLocation,
    comment,
}

/// Where a parse failed: the index of the offending character.
#[derive(Debug, Clone, Copy, PartialEq, Eq)]
pub struct ParseError {
    pub position: usize,
}

// ---------------------------------------------------------------------
// Character classes.
// ---------------------------------------------------------------------

/// Blank space inside a line: space, tab, or carriage return.
pub open spec fn is_space_char(c: char) -> bool {
    c == ' ' || c == '\t' || c == '\r'
}

/// The line terminator.
pub open spec fn is_newline_char(c: char) -> bool {
    c == '\n'
}

/// A decimal digit.
pub open spec fn is_digit_char(c: char) -> bool {
    '0' <= c && c <= '9'
}

/// A character that label names, mnemonics and operands are made of.
pub open spec fn is_ident_char(c: char) -> bool {
    ('a' <= c && c <= 'z') || ('A' <= c && c <= 'Z') || is_digit_char(c) || c == '_'
}

fn is_space(c: char) -> (r: bool)
    ensures
        r == is_space_char(c),
{
    c == ' ' || c == '\t' || c == '\r'
}

fn is_newline(c: char) -> (r: bool)
    ensures
        r == is_newline_char(c),
{
    c == '\n'
}

fn is_digit(c: char) -> (r: bool)
    ensures
        r == is_digit_char(c),
{
    '0' <= c && c <= '9'
}

fn is_ident(c: char) -> (r: bool)
    ensures
        r == is_ident_char(c),
{
    ('a' <= c && c <= 'z') || ('A' <= c && c <= 'Z') || ('0' <= c && c <= '9') || c == '_'
}

/// A lower-case ASCII letter folded to its upper-case form; anything
/// else unchanged.
pub open spec fn upper_char(c: char) -> char {
    if 'a' <= c && c <= 'z' {
        ((c as u8) - 32) as char
    } else {
        c
    }
}

fn to_upper(c: char) -> (r: char)
    ensures
        r == upper_char(c),
{
    if 'a' <= c && c <= 'z' {
        ((c as u8) - 32) as char
    } else {
        c
    }
}

// ---------------------------------------------------------------------
// Moving over the character buffer.
// ---------------------------------------------------------------------

/// The characters of a string, in order.
fn chars_of(s: &str) -> (r: Vec<char>)
    ensures
        r@ == s@,
{
    let n = s.unicode_len();
    let mut r: Vec<char> = Vec::new();
    let mut i: usize = 0;
    while i < n
        invariant
            i <= n,
            n == s@.len(),
            r@ == s@.subrange(0, i as int),
        decreases n - i,
    {
        r.push(s.get_char(i));
        proof {
            assert(r@ =~= s@.subrange(0, i + 1 as int));
        }
        i = i + 1;
    }
    proof {
        assert(r@ =~= s@);
    }
    r
}

/// Relies on `core::iter::Iterator::collect` for `String`: the collected
/// string holds exactly the iterated characters, in order.
#[verifier::external_body]
fn string_from_chars(v: &Vec<char>) -> (r: String)
    ensures
        r@ == v@,
{
    v.iter().collect()
}

/// The end of the blank run (spaces only, not line breaks) that starts
/// at `i`.
pub open spec fn space_end(s: Seq<char>, i: int) -> int
    decreases s.len() - i,
{
    if i < 0 || i >= s.len() {
        if i < 0 {
            i
        } else {
            s.len() as int
        }
    } else if !is_space_char(s[i]) {
        i
    } else {
        space_end(s, i + 1)
    }
}

fn skip_spaces(v: &Vec<char>, pos: usize) -> (r: usize)
    requires
        pos <= v@.len(),
    ensures
        pos <= r <= v@.len(),
        r == space_end(v@, pos as int),
        forall|k: int| pos <= k < r ==> is_space_char(v@[k]),
        r < v@.len() ==> !is_space_char(v@[r as int]),
{
    let mut p = pos;
    while p < v.len() && is_space(v[p])
        invariant
            pos <= p <= v@.len(),
            forall|k: int| pos <= k < p ==> is_space_char(v@[k]),
            space_end(v@, pos as int) == space_end(v@, p as int),
        decreases v@.len() - p,
    {
        p = p + 1;
    }
    p
}

/// The end of the blank run (spaces and line breaks both) that starts
/// at `i`: the gap between statements.
pub open spec fn blank_end(s: Seq<char>, i: int) -> int
    decreases s.len() - i,
{
    if i < 0 || i >= s.len() {
        if i < 0 {
            i
        } else {
            s.len() as int
        }
    } else if !(is_space_char(s[i]) || is_newline_char(s[i])) {
        i
    } else {
        blank_end(s, i + 1)
    }
}

fn skip_blank(v: &Vec<char>, pos: usize) -> (r: usize)
    requires
        pos <= v@.len(),
    ensures
        pos <= r <= v@.len(),
        r == blank_end(v@, pos as int),
        forall|k: int| pos <= k < r ==> is_space_char(v@[k]) || is_newline_char(v@[k]),
        r < v@.len() ==> !is_space_char(v@[r as int]) && !is_newline_char(v@[r as int]),
{
    let mut p = pos;
    while p < v.len() && (is_space(v[p]) || is_newline(v[p]))
        invariant
            pos <= p <= v@.len(),
            forall|k: int| pos <= k < p ==> is_space_char(v@[k]) || is_newline_char(v@[k]),
            blank_end(v@, pos as int) == blank_end(v@, p as int),
        decreases v@.len() - p,
    {
        p = p + 1;
    }
    p
}

/// The end of the identifier run that starts at `i`.
pub open spec fn ident_end(s: Seq<char>, i: int) -> int
    decreases s.len() - i,
{
    if i < 0 || i >= s.len() {
        if i < 0 {
            i
        } else {
            s.len() as int
        }
    } else if !is_ident_char(s[i]) {
        i
    } else {
        ident_end(s, i + 1)
    }
}

fn scan_ident(v: &Vec<char>, pos: usize) -> (r: usize)
    requires
        pos <= v@.len(),
    ensures
        pos <= r <= v@.len(),
        r == ident_end(v@, pos as int),
        forall|k: int| pos <= k < r ==> is_ident_char(v@[k]),
        r < v@.len() ==> !is_ident_char(v@[r as int]),
{
    let mut p = pos;
    while p < v.len() && is_ident(v[p])
        invariant
            pos <= p <= v@.len(),
            forall|k: int| pos <= k < p ==> is_ident_char(v@[k]),
            ident_end(v@, pos as int) == ident_end(v@, p as int),
        decreases v@.len() - p,
    {
        p = p + 1;
    }
    p
}

/// The end of the line that `i` stands on: the next newline, or the end
/// of the input.
pub open spec fn line_end(s: Seq<char>, i: int) -> int
    decreases s.len() - i,
{
    if i < 0 || i >= s.len() {
        if i < 0 {
            i
        } else {
            s.len() as int
        }
    } else if is_newline_char(s[i]) {
        i
    } else {
        line_end(s, i + 1)
    }
}

fn scan_line(v: &Vec<char>, pos: usize) -> (r: usize)
    requires
        pos <= v@.len(),
    ensures
        pos <= r <= v@.len(),
        r == line_end(v@, pos as int),
{
    let mut p = pos;
    while p < v.len() && !is_newline(v[p])
        invariant
            pos <= p <= v@.len(),
            line_end(v@, pos as int) == line_end(v@, p as int),
        decreases v@.len() - p,
    {
        p = p + 1;
    }
    p
}

/// A copy of the characters in `[from, to)`.
fn copy_range(v: &Vec<char>, from: usize, to: usize) -> (r: Vec<char>)
    requires
        from <= to <= v@.len(),
    ensures
        r@ == v@.subrange(from as int, to as int),
{
    let mut r: Vec<char> = Vec::new();
    let mut p = from;
    while p < to
        invariant
            from <= p <= to <= v@.len(),
            r@ == v@.subrange(from as int, p as int),
        decreases to - p,
    {
        r.push(v[p]);
        proof {
            assert(r@ =~= v@.subrange(from as int, p + 1 as int));
        }
        p = p + 1;
    }
    r
}

// ---------------------------------------------------------------------
// Trimming comment text.
// ---------------------------------------------------------------------

/// The sequence without its leading blanks.
pub open spec fn trim_front(s: Seq<char>) -> Seq<char>
    decreases s.len(),
{
    if s.len() > 0 && is_space_char(s[0]) {
        trim_front(s.drop_first())
    } else {
        s
    }
}

/// The sequence without its trailing blanks.
pub open spec fn trim_back(s: Seq<char>) -> Seq<char>
    decreases s.len(),
{
    if s.len() > 0 && is_space_char(s.last()) {
        trim_back(s.drop_last())
    } else {
        s
    }
}

/// The sequence without leading or trailing blanks.
pub open spec fn trimmed(s: Seq<char>) -> Seq<char> {
    trim_back(trim_front(s))
}

proof fn lemma_trim_front_range(s: Seq<char>, a: int)
    requires
        0 <= a <= s.len(),
        forall|k: int| 0 <= k < a ==> is_space_char(s[k]),
        a < s.len() ==> !is_space_char(s[a]),
    ensures
        trim_front(s) == s.subrange(a, s.len() as int),
    decreases a,
{
    if a == 0 {
        assert(s.subrange(0, s.len() as int) =~= s);
    } else {
        assert(is_space_char(s[0]));
        lemma_trim_front_range(s.drop_first(), a - 1);
        assert(s.drop_first().subrange(a - 1, s.drop_first().len() as int) =~= s.subrange(
            a,
            s.len() as int,
        ));
    }
}

proof fn lemma_trim_back_range(s: Seq<char>, b: int)
    requires
        0 <= b <= s.len(),
        forall|k: int| b <= k < s.len() ==> is_space_char(s[k]),
        b > 0 ==> !is_space_char(s[b - 1]),
    ensures
        trim_back(s) == s.subrange(0, b),
    decreases s.len(),
{
    if b == s.len() {
        if s.len() > 0 && is_space_char(s.last()) {
            assert(false);
        }
        assert(s.subrange(0, b) =~= s);
    } else {
        assert(is_space_char(s.last()));
        lemma_trim_back_range(s.drop_last(), b);
        assert(s.drop_last().subrange(0, b) =~= s.subrange(0, b));
    }
}

/// The trimmed copy of the characters in `[from, to)`.
fn trim_range(v: &Vec<char>, from: usize, to: usize) -> (r: Vec<char>)
    requires
        from <= to <= v@.len(),
    ensures
        r@ == trimmed(v@.subrange(from as int, to as int)),
{
    let mut a = from;
    while a < to && is_space(v[a])
        invariant
            from <= a <= to <= v@.len(),
            forall|k: int| from <= k < a ==> is_space_char(v@[k]),
        decreases to - a,
    {
        a = a + 1;
    }
    let mut b = to;
    while b > a && is_space(v[b - 1])
        invariant
            a <= b <= to <= v@.len(),
            forall|k: int| b <= k < to ==> is_space_char(v@[k]),
        decreases b,
    {
        b = b - 1;
    }
    let r = copy_range(v, a, b);
    proof {
        let s = v@.subrange(from as int, to as int);
        lemma_trim_front_range(s, a - from);
        let t = s.subrange(a - from, s.len() as int);
        lemma_trim_back_range(t, b - a);
        assert(trimmed(s) =~= v@.subrange(a as int, b as int));
    }
    r
}

// ---------------------------------------------------------------------
// Numbers.
// ---------------------------------------------------------------------

/// Every character is a digit, and there is at least one.
pub open spec fn all_digits(s: Seq<char>) -> bool {
    s.len() > 0 && forall|k: int| 0 <= k < s.len() ==> is_digit_char(#[trigger] s[k])
}

/// The number the digit string spells.
pub open spec fn digits_value(s: Seq<char>) -> nat
    decreases s.len(),
{
    if s.len() == 0 {
        0
    } else {
        10 * digits_value(s.drop_last()) + (s.last() as u32 - '0' as u32) as nat
    }
}

/// What `usize` decimal parsing yields: the spelled number, if the
/// string is all digits and the number fits the type.
pub open spec fn usize_of(s: Seq<char>) -> Option<usize> {
    if all_digits(s) && digits_value(s) <= usize::MAX {
        Some(digits_value(s) as usize)
    } else {
        None
    }
}

/// What `u8` decimal parsing yields.
pub open spec fn u8_of(s: Seq<char>) -> Option<u8> {
    if all_digits(s) && digits_value(s) <= 255 {
        Some(digits_value(s) as u8)
    } else {
        None
    }
}

/// A longer digit string never spells a smaller number.
proof fn lemma_digits_value_grows(s: Seq<char>, n: int)
    requires
        0 <= n <= s.len(),
    ensures
        digits_value(s.subrange(0, n)) <= digits_value(s),
    decreases s.len() - n,
{
    if n == s.len() {
        assert(s.subrange(0, n) =~= s);
    } else {
        lemma_digits_value_grows(s, n + 1);
        let t = s.subrange(0, n + 1);
        assert(t.drop_last() =~= s.subrange(0, n));
        assert(digits_value(s.subrange(0, n)) <= digits_value(t));
    }
}

/// Parse a decimal number, exactly as `usize` parsing does: all digits,
/// at least one, and no overflow.
pub fn parse_usize(token: &Vec<char>) -> (r: Option<usize>)
    ensures
        r == usize_of(token@),
{
    if token.len() == 0 {
        return None;
    }
    let mut value: usize = 0;
    let mut i: usize = 0;
    while i < token.len()
        invariant
            i <= token@.len(),
            token@.len() > 0,
            forall|k: int| 0 <= k < i ==> is_digit_char(#[trigger] token@[k]),
            value == digits_value(token@.subrange(0, i as int)),
        decreases token@.len() - i,
    {
        let c = token[i];
        if !is_digit(c) {
            return None;
        }
        let d = (c as u32 - '0' as u32) as usize;
        if value > usize::MAX / 10 || (value == usize::MAX / 10 && d > usize::MAX % 10) {
            proof {
                assert(digits_value(token@.subrange(0, i + 1 as int)) > usize::MAX) by {
                    assert(token@.subrange(0, i + 1 as int).drop_last() =~= token@.subrange(
                        0,
                        i as int,
                    ));
                    assert(usize::MAX == 10 * (usize::MAX / 10) + usize::MAX % 10);
                };
                lemma_digits_value_grows(token@, i + 1);
            }
            return None;
        }
        proof {
            assert(10 * value + d <= usize::MAX) by {
                assert(usize::MAX == 10 * (usize::MAX / 10) + usize::MAX % 10);
            };
            assert(token@.subrange(0, i + 1 as int).drop_last() =~= token@.subrange(0, i as int));
        }
        value = 10 * value + d;
        i = i + 1;
    }
    proof {
        assert(token@.subrange(0, token@.len() as int) =~= token@);
    }
    Some(value)
}

/// Parse a two-digit-address-sized number, exactly as `u8` parsing does.
pub fn parse_u8(token: &Vec<char>) -> (r: Option<u8>)
    ensures
        r == u8_of(token@),
{
    match parse_usize(token) {
        Some(v) => if v <= 255 {
            Some(v as u8)
        } else {
            None
        },
        None => {
            proof {
                if all_digits(token@) && digits_value(token@) <= 255 {
                    assert(digits_value(token@) <= usize::MAX);
                }
            }
            None
        },
    }
}

// ---------------------------------------------------------------------
// Mnemonics and operand classification.
// ---------------------------------------------------------------------

/// The eleven instruction names of the assembly language.
#[derive(Debug, Clone, Copy, PartialEq, Eq)]
pub enum Mnemonic {
    Add,
    Sub,
    Sta,
    Lda,
    Bra,
    Brz,
    Brp,
    Inp,
    Out,
    Hlt,
    Dat,
}

/// The token spells these three letters, ignoring case.
pub open spec fn spells(s: Seq<char>, a: char, b: char, c: char) -> bool {
    s.len() == 3 && upper_char(s[0]) == a && upper_char(s[1]) == b && upper_char(s[2]) == c
}

/// Which mnemonic an identifier token names, ignoring case; `None` for
/// anything else, a too-long run included.
pub open spec fn mnemonic_of(s: Seq<char>) -> Option<Mnemonic> {
    if spells(s, 'A', 'D', 'D') {
        Some(Mnemonic::Add)
    } else if spells(s, 'S', 'U', 'B') {
        Some(Mnemonic::Sub)
    } else if spells(s, 'S', 'T', 'A') {
        Some(Mnemonic::Sta)
    } else if spells(s, 'L', 'D', 'A') {
        Some(Mnemonic::Lda)
    } else if spells(s, 'B', 'R', 'A') {
        Some(Mnemonic::Bra)
    } else if spells(s, 'B', 'R', 'Z') {
        Some(Mnemonic::Brz)
    } else if spells(s, 'B', 'R', 'P') {
        Some(Mnemonic::Brp)
    } else if spells(s, 'I', 'N', 'P') {
        Some(Mnemonic::Inp)
    } else if spells(s, 'O', 'U', 'T') {
        Some(Mnemonic::Out)
    } else if spells(s, 'H', 'L', 'T') {
        Some(Mnemonic::Hlt)
    } else if spells(s, 'D', 'A', 'T') {
        Some(Mnemonic::Dat)
    } else {
        None
    }
}

/// Recognise a mnemonic token.
pub fn classify_mnemonic(token: &Vec<char>) -> (r: Option<Mnemonic>)
    ensures
        r == mnemonic_of(token@),
{
    if token.len() != 3 {
        return None;
    }
    let a = to_upper(token[0]);
    let b = to_upper(token[1]);
    let c = to_upper(token[2]);
    match (a, b, c) {
        ('A', 'D', 'D') => Some(Mnemonic::Add),
        ('S', 'U', 'B') => Some(Mnemonic::Sub),
        ('S', 'T', 'A') => Some(Mnemonic::Sta),
        ('L', 'D', 'A') => Some(Mnemonic::Lda),
        ('B', 'R', 'A') => Some(Mnemonic::Bra),
        ('B', 'R', 'Z') => Some(Mnemonic::Brz),
        ('B', 'R', 'P') => Some(Mnemonic::Brp),
        ('I', 'N', 'P') => Some(Mnemonic::Inp),
        ('O', 'U', 'T') => Some(Mnemonic::Out),
        ('H', 'L', 'T') => Some(Mnemonic::Hlt),
        ('D', 'A', 'T') => Some(Mnemonic::Dat),
        _ => None,
    }
}

/// How an operand token reads as a memory location: a number up to 255
/// is a literal address, anything else non-empty is a label reference,
/// and an absent operand defaults to address 0.
pub open spec fn loc_matches(loc: MemoryLocation, s: Seq<char>) -> bool {
    if s.len() == 0 {
        loc == MemoryLocation::Address(0u8)
    } else {
        match u8_of(s) {
            Some(v) => loc == MemoryLocation::Address(v),
            None => loc matches MemoryLocation::Label(nm) && nm@ == s,
        }
    }
}

/// Read an operand token as a memory location.
pub fn classify_memory_location(token: &Vec<char>) -> (r: MemoryLocation)
    ensures
        loc_matches(r, token@),
{
    if token.len() == 0 {
        return MemoryLocation::Address(0);
    }
    match parse_u8(token) {
        Some(v) => MemoryLocation::Address(v),
        None => MemoryLocation::Label(string_from_chars(token)),
    }
}

/// The `DAT` operand as a stored word: the spelled number, or 0 when the
/// token is not a number the machine can hold.
pub open spec fn dat_value(s: Seq<char>) -> int {
    match usize_of(s) {
        Some(v) => v as int,
        None => 0,
    }
}

/// How a mnemonic with an operand token reads as an instruction: the
/// whole classification the front end guarantees the assembler.
pub open spec fn instruction_matches(mnemonic: Mnemonic, s: Seq<char>, r: InstructionType) -> bool {
    match mnemonic {
        Mnemonic::Add => r matches InstructionType::Add(loc) && loc_matches(loc, s),
        Mnemonic::Sub => r matches InstructionType::Subtract(loc) && loc_matches(loc, s),
        Mnemonic::Sta => r matches InstructionType::Store(loc) && loc_matches(loc, s),
        Mnemonic::Lda => r matches InstructionType::Load(loc) && loc_matches(loc, s),
        Mnemonic::Bra => r matches InstructionType::BranchAlways(loc) && loc_matches(loc, s),
        Mnemonic::Brz => r matches InstructionType::BranchIfZero(loc) && loc_matches(loc, s),
        Mnemonic::Brp => r matches InstructionType::BranchIfPositive(loc) && loc_matches(loc, s),
        Mnemonic::Inp => r == InstructionType::Input,
        Mnemonic::Out => r == InstructionType::Output,
        Mnemonic::Hlt => r == InstructionType::Halt,
        Mnemonic::Dat => r matches InstructionType::Data(v) && v == dat_value(s),
    }
}

/// Build the instruction a mnemonic and its operand token stand for.
pub fn instruction_from_parts(mnemonic: Mnemonic, operand: &Vec<char>) -> (r: InstructionType)
    ensures
        instruction_matches(mnemonic, operand@, r),
{
    match mnemonic {
        Mnemonic::Add => InstructionType::Add(classify_memory_location(operand)),
        Mnemonic::Sub => InstructionType::Subtract(classify_memory_location(operand)),
        Mnemonic::Sta => InstructionType::Store(classify_memory_location(operand)),
        Mnemonic::Lda => InstructionType::Load(classify_memory_location(operand)),
        Mnemonic::Bra => InstructionType::BranchAlways(classify_memory_location(operand)),
        Mnemonic::Brz => InstructionType::BranchIfZero(classify_memory_location(operand)),
        Mnemonic::Brp => InstructionType::BranchIfPositive(classify_memory_location(operand)),
        Mnemonic::Inp => InstructionType::Input,
        Mnemonic::Out => InstructionType::Output,
        Mnemonic::Hlt => InstructionType::Halt,
        Mnemonic::Dat => InstructionType::Data(match parse_usize(operand) {
            Some(v) => v,
            None => 0,
        }),
    }
}

// ---------------------------------------------------------------------
// What a parsed program is, in terms of the input text.
// ---------------------------------------------------------------------

/// The instruction standing at position `i` of the input: the
/// identifier run there names a mnemonic, and together with the operand
/// token after it (blanks between) it stands for `inst`.
pub open spec fn instruction_matches_at(s: Seq<char>, i: int, inst: InstructionType) -> bool {
    let name_end = ident_end(s, i);
    let operand_start = space_end(s, name_end);
    let operand_end = ident_end(s, operand_start);
    mnemonic_of(s.subrange(i, name_end)) matches Some(m) && instruction_matches(
        m,
        s.subrange(operand_start, operand_end),
        inst,
    )
}

/// A label declaration at position `a` of the input: `name` is the
/// non-empty identifier run there, and the next non-blank character
/// after the run is the declaring `:`.
pub open spec fn label_decl_at(s: Seq<char>, a: int, name: Seq<char>) -> bool {
    &&& name == s.subrange(a, ident_end(s, a))
    &&& ident_end(s, a) > a
    &&& space_end(s, ident_end(s, a)) < s.len()
    &&& s[space_end(s, ident_end(s, a))] == ':'
}

/// The segment `[i, j)` holds nothing but blank space and comment
/// lines: the gaps a program may have around its statements.
pub open spec fn gap_upto(s: Seq<char>, i: int, j: int) -> bool
    decreases j - i
        via gap_upto_decreases
{
    if i >= j {
        i == j
    } else {
        let b = blank_end(s, i);
        if b >= j {
            b == j
        } else if 0 <= b && b < s.len() && s[b] == ';' && line_end(s, b) <= j {
            gap_upto(s, line_end(s, b), j)
        } else {
            false
        }
    }
}

proof fn lemma_blank_end_bounds(s: Seq<char>, i: int)
    ensures
        0 <= i <= s.len() ==> i <= blank_end(s, i) <= s.len(),
    decreases s.len() - i,
{
    if 0 <= i && i < s.len() && (is_space_char(s[i]) || is_newline_char(s[i])) {
        lemma_blank_end_bounds(s, i + 1);
    }
}

proof fn lemma_line_end_bounds(s: Seq<char>, i: int)
    ensures
        0 <= i <= s.len() ==> i <= line_end(s, i) <= s.len(),
    decreases s.len() - i,
{
    if 0 <= i && i < s.len() && !is_newline_char(s[i]) {
        lemma_line_end_bounds(s, i + 1);
    }
}

#[via_fn]
proof fn gap_upto_decreases(s: Seq<char>, i: int, j: int) {
    if i < j {
        let b = blank_end(s, i);
        if 0 <= b && b < s.len() && s[b] == ';' && line_end(s, b) <= j {
            lemma_blank_end_bounds(s, i);
            lemma_line_end_bounds(s, b + 1);
            assert(line_end(s, b) == line_end(s, b + 1));
        }
    }
}

proof fn lemma_blank_end_char(s: Seq<char>, i: int)
    ensures
        0 <= i <= s.len() ==> (blank_end(s, i) == s.len() || !(is_space_char(
            s[blank_end(s, i)],
        ) || is_newline_char(s[blank_end(s, i)]))),
    decreases s.len() - i,
{
    if 0 <= i && i < s.len() && (is_space_char(s[i]) || is_newline_char(s[i])) {
        lemma_blank_end_char(s, i + 1);
    }
}

/// Two adjoining gaps are one gap.
proof fn lemma_gap_concat(s: Seq<char>, a: int, b: int, c: int)
    requires
        gap_upto(s, a, b),
        gap_upto(s, b, c),
    ensures
        gap_upto(s, a, c),
    decreases b - a,
{
    if a < b {
        let e = blank_end(s, a);
        if e < b {
            if 0 <= e && e < s.len() && s[e] == ';' && line_end(s, e) <= b {
                lemma_blank_end_bounds(s, a);
                lemma_line_end_bounds(s, e + 1);
                assert(line_end(s, e) == line_end(s, e + 1));
                lemma_gap_concat(s, line_end(s, e), b, c);
            }
        } else {
            // e == b: the blank run from `a` ends exactly at `b`, at a
            // non-blank character or the end of the input.
            lemma_blank_end_bounds(s, a);
            lemma_blank_end_char(s, a);
            if b < s.len() {
                assert(blank_end(s, b) == b);
            }
        }
    }
}

/// The mnemonic the identifier run at `i` names, if any.
pub open spec fn mnemonic_at(s: Seq<char>, i: int) -> Option<Mnemonic> {
    mnemonic_of(s.subrange(i, ident_end(s, i)))
}

/// A label declaration stands at `c` itself: a non-empty identifier run
/// whose next non-blank character is `:`.
pub open spec fn label_starts_at(s: Seq<char>, c: int) -> bool {
    &&& 0 <= c < s.len()
    &&& ident_end(s, c) > c
    &&& space_end(s, ident_end(s, c)) < s.len()
    &&& s[space_end(s, ident_end(s, c))] == ':'
}

/// The end of a label declaration starting at `c`: past the `:`, and
/// past a comment standing beside it on the same line, if any.
pub open spec fn label_segment_end(s: Seq<char>, c: int) -> int {
    let after = space_end(s, ident_end(s, c)) + 1;
    let beside = space_end(s, after);
    if 0 <= beside && beside < s.len() && s[beside] == ';' {
        line_end(s, beside)
    } else {
        after
    }
}

/// A label declaration is reachable from `i`: behind blank space and
/// comment lines only.
pub open spec fn label_head_at(s: Seq<char>, i: int) -> bool {
    exists|c: int| #[trigger] gap_upto(s, i, c) && label_starts_at(s, c)
}

/// The end of the instruction whose mnemonic stands at `i`: past the
/// mnemonic, past an operand token on the same line if one follows, and
/// past a comment standing beside it, if any.
pub open spec fn instruction_segment_end(s: Seq<char>, i: int) -> int {
    let name_end = ident_end(s, i);
    let operand_start = space_end(s, name_end);
    let operand_end = ident_end(s, operand_start);
    let base = if operand_end > operand_start {
        operand_end
    } else {
        name_end
    };
    let beside = space_end(s, base);
    if 0 <= beside && beside < s.len() && s[beside] == ';' {
        line_end(s, beside)
    } else {
        base
    }
}

/// One statement standing exactly at `[p, q)`: an unlabeled statement
/// is the instruction beginning at `p` itself and `q` is that
/// instruction's end; a labeled one opens with its label declaration
/// (comment lines before the name belong to it) and its instruction
/// follows the declaration, again with `q` the instruction's end.
pub open spec fn stmt_exact_at(s: Seq<char>, p: int, q: int, st: Statement) -> bool {
    match st {
        Statement::UnLabeled { instruction } => {
            &&& instruction_matches_at(s, p, instruction.instruction)
            &&& q == instruction_segment_end(s, p)
        },
        Statement::Labeled { label, instruction } => exists|c: int|
            {
                &&& #[trigger] gap_upto(s, p, c)
                &&& label_starts_at(s, c)
                &&& label.label@ == s.subrange(c, ident_end(s, c))
                &&& instruction_matches_at(
                    s,
                    blank_end(s, label_segment_end(s, c)),
                    instruction.instruction,
                )
                &&& q == instruction_segment_end(s, blank_end(s, label_segment_end(s, c)))
            },
    }
}

/// The statement rule fails at `i`: either nothing declares a label
/// there and the identifier run at `i` names no mnemonic, or a label is
/// declared there and no mnemonic follows its declaration.
pub open spec fn stmt_fails_at(s: Seq<char>, i: int) -> bool {
    if label_head_at(s, i) {
        exists|c: int|
            #[trigger] gap_upto(s, i, c) && label_starts_at(s, c) && mnemonic_at(
                s,
                blank_end(s, label_segment_end(s, c)),
            ) is None
    } else {
        mnemonic_at(s, i) is None
    }
}

/// A gap from `i` has only one end standing at the end of the input or
/// at a character that is neither blank nor the start of a comment.
proof fn lemma_gap_stop_unique(s: Seq<char>, i: int, c1: int, c2: int)
    requires
        gap_upto(s, i, c1),
        gap_upto(s, i, c2),
        c1 == s.len() || (0 <= c1 < s.len() && !is_space_char(s[c1]) && !is_newline_char(s[c1])
            && s[c1] != ';'),
        c2 == s.len() || (0 <= c2 < s.len() && !is_space_char(s[c2]) && !is_newline_char(s[c2])
            && s[c2] != ';'),
    ensures
        c1 == c2,
    decreases c1 + c2 - 2 * i,
{
    assert(i <= c1) by {
        if i > c1 {
            assert(!gap_upto(s, i, c1));
        }
    }
    assert(i <= c2) by {
        if i > c2 {
            assert(!gap_upto(s, i, c2));
        }
    }
    if i < c1 && i < c2 {
        let b = blank_end(s, i);
        if b == c1 && b == c2 {
        } else if b >= c1 && b >= c2 {
            assert(c1 == b && c2 == b);
        } else {
            // At least one gap goes past `b` through a comment line, so
            // `s[b]` is `;`; the other end then cannot be `b`, which is
            // neither a stop character nor the end of the input, so both
            // gaps continue past the same comment line.
            assert(b < c1 || b < c2);
            if b < c1 {
                assert(0 <= b && b < s.len() && s[b] == ';');
            } else {
                assert(0 <= b && b < s.len() && s[b] == ';');
            }
            assert(b < c1) by {
                if b >= c1 {
                    assert(c1 == b);
                }
            }
            assert(b < c2) by {
                if b >= c2 {
                    assert(c2 == b);
                }
            }
            lemma_line_end_bounds(s, b + 1);
            assert(line_end(s, b) == line_end(s, b + 1));
            lemma_blank_end_bounds(s, i);
            lemma_gap_stop_unique(s, line_end(s, b), c1, c2);
        }
    }
}

/// A declaration of `name` standing somewhere in the input segment
/// `[from, to)`.
pub open spec fn label_matched_in(s: Seq<char>, from: int, to: int, name: Seq<char>) -> bool {
    exists|a: int| from <= a < to && #[trigger] label_decl_at(s, a, name)
}

/// One statement matched inside the input segment `[from, to)`: its
/// instruction stands at some position of the segment, and a labeled
/// statement's name is declared at some position of the segment too.
pub open spec fn stmt_matches_in(s: Seq<char>, from: int, to: int, st: Statement) -> bool {
    match st {
        Statement::UnLabeled { instruction } => exists|i: int|
            from <= i < to && #[trigger] instruction_matches_at(s, i, instruction.instruction),
        Statement::Labeled { label, instruction } => {
            &&& label_matched_in(s, from, to, label.label@)
            &&& exists|i: int|
                from <= i < to && #[trigger] instruction_matches_at(s, i, instruction.instruction)
        },
    }
}

/// The statements matched in order inside `[from, to)`: there are cut
/// positions `from <= c1 <= c2 <= ... <= to` such that statement `k` is
/// matched between cut `k` and cut `k+1`.
pub open spec fn program_matches_within(
    s: Seq<char>,
    from: int,
    to: int,
    ast: Seq<Statement>,
) -> bool
    decreases ast.len(),
{
    if ast.len() == 0 {
        true
    } else {
        exists|b: int|
            {
                &&& from <= b <= to
                &&& #[trigger] stmt_matches_in(s, from, b, ast[0])
                &&& program_matches_within(s, b, to, ast.drop_first())
            }
    }
}

/// What a successful parse returns: each statement, in program order,
/// is matched in its own segment of the input.
pub open spec fn program_matches(s: Seq<char>, ast: Seq<Statement>) -> bool {
    program_matches_within(s, 0, s.len() as int, ast)
}

/// The statements tile `[from, to)` completely: before each statement's
/// exact segment stands a gap of blanks and comment lines only, the
/// segments come in program order, and a final gap reaches `to`.
/// Nothing of the input is left out: every character lies in a gap or
/// in a statement's segment, so the sequence holds one statement for
/// each statement the input spells.
pub open spec fn program_tiles(s: Seq<char>, from: int, to: int, ast: Seq<Statement>) -> bool
    decreases ast.len(),
{
    if ast.len() == 0 {
        gap_upto(s, from, to)
    } else {
        exists|p: int, q: int|
            {
                &&& from <= p <= q <= to
                &&& gap_upto(s, from, p)
                &&& #[trigger] stmt_exact_at(s, p, q, ast[0])
                &&& program_tiles(s, q, to, ast.drop_first())
            }
    }
}

/// A tiling of `[from, mid)` extends over a further gap.
proof fn lemma_program_tiles_extend_gap(
    s: Seq<char>,
    from: int,
    mid: int,
    to: int,
    ast: Seq<Statement>,
)
    requires
        program_tiles(s, from, mid, ast),
        gap_upto(s, mid, to),
    ensures
        program_tiles(s, from, to, ast),
    decreases ast.len(),
{
    if ast.len() == 0 {
        lemma_gap_concat(s, from, mid, to);
    } else {
        let (p, q) = choose|p: int, q: int|
            {
                &&& from <= p <= q <= mid
                &&& gap_upto(s, from, p)
                &&& #[trigger] stmt_exact_at(s, p, q, ast[0])
                &&& program_tiles(s, q, mid, ast.drop_first())
            };
        lemma_program_tiles_extend_gap(s, q, mid, to, ast.drop_first());
        assert(mid <= to) by {
            if mid > to {
                assert(!gap_upto(s, mid, to));
            }
        }
        assert(from <= p <= q <= to && gap_upto(s, from, p) && stmt_exact_at(s, p, q, ast[0])
            && program_tiles(s, q, to, ast.drop_first()));
    }
}

/// Appending a statement matched right after the tiling so far keeps
/// the whole sequence a tiling.
proof fn lemma_program_tiles_snoc(
    s: Seq<char>,
    from: int,
    mid: int,
    to: int,
    ast: Seq<Statement>,
    st: Statement,
)
    requires
        mid <= to,
        program_tiles(s, from, mid, ast),
        stmt_exact_at(s, mid, to, st),
    ensures
        program_tiles(s, from, to, ast.push(st)),
    decreases ast.len(),
{
    if ast.len() == 0 {
        assert(from <= mid) by {
            if from > mid {
                assert(!gap_upto(s, from, mid));
            }
        }
        assert(ast.push(st)[0] == st);
        assert(ast.push(st).drop_first() =~= Seq::<Statement>::empty());
        assert(gap_upto(s, to, to));
        assert(program_tiles(s, to, to, ast.push(st).drop_first()));
        assert(from <= mid <= to <= to && gap_upto(s, from, mid) && stmt_exact_at(
            s,
            mid,
            to,
            ast.push(st)[0],
        ) && program_tiles(s, to, to, ast.push(st).drop_first()));
    } else {
        let (p, q) = choose|p: int, q: int|
            {
                &&& from <= p <= q <= mid
                &&& gap_upto(s, from, p)
                &&& #[trigger] stmt_exact_at(s, p, q, ast[0])
                &&& program_tiles(s, q, mid, ast.drop_first())
            };
        lemma_program_tiles_snoc(s, q, mid, to, ast.drop_first(), st);
        assert(ast.drop_first().push(st) =~= ast.push(st).drop_first());
        assert(ast.push(st)[0] == ast[0]);
        assert(from <= p <= q <= to && gap_upto(s, from, p) && stmt_exact_at(
            s,
            p,
            q,
            ast.push(st)[0],
        ) && program_tiles(s, q, to, ast.push(st).drop_first()));
    }
}

/// A statement matched in a segment is matched in any enclosing one.
proof fn lemma_stmt_matches_widen(
    s: Seq<char>,
    from: int,
    to: int,
    from2: int,
    to2: int,
    st: Statement,
)
    requires
        stmt_matches_in(s, from, to, st),
        from2 <= from,
        to <= to2,
    ensures
        stmt_matches_in(s, from2, to2, st),
{
    match st {
        Statement::UnLabeled { instruction } => {
            let i = choose|i: int|
                from <= i < to && #[trigger] instruction_matches_at(
                    s,
                    i,
                    instruction.instruction,
                );
            assert(from2 <= i < to2 && instruction_matches_at(s, i, instruction.instruction));
        },
        Statement::Labeled { label, instruction } => {
            assert(label_matched_in(s, from, to, label.label@));
            let a = choose|a: int| from <= a < to && #[trigger] label_decl_at(s, a, label.label@);
            let i = choose|i: int|
                from <= i < to && #[trigger] instruction_matches_at(
                    s,
                    i,
                    instruction.instruction,
                );
            assert(from2 <= a < to2 && label_decl_at(s, a, label.label@));
            assert(label_matched_in(s, from2, to2, label.label@));
            assert(from2 <= i < to2 && instruction_matches_at(s, i, instruction.instruction));
        },
    }
}

/// A match within `[from, to)` is a match within `[from, to2)` for any
/// later end.
proof fn lemma_program_matches_widen(
    s: Seq<char>,
    from: int,
    to: int,
    to2: int,
    ast: Seq<Statement>,
)
    requires
        program_matches_within(s, from, to, ast),
        to <= to2,
    ensures
        program_matches_within(s, from, to2, ast),
    decreases ast.len(),
{
    if ast.len() > 0 {
        let b = choose|b: int|
            {
                &&& from <= b <= to
                &&& #[trigger] stmt_matches_in(s, from, b, ast[0])
                &&& program_matches_within(s, b, to, ast.drop_first())
            };
        lemma_program_matches_widen(s, b, to, to2, ast.drop_first());
        assert(from <= b <= to2 && stmt_matches_in(s, from, b, ast[0]) && program_matches_within(
            s,
            b,
            to2,
            ast.drop_first(),
        ));
    }
}

/// Appending a statement matched after the cuts so far keeps the whole
/// sequence matched.
proof fn lemma_program_matches_snoc(
    s: Seq<char>,
    from: int,
    mid: int,
    to: int,
    ast: Seq<Statement>,
    st: Statement,
)
    requires
        from <= mid <= to,
        program_matches_within(s, from, mid, ast),
        stmt_matches_in(s, mid, to, st),
    ensures
        program_matches_within(s, from, to, ast.push(st)),
    decreases ast.len(),
{
    if ast.len() == 0 {
        lemma_stmt_matches_widen(s, mid, to, from, to, st);
        assert(ast.push(st)[0] == st);
        assert(ast.push(st).drop_first() =~= Seq::<Statement>::empty());
        assert(from <= to <= to && stmt_matches_in(s, from, to, ast.push(st)[0])
            && program_matches_within(s, to, to, ast.push(st).drop_first()));
    } else {
        let b = choose|b: int|
            {
                &&& from <= b <= mid
                &&& #[trigger] stmt_matches_in(s, from, b, ast[0])
                &&& program_matches_within(s, b, mid, ast.drop_first())
            };
        lemma_program_matches_snoc(s, b, mid, to, ast.drop_first(), st);
        assert(ast.drop_first().push(st) =~= ast.push(st).drop_first());
        assert(ast.push(st)[0] == ast[0]);
        assert(from <= b <= to && stmt_matches_in(s, from, b, ast.push(st)[0])
            && program_matches_within(s, b, to, ast.push(st).drop_first()));
    }
}

// ---------------------------------------------------------------------
// The grammar rules, by recursive descent with backtracking.
// ---------------------------------------------------------------------

/// Match a comment at `pos`: a `;` and the rest of the line. The text
/// handed back is the line after the `;`, trimmed of blanks.
fn match_comment(v: &Vec<char>, pos: usize) -> (r: Option<(String, usize)>)
    requires
        pos <= v@.len(),
    ensures
        match r {
            Some((text, end)) => {
                &&& pos < end <= v@.len()
                &&& v@[pos as int] == ';'
                &&& end == line_end(v@, pos as int)
                &&& text@ == trimmed(v@.subrange(pos + 1 as int, end as int))
            },
            None => pos == v@.len() || v@[pos as int] != ';',
        },
{
    if pos < v.len() && v[pos] == ';' {
        let end = scan_line(v, pos + 1);
        proof {
            assert(line_end(v@, pos as int) == line_end(v@, pos + 1 as int));
        }
        let text = trim_range(v, pos + 1, end);
        Some((string_from_chars(&text), end))
    } else {
        None
    }
}

/// Match a label declaration at `pos`: any comment lines, the label
/// name, a `:`, and an optional comment beside it. The comments are
/// attached to the label. A matched name is always a non-empty
/// identifier run of the input whose next non-blank character is the
/// declaring `:`. `None` leaves the position for the caller to try
/// something else.
fn match_label(v: &Vec<char>, pos: usize) -> (r: Option<(Label, usize)>)
    requires
        pos <= v@.len(),
    ensures
        match r {
            Some((lab, end)) => {
                &&& pos < end <= v@.len()
                &&& lab.label@.len() > 0
                &&& label_matched_in(v@, pos as int, end as int, lab.label@)
                &&& exists|c: int|
                    {
                        &&& #[trigger] gap_upto(v@, pos as int, c)
                        &&& label_starts_at(v@, c)
                        &&& lab.label@ == v@.subrange(c, ident_end(v@, c))
                        &&& end == label_segment_end(v@, c)
                    }
            },
            None => !label_head_at(v@, pos as int),
        },
{
    let mut comments: Vec<String> = Vec::new();
    let mut p = pos;
    proof {
        assert(gap_upto(v@, pos as int, pos as int));
    }
    loop
        invariant
            pos <= p <= v@.len(),
            gap_upto(v@, pos as int, p as int),
        ensures
            pos <= p <= v@.len(),
            gap_upto(v@, pos as int, p as int),
            p == v@.len() || (!is_space_char(v@[p as int]) && !is_newline_char(v@[p as int])
                && v@[p as int] != ';'),
        decreases v@.len() - p,
    {
        let q = skip_blank(v, p);
        proof {
            assert(gap_upto(v@, p as int, q as int));
            lemma_gap_concat(v@, pos as int, p as int, q as int);
        }
        match match_comment(v, q) {
            Some((text, q2)) => {
                proof {
                    assert(blank_end(v@, q as int) == q as int);
                    assert(gap_upto(v@, q2 as int, q2 as int));
                    assert(gap_upto(v@, q as int, q2 as int));
                    lemma_gap_concat(v@, pos as int, q as int, q2 as int);
                }
                comments.push(text);
                p = q2;
            },
            None => {
                p = q;
                break ;
            },
        }
    }
    let name_end = scan_ident(v, p);
    if name_end == p {
        proof {
            no_label_head(v@, pos as int, p as int);
        }
        return None;
    }
    let after = skip_spaces(v, name_end);
    if after < v.len() && v[after] == ':' {
        let mut end = after + 1;
        let beside = skip_spaces(v, end);
        match match_comment(v, beside) {
            Some((text, q)) => {
                comments.push(text);
                end = q;
            },
            None => {},
        }
        let name = copy_range(v, p, name_end);
        let label = string_from_chars(&name);
        let lab = Label { label, comments };
        proof {
            assert(label_decl_at(v@, p as int, lab.label@));
            assert(label_matched_in(v@, pos as int, end as int, lab.label@));
            assert(label_starts_at(v@, p as int));
            assert(end == label_segment_end(v@, p as int));
            assert(gap_upto(v@, pos as int, p as int) && label_starts_at(v@, p as int)
                && lab.label@ == v@.subrange(p as int, ident_end(v@, p as int)) && end
                == label_segment_end(v@, p as int));
        }
        Some((lab, end))
    } else {
        proof {
            no_label_head(v@, pos as int, p as int);
        }
        None
    }
}

/// If the greedy walk over blanks and comment lines from `i` stops at
/// `p` and no label declaration stands at `p`, then none is reachable
/// from `i` at all: any reachable declaration would stand at a gap end
/// that is neither blank nor a comment start, and such an end is unique.
proof fn no_label_head(s: Seq<char>, i: int, p: int)
    requires
        0 <= p <= s.len(),
        gap_upto(s, i, p),
        p == s.len() || (!is_space_char(s[p]) && !is_newline_char(s[p]) && s[p] != ';'),
        !label_starts_at(s, p),
    ensures
        !label_head_at(s, i),
{
    if label_head_at(s, i) {
        let c = choose|c: int| #[trigger] gap_upto(s, i, c) && label_starts_at(s, c);
        assert(is_ident_char(s[c])) by {
            if !is_ident_char(s[c]) {
                assert(ident_end(s, c) == c);
            }
        }
        lemma_gap_stop_unique(s, i, c, p);
    }
}

/// Match an instruction at `pos`: a mnemonic, an optional operand on the
/// same line, and an optional comment beside it. It matches exactly when
/// the identifier run at `pos` names a mnemonic, and the instruction
/// built is the one that mnemonic and the operand token after it stand
/// for.
fn match_instruction(v: &Vec<char>, pos: usize) -> (r: Option<(Instruction, usize)>)
    requires
        pos <= v@.len(),
    ensures
        match r {
            Some((inst, end)) => {
                &&& pos < end <= v@.len()
                &&& instruction_matches_at(v@, pos as int, inst.instruction)
                &&& end == instruction_segment_end(v@, pos as int)
            },
            None => mnemonic_at(v@, pos as int) is None,
        },
{
    let name_end = scan_ident(v, pos);
    if name_end == pos {
        return None;
    }
    let token = copy_range(v, pos, name_end);
    let mnemonic = match classify_mnemonic(&token) {
        Some(m) => m,
        None => {
            return None;
        },
    };
    let operand_start = skip_spaces(v, name_end);
    let operand_end = scan_ident(v, operand_start);
    let operand = copy_range(v, operand_start, operand_end);
    let mut end = if operand_end > operand_start {
        operand_end
    } else {
        name_end
    };
    let mut comments: Vec<String> = Vec::new();
    let beside = skip_spaces(v, end);
    match match_comment(v, beside) {
        Some((text, q)) => {
            comments.push(text);
            end = q;
        },
        None => {},
    }
    let instruction = instruction_from_parts(mnemonic, &operand);
    Some((Instruction { instruction, comments }, end))
}

/// Match one statement at `pos`: an optional label declaration, then an
/// instruction, possibly on a later line. A label with no instruction
/// after it matches nothing. The statement handed back is matched in the
/// consumed segment: an unlabeled one carries the instruction standing
/// at `pos` itself, a labeled one its declared name and the instruction
/// standing after the declaration.
fn match_stmt(v: &Vec<char>, pos: usize) -> (r: Option<(Statement, usize)>)
    requires
        pos <= v@.len(),
    ensures
        match r {
            Some((s, end)) => {
                &&& pos < end <= v@.len()
                &&& stmt_matches_in(v@, pos as int, end as int, s)
                &&& stmt_exact_at(v@, pos as int, end as int, s)
                &&& !stmt_fails_at(v@, pos as int)
                &&& s matches Statement::UnLabeled { instruction }
                    ==> instruction_matches_at(v@, pos as int, instruction.instruction)
            },
            None => stmt_fails_at(v@, pos as int),
        },
{
    match match_label(v, pos) {
        Some((label, p1)) => {
            let p2 = skip_blank(v, p1);
            match match_instruction(v, p2) {
                Some((instruction, end)) => {
                    let st = Statement::Labeled { label, instruction };
                    proof {
                        if let Statement::Labeled { label: l, instruction: inst } = &st {
                            assert(label_matched_in(v@, pos as int, p1 as int, l.label@));
                            let a = choose|a: int|
                                pos <= a < p1 && #[trigger] label_decl_at(v@, a, l.label@);
                            assert(pos <= a < end as int && label_decl_at(v@, a, l.label@));
                            assert(pos <= p2 < end && instruction_matches_at(
                                v@,
                                p2 as int,
                                inst.instruction,
                            ));
                            stmt_succeeds_with_label(v@, pos as int, l.label@, p1 as int);
                            let c = choose|c: int|
                                {
                                    &&& #[trigger] gap_upto(v@, pos as int, c)
                                    &&& label_starts_at(v@, c)
                                    &&& l.label@ == v@.subrange(c, ident_end(v@, c))
                                    &&& p1 == label_segment_end(v@, c)
                                };
                            assert(gap_upto(v@, pos as int, c) && label_starts_at(v@, c)
                                && l.label@ == v@.subrange(c, ident_end(v@, c))
                                && instruction_matches_at(
                                v@,
                                blank_end(v@, label_segment_end(v@, c)),
                                inst.instruction,
                            ) && end as int == instruction_segment_end(
                                v@,
                                blank_end(v@, label_segment_end(v@, c)),
                            ));
                        }
                        assert(stmt_matches_in(v@, pos as int, end as int, st));
                        assert(stmt_exact_at(v@, pos as int, end as int, st));
                    }
                    Some((st, end))
                },
                None => {
                    proof {
                        let c = choose|c: int|
                            {
                                &&& #[trigger] gap_upto(v@, pos as int, c)
                                &&& label_starts_at(v@, c)
                                &&& p1 == label_segment_end(v@, c)
                            };
                        assert(label_head_at(v@, pos as int));
                        assert(mnemonic_at(v@, p2 as int) is None);
                        assert(gap_upto(v@, pos as int, c) && label_starts_at(v@, c)
                            && mnemonic_at(v@, blank_end(v@, label_segment_end(v@, c))) is None);
                        assert(stmt_fails_at(v@, pos as int));
                    }
                    None
                },
            }
        },
        None => match match_instruction(v, pos) {
            Some((instruction, end)) => {
                let st = Statement::UnLabeled { instruction };
                proof {
                    if let Statement::UnLabeled { instruction: inst } = &st {
                        assert(pos <= pos < end && instruction_matches_at(
                            v@,
                            pos as int,
                            inst.instruction,
                        ));
                        assert(mnemonic_at(v@, pos as int) is Some);
                    }
                    assert(stmt_matches_in(v@, pos as int, end as int, st));
                    assert(stmt_exact_at(v@, pos as int, end as int, st));
                    assert(!stmt_fails_at(v@, pos as int));
                }
                Some((st, end))
            },
            None => {
                proof {
                    assert(mnemonic_at(v@, pos as int) is None);
                    assert(stmt_fails_at(v@, pos as int));
                }
                None
            },
        },
    }
}

/// When a label declaration reachable from `i` ends at `p1` and a
/// mnemonic stands after it, the statement rule does not fail at `i`:
/// the declaration reachable from `i` is unique, so the failure
/// condition would name this very one.
proof fn stmt_succeeds_with_label(s: Seq<char>, i: int, name: Seq<char>, p1: int)
    requires
        exists|c: int|
            {
                &&& #[trigger] gap_upto(s, i, c)
                &&& label_starts_at(s, c)
                &&& name == s.subrange(c, ident_end(s, c))
                &&& p1 == label_segment_end(s, c)
            },
        mnemonic_at(s, blank_end(s, p1)) is Some,
    ensures
        !stmt_fails_at(s, i),
{
    let c = choose|c: int|
        {
            &&& #[trigger] gap_upto(s, i, c)
            &&& label_starts_at(s, c)
            &&& name == s.subrange(c, ident_end(s, c))
            &&& p1 == label_segment_end(s, c)
        };
    assert(label_head_at(s, i));
    if stmt_fails_at(s, i) {
        let c2 = choose|c2: int|
            #[trigger] gap_upto(s, i, c2) && label_starts_at(s, c2) && mnemonic_at(
                s,
                blank_end(s, label_segment_end(s, c2)),
            ) is None;
        assert(is_ident_char(s[c])) by {
            if !is_ident_char(s[c]) {
                assert(ident_end(s, c) == c);
            }
        }
        assert(is_ident_char(s[c2])) by {
            if !is_ident_char(s[c2]) {
                assert(ident_end(s, c2) == c2);
            }
        }
        lemma_gap_stop_unique(s, i, c, c2);
    }
}

/// Parse a whole program: statements and stray comments in any order,
/// separated by blank space, to the end of the input. Comments that come
/// right before a labeled statement belong to its label; others are
/// dropped.
fn parse_program_chars(v: &Vec<char>) -> (r: Result<Vec<Statement>, ParseError>)
    ensures
        v@.len() == 0 ==> (r matches Ok(ast) && ast@.len() == 0),
        r matches Ok(ast) ==> program_matches(v@, ast@),
        r matches Ok(ast) ==> program_tiles(v@, 0, v@.len() as int, ast@),
        r matches Ok(ast) ==> (ast@.len() == 0 ==> gap_upto(v@, 0, v@.len() as int)),
        r matches Err(e) ==> ({
            &&& e.position < v@.len()
            &&& !is_space_char(v@[e.position as int])
            &&& !is_newline_char(v@[e.position as int])
            &&& v@[e.position as int] != ';'
            &&& stmt_fails_at(v@, e.position as int)
        }),
{
    let mut out: Vec<Statement> = Vec::new();
    let mut p = skip_blank(v, 0);
    proof {
        assert(gap_upto(v@, 0, p as int));
    }
    while p < v.len()
        invariant
            p <= v@.len(),
            p < v@.len() ==> !is_space_char(v@[p as int]) && !is_newline_char(v@[p as int]),
            v@.len() == 0 ==> out@.len() == 0,
            program_matches_within(v@, 0, p as int, out@),
            program_tiles(v@, 0, p as int, out@),
        decreases v@.len() - p,
    {
        match match_stmt(v, p) {
            Some((s, q)) => {
                proof {
                    lemma_program_matches_snoc(v@, 0, p as int, q as int, out@, s);
                    lemma_program_tiles_snoc(v@, 0, p as int, q as int, out@, s);
                }
                out.push(s);
                let p2 = skip_blank(v, q);
                proof {
                    lemma_program_matches_widen(v@, 0, q as int, p2 as int, out@);
                    assert(gap_upto(v@, q as int, p2 as int));
                    lemma_program_tiles_extend_gap(v@, 0, q as int, p2 as int, out@);
                }
                p = p2;
            },
            None => match match_comment(v, p) {
                Some((_, q)) => {
                    let p2 = skip_blank(v, q);
                    proof {
                        lemma_program_matches_widen(v@, 0, p as int, p2 as int, out@);
                        // The consumed comment and the blanks after it
                        // are one more piece of gap.
                        assert(blank_end(v@, p as int) == p as int);
                        assert(gap_upto(v@, q as int, p2 as int));
                        assert(gap_upto(v@, p as int, p2 as int));
                        lemma_program_tiles_extend_gap(v@, 0, p as int, p2 as int, out@);
                    }
                    p = p2;
                },
                None => {
                    return Err(ParseError { position: p });
                },
            },
        }
    }
    Ok(out)
}

/// The parser for LMC assembly source text.
#[derive(Debug)]
pub struct LMCParser;

impl LMCParser {
    /// Match the input against one grammar rule, from its start. As with
    /// any recursive-descent match, input left over after the rule is no
    /// failure, except for `program`, which must consume everything.
    pub fn parse(rule: Rule, input: &str) -> (r: Result<(), ParseError>)
        ensures
            rule == Rule::comment ==> (r is Ok <==> input@.len() > 0 && input@[0] == ';'),
            (rule == Rule::labelName || rule == Rule::memoryLocation) ==> (r is Ok <==> input@.len()
                > 0 && is_ident_char(input@[0])),
            (rule == Rule::instruction || rule == Rule::instructionName) ==> (r is Ok
                <==> mnemonic_at(input@, 0) is Some),
            rule == Rule::label ==> (r is Ok <==> label_head_at(input@, 0)),
            rule == Rule::stmt ==> (r is Ok <==> !stmt_fails_at(input@, 0)),
            (rule == Rule::stmt && r is Ok) ==> exists|st: Statement, end: int|
                0 < end <= input@.len() && #[trigger] stmt_matches_in(input@, 0, end, st),
            (rule == Rule::program && r is Ok) ==> exists|ast: Seq<Statement>|
                #[trigger] program_tiles(input@, 0, input@.len() as int, ast),
            rule == Rule::program ==> (r matches Err(e) ==> ({
                &&& e.position < input@.len()
                &&& !is_space_char(input@[e.position as int])
                &&& !is_newline_char(input@[e.position as int])
                &&& input@[e.position as int] != ';'
                &&& stmt_fails_at(input@, e.position as int)
            })),
    {
        let v = chars_of(input);
        match rule {
            Rule::comment => match match_comment(&v, 0) {
                Some(_) => Ok(()),
                None => Err(ParseError { position: 0 }),
            },
            Rule::labelName | Rule::memoryLocation => {
                if v.len() > 0 && is_ident(v[0]) {
                    Ok(())
                } else {
                    Err(ParseError { position: 0 })
                }
            },
            Rule::label => match match_label(&v, 0) {
                Some((lab, end)) => {
                    proof {
                        let c = choose|c: int|
                            {
                                &&& #[trigger] gap_upto(v@, 0, c)
                                &&& label_starts_at(v@, c)
                                &&& lab.label@ == v@.subrange(c, ident_end(v@, c))
                                &&& end == label_segment_end(v@, c)
                            };
                        assert(label_head_at(input@, 0));
                    }
                    Ok(())
                },
                None => Err(ParseError { position: 0 }),
            },
            Rule::instruction | Rule::instructionName => {
                let name_end = scan_ident(&v, 0);
                let token = copy_range(&v, 0, name_end);
                match classify_mnemonic(&token) {
                    Some(_) => Ok(()),
                    None => Err(ParseError { position: 0 }),
                }
            },
            Rule::stmt => match match_stmt(&v, 0) {
                Some((st, end)) => {
                    proof {
                        assert(0 < end as int <= input@.len() && stmt_matches_in(
                            input@,
                            0,
                            end as int,
                            st,
                        ));
                    }
                    Ok(())
                },
                None => Err(ParseError { position: 0 }),
            },
            Rule::program => match parse_program_chars(&v) {
                Ok(ast) => {
                    proof {
                        assert(program_tiles(input@, 0, input@.len() as int, ast@));
                    }
                    Ok(())
                },
                Err(e) => Err(e),
            },
        }
    }
}

/// Parse a whole source file into its ordered statement sequence: the
/// front end the assembler consumes. On success the statements tile the
/// whole input (`program_tiles`): each one, in program order, stands in
/// its own segment — the instruction is the one its mnemonic and
/// operand stand for, a labeled statement's name is the identifier run
/// of its declaration — and everything between and around the segments
/// is blank space and comment lines only. In particular an empty
/// sequence comes back only from an input with no statements at all.
/// On failure the reported position is a genuine failure point: it
/// stands outside any gap, no comment starts there, and the statement
/// rule fails there (`stmt_fails_at`).
pub fn pass_program(input: &str) -> (r: Result<Vec<Statement>, ParseError>)
    ensures
        input@.len() == 0 ==> (r matches Ok(ast) && ast@.len() == 0),
        r matches Ok(ast) ==> program_matches(input@, ast@),
        r matches Ok(ast) ==> program_tiles(input@, 0, input@.len() as int, ast@),
        r matches Ok(ast) ==> (ast@.len() == 0 ==> gap_upto(input@, 0, input@.len() as int)),
        r matches Err(e) ==> ({
            &&& e.position < input@.len()
            &&& !is_space_char(input@[e.position as int])
            &&& !is_newline_char(input@[e.position as int])
            &&& input@[e.position as int] != ';'
            &&& stmt_fails_at(input@, e.position as int)
        }),
{
    let v = chars_of(input);
    parse_program_chars(&v)
}

} // verus!
