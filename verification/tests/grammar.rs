use lmc::grammar::{parse_u8, parse_usize, LMCParser, Rule};

#[test]
fn decimal_parsing_matches_integer_semantics() {
    let digits = |s: &str| s.chars().collect::<Vec<char>>();
    assert_eq!(parse_usize(&digits("123")), Some(123));
    assert_eq!(parse_usize(&digits("0")), Some(0));
    assert_eq!(parse_usize(&digits("")), None);
    assert_eq!(parse_usize(&digits("12a")), None);
    assert_eq!(parse_usize(&digits("99999999999999999999999999")), None);
    assert_eq!(parse_u8(&digits("255")), Some(255));
    assert_eq!(parse_u8(&digits("256")), None);
    assert_eq!(parse_u8(&digits("007")), Some(7));
}

#[test]
fn unreadable_input_reports_its_position() {
    let err = lmc::grammar::pass_program("!!!").unwrap_err();
    assert_eq!(err.position, 0);
    // A label with nothing after it is not a statement.
    let err = lmc::grammar::pass_program("INP\nfoo:").unwrap_err();
    assert_eq!(err.position, 4);
}

#[test]
fn grammar_test_comment() {
    LMCParser::parse(Rule::comment, ";a comment").unwrap();
    LMCParser::parse(Rule::comment, "; a comment").unwrap();
    assert!(LMCParser::parse(Rule::comment, "").is_err());
}

#[test]
fn grammar_test_label() {
    LMCParser::parse(Rule::label, "myLabel:").unwrap();
    LMCParser::parse(Rule::label, "; comment one\nmyLabel:").unwrap();
    LMCParser::parse(Rule::label, "myLabel:; comment two").unwrap();
    assert!(LMCParser::parse(Rule::label, "myLabel another:").is_err());
    assert!(LMCParser::parse(Rule::label, "myLabel").is_err());
}

#[test]
fn grammar_test_memory_location() {
    LMCParser::parse(Rule::memoryLocation, "10").unwrap();
    LMCParser::parse(Rule::memoryLocation, "0").unwrap();
    LMCParser::parse(Rule::memoryLocation, "labelled").unwrap();
    assert!(LMCParser::parse(Rule::memoryLocation, "").is_err());
}

#[test]
fn test_instruction_name() {
    LMCParser::parse(Rule::instruction, "ADD").unwrap();
    LMCParser::parse(Rule::instruction, "ADD ").unwrap();
    LMCParser::parse(Rule::instruction, "add").unwrap();
    assert!(LMCParser::parse(Rule::instruction, "ADDDD").is_err());
    assert!(LMCParser::parse(Rule::instruction, "").is_err());
}

#[test]
fn grammar_test_intruction() {
    LMCParser::parse(Rule::instruction, "ADD var").unwrap();
    LMCParser::parse(Rule::instruction, "ADD var ; add something").unwrap();
    LMCParser::parse(Rule::instruction, "add: ADD var").unwrap();
    LMCParser::parse(Rule::instruction, "add:\n ADD var").unwrap();
}

#[test]
fn grammar_test_program() {
    LMCParser::parse(
        Rule::program,
        r#"
; get input
start:INP
STA 99
INP
ADD 99
OUT
HLT
; Output the sum of two numbers
        "#,
    )
    .unwrap();
}
