use whidl::error::ErrorKind;
use whidl::test_parser::{Identifier, Instruction, NumberSystem, TestParser, TestScript};
use whidl::test_scanner::{TestScanner, TokenType};

const AND_TST: &str = "// File name: projects/01/And.tst

load And.hdl,
output-file And.out,
compare-to And.cmp,
output-list a%B3.1.3 b%B3.1.3 out%B3.1.3;

set a 0,
set b 0,
eval,
output;

set a 0,
set b 1,
eval,
output;

set a 1,
set b 0,
eval,
output;

set a 1,
set b 1,
eval,
output;
";

const NOT16_TST: &str = "// File name: projects/01/Not16.tst

load Not16.hdl,
output-file Not16.out,
compare-to Not16.cmp,
output-list in%B1.16.1 out%B1.16.1;

set in %B0000000000000000,
eval,
output;

set in %B1111111111111111,
eval,
output;

set in %B1010101010101010,
eval,
output;

set in %B0011110011000011,
eval,
output;

set in %B0001001000110100,
eval,
output;
";

const REGISTER_TST: &str = "load<8> Register.hdl,
output-file Register.out,
compare-to Register.cmp,
output-list time%S1.4.1 in%D1.6.1 load%B2.1.2 out%D1.6.1;

set in 0,
set load 0,
tick,
output;

tock,
output;
";

fn parse(source: &str, path: &str) -> Result<TestScript, whidl::error::N2VError> {
    let scanner = TestScanner::new(source, String::from(path));
    let mut parser = TestParser { scanner };
    parser.parse()
}

#[test]
fn test_parser_test_nand2tetris_solution_and() {
    parse(AND_TST, "nand2tetris/solutions/And.tst").expect("Parse failure");
}

#[test]
fn test_parser_test_nand2tetris_solution_not16() {
    parse(NOT16_TST, "nand2tetris/solutions/Not16.tst").expect("Parse failure");
}

#[test]
fn and_script_parses_to_its_parts() {
    let script = parse(AND_TST, "And.tst").expect("Parse failure");
    assert_eq!(script.path, Some(String::from("And.tst")));
    assert_eq!(script.hdl_file, "And.hdl");
    assert_eq!(script.output_file, "And.out");
    assert_eq!(script.compare_file, "And.cmp");
    assert!(script.generics.is_empty());
    assert_eq!(script.output_list.len(), 3);
    let out = &script.output_list[2];
    assert_eq!(out.port_name, "out");
    assert!(out.number_system == NumberSystem::Binary);
    assert_eq!((out.space_before, out.output_columns, out.space_after), (3, 1, 3));
    assert_eq!(script.steps.len(), 4);
    let step = &script.steps[1];
    assert_eq!(step.instructions.len(), 4);
    match &step.instructions[1] {
        Instruction::SetPort(port, value) => {
            assert_eq!(port, "b");
            assert!(value.number_system == NumberSystem::Decimal);
            assert_eq!(value.value, "1");
        }
        _ => panic!("expected a set instruction"),
    }
    assert!(matches!(step.instructions[2], Instruction::Eval));
    assert!(matches!(step.instructions[3], Instruction::Output));
}

#[test]
fn binary_set_values_keep_their_digits() {
    let script = parse(NOT16_TST, "Not16.tst").expect("Parse failure");
    assert_eq!(script.steps.len(), 5);
    match &script.steps[2].instructions[0] {
        Instruction::SetPort(port, value) => {
            assert_eq!(port, "in");
            assert!(value.number_system == NumberSystem::Binary);
            assert_eq!(value.value, "1010101010101010");
        }
        _ => panic!("expected a set instruction"),
    }
    assert_eq!(script.output_list[0].output_columns, 16);
}

#[test]
fn generics_follow_load() {
    let script = parse(REGISTER_TST, "Register.tst").expect("Parse failure");
    assert_eq!(script.generics, vec![8]);
    assert_eq!(script.hdl_file, "Register.hdl");
    assert!(script.output_list[0].number_system == NumberSystem::String);
    assert!(script.output_list[1].number_system == NumberSystem::Decimal);
    assert_eq!(script.output_list[2].space_before, 2);
    assert_eq!(script.steps.len(), 2);
    assert!(matches!(script.steps[0].instructions[2], Instruction::Tick));
    assert!(matches!(script.steps[1].instructions[0], Instruction::Tock));
}

#[test]
fn several_generics() {
    let script = parse("load<4, 16> RAM.hdl, output-file RAM.out, compare-to RAM.cmp, output-list out%X1.4.1;", "RAM.tst")
        .expect("Parse failure");
    assert_eq!(script.generics, vec![4, 16]);
    assert!(script.output_list[0].number_system == NumberSystem::Hex);
    assert!(script.steps.is_empty());
}

#[test]
fn missing_comma_is_reported_with_its_token() {
    let err = parse("load And.hdl output-file And.out,", "And.tst").err().expect("expected an error");
    assert_eq!(err.msg, "Expected token type Comma, found OutputFile (output-file)");
    match err.kind {
        ErrorKind::TestParseError(t) => {
            assert_eq!(t.token_type, TokenType::OutputFile);
            assert_eq!(t.lexeme, "output-file");
            assert_eq!(t.line, 1);
            assert_eq!(t.path, "And.tst");
        }
        _ => panic!("expected a test parse error"),
    }
}

#[test]
fn early_end_is_reported_with_an_eof_token() {
    let err = parse("load And.hdl,\n", "And.tst").err().expect("expected an error");
    assert_eq!(err.msg, "Early end of file expected OutputFile");
    match err.kind {
        ErrorKind::TestParseError(t) => {
            assert_eq!(t.token_type, TokenType::Eof);
            assert_eq!(t.lexeme, "");
            assert_eq!(t.line, 2);
        }
        _ => panic!("expected a test parse error"),
    }
}

#[test]
fn step_without_semicolon_is_an_error() {
    let err = parse(
        "load And.hdl, output-file And.out, compare-to And.cmp, output-list a%B1.1.1; eval output;",
        "And.tst",
    )
    .err()
    .expect("expected an error");
    assert_eq!(err.msg, "Expected token type Semicolon, found Output (output)");
}

#[test]
fn bad_dot_in_output_list_is_an_error() {
    let err = parse(
        "load And.hdl, output-file And.out, compare-to And.cmp, output-list a%B1,1.1;",
        "And.tst",
    )
    .err()
    .expect("expected an error");
    assert_eq!(err.msg, "Expected token type Dot, found Comma (,)");
}

#[test]
fn identifier_from_token() {
    let mut scanner = TestScanner::new("\n  chip", String::from("x.tst"));
    let t = scanner.scan_token().unwrap();
    let id = Identifier::from(t);
    assert_eq!(id.value, "chip");
    assert_eq!(id.path, "x.tst");
    assert_eq!(id.line, 2);
}
