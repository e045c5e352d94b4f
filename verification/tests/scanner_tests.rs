use whidl::scanner::{Scanner, TokenType};
use whidl::test_scanner::{TestScanner, TokenType as TestTokenType};

fn hdl_types(source: &str) -> Vec<TokenType> {
    let mut scanner = Scanner::new(source, String::from(""));
    let mut types = Vec::new();
    while let Some(t) = scanner.scan_token() {
        types.push(t.token_type);
    }
    types
}

fn tst_types(source: &str) -> Vec<TestTokenType> {
    let mut scanner = TestScanner::new(source, String::from(""));
    let mut types = Vec::new();
    while let Some(t) = scanner.scan_token() {
        types.push(t.token_type);
    }
    types
}

const AND_SOURCE: &str = "// This file is part of www.nand2tetris.org
// and the book \"The Elements of Computing Systems\"
// by Nisan and Schocken, MIT Press.
// File name: projects/01/And.hdl

/**
 * And gate: 
 * out = 1 if (a == 1 and b == 1)
 *       0 otherwise
 */

CHIP And {
    IN a, b;
    OUT out;

    PARTS:
    // Put your code here:
}
";

const AND16_SOURCE: &str = "// This file is part of www.nand2tetris.org
// File name: projects/01/And16.hdl

/**
 * 16-bit bitwise And:
 * for i = 0..15: out[i] = (a[i] and b[i])
 */

CHIP And16 {
    IN a[16], b[16];
    OUT out[16];

    PARTS:
    // Put your code here:
}
";

const DMUX_SOURCE: &str = "// File name: projects/01/DMux.hdl

/**
 * Demultiplexor:
 * {a, b} = {in, 0} if sel == 0
 *          {0, in} if sel == 1
 */

CHIP DMux {
    IN in, sel;
    OUT a, b;

    PARTS:
    // Put your code here:
}
";

const MUX_SOLUTION: &str = "/**
 * Multiplexor:
 * out = a if sel == 0
 *       b otherwise
 */

CHIP Mux {
    IN a, b, sel;
    OUT out;

    PARTS:
    Not(in=sel, out=nsel);
    And(a=a, b=nsel, out=w1);
    And(a=b, b=sel, out=w2);
    Or(a=w1, b=w2, out=out);
}
";

const AND_TST: &str = "// File name: projects/01/And.tst

load And.hdl,
output-file And.out,
compare-to And.cmp,
output-list a%B3.1.3 b%B3.1.3 out%B3.1.3;

set a 0,
set b 0,
eval,
output;

set a 0,
set b 1,
eval,
output;

set a 1,
set b 0,
eval,
output;

set a 1,
set b 1,
eval,
output;
";

#[test]
fn test_nand2tetris_original_and_tokens() {
    let expected_types = vec![
        TokenType::Chip,
        TokenType::Identifier,
        TokenType::LeftCurly,
        TokenType::In,
        TokenType::Identifier,
        TokenType::Comma,
        TokenType::Identifier,
        TokenType::Semicolon,
        TokenType::Out,
        TokenType::Identifier,
        TokenType::Semicolon,
        TokenType::Parts,
        TokenType::Colon,
        TokenType::RightCurly,
    ];
    assert_eq!(expected_types, hdl_types(AND_SOURCE));
}

#[test]
fn test_nand2tetris_original_and16_tokens() {
    let expected_types = vec![
        TokenType::Chip,
        TokenType::Identifier,
        TokenType::LeftCurly,
        TokenType::In,
        TokenType::Identifier,
        TokenType::LeftBracket,
        TokenType::Number,
        TokenType::RightBracket,
        TokenType::Comma,
        TokenType::Identifier,
        TokenType::LeftBracket,
        TokenType::Number,
        TokenType::RightBracket,
        TokenType::Semicolon,
        TokenType::Out,
        TokenType::Identifier,
        TokenType::LeftBracket,
        TokenType::Number,
        TokenType::RightBracket,
        TokenType::Semicolon,
        TokenType::Parts,
        TokenType::Colon,
        TokenType::RightCurly,
    ];
    assert_eq!(expected_types, hdl_types(AND16_SOURCE));
}

#[test]
fn test_nand2tetris_original_dmux() {
    let expected_types = vec![
        TokenType::Chip,
        TokenType::Identifier,
        TokenType::LeftCurly,
        TokenType::In,
        TokenType::Identifier,
        TokenType::Comma,
        TokenType::Identifier,
        TokenType::Semicolon,
        TokenType::Out,
        TokenType::Identifier,
        TokenType::Comma,
        TokenType::Identifier,
        TokenType::Semicolon,
        TokenType::Parts,
        TokenType::Colon,
        TokenType::RightCurly,
    ];
    assert_eq!(expected_types, hdl_types(DMUX_SOURCE));
}

#[test]
fn test_nand2tetris_solutions_mux() {
    let mut expected_types = vec![
        TokenType::Chip,
        TokenType::Identifier,
        TokenType::LeftCurly,
        TokenType::In,
        TokenType::Identifier,
        TokenType::Comma,
        TokenType::Identifier,
        TokenType::Comma,
        TokenType::Identifier,
        TokenType::Semicolon,
        TokenType::Out,
        TokenType::Identifier,
        TokenType::Semicolon,
        TokenType::Parts,
        TokenType::Colon,
        TokenType::Identifier,
        TokenType::LeftParen,
        TokenType::Identifier,
        TokenType::Equal,
        TokenType::Identifier,
        TokenType::Comma,
        TokenType::Identifier,
        TokenType::Equal,
        TokenType::Identifier,
        TokenType::RightParen,
        TokenType::Semicolon,
    ];
    for _ in 0..3 {
        expected_types.extend(vec![
            TokenType::Identifier,
            TokenType::LeftParen,
            TokenType::Identifier,
            TokenType::Equal,
            TokenType::Identifier,
            TokenType::Comma,
            TokenType::Identifier,
            TokenType::Equal,
            TokenType::Identifier,
            TokenType::Comma,
            TokenType::Identifier,
            TokenType::Equal,
            TokenType::Identifier,
            TokenType::RightParen,
            TokenType::Semicolon,
        ]);
    }
    expected_types.push(TokenType::RightCurly);
    assert_eq!(expected_types, hdl_types(MUX_SOLUTION));
}

#[test]
fn test_nand2tetris_solutions_and_tokens() {
    let mut expected_types = vec![
        TestTokenType::Identifier,
        TestTokenType::Identifier,
        TestTokenType::Comma,
        TestTokenType::OutputFile,
        TestTokenType::Identifier,
        TestTokenType::Comma,
        TestTokenType::CompareTo,
        TestTokenType::Identifier,
        TestTokenType::Comma,
        TestTokenType::OutputList,
    ];
    for _ in 0..3 {
        expected_types.extend(vec![
            TestTokenType::Identifier,
            TestTokenType::BinaryFormatSpecifier,
            TestTokenType::Number,
            TestTokenType::Dot,
            TestTokenType::Number,
            TestTokenType::Dot,
            TestTokenType::Number,
        ]);
    }
    expected_types.push(TestTokenType::Semicolon);
    for _ in 0..4 {
        expected_types.extend(vec![
            TestTokenType::SetCommand,
            TestTokenType::Identifier,
            TestTokenType::Number,
            TestTokenType::Comma,
            TestTokenType::SetCommand,
            TestTokenType::Identifier,
            TestTokenType::Number,
            TestTokenType::Comma,
            TestTokenType::Eval,
            TestTokenType::Comma,
            TestTokenType::Output,
            TestTokenType::Semicolon,
        ]);
    }
    assert_eq!(expected_types, tst_types(AND_TST));
}

#[test]
fn hdl_tokens_carry_lexeme_and_line() {
    let mut scanner = Scanner::new("CHIP Foo {\n  IN a[16];\n}", String::from("Foo.hdl"));
    let chip = scanner.scan_token().unwrap();
    assert_eq!(chip.token_type, TokenType::Chip);
    assert_eq!(chip.lexeme, "CHIP");
    assert_eq!(chip.line, 1);
    let name = scanner.scan_token().unwrap();
    assert_eq!(name.lexeme, "Foo");
    assert_eq!(name.path, "Foo.hdl");
    scanner.scan_token();
    let input = scanner.scan_token().unwrap();
    assert_eq!(input.token_type, TokenType::In);
    assert_eq!(input.line, 2);
    scanner.scan_token();
    scanner.scan_token();
    let width = scanner.scan_token().unwrap();
    assert_eq!(width.token_type, TokenType::Number);
    assert_eq!(width.lexeme, "16");
}

#[test]
fn hdl_peek_then_scan_yields_the_same_token() {
    let mut scanner = Scanner::new("IN x;", String::from(""));
    let peeked = scanner.peek().unwrap();
    let scanned = scanner.scan_token().unwrap();
    assert_eq!(peeked.token_type, scanned.token_type);
    assert_eq!(peeked.lexeme, scanned.lexeme);
    assert_eq!(scanner.scan_token().unwrap().lexeme, "x");
}

#[test]
fn tst_tokens_carry_lexeme_and_line() {
    let mut scanner = TestScanner::new("set in %B0101,\n/* c\n */ tick;", String::from("T.tst"));
    let set = scanner.scan_token().unwrap();
    assert_eq!(set.token_type, TestTokenType::SetCommand);
    assert_eq!(set.lexeme, "set");
    scanner.scan_token();
    let format = scanner.scan_token().unwrap();
    assert_eq!(format.token_type, TestTokenType::BinaryFormatSpecifier);
    assert_eq!(format.lexeme, "%B");
    let number = scanner.scan_token().unwrap();
    assert_eq!(number.lexeme, "0101");
    scanner.scan_token();
    let tick = scanner.scan_token().unwrap();
    assert_eq!(tick.token_type, TestTokenType::Tick);
    assert_eq!(tick.line, 3);
    assert_eq!(tick.path, "T.tst");
}

#[test]
fn tst_end_of_text_yields_none() {
    let mut scanner = TestScanner::new("  // only a comment\n", String::from(""));
    assert!(scanner.scan_token().is_none());
    assert!(scanner.peek().is_none());
}

#[test]
fn hdl_keywords_are_upper_case_words() {
    assert_eq!(
        hdl_types("chip In in OUT out"),
        vec![
            TokenType::Identifier,
            TokenType::Identifier,
            TokenType::Identifier,
            TokenType::Out,
            TokenType::Identifier,
        ]
    );
}

#[test]
fn hdl_tokens_give_every_lexeme_on_its_line() {
    let mut scanner = Scanner::new("CHIP A {\n  IN a;\n}", String::from("A.hdl"));
    let toks = scanner.tokens();
    let lexemes: Vec<String> = toks.iter().map(|t| t.lexeme.clone()).collect();
    let lines: Vec<u32> = toks.iter().map(|t| t.line).collect();
    assert_eq!(lexemes, vec!["CHIP", "A", "{", "IN", "a", ";", "}"]);
    assert_eq!(lines, vec![1, 1, 1, 2, 2, 2, 3]);
    assert!(toks.iter().all(|t| t.path == "A.hdl"));
    assert_eq!(lexemes.concat(), "CHIPA{INa;}");
}

#[test]
fn hdl_tokens_start_with_the_peeked_token() {
    let mut scanner = Scanner::new("IN x", String::from(""));
    let p = scanner.peek().unwrap();
    assert_eq!(p.lexeme, "IN");
    let toks = scanner.tokens();
    let lexemes: Vec<String> = toks.iter().map(|t| t.lexeme.clone()).collect();
    assert_eq!(lexemes, vec!["IN", "x"]);
}

#[test]
fn hdl_peek_twice_yields_the_same() {
    let mut scanner = Scanner::new("OUT y", String::from(""));
    let a = scanner.peek().unwrap();
    let b = scanner.peek().unwrap();
    assert_eq!(a.lexeme, b.lexeme);
    assert_eq!(a.token_type, b.token_type);
    let mut at_end = Scanner::new("  // only a comment", String::from(""));
    assert!(at_end.peek().is_none());
    assert!(at_end.peek().is_none());
}

#[test]
fn tst_unreadable_text_is_an_error() {
    let mut scanner = TestScanner::new("set a %B1,\n  # here", String::from(""));
    let mut lexemes = Vec::new();
    loop {
        match scanner.try_scan_token() {
            Ok(Some(t)) => lexemes.push(t.lexeme),
            Ok(None) => panic!("the text should not scan to its end"),
            Err(e) => {
                assert_eq!(e.msg, "Cannot read the test script on line 1");
                break;
            }
        }
    }
    assert_eq!(lexemes, vec!["set", "a", "%B", "1", ","]);
    let mut bad_format = TestScanner::new("%Q", String::from(""));
    assert!(bad_format.try_scan_token().is_err());
    let mut open_comment = TestScanner::new("/* never closed", String::from(""));
    assert!(open_comment.try_scan_token().is_err());
    let mut fine = TestScanner::new("tick;", String::from(""));
    assert_eq!(fine.try_scan_token().unwrap().unwrap().lexeme, "tick");
}
