use whidl::error::{ErrorKind, IdentSource, N2VError, SourceLine, TransformedError};
use whidl::parser::Identifier;
use whidl::scanner::{Token, TokenType};

fn token(lexeme: &str, line: u32, start: usize) -> Token {
    Token { token_type: TokenType::Identifier, lexeme: String::from(lexeme), line, start, path: String::from("Not.hdl") }
}

#[test]
fn plain_errors_report_their_message() {
    let e = N2VError { msg: String::from("Test failed."), kind: ErrorKind::Other };
    assert_eq!(e.plain_report(), "Test failed.\n");
}

#[test]
fn parse_error_underlines_its_token() {
    let t = token("foo", 3, 5);
    let r = t.error_report("Unexpected token.", &SourceLine::Line(String::from("  a foo b")));
    assert_eq!(r, "-- PARSE ERROR ----------- Not.hdl\n3|   a foo b\n     ^^^\n\nUnexpected token.\n");
}

#[test]
fn parse_error_without_its_line() {
    let t = token("foo", 12, 5);
    assert_eq!(
        t.error_report("Bad.", &SourceLine::Missing),
        "-- PARSE ERROR ----------- Not.hdl\n12|\n\n\nBad.\n"
    );
    assert_eq!(t.error_report("Bad.", &SourceLine::Unreadable(String::from("\"Not.hdl\""))), "In : \"Not.hdl\"\nBad.\n");
}

#[test]
fn identifier_error_shows_its_line() {
    let located = Identifier { value: String::from("w"), path: Some(String::from("And.hdl")), line: Some(7) };
    assert_eq!(
        located.error_report("No source.", &IdentSource::Line(String::from("Nand(a=a, out=w);"))),
        "-- PARSE ERROR ----------- And.hdl\n7| Nand(a=a, out=w);\n\n\nNo source.\n"
    );
    assert_eq!(located.error_report("No source.", &IdentSource::NoFileName), "Bad filename: No source.\n");
    assert_eq!(located.error_report("No source.", &IdentSource::Unreadable(String::from("gone"))), "gone\nNo source.\n");
    let unlocated = Identifier::from("w");
    assert_eq!(unlocated.error_report("No source.", &IdentSource::NoFileName), "No source.\n");
}

#[test]
fn transformed_error_strips_its_source() {
    let t = TransformedError {
        msg: String::from("Unable to write quartus project"),
        kind: ErrorKind::IOError,
        source: Some(String::from("disk full")),
    };
    let e = N2VError::from_transformed(&t);
    assert_eq!(e.msg, "Unable to write quartus project");
    assert!(matches!(e.kind, ErrorKind::IOError));
    let k = ErrorKind::SimulationError(Some(String::from("x.hdl"))).copy();
    assert!(matches!(k, ErrorKind::SimulationError(Some(p)) if p == "x.hdl"));
}
