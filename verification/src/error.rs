//! Errors of the library.
use crate::fmt::{decimal, push_char, push_decimal, push_str};
use crate::parser::{Identifier, clone_opt_string};
use vstd::prelude::*;

verus! {

/// What went wrong, with the token or identifier that locates it where there is one.
#[derive(Debug)]
pub enum ErrorKind {
    ParseError(crate::scanner::Token),
    ParseIdentError(Identifier),
    TestParseError(crate::test_scanner::Token),
    SimulationError(Option<String>),
    IOError,
    Other,
    NonNumeric,
}

/// An error that has no other source error. This is the start of the error
/// propagation chain.
#[derive(Debug)]
pub struct N2VError {
    pub msg: String,
    pub kind: ErrorKind,
}

/// An error whose source is another error: it propagates that error with a
/// new message. The source is kept as its rendered text.
#[derive(Debug)]
pub struct TransformedError {
    pub msg: String,
    pub kind: ErrorKind,
    pub source: Option<String>,
}

impl N2VError {
    /// An error of kind `Other` with message `msg`.
    pub fn from(msg: String) -> (r: N2VError)
        ensures
            r.msg == msg,
            r.kind is Other,
    {
        N2VError { msg, kind: ErrorKind::Other }
    }
}

impl ErrorKind {
    /// A copy of the kind.
    pub fn copy(&self) -> (r: ErrorKind)
        ensures
            r == *self,
    {
        match self {
            ErrorKind::ParseError(t) => ErrorKind::ParseError(t.clone()),
            ErrorKind::ParseIdentError(i) => ErrorKind::ParseIdentError(i.clone()),
            ErrorKind::TestParseError(t) => ErrorKind::TestParseError(t.clone()),
            ErrorKind::SimulationError(p) => ErrorKind::SimulationError(clone_opt_string(p)),
            ErrorKind::IOError => ErrorKind::IOError,
            ErrorKind::Other => ErrorKind::Other,
            ErrorKind::NonNumeric => ErrorKind::NonNumeric,
        }
    }
}

impl N2VError {
    /// The error that a transformed error propagates, without its source.
    pub fn from_transformed(e: &TransformedError) -> (r: N2VError)
        ensures
            r.msg == e.msg,
            r.kind == e.kind,
    {
        N2VError { msg: e.msg.clone(), kind: e.kind.copy() }
    }

    /// The report of an error that locates nothing: its message on a line.
    pub fn plain_report(&self) -> (r: String)
        ensures
            r@ == self.msg@ + "\n"@,
    {
        let mut s = String::new();
        push_str(&mut s, self.msg.as_str());
        push_str(&mut s, "\n");
        s
    }
}

/// What could be read of the source line that a token points at.
pub enum SourceLine {
    /// The file could not be opened; the text shows which file.
    Unreadable(String),
    /// The file has fewer lines.
    Missing,
    Line(String),
}

/// What could be read of the source line that an identifier points at.
pub enum IdentSource {
    /// The identifier's path names no file.
    NoFileName,
    /// The chip's source could not be had; the text says why.
    Unreadable(String),
    Line(String),
}

/// `n` copies of `c`.
pub open spec fn repeated(c: char, n: nat) -> Seq<char> {
    Seq::new(n, |i: int| c)
}

/// The number of bytes of the UTF-8 encoding of `s`.
pub open spec fn byte_len(s: Seq<char>) -> nat {
    vstd::utf8::encode_utf8(s).len()
}

/// The first line of a report that shows a source line.
pub open spec fn report_header(path: Seq<char>) -> Seq<char> {
    "-- PARSE ERROR ----------- "@ + path + "\n"@
}

/// The report of a parse error at token `t` with message `msg`: the source
/// line with the token underlined by carets, where the line can be read.
pub open spec fn token_report(t: crate::scanner::Token, msg: Seq<char>, source: SourceLine) -> Seq<char> {
    match source {
        SourceLine::Unreadable(why) => "In : "@ + why@ + "\n"@ + msg + "\n"@,
        SourceLine::Missing => report_header(t.path@) + decimal(t.line as nat) + "|\n"@ + "\n\n"@ + msg + "\n"@,
        SourceLine::Line(l) => report_header(t.path@) + decimal(t.line as nat) + "| "@ + l@ + "\n"@ + repeated(
            ' ',
            (t.start + decimal(t.line as nat).len() + 2 - byte_len(t.lexeme@)) as nat,
        ) + repeated('^', byte_len(t.lexeme@)) + "\n\n"@ + msg + "\n"@,
    }
}

/// The report of an error at identifier `ident` with message `msg`: the
/// source line, where the identifier has a path and a line.
pub open spec fn ident_report(ident: Identifier, msg: Seq<char>, source: IdentSource) -> Seq<char> {
    if ident.path is None || ident.line is None {
        msg + "\n"@
    } else {
        match source {
            IdentSource::NoFileName => "Bad filename: "@ + msg + "\n"@,
            IdentSource::Unreadable(why) => why@ + "\n"@ + msg + "\n"@,
            IdentSource::Line(l) => report_header(ident.path.unwrap()@) + decimal(ident.line.unwrap() as nat) + "| "@ + l@
                + "\n"@ + "\n\n"@ + msg + "\n"@,
        }
    }
}

/// Appends `n` copies of `c`.
fn push_repeated(s: &mut String, c: char, n: usize)
    ensures
        final(s)@ == old(s)@ + repeated(c, n as nat),
{
    let mut i: usize = 0;
    while i < n
        invariant
            i <= n,
            s@ == old(s)@ + repeated(c, i as nat),
        decreases n - i,
    {
        push_char(s, c);
        assert(s@ =~= old(s)@ + repeated(c, (i + 1) as nat));
        i = i + 1;
    }
}

impl crate::scanner::Token {
    /// The report of a parse error at this token with message `msg`, given
    /// what could be read of its source line.
    pub fn error_report(&self, msg: &str, source: &SourceLine) -> (r: String)
        requires
            !(source is Unreadable) ==> self.line >= 1,
            byte_len(self.lexeme@) <= usize::MAX,
            self.start + decimal(self.line as nat).len() + 2 <= usize::MAX,
            source is Line ==> self.start + decimal(self.line as nat).len() + 2 >= byte_len(self.lexeme@),
        ensures
            r@ == token_report(*self, msg@, *source),
    {
        let mut s = String::new();
        match source {
            SourceLine::Unreadable(why) => {
                push_str(&mut s, "In : ");
                push_str(&mut s, why.as_str());
                push_str(&mut s, "\n");
            },
            SourceLine::Missing => {
                push_str(&mut s, "-- PARSE ERROR ----------- ");
                push_str(&mut s, self.path.as_str());
                push_str(&mut s, "\n");
                push_decimal(&mut s, self.line as usize);
                push_str(&mut s, "|\n");
                push_str(&mut s, "\n\n");
            },
            SourceLine::Line(l) => {
                push_str(&mut s, "-- PARSE ERROR ----------- ");
                push_str(&mut s, self.path.as_str());
                push_str(&mut s, "\n");
                let mut digits = String::new();
                push_decimal(&mut digits, self.line as usize);
                push_str(&mut s, digits.as_str());
                push_str(&mut s, "| ");
                push_str(&mut s, l.as_str());
                push_str(&mut s, "\n");
                let lexeme_len = self.lexeme.as_str().len();
                let digits_len = digits.as_str().unicode_len();
                push_repeated(&mut s, ' ', self.start + digits_len + 2 - lexeme_len);
                push_repeated(&mut s, '^', lexeme_len);
                push_str(&mut s, "\n\n");
            },
        }
        push_str(&mut s, msg);
        push_str(&mut s, "\n");
        s
    }
}

impl Identifier {
    /// The report of an error at this identifier with message `msg`, given
    /// what could be read of its source line.
    pub fn error_report(&self, msg: &str, source: &IdentSource) -> (r: String)
        ensures
            r@ == ident_report(*self, msg@, *source),
    {
        let mut s = String::new();
        match (&self.path, &self.line) {
            (Some(path), Some(line)) => match source {
                IdentSource::NoFileName => {
                    push_str(&mut s, "Bad filename: ");
                },
                IdentSource::Unreadable(why) => {
                    push_str(&mut s, why.as_str());
                    push_str(&mut s, "\n");
                },
                IdentSource::Line(l) => {
                    push_str(&mut s, "-- PARSE ERROR ----------- ");
                    push_str(&mut s, path.as_str());
                    push_str(&mut s, "\n");
                    push_decimal(&mut s, *line as usize);
                    push_str(&mut s, "| ");
                    push_str(&mut s, l.as_str());
                    push_str(&mut s, "\n");
                    push_str(&mut s, "\n\n");
                },
            },
            _ => {},
        }
        push_str(&mut s, msg);
        push_str(&mut s, "\n");
        s
    }
}

} // verus!
