//! The scanner for nand2tetris test scripts (.tst files).
use crate::chars::{alphabetic, numeric, char_string, chars_of, is_alphabetic, is_alphanumeric, is_numeric};
use crate::error::{ErrorKind, N2VError};
use crate::fmt::{decimal, push_char, push_decimal, push_str};
use crate::keys::key_eq;
use vstd::prelude::*;

verus! {

/// Kinds of test-script tokens.
#[derive(Debug, PartialEq, Eq, Copy, Clone, Structural)]
pub enum TokenType {
    OutputFile,
    CompareTo,
    OutputList,
    SetCommand,
    Identifier,
    BinaryFormatSpecifier,
    DecimalFormatSpecifier,
    HexFormatSpecifier,
    StringFormatSpecifier,
    Number,
    Dot,
    Comma,
    Semicolon,
    Tick,
    Tock,
    Output,
    Eval,
    LeftAngle,
    RightAngle,
    Eof,
}

/// A token with its text and line.
#[derive(Debug)]
pub struct Token {
    pub token_type: TokenType,
    pub lexeme: String,
    pub line: u32,
    pub path: String,
}

impl Clone for Token {
    fn clone(&self) -> (r: Self)
        ensures
            r == *self,
    {
        Token { token_type: self.token_type, lexeme: self.lexeme.clone(), line: self.line, path: self.path.clone() }
    }
}

/// A scanned token: its type, text and line.
pub type TestToken = (TokenType, Seq<char>, int);

/// The token a scan yields, without the source path.
pub open spec fn test_token_view(t: Token) -> TestToken {
    (t.token_type, t.lexeme@, t.line as int)
}

/// The type of the one-character tokens.
pub open spec fn punct_type(c: char) -> Option<TokenType> {
    if c == ';' {
        Some(TokenType::Semicolon)
    } else if c == ',' {
        Some(TokenType::Comma)
    } else if c == '.' {
        Some(TokenType::Dot)
    } else if c == '<' {
        Some(TokenType::LeftAngle)
    } else if c == '>' {
        Some(TokenType::RightAngle)
    } else {
        None
    }
}

/// The type of a format specifier `%B`, `%D`, `%X` or `%S`.
pub open spec fn format_type(c: char) -> Option<TokenType> {
    if c == 'B' {
        Some(TokenType::BinaryFormatSpecifier)
    } else if c == 'D' {
        Some(TokenType::DecimalFormatSpecifier)
    } else if c == 'X' {
        Some(TokenType::HexFormatSpecifier)
    } else if c == 'S' {
        Some(TokenType::StringFormatSpecifier)
    } else {
        None
    }
}

/// The type of a word: its keyword, or `Identifier`.
pub open spec fn test_word_type(lexeme: Seq<char>) -> TokenType {
    if lexeme == "output-file"@ {
        TokenType::OutputFile
    } else if lexeme == "compare-to"@ {
        TokenType::CompareTo
    } else if lexeme == "output-list"@ {
        TokenType::OutputList
    } else if lexeme == "set"@ {
        TokenType::SetCommand
    } else if lexeme == "tick"@ {
        TokenType::Tick
    } else if lexeme == "tock"@ {
        TokenType::Tock
    } else if lexeme == "output"@ {
        TokenType::Output
    } else if lexeme == "eval"@ {
        TokenType::Eval
    } else {
        TokenType::Identifier
    }
}

/// Whether `c` may continue a word (letters, digits, `-` and `.`).
pub open spec fn word_char(c: char) -> bool {
    alphabetic(c) || numeric(c) || c == '-' || c == '.'
}

/// The end of the run of characters from `p` on that are digits (`number`) or
/// else word characters.
pub open spec fn test_run_end(src: Seq<char>, p: int, number: bool) -> int
    decreases src.len() - p,
{
    if p >= src.len() || p < 0 {
        p
    } else if (number && numeric(src[p])) || (!number && word_char(src[p])) {
        test_run_end(src, p + 1, number)
    } else {
        p
    }
}

/// Position and line after a line comment whose text starts at `p`.
pub open spec fn test_skip_line(src: Seq<char>, p: int, line: int) -> (int, int)
    decreases src.len() - p,
{
    if p >= src.len() || p < 0 {
        (p, line)
    } else if src[p] == '\n' {
        (p + 1, line + 1)
    } else {
        test_skip_line(src, p + 1, line)
    }
}

/// Position and line after a block comment whose text starts at `p`, just past
/// the next `*/`; `None` where the comment is not closed (the scanner panics).
pub open spec fn test_skip_block(src: Seq<char>, p: int, line: int) -> Option<(int, int)>
    decreases src.len() - p,
{
    if p >= src.len() || p < 0 {
        None
    } else if src[p] == '\n' {
        test_skip_block(src, p + 1, line + 1)
    } else if src[p] == '*' {
        if p + 1 >= src.len() {
            None
        } else if src[p + 1] == '/' {
            Some((p + 2, line))
        } else {
            test_skip_block(src, p + 1, line)
        }
    } else {
        test_skip_block(src, p + 1, line)
    }
}

/// The result of scanning from `pos` on `line`: `None` where the scanner
/// panics (an unknown character, a bad `%` or `/`, an unclosed comment);
/// else the next token, if any, and the position and line after it.
pub open spec fn test_scan_from(src: Seq<char>, pos: int, line: int) -> Option<(Option<TestToken>, int, int)>
    decreases src.len() - pos, 1int,
{
    if pos >= src.len() || pos < 0 {
        Some((None, pos, line))
    } else {
        let c = src[pos];
        let p1 = pos + 1;
        if punct_type(c) is Some {
            Some((Some((punct_type(c).unwrap(), seq![c], line)), p1, line))
        } else if c == '%' {
            if p1 >= src.len() || format_type(src[p1]) is None {
                None
            } else {
                Some((Some((format_type(src[p1]).unwrap(), seq!['%', src[p1]], line)), p1 + 1, line))
            }
        } else if c == '\n' {
            test_scan_from(src, p1, line + 1)
        } else if c == ' ' || c == '\t' || c == '\r' {
            test_scan_from(src, p1, line)
        } else if c == '/' {
            if p1 >= src.len() {
                None
            } else if src[p1] == '/' {
                let (p2, l2) = test_skip_line(src, p1, line);
                if p2 > pos && p2 <= src.len() {
                    test_scan_from(src, p2, l2)
                } else {
                    None
                }
            } else if src[p1] == '*' {
                match test_skip_block(src, p1, line) {
                    Some((p2, l2)) => if p2 > pos && p2 <= src.len() {
                        test_scan_from(src, p2, l2)
                    } else {
                        None
                    },
                    None => None,
                }
            } else {
                None
            }
        } else if alphabetic(c) {
            let e = test_run_end(src, p1, false);
            let lexeme = src.subrange(pos, e);
            Some((Some((test_word_type(lexeme), lexeme, line)), e, line))
        } else if numeric(c) || c == '-' {
            let e = test_run_end(src, p1, true);
            Some((Some((TokenType::Number, src.subrange(pos, e), line)), e, line))
        } else {
            None
        }
    }
}

/// A run of word or number characters from `p` ends between `p` and the end
/// of the source.
pub proof fn lemma_test_run_end_bounds(src: Seq<char>, p: int, number: bool)
    requires
        0 <= p <= src.len(),
    ensures
        p <= test_run_end(src, p, number) <= src.len(),
    decreases src.len() - p,
{
    if p < src.len() && ((number && numeric(src[p])) || (!number && word_char(src[p]))) {
        lemma_test_run_end_bounds(src, p + 1, number);
    }
}

/// A scan never moves backwards nor past the end of the source, and a scan
/// that yields a token moves forwards.
pub proof fn lemma_test_scan_progress(src: Seq<char>, pos: int, line: int)
    ensures
        match test_scan_from(src, pos, line) {
            Some((tok, p, l)) => {
                &&& (0 <= pos <= src.len() ==> pos <= p <= src.len())
                &&& (!(0 <= pos <= src.len()) ==> p == pos && tok is None)
                &&& (tok is Some ==> 0 <= pos < p <= src.len())
            },
            None => true,
        },
    decreases src.len() - pos,
{
    if 0 <= pos < src.len() {
        let c = src[pos];
        let p1 = pos + 1;
        if punct_type(c) is Some || c == '%' {
        } else if c == '\n' {
            lemma_test_scan_progress(src, p1, line + 1);
        } else if c == ' ' || c == '\t' || c == '\r' {
            lemma_test_scan_progress(src, p1, line);
        } else if c == '/' {
            if p1 < src.len() {
                if src[p1] == '/' {
                    let (p2, l2) = test_skip_line(src, p1, line);
                    if p2 > pos && p2 <= src.len() {
                        lemma_test_scan_progress(src, p2, l2);
                    }
                } else if src[p1] == '*' {
                    match test_skip_block(src, p1, line) {
                        Some((p2, l2)) => if p2 > pos && p2 <= src.len() {
                            lemma_test_scan_progress(src, p2, l2);
                        },
                        None => {},
                    }
                }
            }
        } else if alphabetic(c) {
            lemma_test_run_end_bounds(src, p1, false);
        } else if numeric(c) || c == '-' {
            lemma_test_run_end_bounds(src, p1, true);
        }
    }
}

/// Scans test-script text into tokens.
pub struct TestScanner {
    source: Vec<char>,
    pos: usize,
    pub line: u32,
    peeked: Option<Token>,
    pub path: String,
}

/// The message where the text of a test script cannot be scanned.
pub open spec fn unreadable_msg(line: nat) -> Seq<char> {
    "Cannot read the test script on line "@ + decimal(line)
}

impl TestScanner {
    /// The source characters.
    pub closed spec fn source(&self) -> Seq<char> {
        self.source@
    }

    /// The position of the next character to read.
    pub closed spec fn pos(&self) -> int {
        self.pos as int
    }

    /// The current line.
    pub closed spec fn cur_line(&self) -> u32 {
        self.line
    }

    /// The path given for the source.
    pub closed spec fn src_path(&self) -> String {
        self.path
    }

    /// The token scanned ahead by `peek`, if any.
    pub closed spec fn peeked(&self) -> Option<Token> {
        self.peeked
    }

    /// The counters fit their types for the rest of the source.
    pub closed spec fn wf(&self) -> bool {
        &&& self.pos <= self.source@.len()
        &&& self.source@.len() + 3 <= usize::MAX
        &&& self.line + (self.source@.len() - self.pos) <= u32::MAX
    }

    /// The current line.
    pub fn current_line(&self) -> (l: u32)
        ensures
            l == self.cur_line(),
    {
        self.line
    }

    /// A copy of the path given for the source.
    pub fn source_path(&self) -> (p: String)
        ensures
            p == self.src_path(),
    {
        self.path.clone()
    }

    /// A scanner at the start of `source_code`, on line 1.
    pub fn new(source_code: &str, source_path: String) -> (r: TestScanner)
        requires
            source_code@.len() + 3 <= u32::MAX,
        ensures
            r.wf(),
            r.source() == source_code@,
            r.pos() == 0,
            r.cur_line() == 1,
            r.peeked() is None,
            r.src_path() == source_path,
    {
        TestScanner { source: chars_of(source_code), pos: 0, line: 1, peeked: None, path: source_path }
    }

    /// Scans the next token and keeps it, so that the next scan yields it again.
    pub fn peek(&mut self) -> (r: Option<Token>)
        requires
            old(self).wf(),
            old(self).peeked() is None ==> test_scan_from(old(self).source(), old(self).pos(), old(self).cur_line() as int) is Some,
        ensures
            final(self).wf(),
            final(self).source() == old(self).source(),
            final(self).src_path() == old(self).src_path(),
            final(self).peeked() == r,
            match old(self).peeked() {
                Some(t) => r == Some(t) && final(self).pos() == old(self).pos() && final(self).cur_line() == old(self).cur_line(),
                None => {
                    let (tok, p, l) = test_scan_from(old(self).source(), old(self).pos(), old(self).cur_line() as int).unwrap();
                    &&& final(self).pos() == p
                    &&& final(self).cur_line() == l
                    &&& match tok {
                        None => r is None,
                        Some(st) => r is Some && test_token_view(r.unwrap()) == st && r.unwrap().path == old(self).src_path(),
                    }
                },
            },
    {
        let token = self.scan_token();
        match token {
            None => None,
            Some(t) => {
                self.peeked = Some(t.clone());
                Some(t)
            },
        }
    }

    fn make_token(&self, token_type: TokenType, lexeme: String) -> (t: Token)
        ensures
            t.token_type == token_type,
            t.lexeme == lexeme,
            t.line == self.line,
            t.path == self.path,
    {
        Token { token_type, lexeme, line: self.line, path: self.path.clone() }
    }

    /// Scans the next token as `scan_token` does, or gives `Err` where the
    /// text cannot be scanned (see `test_scan_from`).
    #[verifier::spinoff_prover]
    fn scan_checked(&mut self) -> (r: Result<Option<Token>, ()>)
        requires
            old(self).wf(),
        ensures
            final(self).wf(),
            final(self).source() == old(self).source(),
            final(self).src_path() == old(self).src_path(),
            final(self).peeked() is None,
            match old(self).peeked() {
                Some(t) => r == Ok::<Option<Token>, ()>(Some(t)) && final(self).pos() == old(self).pos() && final(self).cur_line() == old(self).cur_line(),
                None => match test_scan_from(old(self).source(), old(self).pos(), old(self).cur_line() as int) {
                    None => r is Err,
                    Some((tok, p, l)) => {
                        &&& r is Ok
                        &&& final(self).pos() == p
                        &&& final(self).cur_line() == l
                        &&& match tok {
                            None => r->Ok_0 is None,
                            Some(st) => r->Ok_0 is Some && test_token_view(r->Ok_0.unwrap()) == st && r->Ok_0.unwrap().path == old(self).src_path(),
                        }
                    },
                },
            },
    {
        if self.peeked.is_some() {
            let t = self.peeked.take();
            return Ok(t);
        }
        let ghost src = self.source@;
        let ghost target = test_scan_from(src, self.pos as int, self.line as int);
        while self.pos < self.source.len()
            invariant
                self.wf(),
                self.source@ == src,
                self.path == old(self).path,
                self.peeked is None,
                old(self).peeked is None,
                src == old(self).source@,
                target == test_scan_from(old(self).source@, old(self).pos as int, old(self).line as int),
                test_scan_from(src, self.pos as int, self.line as int) == target,
            decreases src.len() - self.pos,
        {
            let c = self.source[self.pos];
            let ghost ph = self.pos as int;
            let ghost lh = self.line as int;
            self.pos = self.pos + 1;
            let punct = if c == ';' {
                Some(TokenType::Semicolon)
            } else if c == ',' {
                Some(TokenType::Comma)
            } else if c == '.' {
                Some(TokenType::Dot)
            } else if c == '<' {
                Some(TokenType::LeftAngle)
            } else if c == '>' {
                Some(TokenType::RightAngle)
            } else {
                None
            };
            assert(punct == punct_type(c));
            assert(target == test_scan_from(src, ph, lh));
            if let Some(tt) = punct {
                return Ok(Some(self.make_token(tt, char_string(c))));
            } else if c == '%' {
                if self.pos >= self.source.len() {
                    return Err(());
                }
                let followup = self.source[self.pos];
                let token_type = if followup == 'B' {
                    TokenType::BinaryFormatSpecifier
                } else if followup == 'D' {
                    TokenType::DecimalFormatSpecifier
                } else if followup == 'X' {
                    TokenType::HexFormatSpecifier
                } else if followup == 'S' {
                    TokenType::StringFormatSpecifier
                } else {
                    return Err(());
                };
                self.pos = self.pos + 1;
                let mut lexeme = char_string('%');
                push_char(&mut lexeme, followup);
                assert(lexeme@ =~= seq!['%', followup]);
                return Ok(Some(self.make_token(token_type, lexeme)));
            } else if c == '\n' {
                self.line = self.line + 1;
            } else if c == ' ' || c == '\t' || c == '\r' {
            } else if c == '/' {
                if self.pos >= self.source.len() {
                    return Err(());
                }
                let followup = self.source[self.pos];
                if followup == '/' {
                    self.finish_single_comment();
                } else if followup == '*' {
                    if !self.block_closes() {
                        return Err(());
                    }
                    self.finish_multi_comment();
                } else {
                    return Err(());
                }
            } else if is_alphabetic(c) {
                return Ok(Some(self.finish_identifier(c)));
            } else if is_numeric(c) || c == '-' {
                return Ok(Some(self.finish_number(c)));
            } else {
                return Err(());
            }
        }
        Ok(None)
    }

    /// Whether the block comment whose text starts at the current position
    /// is closed by a `*/`.
    fn block_closes(&self) -> (r: bool)
        requires
            self.pos < self.source@.len(),
        ensures
            r == test_skip_block(self.source@, self.pos as int, self.line as int) is Some,
    {
        let ghost src = self.source@;
        let mut p: usize = self.pos;
        let ghost mut l: int = self.line as int;
        while p < self.source.len()
            invariant
                src == self.source@,
                self.pos <= p <= src.len(),
                (test_skip_block(src, p as int, l) is Some) == (test_skip_block(src, self.pos as int, self.line as int) is Some),
            decreases src.len() - p,
        {
            let c = self.source[p];
            if c == '*' {
                if p + 1 >= self.source.len() {
                    return false;
                }
                if self.source[p + 1] == '/' {
                    return true;
                }
            }
            proof {
                if c == '\n' {
                    l = l + 1;
                }
            }
            p = p + 1;
        }
        false
    }

    /// Scans the next token: the one kept by `peek`, if any, or else the next
    /// one in the source. `None` at the end of the source.
    pub fn scan_token(&mut self) -> (r: Option<Token>)
        requires
            old(self).wf(),
            old(self).peeked() is None ==> test_scan_from(old(self).source(), old(self).pos(), old(self).cur_line() as int) is Some,
        ensures
            final(self).wf(),
            final(self).source() == old(self).source(),
            final(self).src_path() == old(self).src_path(),
            final(self).peeked() is None,
            match old(self).peeked() {
                Some(t) => r == Some(t) && final(self).pos() == old(self).pos() && final(self).cur_line() == old(self).cur_line(),
                None => {
                    let (tok, p, l) = test_scan_from(old(self).source(), old(self).pos(), old(self).cur_line() as int).unwrap();
                    &&& final(self).pos() == p
                    &&& final(self).cur_line() == l
                    &&& match tok {
                        None => r is None,
                        Some(st) => r is Some && test_token_view(r.unwrap()) == st && r.unwrap().path == old(self).src_path(),
                    }
                },
            },
    {
        match self.scan_checked() {
            Ok(t) => t,
            Err(()) => None,
        }
    }

    /// Scans the next token as `scan_token` does, and where the text cannot be
    /// scanned (an unknown character, a `%` without a format letter, a `/`
    /// that starts no comment, a block comment never closed) gives an error
    /// in place of going on, naming the line the scan started on.
    pub fn try_scan_token(&mut self) -> (r: Result<Option<Token>, N2VError>)
        requires
            old(self).wf(),
        ensures
            final(self).wf(),
            final(self).source() == old(self).source(),
            final(self).peeked() is None,
            match old(self).peeked() {
                Some(t) => r matches Ok(x) && x == Some(t),
                None => match test_scan_from(old(self).source(), old(self).pos(), old(self).cur_line() as int) {
                    None => r matches Err(e) && e.msg@ == unreadable_msg(old(self).cur_line() as nat) && e.kind == ErrorKind::Other,
                    Some((tok, p, l)) => {
                        &&& r is Ok
                        &&& final(self).pos() == p
                        &&& final(self).cur_line() == l
                        &&& match tok {
                            None => r->Ok_0 is None,
                            Some(st) => r->Ok_0 is Some && test_token_view(r->Ok_0.unwrap()) == st,
                        }
                    },
                },
            },
    {
        let line = self.line;
        match self.scan_checked() {
            Ok(t) => Ok(t),
            Err(()) => {
                let mut msg = String::new();
                push_str(&mut msg, "Cannot read the test script on line ");
                push_decimal(&mut msg, line as usize);
                proof {
                    reveal_strlit("Cannot read the test script on line ");
                }
                Err(N2VError { msg, kind: ErrorKind::Other })
            },
        }
    }

    /// Skips the rest of a line comment, through its newline.
    fn finish_single_comment(&mut self)
        requires
            old(self).wf(),
            old(self).pos < old(self).source@.len(),
        ensures
            final(self).wf(),
            final(self).source@ == old(self).source@,
            final(self).path == old(self).path,
            final(self).peeked == old(self).peeked,
            (final(self).pos as int, final(self).line as int) == test_skip_line(old(self).source@, old(self).pos as int, old(self).line as int),
            final(self).pos > old(self).pos,
    {
        let ghost src = self.source@;
        let ghost target = test_skip_line(src, self.pos as int, self.line as int);
        let ghost p0 = self.pos;
        while self.pos < self.source.len()
            invariant
                self.wf(),
                self.source@ == src,
                self.path == old(self).path,
                self.peeked == old(self).peeked,
                src == old(self).source@,
                p0 == old(self).pos,
                target == test_skip_line(old(self).source@, old(self).pos as int, old(self).line as int),
                test_skip_line(src, self.pos as int, self.line as int) == target,
                self.pos >= p0,
                p0 < src.len(),
            decreases src.len() - self.pos,
        {
            let c = self.source[self.pos];
            self.pos = self.pos + 1;
            if c == '\n' {
                self.line = self.line + 1;
                return;
            }
        }
    }

    /// Skips the rest of a block comment, through its closing `*/`.
    fn finish_multi_comment(&mut self)
        requires
            old(self).wf(),
            old(self).pos < old(self).source@.len(),
            test_skip_block(old(self).source@, old(self).pos as int, old(self).line as int) is Some,
        ensures
            final(self).wf(),
            final(self).source@ == old(self).source@,
            final(self).path == old(self).path,
            final(self).peeked == old(self).peeked,
            Some((final(self).pos as int, final(self).line as int)) == test_skip_block(old(self).source@, old(self).pos as int, old(self).line as int),
            final(self).pos > old(self).pos,
    {
        let ghost src = self.source@;
        let ghost target = test_skip_block(src, self.pos as int, self.line as int);
        let ghost p0 = self.pos;
        loop
            invariant
                self.wf(),
                self.source@ == src,
                self.path == old(self).path,
                self.peeked == old(self).peeked,
                src == old(self).source@,
                p0 == old(self).pos,
                target == test_skip_block(old(self).source@, old(self).pos as int, old(self).line as int),
                target is Some,
                test_skip_block(src, self.pos as int, self.line as int) == target,
                self.pos >= p0,
                p0 < src.len(),
            decreases src.len() - self.pos,
        {
            let c = self.source[self.pos];
            self.pos = self.pos + 1;
            if c == '\n' {
                self.line = self.line + 1;
            } else if c == '*' {
                if self.source[self.pos] == '/' {
                    self.pos = self.pos + 1;
                    return;
                }
            }
        }
    }

    /// Reads the rest of a number whose first character is `start`.
    fn finish_number(&mut self, start: char) -> (t: Token)
        requires
            old(self).wf(),
            old(self).pos >= 1,
            old(self).source@[old(self).pos - 1] == start,
        ensures
            final(self).wf(),
            final(self).source@ == old(self).source@,
            final(self).path == old(self).path,
            final(self).peeked == old(self).peeked,
            final(self).line == old(self).line,
            final(self).pos == test_run_end(old(self).source@, old(self).pos as int, true),
            t.token_type == TokenType::Number,
            t.lexeme@ == old(self).source@.subrange(old(self).pos - 1, final(self).pos as int),
            t.line == old(self).line,
            t.path == old(self).path,
    {
        let mut lexeme = char_string(start);
        let ghost src = self.source@;
        let ghost p0 = self.pos;
        while self.pos < self.source.len() && is_numeric(self.source[self.pos])
            invariant
                self.wf(),
                self.source@ == src,
                self.path == old(self).path,
                self.peeked == old(self).peeked,
                self.line == old(self).line,
                src == old(self).source@,
                p0 == old(self).pos,
                p0 <= self.pos,
                p0 >= 1,
                test_run_end(src, self.pos as int, true) == test_run_end(src, p0 as int, true),
                lexeme@ == src.subrange(p0 - 1, self.pos as int),
            decreases src.len() - self.pos,
        {
            push_char(&mut lexeme, self.source[self.pos]);
            assert(lexeme@ =~= src.subrange(p0 - 1, self.pos + 1));
            self.pos = self.pos + 1;
        }
        self.make_token(TokenType::Number, lexeme)
    }

    /// Reads the rest of a word whose first character is `start`.
    fn finish_identifier(&mut self, start: char) -> (t: Token)
        requires
            old(self).wf(),
            old(self).pos >= 1,
            old(self).source@[old(self).pos - 1] == start,
        ensures
            final(self).wf(),
            final(self).source@ == old(self).source@,
            final(self).path == old(self).path,
            final(self).peeked == old(self).peeked,
            final(self).line == old(self).line,
            final(self).pos == test_run_end(old(self).source@, old(self).pos as int, false),
            t.token_type == test_word_type(t.lexeme@),
            t.lexeme@ == old(self).source@.subrange(old(self).pos - 1, final(self).pos as int),
            t.line == old(self).line,
            t.path == old(self).path,
    {
        let mut lexeme = char_string(start);
        let ghost src = self.source@;
        let ghost p0 = self.pos;
        while self.pos < self.source.len() && (is_alphanumeric(self.source[self.pos]) || self.source[self.pos] == '-'
            || self.source[self.pos] == '.')
            invariant
                self.wf(),
                self.source@ == src,
                self.path == old(self).path,
                self.peeked == old(self).peeked,
                self.line == old(self).line,
                src == old(self).source@,
                p0 == old(self).pos,
                p0 <= self.pos,
                p0 >= 1,
                test_run_end(src, self.pos as int, false) == test_run_end(src, p0 as int, false),
                lexeme@ == src.subrange(p0 - 1, self.pos as int),
            decreases src.len() - self.pos,
        {
            push_char(&mut lexeme, self.source[self.pos]);
            assert(lexeme@ =~= src.subrange(p0 - 1, self.pos + 1));
            self.pos = self.pos + 1;
        }
        let line = self.line;
        self.lexeme_to_identifier_or_keyword(lexeme, line)
    }

    /// A token for a word: a keyword where the word is one, else an identifier.
    fn lexeme_to_identifier_or_keyword(&self, lexeme: String, line: u32) -> (t: Token)
        ensures
            t.token_type == test_word_type(lexeme@),
            t.lexeme == lexeme,
            t.line == line,
            t.path == self.path,
    {
        let s = lexeme.as_str();
        let token_type = if key_eq(s, "output-file") {
            TokenType::OutputFile
        } else if key_eq(s, "compare-to") {
            TokenType::CompareTo
        } else if key_eq(s, "output-list") {
            TokenType::OutputList
        } else if key_eq(s, "set") {
            TokenType::SetCommand
        } else if key_eq(s, "tick") {
            TokenType::Tick
        } else if key_eq(s, "tock") {
            TokenType::Tock
        } else if key_eq(s, "output") {
            TokenType::Output
        } else if key_eq(s, "eval") {
            TokenType::Eval
        } else {
            TokenType::Identifier
        };
        Token { token_type, lexeme, line, path: self.path.clone() }
    }
}

} // verus!
