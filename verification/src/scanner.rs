//! The scanner for HDL chip files.
use crate::chars::{blank, alphabetic, numeric, char_string, chars_of, is_alphabetic, is_alphanumeric, is_numeric};
use crate::fmt::push_char;
use crate::keys::key_eq;
use vstd::prelude::*;

verus! {

/// Kinds of HDL tokens.
#[derive(Debug, PartialEq, Eq, Copy, Clone, Structural)]
pub enum TokenType {
    Chip,
    Identifier,
    LeftCurly,
    RightCurly,
    LeftBracket,
    RightBracket,
    LeftParen,
    RightParen,
    LeftAngle,
    RightAngle,
    Semicolon,
    Colon,
    In,
    Out,
    Comma,
    Parts,
    Number,
    Equal,
    Dot,
    Invalid,
    For,
    To,
    Generate,
    Plus,
    Minus,
    Eof,
}

/// A token with its text, line and column.
#[derive(Debug)]
pub struct Token {
    pub token_type: TokenType,
    pub lexeme: String,
    pub line: u32,
    pub start: usize,
    pub path: String,
}

impl Clone for Token {
    fn clone(&self) -> (r: Self)
        ensures
            r == *self,
    {
        Token {
            token_type: self.token_type,
            lexeme: self.lexeme.clone(),
            line: self.line,
            start: self.start,
            path: self.path.clone(),
        }
    }
}

/// A scanned token: its type, text, line and column.
pub type SpecToken = (TokenType, Seq<char>, int, int);

/// The token a scan yields, without the source path.
pub open spec fn token_view(t: Token) -> SpecToken {
    (t.token_type, t.lexeme@, t.line as int, t.start as int)
}

/// The type of the one-character tokens.
pub open spec fn single_char_type(c: char) -> Option<TokenType> {
    if c == '{' {
        Some(TokenType::LeftCurly)
    } else if c == '}' {
        Some(TokenType::RightCurly)
    } else if c == '(' {
        Some(TokenType::LeftParen)
    } else if c == ')' {
        Some(TokenType::RightParen)
    } else if c == ';' {
        Some(TokenType::Semicolon)
    } else if c == ':' {
        Some(TokenType::Colon)
    } else if c == ',' {
        Some(TokenType::Comma)
    } else if c == '[' {
        Some(TokenType::LeftBracket)
    } else if c == ']' {
        Some(TokenType::RightBracket)
    } else if c == '<' {
        Some(TokenType::LeftAngle)
    } else if c == '>' {
        Some(TokenType::RightAngle)
    } else if c == '=' {
        Some(TokenType::Equal)
    } else if c == '.' {
        Some(TokenType::Dot)
    } else if c == '+' {
        Some(TokenType::Plus)
    } else if c == '-' {
        Some(TokenType::Minus)
    } else {
        None
    }
}

/// The type of a word: its keyword, or `Identifier`. Keywords are matched
/// exactly as written, in upper case: `in` and `out`, the usual names of the
/// ports that a part's mappings connect (`Not(in=a, out=b)`), stay identifiers.
pub open spec fn word_type(lexeme: Seq<char>) -> TokenType {
    if lexeme == "CHIP"@ {
        TokenType::Chip
    } else if lexeme == "PARTS"@ {
        TokenType::Parts
    } else if lexeme == "IN"@ {
        TokenType::In
    } else if lexeme == "OUT"@ {
        TokenType::Out
    } else if lexeme == "FOR"@ {
        TokenType::For
    } else if lexeme == "TO"@ {
        TokenType::To
    } else if lexeme == "GENERATE"@ {
        TokenType::Generate
    } else {
        TokenType::Identifier
    }
}

/// Whether `c` may continue an identifier.
pub open spec fn ident_char(c: char) -> bool {
    alphabetic(c) || numeric(c) || c == '_'
}

/// The end of the run of characters from `p` on that satisfy `number`
/// (digits) or else `ident_char`.
pub open spec fn run_end(src: Seq<char>, p: int, number: bool) -> int
    decreases src.len() - p,
{
    if p >= src.len() || p < 0 {
        p
    } else if (number && numeric(src[p])) || (!number && ident_char(src[p])) {
        run_end(src, p + 1, number)
    } else {
        p
    }
}

/// Position, line and column after a line comment whose text starts at `p`:
/// just past the next newline, or the end of the source.
pub open spec fn skip_line(src: Seq<char>, p: int, line: int, col: int) -> (int, int, int)
    decreases src.len() - p,
{
    if p >= src.len() || p < 0 {
        (p, line, col)
    } else if src[p] == '\n' {
        (p + 1, line + 1, 0)
    } else {
        skip_line(src, p + 1, line, col)
    }
}

/// Position, line and column after a block comment whose text starts at `p`:
/// just past the next `*/`, after a final `*`, or at the end of the source.
/// Each character read counts one column, and so does reaching the end.
pub open spec fn skip_block(src: Seq<char>, p: int, line: int, col: int) -> (int, int, int)
    decreases src.len() - p,
{
    if p >= src.len() || p < 0 {
        (p, line, col + 1)
    } else if src[p] == '\n' {
        skip_block(src, p + 1, line + 1, 0)
    } else if src[p] == '*' {
        if p + 1 >= src.len() {
            (p + 1, line, col + 1)
        } else if src[p + 1] == '/' {
            (p + 2, line, col + 1)
        } else {
            skip_block(src, p + 1, line, col + 1)
        }
    } else {
        skip_block(src, p + 1, line, col + 1)
    }
}

/// The next token from position `pos` with the scanner at `line` and `col`,
/// and the position, line and column after it: whitespace and comments are
/// skipped, each character read moves one column, and a newline starts the
/// next line at column 0. A token's column is that of its last character.
pub open spec fn scan_from(src: Seq<char>, pos: int, line: int, col: int) -> (Option<SpecToken>, int, int, int)
    decreases src.len() - pos, 1int,
{
    if pos >= src.len() || pos < 0 {
        (None, pos, line, col)
    } else {
        let c = src[pos];
        let p1 = pos + 1;
        let col1 = col + 1;
        if single_char_type(c) is Some {
            (Some((single_char_type(c).unwrap(), seq![c], line, col1)), p1, line, col1)
        } else if c == '\n' {
            scan_from(src, p1, line + 1, 0)
        } else if c == ' ' || c == '\t' || c == '\r' {
            scan_from(src, p1, line, col1)
        } else if c == '/' {
            if p1 >= src.len() {
                (Some((TokenType::Invalid, seq![c], line, col1)), p1, line, col1)
            } else if src[p1] == '/' {
                let (p2, l2, c2) = skip_line(src, p1, line, col1);
                if p2 > pos && p2 <= src.len() {
                    scan_from(src, p2, l2, c2)
                } else {
                    (None, pos, line, col)
                }
            } else if src[p1] == '*' {
                let (p2, l2, c2) = skip_block(src, p1, line, col1);
                if p2 > pos && p2 <= src.len() {
                    scan_from(src, p2, l2, c2)
                } else {
                    (None, pos, line, col)
                }
            } else {
                (Some((TokenType::Invalid, seq![c], line, col1)), p1, line, col1)
            }
        } else if alphabetic(c) || c == '_' {
            let e = run_end(src, p1, false);
            let lexeme = src.subrange(pos, e);
            let col2 = col1 + (e - p1);
            (Some((word_type(lexeme), lexeme, line, col2)), e, line, col2)
        } else if numeric(c) {
            let e = run_end(src, p1, true);
            let col2 = col1 + (e - p1);
            (Some((TokenType::Number, src.subrange(pos, e), line, col2)), e, line, col2)
        } else {
            (Some((TokenType::Invalid, seq![c], line, col1)), p1, line, col1)
        }
    }
}


/// The number of newlines in `s`.
pub open spec fn newlines(s: Seq<char>) -> int
    decreases s.len(),
{
    if s.len() == 0 {
        0
    } else {
        newlines(s.drop_last()) + if s.last() == '\n' { 1int } else { 0int }
    }
}

/// The tokens of a whole scan from position `pos`, each with the position
/// just past it.
pub open spec fn scan_all(src: Seq<char>, pos: int, line: int, col: int) -> Seq<(SpecToken, int)>
    decreases src.len() - pos,
{
    if pos < 0 || pos >= src.len() {
        Seq::empty()
    } else {
        let (t, p2, l2, c2) = scan_from(src, pos, line, col);
        match t {
            None => Seq::empty(),
            Some(tok) => if pos < p2 <= src.len() {
                seq![(tok, p2)] + scan_all(src, p2, l2, c2)
            } else {
                Seq::empty()
            },
        }
    }
}

/// The lexemes of a sequence of tokens, one after another.
pub open spec fn lexemes(toks: Seq<(SpecToken, int)>) -> Seq<char>
    decreases toks.len(),
{
    if toks.len() == 0 {
        Seq::empty()
    } else {
        toks[0].0.1 + lexemes(toks.drop_first())
    }
}

/// `s` without its blanks.
pub open spec fn without_blanks(s: Seq<char>) -> Seq<char>
    decreases s.len(),
{
    if s.len() == 0 {
        Seq::empty()
    } else if blank(s[0]) {
        without_blanks(s.drop_first())
    } else {
        seq![s[0]] + without_blanks(s.drop_first())
    }
}

proof fn lemma_newlines_step(src: Seq<char>, p: int)
    requires
        0 <= p < src.len(),
    ensures
        newlines(src.take(p + 1)) == newlines(src.take(p)) + if src[p] == '\n' { 1int } else { 0int },
{
    assert(src.take(p + 1).drop_last() =~= src.take(p));
}

/// A run of characters that scans as one word or number ends within the
/// source, and holds only characters of its kind.
proof fn lemma_run_end(src: Seq<char>, p: int, number: bool)
    requires
        0 <= p <= src.len(),
    ensures
        p <= run_end(src, p, number) <= src.len(),
        forall|i: int| p <= i < run_end(src, p, number) ==> (number && numeric(#[trigger] src[i])) || (!number
            && ident_char(src[i])),
    decreases src.len() - p,
{
    if p < src.len() && ((number && numeric(src[p])) || (!number && ident_char(src[p]))) {
        lemma_run_end(src, p + 1, number);
    }
}

/// Characters none of which is a newline add no newlines.
proof fn lemma_newlines_none(src: Seq<char>, a: int, b: int)
    requires
        0 <= a <= b <= src.len(),
        forall|i: int| a <= i < b ==> src[i] != '\n',
    ensures
        newlines(src.take(b)) == newlines(src.take(a)),
    decreases b - a,
{
    if a < b {
        lemma_newlines_none(src, a, b - 1);
        lemma_newlines_step(src, b - 1);
    }
}

/// A line comment ends within the source, on the line after the newlines read.
proof fn lemma_skip_line_lines(src: Seq<char>, p: int, line: int, col: int)
    requires
        0 <= p <= src.len(),
        line == 1 + newlines(src.take(p)),
    ensures
        p <= skip_line(src, p, line, col).0 <= src.len(),
        skip_line(src, p, line, col).1 == 1 + newlines(src.take(skip_line(src, p, line, col).0)),
    decreases src.len() - p,
{
    if p < src.len() {
        lemma_newlines_step(src, p);
        if src[p] != '\n' {
            lemma_skip_line_lines(src, p + 1, line, col);
        }
    }
}

/// A block comment ends within the source, on the line after the newlines
/// read.
proof fn lemma_skip_block_lines(src: Seq<char>, p: int, line: int, col: int)
    requires
        0 <= p <= src.len(),
        line == 1 + newlines(src.take(p)),
    ensures
        p <= skip_block(src, p, line, col).0 <= src.len(),
        skip_block(src, p, line, col).1 == 1 + newlines(src.take(skip_block(src, p, line, col).0)),
    decreases src.len() - p,
{
    if p < src.len() {
        lemma_newlines_step(src, p);
        if src[p] == '\n' {
            lemma_skip_block_lines(src, p + 1, line + 1, 0);
        } else if src[p] == '*' {
            if p + 1 < src.len() {
                if src[p + 1] == '/' {
                    lemma_newlines_step(src, p + 1);
                } else {
                    lemma_skip_block_lines(src, p + 1, line, col + 1);
                }
            }
        } else {
            lemma_skip_block_lines(src, p + 1, line, col + 1);
        }
    }
}

/// One scan step keeps the line count right: a token lies just before the
/// position after it, on the line that the newlines before it give.
proof fn lemma_scan_step_lines(src: Seq<char>, pos: int, line: int, col: int)
    requires
        0 <= pos <= src.len(),
        line == 1 + newlines(src.take(pos)),
    ensures
        ({
            let (t, p2, l2, c2) = scan_from(src, pos, line, col);
            &&& pos <= p2 <= src.len()
            &&& l2 == 1 + newlines(src.take(p2))
            &&& t matches Some(tok) ==> {
                &&& p2 > pos
                &&& 1 <= tok.1.len() <= p2 - pos
                &&& tok.1 == src.subrange(p2 - tok.1.len(), p2)
                &&& tok.2 == 1 + newlines(src.take(p2 - tok.1.len()))
            }
        }),
    decreases src.len() - pos,
{
    if pos < src.len() {
        let c = src[pos];
        let p1 = pos + 1;
        lemma_newlines_step(src, pos);
        if single_char_type(c) is Some {
            assert(seq![c] =~= src.subrange(pos, p1));
        } else if c == '\n' {
            lemma_scan_step_lines(src, p1, line + 1, 0);
        } else if c == ' ' || c == '\t' || c == '\r' {
            lemma_scan_step_lines(src, p1, line, col + 1);
        } else if c == '/' {
            if p1 >= src.len() {
                assert(seq![c] =~= src.subrange(pos, p1));
            } else if src[p1] == '/' {
                lemma_skip_line_lines(src, p1, line, col + 1);
                let (p2, l2, c2) = skip_line(src, p1, line, col + 1);
                if p2 > pos && p2 <= src.len() {
                    lemma_scan_step_lines(src, p2, l2, c2);
                }
            } else if src[p1] == '*' {
                lemma_skip_block_lines(src, p1, line, col + 1);
                let (p2, l2, c2) = skip_block(src, p1, line, col + 1);
                if p2 > pos && p2 <= src.len() {
                    lemma_scan_step_lines(src, p2, l2, c2);
                }
            } else {
                assert(seq![c] =~= src.subrange(pos, p1));
            }
        } else if alphabetic(c) || c == '_' {
            lemma_run_end(src, p1, false);
            let e = run_end(src, p1, false);
            lemma_newlines_none(src, pos, e);
        } else if numeric(c) {
            lemma_run_end(src, p1, true);
            let e = run_end(src, p1, true);
            lemma_newlines_none(src, pos, e);
        } else {
            assert(seq![c] =~= src.subrange(pos, p1));
        }
    }
}

/// Every token of a scan from `pos` lies just before the position recorded
/// with it and is on the line that the newlines before it give.
proof fn lemma_scan_all_lines(src: Seq<char>, pos: int, line: int, col: int)
    requires
        0 <= pos <= src.len(),
        line == 1 + newlines(src.take(pos)),
    ensures
        forall|k: int| 0 <= k < scan_all(src, pos, line, col).len() ==> {
            let (tok, end) = #[trigger] scan_all(src, pos, line, col)[k];
            &&& pos <= end - tok.1.len()
            &&& end <= src.len()
            &&& tok.1 == src.subrange(end - tok.1.len(), end)
            &&& tok.2 == 1 + newlines(src.take(end - tok.1.len()))
        },
    decreases src.len() - pos,
{
    if pos < src.len() {
        lemma_scan_step_lines(src, pos, line, col);
        let (t, p2, l2, c2) = scan_from(src, pos, line, col);
        if let Some(tok) = t {
            if pos < p2 <= src.len() {
                lemma_scan_all_lines(src, p2, l2, c2);
                let rest = scan_all(src, p2, l2, c2);
                assert forall|k: int| 0 <= k < scan_all(src, pos, line, col).len() implies {
                    let (tk, end) = #[trigger] scan_all(src, pos, line, col)[k];
                    &&& pos <= end - tk.1.len()
                    &&& end <= src.len()
                    &&& tk.1 == src.subrange(end - tk.1.len(), end)
                    &&& tk.2 == 1 + newlines(src.take(end - tk.1.len()))
                } by {
                    if k > 0 {
                        assert(scan_all(src, pos, line, col)[k] == rest[k - 1]);
                    }
                }
            }
        }
    }
}

/// Line numbers of a whole scan: each token that a fresh scanner yields is
/// on line one plus the number of newlines before its first character
/// (newlines in comments count too).
pub proof fn lemma_token_lines(src: Seq<char>)
    requires
    ensures
        forall|k: int| 0 <= k < scan_all(src, 0, 1, 1).len() ==> {
            let (tok, end) = #[trigger] scan_all(src, 0, 1, 1)[k];
            tok.2 == 1 + newlines(src.take(end - tok.1.len()))
        },
{
    assert(src.take(0) =~= Seq::<char>::empty());
    lemma_scan_all_lines(src, 0, 1, 1);
}

/// Taking out blanks distributes over concatenation.
proof fn lemma_without_blanks_concat(a: Seq<char>, b: Seq<char>)
    ensures
        without_blanks(a + b) == without_blanks(a) + without_blanks(b),
    decreases a.len(),
{
    if a.len() == 0 {
        assert(a + b =~= b);
        assert(without_blanks(a) =~= Seq::<char>::empty());
        assert(Seq::<char>::empty() + without_blanks(b) =~= without_blanks(b));
    } else {
        assert((a + b)[0] == a[0]);
        assert((a + b).drop_first() =~= a.drop_first() + b);
        lemma_without_blanks_concat(a.drop_first(), b);
        if !blank(a[0]) {
            assert(seq![a[0]] + (without_blanks(a.drop_first()) + without_blanks(b)) =~= (seq![a[0]] + without_blanks(
                a.drop_first(),
            )) + without_blanks(b));
        }
    }
}

/// Text without blanks stays as it is.
proof fn lemma_without_blanks_none(s: Seq<char>)
    requires
        forall|i: int| 0 <= i < s.len() ==> !blank(#[trigger] s[i]),
    ensures
        without_blanks(s) == s,
    decreases s.len(),
{
    if s.len() > 0 {
        assert(!blank(s[0]));
        lemma_without_blanks_none(s.drop_first());
        assert(seq![s[0]] + s.drop_first() =~= s);
    }
}

/// One scan step of a source without `/`: the token is the text read with
/// its blanks taken out, and where no token comes, only blanks are left.
proof fn lemma_scan_step_lexeme(src: Seq<char>, pos: int, line: int, col: int)
    requires
        0 <= pos <= src.len(),
        forall|i: int| 0 <= i < src.len() ==> #[trigger] src[i] != '/',
    ensures
        ({
            let (t, p2, l2, c2) = scan_from(src, pos, line, col);
            &&& pos <= p2 <= src.len()
            &&& t is None ==> without_blanks(src.skip(pos)) == Seq::<char>::empty()
            &&& t matches Some(tok) ==> p2 > pos && tok.1 == without_blanks(src.subrange(pos, p2))
        }),
    decreases src.len() - pos,
{
    if pos >= src.len() {
        assert(src.skip(pos) =~= Seq::<char>::empty());
    } else {
        let c = src[pos];
        let p1 = pos + 1;
        assert(src.skip(pos).drop_first() =~= src.skip(p1));
        assert(src.skip(pos)[0] == c);
        if single_char_type(c) is Some {
            assert(!blank(c));
            assert(src.subrange(pos, p1) =~= seq![c]);
            lemma_without_blanks_none(seq![c]);
        } else if c == '\n' || c == ' ' || c == '\t' || c == '\r' {
            let col1 = if c == '\n' { 0 } else { col + 1 };
            let line1 = if c == '\n' { line + 1 } else { line };
            lemma_scan_step_lexeme(src, p1, line1, col1);
            let (t, p2, l2, c2) = scan_from(src, p1, line1, col1);
            if let Some(tok) = t {
                assert(src.subrange(pos, p2)[0] == c);
                assert(src.subrange(pos, p2).drop_first() =~= src.subrange(p1, p2));
            }
        } else if alphabetic(c) || c == '_' || numeric(c) {
            let number = !(alphabetic(c) || c == '_');
            lemma_run_end(src, p1, number);
            let e = run_end(src, p1, number);
            assert forall|i: int| 0 <= i < src.subrange(pos, e).len() implies !blank(#[trigger] src.subrange(pos, e)[i]) by {
                assert(src.subrange(pos, e)[i] == src[pos + i]);
                if i > 0 {
                    assert(p1 <= pos + i < e);
                }
            }
            lemma_without_blanks_none(src.subrange(pos, e));
        } else {
            assert(!blank(c));
            assert(src.subrange(pos, p1) =~= seq![c]);
            lemma_without_blanks_none(seq![c]);
        }
    }
}

/// The lexemes of a scan from `pos` of a source without `/` are the rest of
/// the source with its blanks taken out.
proof fn lemma_scan_all_lexemes(src: Seq<char>, pos: int, line: int, col: int)
    requires
        0 <= pos <= src.len(),
        forall|i: int| 0 <= i < src.len() ==> #[trigger] src[i] != '/',
    ensures
        lexemes(scan_all(src, pos, line, col)) == without_blanks(src.skip(pos)),
    decreases src.len() - pos,
{
    lemma_scan_step_lexeme(src, pos, line, col);
    if pos >= src.len() {
        assert(src.skip(pos) =~= Seq::<char>::empty());
    } else {
        let (t, p2, l2, c2) = scan_from(src, pos, line, col);
        if let Some(tok) = t {
            lemma_scan_all_lexemes(src, p2, l2, c2);
            let rest = scan_all(src, p2, l2, c2);
            let all = scan_all(src, pos, line, col);
            assert(all[0] == (tok, p2));
            assert(all.drop_first() =~= rest);
            assert(src.skip(pos) =~= src.subrange(pos, p2) + src.skip(p2));
            lemma_without_blanks_concat(src.subrange(pos, p2), src.skip(p2));
        }
    }
}

/// Lexemes of a whole scan: for a source without `/` (so without comments),
/// the lexemes of the tokens that a fresh scanner yields, one after another,
/// are the source with its spaces, tabs, carriage returns and newlines taken
/// out.
pub proof fn lemma_token_lexemes(src: Seq<char>)
    requires
        forall|i: int| 0 <= i < src.len() ==> #[trigger] src[i] != '/',
    ensures
        lexemes(scan_all(src, 0, 1, 1)) == without_blanks(src),
{
    lemma_scan_all_lexemes(src, 0, 1, 1);
    assert(src.skip(0) =~= src);
}

/// Scans HDL source text into tokens.
pub struct Scanner {
    source: Vec<char>,
    pos: usize,
    pub line: u32,
    pub col: usize,
    peeked: Option<Token>,
    pub path: String,
}

impl Scanner {
    /// The source characters.
    pub closed spec fn source(&self) -> Seq<char> {
        self.source@
    }

    /// The position of the next character to read.
    pub closed spec fn pos(&self) -> int {
        self.pos as int
    }

    /// The current line.
    pub closed spec fn cur_line(&self) -> u32 {
        self.line
    }

    /// The current column.
    pub closed spec fn cur_col(&self) -> usize {
        self.col
    }

    /// The path given for the source.
    pub closed spec fn src_path(&self) -> String {
        self.path
    }

    /// The token scanned ahead by `peek`, if any.
    pub closed spec fn peeked(&self) -> Option<Token> {
        self.peeked
    }

    /// The counters fit their types for the rest of the source.
    pub closed spec fn wf(&self) -> bool {
        &&& self.pos <= self.source@.len()
        &&& self.source@.len() + 3 <= usize::MAX
        &&& self.line + (self.source@.len() - self.pos) <= u32::MAX
        &&& (self.col <= self.pos + 1 || (self.pos == self.source@.len() && self.col <= self.pos + 2))
    }

    /// A scanner at the start of `source_code`, on line 1, column 1.
    pub fn new(source_code: &str, source_path: String) -> (r: Scanner)
        requires
            source_code@.len() + 3 <= u32::MAX,
        ensures
            r.wf(),
            r.source() == source_code@,
            r.pos() == 0,
            r.cur_line() == 1,
            r.cur_col() == 1,
            r.peeked() is None,
            r.src_path() == source_path,
    {
        Scanner { source: chars_of(source_code), pos: 0, line: 1, col: 1, peeked: None, path: source_path }
    }

    fn make_token(&self, token_type: TokenType, c: char) -> (t: Token)
        ensures
            t.token_type == token_type,
            t.lexeme@ == seq![c],
            t.line == self.line,
            t.start == self.col,
            t.path == self.path,
    {
        Token { token_type, lexeme: char_string(c), line: self.line, start: self.col, path: self.path.clone() }
    }

    /// Scans the next token and keeps it, so that the next scan yields it again.
    pub fn peek(&mut self) -> (r: Option<Token>)
        requires
            old(self).wf(),
        ensures
            final(self).wf(),
            final(self).source() == old(self).source(),
            final(self).src_path() == old(self).src_path(),
            final(self).peeked() == r,
            match old(self).peeked() {
                Some(t) => r == Some(t) && final(self).pos() == old(self).pos() && final(self).cur_line() == old(self).cur_line()
                    && final(self).cur_col() == old(self).cur_col(),
                None => {
                    let (tok, p, l, c) = scan_from(old(self).source(), old(self).pos(), old(self).cur_line() as int, old(self).cur_col() as int);
                    &&& final(self).pos() == p
                    &&& final(self).cur_line() == l
                    &&& final(self).cur_col() == c
                    &&& match tok {
                        None => r is None,
                        Some(st) => r is Some && token_view(r.unwrap()) == st && r.unwrap().path == old(self).src_path(),
                    }
                },
            },
    {
        let token = self.scan_token();
        match token {
            None => None,
            Some(t) => {
                self.peeked = Some(t.clone());
                Some(t)
            },
        }
    }

    /// Scans the next token: the one kept by `peek`, if any, or else the next
    /// one in the source. `None` at the end of the source.
    #[verifier::spinoff_prover]
    pub fn scan_token(&mut self) -> (r: Option<Token>)
        requires
            old(self).wf(),
        ensures
            final(self).wf(),
            final(self).source() == old(self).source(),
            final(self).src_path() == old(self).src_path(),
            final(self).peeked() is None,
            match old(self).peeked() {
                Some(t) => r == Some(t) && final(self).pos() == old(self).pos() && final(self).cur_line() == old(self).cur_line()
                    && final(self).cur_col() == old(self).cur_col(),
                None => {
                    let (tok, p, l, c) = scan_from(old(self).source(), old(self).pos(), old(self).cur_line() as int, old(self).cur_col() as int);
                    &&& final(self).pos() == p
                    &&& final(self).cur_line() == l
                    &&& final(self).cur_col() == c
                    &&& match tok {
                        None => r is None,
                        Some(st) => r is Some && token_view(r.unwrap()) == st && r.unwrap().path == old(self).src_path(),
                    }
                },
            },
    {
        if self.peeked.is_some() {
            let t = self.peeked.take();
            return t;
        }
        let ghost src = self.source@;
        let ghost target = scan_from(src, self.pos as int, self.line as int, self.col as int);
        while self.pos < self.source.len()
            invariant
                self.wf(),
                self.source@ == src,
                self.path == old(self).path,
                self.peeked is None,
                old(self).peeked is None,
                src == old(self).source@,
                target == scan_from(old(self).source@, old(self).pos as int, old(self).line as int, old(self).col as int),
                scan_from(src, self.pos as int, self.line as int, self.col as int) == target,
            decreases src.len() - self.pos,
        {
            let c = self.source[self.pos];
            let ghost ph = self.pos as int;
            let ghost lh = self.line as int;
            let ghost ch = self.col as int;
            self.pos = self.pos + 1;
            self.col = self.col + 1;
            let single = if c == '{' {
                Some(TokenType::LeftCurly)
            } else if c == '}' {
                Some(TokenType::RightCurly)
            } else if c == '(' {
                Some(TokenType::LeftParen)
            } else if c == ')' {
                Some(TokenType::RightParen)
            } else if c == ';' {
                Some(TokenType::Semicolon)
            } else if c == ':' {
                Some(TokenType::Colon)
            } else if c == ',' {
                Some(TokenType::Comma)
            } else if c == '[' {
                Some(TokenType::LeftBracket)
            } else if c == ']' {
                Some(TokenType::RightBracket)
            } else if c == '<' {
                Some(TokenType::LeftAngle)
            } else if c == '>' {
                Some(TokenType::RightAngle)
            } else if c == '=' {
                Some(TokenType::Equal)
            } else if c == '.' {
                Some(TokenType::Dot)
            } else if c == '+' {
                Some(TokenType::Plus)
            } else if c == '-' {
                Some(TokenType::Minus)
            } else {
                None
            };
            assert(single == single_char_type(c));
            assert(target == scan_from(src, ph, lh, ch));
            if let Some(tt) = single {
                return Some(self.make_token(tt, c));
            } else if c == '\n' {
                self.line = self.line + 1;
                self.col = 0;
            } else if c == ' ' || c == '\t' || c == '\r' {
            } else if c == '/' {
                if self.pos >= self.source.len() {
                    return Some(self.make_token(TokenType::Invalid, c));
                }
                let followup = self.source[self.pos];
                if followup == '/' {
                    self.finish_single_comment();
                } else if followup == '*' {
                    self.finish_multi_comment();
                } else {
                    return Some(self.make_token(TokenType::Invalid, c));
                }
            } else if is_alphabetic(c) || c == '_' {
                return Some(self.finish_identifier(c));
            } else if is_numeric(c) {
                return Some(self.finish_number(c));
            } else {
                return Some(self.make_token(TokenType::Invalid, c));
            }
        }
        None
    }

    /// Skips the rest of a line comment, through its newline.
    fn finish_single_comment(&mut self)
        requires
            old(self).wf(),
            old(self).pos < old(self).source@.len(),
        ensures
            final(self).wf(),
            final(self).source@ == old(self).source@,
            final(self).path == old(self).path,
            final(self).peeked == old(self).peeked,
            (final(self).pos as int, final(self).line as int, final(self).col as int) == skip_line(
                old(self).source@,
                old(self).pos as int,
                old(self).line as int,
                old(self).col as int,
            ),
            final(self).pos > old(self).pos,
    {
        let ghost src = self.source@;
        let ghost target = skip_line(src, self.pos as int, self.line as int, self.col as int);
        let ghost p0 = self.pos;
        while self.pos < self.source.len()
            invariant
                self.wf(),
                self.source@ == src,
                self.path == old(self).path,
                self.peeked == old(self).peeked,
                skip_line(src, self.pos as int, self.line as int, self.col as int) == target,
                src == old(self).source@,
                p0 == old(self).pos,
                target == skip_line(old(self).source@, old(self).pos as int, old(self).line as int, old(self).col as int),
                self.pos >= p0,
                p0 < src.len(),
            decreases src.len() - self.pos,
        {
            let c = self.source[self.pos];
            self.pos = self.pos + 1;
            if c == '\n' {
                self.line = self.line + 1;
                self.col = 0;
                return;
            }
        }
    }

    /// Skips the rest of a block comment, through its closing `*/`.
    fn finish_multi_comment(&mut self)
        requires
            old(self).wf(),
            old(self).pos < old(self).source@.len(),
            old(self).col <= old(self).pos + 1,
        ensures
            final(self).wf(),
            final(self).source@ == old(self).source@,
            final(self).path == old(self).path,
            final(self).peeked == old(self).peeked,
            (final(self).pos as int, final(self).line as int, final(self).col as int) == skip_block(
                old(self).source@,
                old(self).pos as int,
                old(self).line as int,
                old(self).col as int,
            ),
            final(self).pos > old(self).pos,
    {
        let ghost src = self.source@;
        let ghost target = skip_block(src, self.pos as int, self.line as int, self.col as int);
        let ghost p0 = self.pos;
        loop
            invariant
                self.pos <= src.len(),
                src.len() + 3 <= usize::MAX,
                self.line + (src.len() - self.pos) <= u32::MAX,
                self.col <= self.pos + 1,
                self.source@ == src,
                self.path == old(self).path,
                self.peeked == old(self).peeked,
                skip_block(src, self.pos as int, self.line as int, self.col as int) == target,
                src == old(self).source@,
                p0 == old(self).pos,
                target == skip_block(old(self).source@, old(self).pos as int, old(self).line as int, old(self).col as int),
                self.pos >= p0,
                p0 < src.len(),
            decreases src.len() - self.pos,
        {
            if self.pos >= self.source.len() {
                self.col = self.col + 1;
                return;
            }
            let c = self.source[self.pos];
            self.pos = self.pos + 1;
            self.col = self.col + 1;
            if c == '\n' {
                self.line = self.line + 1;
                self.col = 0;
            } else if c == '*' {
                if self.pos >= self.source.len() {
                    return;
                }
                if self.source[self.pos] == '/' {
                    self.pos = self.pos + 1;
                    return;
                }
            }
        }
    }

    /// Reads the rest of a number whose first digit is `start`.
    fn finish_number(&mut self, start: char) -> (t: Token)
        requires
            old(self).wf(),
            old(self).pos >= 1,
            old(self).col <= old(self).pos + 1,
            old(self).source@[old(self).pos - 1] == start,
        ensures
            final(self).wf(),
            final(self).source@ == old(self).source@,
            final(self).path == old(self).path,
            final(self).peeked == old(self).peeked,
            final(self).line == old(self).line,
            final(self).pos == run_end(old(self).source@, old(self).pos as int, true),
            final(self).col == old(self).col + (final(self).pos - old(self).pos),
            t.token_type == TokenType::Number,
            t.lexeme@ == old(self).source@.subrange(old(self).pos - 1, final(self).pos as int),
            t.line == old(self).line,
            t.start == final(self).col,
            t.path == old(self).path,
    {
        let mut lexeme = char_string(start);
        let ghost src = self.source@;
        let ghost p0 = self.pos;
        let ghost c0 = self.col;
        while self.pos < self.source.len() && is_numeric(self.source[self.pos])
            invariant
                self.wf(),
                self.source@ == src,
                self.path == old(self).path,
                self.peeked == old(self).peeked,
                self.line == old(self).line,
                src == old(self).source@,
                p0 == old(self).pos,
                c0 == old(self).col,
                p0 <= self.pos,
                p0 >= 1,
                c0 <= p0 + 1,
                self.col == c0 + (self.pos - p0),
                run_end(src, self.pos as int, true) == run_end(src, p0 as int, true),
                lexeme@ == src.subrange(p0 - 1, self.pos as int),
            decreases src.len() - self.pos,
        {
            push_char(&mut lexeme, self.source[self.pos]);
            assert(lexeme@ =~= src.subrange(p0 - 1, self.pos + 1));
            self.pos = self.pos + 1;
            self.col = self.col + 1;
        }
        Token { token_type: TokenType::Number, lexeme, line: self.line, start: self.col, path: self.path.clone() }
    }

    /// Reads the rest of an identifier or keyword whose first character is `start`.
    fn finish_identifier(&mut self, start: char) -> (t: Token)
        requires
            old(self).wf(),
            old(self).pos >= 1,
            old(self).col <= old(self).pos + 1,
            old(self).source@[old(self).pos - 1] == start,
        ensures
            final(self).wf(),
            final(self).source@ == old(self).source@,
            final(self).path == old(self).path,
            final(self).peeked == old(self).peeked,
            final(self).line == old(self).line,
            final(self).pos == run_end(old(self).source@, old(self).pos as int, false),
            final(self).col == old(self).col + (final(self).pos - old(self).pos),
            t.token_type == word_type(t.lexeme@),
            t.lexeme@ == old(self).source@.subrange(old(self).pos - 1, final(self).pos as int),
            t.line == old(self).line,
            t.start == final(self).col,
            t.path == old(self).path,
    {
        let mut lexeme = char_string(start);
        let ghost src = self.source@;
        let ghost p0 = self.pos;
        let ghost c0 = self.col;
        while self.pos < self.source.len() && (is_alphanumeric(self.source[self.pos]) || self.source[self.pos] == '_')
            invariant
                self.wf(),
                self.source@ == src,
                self.path == old(self).path,
                self.peeked == old(self).peeked,
                self.line == old(self).line,
                src == old(self).source@,
                p0 == old(self).pos,
                c0 == old(self).col,
                p0 <= self.pos,
                p0 >= 1,
                c0 <= p0 + 1,
                self.col == c0 + (self.pos - p0),
                run_end(src, self.pos as int, false) == run_end(src, p0 as int, false),
                lexeme@ == src.subrange(p0 - 1, self.pos as int),
            decreases src.len() - self.pos,
        {
            push_char(&mut lexeme, self.source[self.pos]);
            assert(lexeme@ =~= src.subrange(p0 - 1, self.pos + 1));
            self.pos = self.pos + 1;
            self.col = self.col + 1;
        }
        let line = self.line;
        let col = self.col;
        self.lexeme_to_identifier_or_keyword(lexeme, line, col)
    }

    /// A token for a word: a keyword where the word is one, else an identifier.
    fn lexeme_to_identifier_or_keyword(&self, lexeme: String, line: u32, col: usize) -> (t: Token)
        ensures
            t.token_type == word_type(lexeme@),
            t.lexeme == lexeme,
            t.line == line,
            t.start == col,
            t.path == self.path,
    {
        let s = lexeme.as_str();
        let token_type = if key_eq(s, "CHIP") {
            TokenType::Chip
        } else if key_eq(s, "PARTS") {
            TokenType::Parts
        } else if key_eq(s, "IN") {
            TokenType::In
        } else if key_eq(s, "OUT") {
            TokenType::Out
        } else if key_eq(s, "FOR") {
            TokenType::For
        } else if key_eq(s, "TO") {
            TokenType::To
        } else if key_eq(s, "GENERATE") {
            TokenType::Generate
        } else {
            TokenType::Identifier
        };
        Token { token_type, lexeme, line, start: col, path: self.path.clone() }
    }
}

/// The tokens of a scan, without the positions after them.
pub open spec fn scanned(src: Seq<char>, pos: int, line: int, col: int) -> Seq<SpecToken> {
    scan_all(src, pos, line, col).map_values(|x: (SpecToken, int)| x.0)
}

/// Tokens as values.
pub open spec fn tokens_view(ts: Seq<Token>) -> Seq<SpecToken> {
    ts.map_values(|t: Token| token_view(t))
}

/// The lexemes of tokens, one after another.
pub open spec fn joined(ts: Seq<Token>) -> Seq<char>
    decreases ts.len(),
{
    if ts.len() == 0 {
        Seq::empty()
    } else {
        ts[0].lexeme@ + joined(ts.drop_first())
    }
}

/// A scan step that yields a token ends past the position it started from,
/// within the source.
proof fn lemma_scan_advances(src: Seq<char>, pos: int, line: int, col: int)
    requires
        0 <= pos <= src.len(),
    ensures
        scan_from(src, pos, line, col).0 is Some ==> pos < scan_from(src, pos, line, col).1 <= src.len(),
    decreases src.len() - pos,
{
    if pos < src.len() {
        let c = src[pos];
        if single_char_type(c) is Some {
        } else if c == '\n' {
            lemma_scan_advances(src, pos + 1, line + 1, 0);
        } else if c == ' ' || c == '\t' || c == '\r' {
            lemma_scan_advances(src, pos + 1, line, col + 1);
        } else if c == '/' {
            if pos + 1 < src.len() {
                if src[pos + 1] == '/' {
                    let (p2, l2, c2) = skip_line(src, pos + 1, line, col + 1);
                    if p2 > pos && p2 <= src.len() {
                        lemma_scan_advances(src, p2, l2, c2);
                    }
                } else if src[pos + 1] == '*' {
                    let (p2, l2, c2) = skip_block(src, pos + 1, line, col + 1);
                    if p2 > pos && p2 <= src.len() {
                        lemma_scan_advances(src, p2, l2, c2);
                    }
                }
            }
        } else if alphabetic(c) || c == '_' {
            lemma_run_end(src, pos + 1, false);
        } else if numeric(c) {
            lemma_run_end(src, pos + 1, true);
        }
    }
}

/// Tokens whose values are those of a scan have the lexemes of the scan.
proof fn lemma_joined(ts: Seq<Token>, pairs: Seq<(SpecToken, int)>)
    requires
        tokens_view(ts) == pairs.map_values(|x: (SpecToken, int)| x.0),
    ensures
        joined(ts) == lexemes(pairs),
    decreases ts.len(),
{
    assert(tokens_view(ts).len() == pairs.len());
    if ts.len() > 0 {
        assert(tokens_view(ts)[0] == pairs.map_values(|x: (SpecToken, int)| x.0)[0]);
        assert(token_view(ts[0]) == pairs[0].0);
        assert(tokens_view(ts.drop_first()) =~= pairs.drop_first().map_values(|x: (SpecToken, int)| x.0)) by {
            assert forall|k: int| 0 <= k < ts.len() - 1 implies tokens_view(ts.drop_first())[k] == pairs.drop_first().map_values(|x: (SpecToken, int)| x.0)[k] by {
                assert(tokens_view(ts)[k + 1] == pairs.map_values(|x: (SpecToken, int)| x.0)[k + 1]);
            }
        }
        lemma_joined(ts.drop_first(), pairs.drop_first());
    }
}

/// Peeking twice yields the same: where a scan finds no token, a scan from
/// where it stopped finds none either (where it finds one, `peek` keeps it
/// and the next `peek` returns it unchanged).
pub proof fn lemma_no_token_stays_none(src: Seq<char>, pos: int, line: int, col: int)
    ensures
        scan_from(src, pos, line, col).0 is None ==> ({
            let (_, p, l, c) = scan_from(src, pos, line, col);
            scan_from(src, p, l, c).0 is None
        }),
    decreases src.len() - pos,
{
    if 0 <= pos < src.len() {
        let c = src[pos];
        if single_char_type(c) is Some {
        } else if c == '\n' {
            lemma_no_token_stays_none(src, pos + 1, line + 1, 0);
        } else if c == ' ' || c == '\t' || c == '\r' {
            lemma_no_token_stays_none(src, pos + 1, line, col + 1);
        } else if c == '/' {
            if pos + 1 < src.len() {
                if src[pos + 1] == '/' {
                    let (p2, l2, c2) = skip_line(src, pos + 1, line, col + 1);
                    if p2 > pos && p2 <= src.len() {
                        lemma_no_token_stays_none(src, p2, l2, c2);
                    }
                } else if src[pos + 1] == '*' {
                    let (p2, l2, c2) = skip_block(src, pos + 1, line, col + 1);
                    if p2 > pos && p2 <= src.len() {
                        lemma_no_token_stays_none(src, p2, l2, c2);
                    }
                }
            }
        }
    }
}

impl Scanner {
    /// All the tokens left, in order, as iterating over the scanner yields
    /// them: the token kept by `peek`, if any, then those of the rest of the
    /// source. For a fresh scanner, each token is on line one plus the number
    /// of newlines before its first character, and where the source holds no
    /// `/` (so no comment), the lexemes one after another are the source with
    /// its spaces, tabs, carriage returns and newlines taken out.
    pub fn tokens(&mut self) -> (r: Vec<Token>)
        requires
            old(self).wf(),
        ensures
            final(self).wf(),
            tokens_view(r@) == match old(self).peeked() {
                Some(t) => seq![token_view(t)] + scanned(old(self).source(), old(self).pos(), old(self).cur_line() as int, old(self).cur_col() as int),
                None => scanned(old(self).source(), old(self).pos(), old(self).cur_line() as int, old(self).cur_col() as int),
            },
            old(self).peeked() is None ==> forall|k: int| 0 <= k < r.len() ==> (#[trigger] r@[k]).path == old(self).src_path(),
            old(self).peeked() is None && old(self).pos() == 0 && old(self).cur_line() == 1 && old(self).cur_col() == 1 ==> {
                &&& forall|k: int|
                    0 <= k < r.len() ==> (#[trigger] r@[k]).line == 1 + newlines(
                        old(self).source().take(scan_all(old(self).source(), 0, 1, 1)[k].1 - r@[k].lexeme@.len()),
                    )
                &&& (forall|i: int| 0 <= i < old(self).source().len() ==> #[trigger] old(self).source()[i] != '/') ==> joined(r@)
                    == without_blanks(old(self).source())
            },
    {
        let ghost src = self.source();
        let ghost path = self.src_path();
        let ghost peeked0 = self.peeked();
        let ghost total = scanned(src, self.pos(), self.cur_line() as int, self.cur_col() as int);
        let mut r: Vec<Token> = Vec::new();
        let ghost head: Seq<SpecToken> = Seq::empty();
        if self.peeked.is_some() {
            let t = self.scan_token();
            let t = t.unwrap();
            proof {
                head = seq![token_view(t)];
            }
            r.push(t);
            proof {
                assert(tokens_view(r@) =~= head);
            }
        }
        proof {
            assert(tokens_view(r@) =~= head);
            assert(head + total =~= tokens_view(r@) + scanned(src, self.pos(), self.cur_line() as int, self.cur_col() as int));
        }
        loop
            invariant_except_break
                head + total == tokens_view(r@) + scanned(src, self.pos(), self.cur_line() as int, self.cur_col() as int),
            invariant
                self.wf(),
                self.peeked() is None,
                self.source() == src,
                self.src_path() == path,
                peeked0 is None ==> forall|k: int| 0 <= k < r.len() ==> (#[trigger] r@[k]).path == path,
            ensures
                self.wf(),
                self.source() == src,
                peeked0 is None ==> forall|k: int| 0 <= k < r.len() ==> (#[trigger] r@[k]).path == path,
                head + total == tokens_view(r@),
            decreases src.len() - self.pos(),
        {
            let ghost (p0, l0, c0) = (self.pos(), self.cur_line() as int, self.cur_col() as int);
            proof {
                lemma_scan_advances(src, p0, l0, c0);
            }
            match self.scan_token() {
                Some(t) => {
                    proof {
                        let (tok, p2, l2, c2) = scan_from(src, p0, l0, c0);
                        assert(scan_all(src, p0, l0, c0) =~= seq![(tok.unwrap(), p2)] + scan_all(src, p2, l2, c2));
                        assert(scanned(src, p0, l0, c0) =~= seq![tok.unwrap()] + scanned(src, p2, l2, c2));
                    }
                    let ghost before = tokens_view(r@);
                    r.push(t);
                    proof {
                        assert(tokens_view(r@) =~= before.push(token_view(t)));
                        assert(before + scanned(src, p0, l0, c0) =~= tokens_view(r@) + scanned(src, self.pos(), self.cur_line() as int, self.cur_col() as int));
                    }
                },
                None => {
                    proof {
                        assert(scanned(src, p0, l0, c0) =~= Seq::<SpecToken>::empty());
                        assert(tokens_view(r@) + scanned(src, p0, l0, c0) =~= tokens_view(r@));
                    }
                    break;
                },
            }
        }
        proof {
            if peeked0 is None {
                assert(head + total =~= total);
            }
            lemma_token_lines(src);
            let all = scan_all(src, 0, 1, 1);
            if peeked0 is None {
                if tokens_view(r@) == scanned(src, 0, 1, 1) {
                    assert forall|k: int| 0 <= k < r.len() implies (#[trigger] r@[k]).line == 1 + newlines(src.take(all[k].1 - r@[k].lexeme@.len())) by {
                        assert(tokens_view(r@)[k] == scanned(src, 0, 1, 1)[k]);
                    }
                    lemma_joined(r@, all);
                    if forall|i: int| 0 <= i < src.len() ==> #[trigger] src[i] != '/' {
                        lemma_token_lexemes(src);
                    }
                }
            }
        }
        r
    }
}

} // verus!
