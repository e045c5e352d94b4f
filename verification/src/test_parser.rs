//! The parser for nand2tetris test scripts.
//!
//! A script names the chip under test, its output and compare files, the
//! format of the output table and the steps of the test:
//!
//! ```text
//! load And.hdl, output-file And.out, compare-to And.cmp,
//! output-list a%B3.1.3 b%B3.1.3 out%B3.1.3;
//! set a 0, set b 0, eval, output;
//! ```
use crate::error::{ErrorKind, N2VError};
use crate::fmt::{parse_usize, push_str, digits_value};
use crate::test_scanner::{TestScanner, Token, TokenType, TestToken, test_scan_from, test_token_view, lemma_test_scan_progress};
use vstd::prelude::*;

verus! {

/// How a value is written in a script or in the output table.
#[derive(Debug, PartialEq, Eq, Copy, Clone, Structural)]
pub enum NumberSystem {
    Binary,
    Decimal,
    Hex,
    String,
}

/// A value that a `set` instruction gives to an input port.
#[derive(Debug, Clone)]
pub struct InputValue {
    pub number_system: NumberSystem,
    pub value: String,
}

/// One instruction of a step.
#[derive(Debug, Clone)]
pub enum Instruction {
    /// `set port value`: the port's name and the value.
    SetPort(String, InputValue),
    Eval,
    Output,
    Tick,
    Tock,
}

/// The instructions up to a `;`.
#[derive(Debug, Clone)]
pub struct Step {
    pub instructions: Vec<Instruction>,
}

/// One column of the output table: `port%B1.16.1`.
#[derive(Debug, Clone)]
pub struct OutputFormat {
    pub port_name: String,
    pub number_system: NumberSystem,
    pub space_before: usize,
    pub output_columns: usize,
    pub space_after: usize,
}

/// The parse tree of a test script.
#[derive(Debug, Clone)]
pub struct TestScript {
    pub path: Option<String>,
    pub hdl_file: String,
    pub output_file: String,
    pub compare_file: String,
    pub output_list: Vec<OutputFormat>,
    pub steps: Vec<Step>,
    pub generics: Vec<usize>,
}

/// A name in a test script, with where it was read.
#[derive(Debug, Clone)]
pub struct Identifier {
    pub value: String,
    pub path: String,
    pub line: u32,
}

impl Identifier {
    /// The identifier that an identifier token holds.
    pub fn from(t: Token) -> (r: Identifier)
        requires
            t.token_type == TokenType::Identifier,
        ensures
            r.value == t.lexeme,
            r.path == t.path,
            r.line == t.line,
    {
        Identifier { value: t.lexeme, path: t.path, line: t.line }
    }
}

// ---------------------------------------------------------------------------
// The grammar, over the token stream of the scanner.
// ---------------------------------------------------------------------------

/// Where the parser stands in the source: the scanner's position and line,
/// and the token that a peek has scanned ahead, if any.
pub struct ScanState {
    pub pos: int,
    pub line: int,
    pub peeked: Option<TestToken>,
}

/// The state with the token scanned ahead taken away.
pub open spec fn unpeeked(s: ScanState) -> ScanState {
    ScanState { pos: s.pos, line: s.line, peeked: None }
}

/// The next token and the state after it; `None` where the scanner panics.
pub open spec fn next_tok(src: Seq<char>, s: ScanState) -> Option<(Option<TestToken>, ScanState)> {
    match s.peeked {
        Some(t) => Some((Some(t), unpeeked(s))),
        None => match test_scan_from(src, s.pos, s.line) {
            None => None,
            Some((t, p, l)) => Some((t, ScanState { pos: p, line: l, peeked: None })),
        },
    }
}

/// The next token, left in place to be read again; `None` where the scanner
/// panics.
pub open spec fn peek_tok(src: Seq<char>, s: ScanState) -> Option<(Option<TestToken>, ScanState)> {
    match s.peeked {
        Some(t) => Some((Some(t), s)),
        None => match test_scan_from(src, s.pos, s.line) {
            None => None,
            Some((t, p, l)) => Some((t, ScanState { pos: p, line: l, peeked: t })),
        },
    }
}

/// What the parser makes of the text from a state: it panics, fails with a
/// message and the token at fault, or gives a value; each outcome with the
/// state after it.
pub enum Parsed<T> {
    Panics,
    Fails(Seq<char>, TestToken, ScanState),
    Gives(T, ScanState),
}

/// An instruction as a value.
pub enum InstrView {
    SetPort(Seq<char>, NumberSystem, Seq<char>),
    Eval,
    Output,
    Tick,
    Tock,
}

/// A column of the output table as a value.
pub struct FormatView {
    pub port: Seq<char>,
    pub number_system: NumberSystem,
    pub space_before: usize,
    pub output_columns: usize,
    pub space_after: usize,
}

/// A test script as a value (the path of the script aside).
pub struct ScriptView {
    pub hdl_file: Seq<char>,
    pub output_file: Seq<char>,
    pub compare_file: Seq<char>,
    pub output_list: Seq<FormatView>,
    pub steps: Seq<Seq<InstrView>>,
    pub generics: Seq<usize>,
}

/// The name under which a token type is reported.
pub open spec fn token_type_name(tt: TokenType) -> Seq<char> {
    match tt {
        TokenType::OutputFile => "OutputFile"@,
        TokenType::CompareTo => "CompareTo"@,
        TokenType::OutputList => "OutputList"@,
        TokenType::SetCommand => "Set"@,
        TokenType::Identifier => "Identifier"@,
        TokenType::BinaryFormatSpecifier => "BinaryFormatSpecifier"@,
        TokenType::DecimalFormatSpecifier => "DecimalFormatSpecifier"@,
        TokenType::HexFormatSpecifier => "HexFormatSpecifier"@,
        TokenType::StringFormatSpecifier => "StringFormatSpecifier"@,
        TokenType::Number => "Number"@,
        TokenType::Dot => "Dot"@,
        TokenType::Comma => "Comma"@,
        TokenType::Semicolon => "Semicolon"@,
        TokenType::Tick => "Tick"@,
        TokenType::Tock => "Tock"@,
        TokenType::Output => "Output"@,
        TokenType::Eval => "Eval"@,
        TokenType::LeftAngle => "LeftAngle"@,
        TokenType::RightAngle => "RightAngle"@,
        TokenType::Eof => "Eof"@,
    }
}

/// The message when the text ends where a token of type `tt` is expected.
pub open spec fn early_end_msg(tt: TokenType) -> Seq<char> {
    "Early end of file expected "@ + token_type_name(tt)
}

/// The message when token `t` stands where a token of type `tt` is expected.
pub open spec fn mismatch_msg(tt: TokenType, t: TestToken) -> Seq<char> {
    "Expected token type "@ + token_type_name(tt) + ", found "@ + token_type_name(t.0) + " ("@ + t.1 + ")"@
}

/// Reads a token of type `tt`.
pub open spec fn consume_spec(src: Seq<char>, s: ScanState, tt: TokenType) -> Parsed<TestToken> {
    match next_tok(src, s) {
        None => Parsed::Panics,
        Some((None, s1)) => Parsed::Fails(early_end_msg(tt), (TokenType::Eof, Seq::empty(), s1.line), s1),
        Some((Some(t), s1)) => if t.0 == tt {
            Parsed::Gives(t, s1)
        } else {
            Parsed::Fails(mismatch_msg(tt, t), t, s1)
        },
    }
}

/// The value of a decimal numeral, where it fits a `usize`.
pub open spec fn usize_value(lexeme: Seq<char>) -> Option<usize> {
    match digits_value(lexeme) {
        Some(v) => if v <= usize::MAX { Some(v as usize) } else { None },
        None => None,
    }
}

/// Reads a number token and its value; a token of another type, or a
/// numeral that is not a `usize`, panics.
pub open spec fn number_spec(src: Seq<char>, s: ScanState) -> Option<(usize, ScanState)> {
    match consume_spec(src, s, TokenType::Number) {
        Parsed::Gives(t, s1) => match usize_value(t.1) {
            Some(v) => Some((v, s1)),
            None => None,
        },
        _ => None,
    }
}

/// A measure of the text left to read, which every token read makes smaller.
pub open spec fn measure(src: Seq<char>, s: ScanState) -> nat {
    let rest: int = if 0 <= s.pos <= src.len() { 2 * (src.len() - s.pos) } else { 0 };
    (rest + if s.peeked is Some { 1int } else { 0int }) as nat
}

/// Reading a token makes the measure smaller; peeking does not make it larger.
pub proof fn lemma_tok_progress(src: Seq<char>, s: ScanState)
    ensures
        match next_tok(src, s) {
            Some((Some(_), s1)) => measure(src, s1) < measure(src, s) && s1.peeked is None,
            Some((None, s1)) => measure(src, s1) <= measure(src, s),
            None => true,
        },
        match peek_tok(src, s) {
            Some((t, s1)) => {
                &&& measure(src, s1) <= measure(src, s)
                &&& s1.peeked == t
                &&& (t is Some ==> measure(src, unpeeked(s1)) < measure(src, s))
                &&& (t is Some ==> next_tok(src, s1) == Some((t, unpeeked(s1))))
            },
            None => true,
        },
{
    if s.peeked is None {
        lemma_test_scan_progress(src, s.pos, s.line);
    }
}

/// A token read by `consume_spec` makes the measure smaller.
pub proof fn lemma_consume_progress(src: Seq<char>, s: ScanState, tt: TokenType)
    ensures
        consume_spec(src, s, tt) matches Parsed::Gives(_, s1) ==> measure(src, s1) < measure(src, s),
        number_spec(src, s) matches Some((_, s1)) ==> measure(src, s1) < measure(src, s),
{
    lemma_tok_progress(src, s);
}

/// The numbers, commas and `>` that follow `<` in the list of generics.
pub open spec fn generics_rest(src: Seq<char>, s: ScanState, acc: Seq<usize>) -> Parsed<Seq<usize>>
    decreases measure(src, s),
{
    match next_tok(src, s) {
        Some((Some(t), s1)) => {
            proof {
                lemma_tok_progress(src, s);
            }
            if t.0 == TokenType::Number {
                match usize_value(t.1) {
                    Some(v) => generics_rest(src, s1, acc.push(v)),
                    None => Parsed::Panics,
                }
            } else if t.0 == TokenType::Comma {
                generics_rest(src, s1, acc)
            } else if t.0 == TokenType::RightAngle {
                Parsed::Gives(acc, s1)
            } else {
                Parsed::Panics
            }
        },
        _ => Parsed::Panics,
    }
}

/// The generics `<n, m, ...>` after `load`, or none.
pub open spec fn generics_spec(src: Seq<char>, s: ScanState) -> Parsed<Seq<usize>> {
    match peek_tok(src, s) {
        Some((Some(t), s1)) => if t.0 != TokenType::LeftAngle {
            Parsed::Gives(Seq::empty(), s1)
        } else {
            generics_rest(src, unpeeked(s1), Seq::empty())
        },
        _ => Parsed::Panics,
    }
}

/// The rest of `set port value` after `set`.
pub open spec fn set_spec(src: Seq<char>, s: ScanState) -> Parsed<InstrView> {
    match consume_spec(src, s, TokenType::Identifier) {
        Parsed::Gives(port, s1) => match peek_tok(src, s1) {
            Some((Some(f), s2)) => {
                let ns = if f.0 == TokenType::Number {
                    Some(NumberSystem::Decimal)
                } else if f.0 == TokenType::BinaryFormatSpecifier {
                    Some(NumberSystem::Binary)
                } else if f.0 == TokenType::HexFormatSpecifier {
                    Some(NumberSystem::Hex)
                } else {
                    None
                };
                let s3 = if f.0 == TokenType::Number { s2 } else { unpeeked(s2) };
                match ns {
                    Some(ns) => match consume_spec(src, s3, TokenType::Number) {
                        Parsed::Gives(v, s4) => Parsed::Gives(InstrView::SetPort(port.1, ns, v.1), s4),
                        _ => Parsed::Panics,
                    },
                    None => Parsed::Panics,
                }
            },
            _ => Parsed::Panics,
        },
        _ => Parsed::Panics,
    }
}

/// One instruction.
pub open spec fn instruction_spec(src: Seq<char>, s: ScanState) -> Parsed<InstrView> {
    match next_tok(src, s) {
        Some((Some(t), s1)) => if t.0 == TokenType::SetCommand {
            set_spec(src, s1)
        } else if t.0 == TokenType::Eval {
            Parsed::Gives(InstrView::Eval, s1)
        } else if t.0 == TokenType::Output {
            Parsed::Gives(InstrView::Output, s1)
        } else if t.0 == TokenType::Tick {
            Parsed::Gives(InstrView::Tick, s1)
        } else if t.0 == TokenType::Tock {
            Parsed::Gives(InstrView::Tock, s1)
        } else {
            Parsed::Panics
        },
        _ => Parsed::Panics,
    }
}

/// An instruction reads at least one token.
pub proof fn lemma_instruction_progress(src: Seq<char>, s: ScanState)
    ensures
        instruction_spec(src, s) matches Parsed::Gives(_, s1) ==> measure(src, s1) < measure(src, s),
{
    lemma_tok_progress(src, s);
    if let Some((Some(t), s1)) = next_tok(src, s) {
        if t.0 == TokenType::SetCommand {
            lemma_consume_progress(src, s1, TokenType::Identifier);
            if let Parsed::Gives(port, s2) = consume_spec(src, s1, TokenType::Identifier) {
                lemma_tok_progress(src, s2);
                if let Some((Some(f), s3)) = peek_tok(src, s2) {
                    lemma_consume_progress(src, s3, TokenType::Number);
                    lemma_consume_progress(src, unpeeked(s3), TokenType::Number);
                }
            }
        }
    }
}

/// The steps from a state on: `done` holds the steps read so far and `cur`
/// the instructions of the step being read, if one is.
pub open spec fn steps_spec(
    src: Seq<char>,
    s: ScanState,
    done: Seq<Seq<InstrView>>,
    cur: Option<Seq<InstrView>>,
) -> Parsed<Seq<Seq<InstrView>>>
    decreases measure(src, s), if cur is None { 1int } else { 0int },
{
    proof {
        lemma_tok_progress(src, s);
        lemma_instruction_progress(src, s);
    }
    match cur {
        None => match peek_tok(src, s) {
            None => Parsed::Panics,
            Some((None, s1)) => Parsed::Gives(done, s1),
            Some((Some(_), s1)) => steps_spec(src, s1, done, Some(Seq::empty())),
        },
        Some(ins) => match instruction_spec(src, s) {
            Parsed::Gives(i, s1) => {
                proof {
                    lemma_tok_progress(src, s1);
                }
                match peek_tok(src, s1) {
                    Some((Some(t), s2)) => if t.0 == TokenType::Comma {
                        steps_spec(src, unpeeked(s2), done, Some(ins.push(i)))
                    } else {
                        proof {
                            lemma_consume_progress(src, s2, TokenType::Semicolon);
                        }
                        match consume_spec(src, s2, TokenType::Semicolon) {
                            Parsed::Gives(_, s3) => steps_spec(src, s3, done.push(ins.push(i)), None),
                            Parsed::Fails(m, t, s3) => Parsed::Fails(m, t, s3),
                            Parsed::Panics => Parsed::Panics,
                        }
                    },
                    _ => Parsed::Panics,
                }
            },
            _ => Parsed::Panics,
        },
    }
}

/// The number system of an output format specifier.
pub open spec fn format_system(tt: TokenType) -> Option<NumberSystem> {
    if tt == TokenType::BinaryFormatSpecifier {
        Some(NumberSystem::Binary)
    } else if tt == TokenType::DecimalFormatSpecifier {
        Some(NumberSystem::Decimal)
    } else if tt == TokenType::HexFormatSpecifier {
        Some(NumberSystem::Hex)
    } else if tt == TokenType::StringFormatSpecifier {
        Some(NumberSystem::String)
    } else {
        None
    }
}

/// The rest of a column `port%B1.16.1` after the port's name.
pub open spec fn format_spec(src: Seq<char>, s: ScanState, port: Seq<char>) -> Parsed<FormatView> {
    match next_tok(src, s) {
        Some((Some(f), s1)) => match format_system(f.0) {
            Some(ns) => match number_spec(src, s1) {
                Some((before, s2)) => match consume_spec(src, s2, TokenType::Dot) {
                    Parsed::Gives(_, s3) => match number_spec(src, s3) {
                        Some((cols, s4)) => match consume_spec(src, s4, TokenType::Dot) {
                            Parsed::Gives(_, s5) => match number_spec(src, s5) {
                                Some((after, s6)) => Parsed::Gives(
                                    FormatView {
                                        port,
                                        number_system: ns,
                                        space_before: before,
                                        output_columns: cols,
                                        space_after: after,
                                    },
                                    s6,
                                ),
                                None => Parsed::Panics,
                            },
                            Parsed::Fails(m, t, s5) => Parsed::Fails(m, t, s5),
                            Parsed::Panics => Parsed::Panics,
                        },
                        None => Parsed::Panics,
                    },
                    Parsed::Fails(m, t, s3) => Parsed::Fails(m, t, s3),
                    Parsed::Panics => Parsed::Panics,
                },
                None => Parsed::Panics,
            },
            None => Parsed::Panics,
        },
        _ => Parsed::Panics,
    }
}

/// The rest of a column reads at least one token.
pub proof fn lemma_format_progress(src: Seq<char>, s: ScanState, port: Seq<char>)
    ensures
        format_spec(src, s, port) matches Parsed::Gives(_, s1) ==> measure(src, s1) < measure(src, s),
{
    lemma_tok_progress(src, s);
    if let Some((Some(f), s1)) = next_tok(src, s) {
        lemma_consume_progress(src, s1, TokenType::Dot);
        if let Some((_, s2)) = number_spec(src, s1) {
            lemma_consume_progress(src, s2, TokenType::Dot);
            if let Parsed::Gives(_, s3) = consume_spec(src, s2, TokenType::Dot) {
                lemma_consume_progress(src, s3, TokenType::Dot);
                if let Some((_, s4)) = number_spec(src, s3) {
                    lemma_consume_progress(src, s4, TokenType::Dot);
                    if let Parsed::Gives(_, s5) = consume_spec(src, s4, TokenType::Dot) {
                        lemma_consume_progress(src, s5, TokenType::Dot);
                    }
                }
            }
        }
    }
}

/// The columns of the output list, up to its `;`.
pub open spec fn outputs_rest(src: Seq<char>, s: ScanState, acc: Seq<FormatView>) -> Parsed<Seq<FormatView>>
    decreases measure(src, s),
{
    match next_tok(src, s) {
        Some((Some(t), s1)) => {
            proof {
                lemma_tok_progress(src, s);
                lemma_format_progress(src, s1, t.1);
            }
            if t.0 == TokenType::Identifier {
                match format_spec(src, s1, t.1) {
                    Parsed::Gives(f, s2) => outputs_rest(src, s2, acc.push(f)),
                    Parsed::Fails(m, e, s2) => Parsed::Fails(m, e, s2),
                    Parsed::Panics => Parsed::Panics,
                }
            } else if t.0 == TokenType::Semicolon {
                Parsed::Gives(acc, s1)
            } else {
                Parsed::Panics
            }
        },
        _ => Parsed::Panics,
    }
}

/// `output-list` and its columns.
pub open spec fn output_list_spec(src: Seq<char>, s: ScanState) -> Parsed<Seq<FormatView>> {
    match consume_spec(src, s, TokenType::OutputList) {
        Parsed::Gives(_, s1) => outputs_rest(src, s1, Seq::empty()),
        Parsed::Fails(m, t, s1) => Parsed::Fails(m, t, s1),
        Parsed::Panics => Parsed::Panics,
    }
}

/// `name,` where the name is a file's: an identifier (or the scanner panics)
/// and a comma.
pub open spec fn file_spec(src: Seq<char>, s: ScanState) -> Parsed<Seq<char>> {
    match consume_spec(src, s, TokenType::Identifier) {
        Parsed::Gives(t, s1) => match consume_spec(src, s1, TokenType::Comma) {
            Parsed::Gives(_, s2) => Parsed::Gives(t.1, s2),
            Parsed::Fails(m, e, s2) => Parsed::Fails(m, e, s2),
            Parsed::Panics => Parsed::Panics,
        },
        _ => Parsed::Panics,
    }
}

/// A keyword of type `tt`, then a file.
pub open spec fn keyed_file_spec(src: Seq<char>, s: ScanState, tt: TokenType) -> Parsed<Seq<char>> {
    match consume_spec(src, s, tt) {
        Parsed::Gives(_, s1) => file_spec(src, s1),
        Parsed::Fails(m, e, s1) => Parsed::Fails(m, e, s1),
        Parsed::Panics => Parsed::Panics,
    }
}

/// The files of a script: what follows `load` and its generics, up to the
/// output list.
pub open spec fn files_spec(src: Seq<char>, s: ScanState) -> Parsed<(Seq<char>, Seq<char>, Seq<char>)> {
    match file_spec(src, s) {
        Parsed::Gives(hdl, s1) => match keyed_file_spec(src, s1, TokenType::OutputFile) {
            Parsed::Gives(out, s2) => match keyed_file_spec(src, s2, TokenType::CompareTo) {
                Parsed::Gives(cmp, s3) => Parsed::Gives((hdl, out, cmp), s3),
                Parsed::Fails(m, e, s3) => Parsed::Fails(m, e, s3),
                Parsed::Panics => Parsed::Panics,
            },
            Parsed::Fails(m, e, s2) => Parsed::Fails(m, e, s2),
            Parsed::Panics => Parsed::Panics,
        },
        Parsed::Fails(m, e, s1) => Parsed::Fails(m, e, s1),
        Parsed::Panics => Parsed::Panics,
    }
}

/// What follows the files: the output list and the steps.
pub open spec fn body_spec(src: Seq<char>, s: ScanState) -> Parsed<(Seq<FormatView>, Seq<Seq<InstrView>>)> {
    match output_list_spec(src, s) {
        Parsed::Gives(outs, s1) => match steps_spec(src, s1, Seq::empty(), None) {
            Parsed::Gives(steps, s2) => Parsed::Gives((outs, steps), s2),
            Parsed::Fails(m, e, s2) => Parsed::Fails(m, e, s2),
            Parsed::Panics => Parsed::Panics,
        },
        Parsed::Fails(m, e, s1) => Parsed::Fails(m, e, s1),
        Parsed::Panics => Parsed::Panics,
    }
}

/// A whole script: `load` (an identifier, so that `load` can also name a
/// port), the generics, the files, the output list and the steps.
pub open spec fn script_spec(src: Seq<char>, s: ScanState) -> Parsed<ScriptView> {
    match consume_spec(src, s, TokenType::Identifier) {
        Parsed::Gives(load, s1) => if load.1 != "load"@ {
            Parsed::Panics
        } else {
            match generics_spec(src, s1) {
                Parsed::Gives(generics, s2) => match files_spec(src, s2) {
                    Parsed::Gives(files, s3) => match body_spec(src, s3) {
                        Parsed::Gives(body, s4) => Parsed::Gives(
                            ScriptView {
                                hdl_file: files.0,
                                output_file: files.1,
                                compare_file: files.2,
                                output_list: body.0,
                                steps: body.1,
                                generics,
                            },
                            s4,
                        ),
                        Parsed::Fails(m, e, s4) => Parsed::Fails(m, e, s4),
                        Parsed::Panics => Parsed::Panics,
                    },
                    Parsed::Fails(m, e, s3) => Parsed::Fails(m, e, s3),
                    Parsed::Panics => Parsed::Panics,
                },
                Parsed::Fails(m, e, s2) => Parsed::Fails(m, e, s2),
                Parsed::Panics => Parsed::Panics,
            }
        },
        _ => Parsed::Panics,
    }
}

// ---------------------------------------------------------------------------
// Views of parsed values.
// ---------------------------------------------------------------------------

/// An instruction as a value.
pub open spec fn instr_view(i: Instruction) -> InstrView {
    match i {
        Instruction::SetPort(port, v) => InstrView::SetPort(port@, v.number_system, v.value@),
        Instruction::Eval => InstrView::Eval,
        Instruction::Output => InstrView::Output,
        Instruction::Tick => InstrView::Tick,
        Instruction::Tock => InstrView::Tock,
    }
}

/// Instructions as values.
pub open spec fn instrs_view(v: Seq<Instruction>) -> Seq<InstrView> {
    v.map_values(|i: Instruction| instr_view(i))
}

/// Steps as values.
pub open spec fn steps_view(v: Seq<Step>) -> Seq<Seq<InstrView>> {
    v.map_values(|st: Step| instrs_view(st.instructions@))
}

/// A column of the output table as a value.
pub open spec fn format_view(f: OutputFormat) -> FormatView {
    FormatView {
        port: f.port_name@,
        number_system: f.number_system,
        space_before: f.space_before,
        output_columns: f.output_columns,
        space_after: f.space_after,
    }
}

/// Columns as values.
pub open spec fn formats_view(v: Seq<OutputFormat>) -> Seq<FormatView> {
    v.map_values(|f: OutputFormat| format_view(f))
}

/// A script as a value.
pub open spec fn script_view(ts: TestScript) -> ScriptView {
    ScriptView {
        hdl_file: ts.hdl_file@,
        output_file: ts.output_file@,
        compare_file: ts.compare_file@,
        output_list: formats_view(ts.output_list@),
        steps: steps_view(ts.steps@),
        generics: ts.generics@,
    }
}

/// `e` is a test-script parse error with message `msg` at token `t` of the
/// script at `path`.
pub open spec fn is_parse_error(e: N2VError, msg: Seq<char>, t: TestToken, path: String) -> bool {
    &&& e.msg@ == msg
    &&& e.kind matches ErrorKind::TestParseError(tok) && test_token_view(tok) == t && tok.path == path
}

/// The result `r` and the final state `fin` are those of the outcome `p`,
/// with `view` taking a parsed value to its view.
pub open spec fn agrees<T, V>(
    p: Parsed<V>,
    r: Result<T, N2VError>,
    view: spec_fn(T) -> V,
    fin: ScanState,
    path: String,
) -> bool {
    match p {
        Parsed::Panics => false,
        Parsed::Fails(m, t, s) => fin == s && (r matches Err(e) && is_parse_error(e, m, t, path)),
        Parsed::Gives(v, s) => fin == s && (r matches Ok(x) && view(x) == v),
    }
}

/// The state of a scanner.
pub open spec fn state_of(sc: TestScanner) -> ScanState {
    ScanState {
        pos: sc.pos(),
        line: sc.cur_line() as int,
        peeked: match sc.peeked() {
            Some(t) => Some(test_token_view(t)),
            None => None,
        },
    }
}

/// Parses a test script from the tokens of its scanner.
pub struct TestParser {
    pub scanner: TestScanner,
}

/// The name of a token type, as messages give it.
fn token_type_string(tt: TokenType) -> (s: &'static str)
    ensures
        s@ == token_type_name(tt),
{
    match tt {
        TokenType::OutputFile => "OutputFile",
        TokenType::CompareTo => "CompareTo",
        TokenType::OutputList => "OutputList",
        TokenType::SetCommand => "Set",
        TokenType::Identifier => "Identifier",
        TokenType::BinaryFormatSpecifier => "BinaryFormatSpecifier",
        TokenType::DecimalFormatSpecifier => "DecimalFormatSpecifier",
        TokenType::HexFormatSpecifier => "HexFormatSpecifier",
        TokenType::StringFormatSpecifier => "StringFormatSpecifier",
        TokenType::Number => "Number",
        TokenType::Dot => "Dot",
        TokenType::Comma => "Comma",
        TokenType::Semicolon => "Semicolon",
        TokenType::Tick => "Tick",
        TokenType::Tock => "Tock",
        TokenType::Output => "Output",
        TokenType::Eval => "Eval",
        TokenType::LeftAngle => "LeftAngle",
        TokenType::RightAngle => "RightAngle",
        TokenType::Eof => "Eof",
    }
}

impl TestParser {
    /// The scanner is well formed, and a token it has scanned ahead carries
    /// its path.
    pub open spec fn ready(&self) -> bool {
        &&& self.scanner.wf()
        &&& (self.scanner.peeked() matches Some(t) ==> t.path == self.scanner.src_path())
    }

    /// The source text.
    pub open spec fn src(&self) -> Seq<char> {
        self.scanner.source()
    }

    /// Where the parser stands.
    pub open spec fn state(&self) -> ScanState {
        state_of(self.scanner)
    }

    /// The path of the script.
    pub open spec fn path(&self) -> String {
        self.scanner.src_path()
    }

    /// A parser that reads the tokens of `scanner`.
    pub fn new(scanner: TestScanner) -> (r: TestParser)
        ensures
            r.scanner == scanner,
    {
        TestParser { scanner }
    }

    /// Parses the whole script. `Err` where a token of the wrong type, or the
    /// end of the text, stands where the grammar asks for a comma, a dot, a
    /// semicolon or a keyword; the error then carries that token.
    pub fn parse(&mut self) -> (r: Result<TestScript, N2VError>)
        requires
            old(self).ready(),
            script_spec(old(self).src(), old(self).state()) !is Panics,
        ensures
            final(self).ready(),
            final(self).src() == old(self).src(),
            final(self).path() == old(self).path(),
            agrees(script_spec(old(self).src(), old(self).state()), r, |ts: TestScript| script_view(ts), final(self).state(), old(self).path()),
            r matches Ok(ts) ==> ts.path == Some(old(self).path()),
    {
        self.test_script()
    }

    /// Reads the next token.
    fn next_token(&mut self) -> (r: Option<Token>)
        requires
            old(self).ready(),
            next_tok(old(self).src(), old(self).state()) is Some,
        ensures
            final(self).ready(),
            final(self).src() == old(self).src(),
            final(self).path() == old(self).path(),
            ({
                let (t, s1) = next_tok(old(self).src(), old(self).state()).unwrap();
                &&& final(self).state() == s1
                &&& match r {
                    Some(x) => t == Some(test_token_view(x)) && x.path == old(self).path(),
                    None => t is None,
                }
            }),
    {
        self.scanner.scan_token()
    }

    /// Scans the next token ahead and leaves it to be read again.
    fn peek_token(&mut self) -> (r: Option<Token>)
        requires
            old(self).ready(),
            peek_tok(old(self).src(), old(self).state()) is Some,
        ensures
            final(self).ready(),
            final(self).src() == old(self).src(),
            final(self).path() == old(self).path(),
            ({
                let (t, s1) = peek_tok(old(self).src(), old(self).state()).unwrap();
                &&& final(self).state() == s1
                &&& match r {
                    Some(x) => t == Some(test_token_view(x)) && x.path == old(self).path(),
                    None => t is None,
                }
            }),
    {
        self.scanner.peek()
    }

    /// Reads a token of type `tt`.
    fn consume(&mut self, tt: TokenType) -> (r: Result<Token, N2VError>)
        requires
            old(self).ready(),
            consume_spec(old(self).src(), old(self).state(), tt) !is Panics,
        ensures
            final(self).ready(),
            final(self).src() == old(self).src(),
            final(self).path() == old(self).path(),
            agrees(consume_spec(old(self).src(), old(self).state(), tt), r, |t: Token| test_token_view(t), final(self).state(), old(self).path()),
            r matches Ok(t) ==> t.path == old(self).path(),
    {
        let t = self.next_token();
        match t {
            None => {
                let mut msg = String::new();
                push_str(&mut msg, "Early end of file expected ");
                push_str(&mut msg, token_type_string(tt));
                Err(N2VError {
                    msg,
                    kind: ErrorKind::TestParseError(Token {
                        lexeme: String::new(),
                        path: self.scanner.source_path(),
                        line: self.scanner.current_line(),
                        token_type: TokenType::Eof,
                    }),
                })
            },
            Some(t) => {
                if t.token_type == tt {
                    Ok(t)
                } else {
                    let mut msg = String::new();
                    push_str(&mut msg, "Expected token type ");
                    push_str(&mut msg, token_type_string(tt));
                    push_str(&mut msg, ", found ");
                    push_str(&mut msg, token_type_string(t.token_type));
                    push_str(&mut msg, " (");
                    push_str(&mut msg, t.lexeme.as_str());
                    push_str(&mut msg, ")");
                    Err(N2VError { msg, kind: ErrorKind::TestParseError(t) })
                }
            },
        }
    }

    /// Reads a number token and its value.
    fn number(&mut self) -> (r: usize)
        requires
            old(self).ready(),
            number_spec(old(self).src(), old(self).state()) is Some,
        ensures
            final(self).ready(),
            final(self).src() == old(self).src(),
            final(self).path() == old(self).path(),
            number_spec(old(self).src(), old(self).state()) == Some((r, final(self).state())),
    {
        let t = self.consume(TokenType::Number).unwrap();
        parse_usize(t.lexeme.as_str()).unwrap()
    }

    /// Reads a whole script.
    fn test_script(&mut self) -> (r: Result<TestScript, N2VError>)
        requires
            old(self).ready(),
            script_spec(old(self).src(), old(self).state()) !is Panics,
        ensures
            final(self).ready(),
            final(self).src() == old(self).src(),
            final(self).path() == old(self).path(),
            agrees(script_spec(old(self).src(), old(self).state()), r, |ts: TestScript| script_view(ts), final(self).state(), old(self).path()),
            r matches Ok(ts) ==> ts.path == Some(old(self).path()),
    {
        let load = self.consume(TokenType::Identifier).unwrap();
        proof {
            reveal_strlit("load");
        }
        if !crate::keys::key_eq(load.lexeme.as_str(), "load") {
            // The precondition rules this out: the script starts with `load`.
            proof {
                assert(load.lexeme@ != "load"@);
            }
            assert(false);
        }
        let generics = match self.generics() {
            Ok(g) => g,
            Err(e) => return Err(e),
        };
        let hdl_file = self.consume(TokenType::Identifier).unwrap().lexeme;
        if let Err(e) = self.consume(TokenType::Comma) {
            return Err(e);
        }
        if let Err(e) = self.consume(TokenType::OutputFile) {
            return Err(e);
        }
        let output_file = self.consume(TokenType::Identifier).unwrap().lexeme;
        if let Err(e) = self.consume(TokenType::Comma) {
            return Err(e);
        }
        if let Err(e) = self.consume(TokenType::CompareTo) {
            return Err(e);
        }
        let compare_file = self.consume(TokenType::Identifier).unwrap().lexeme;
        if let Err(e) = self.consume(TokenType::Comma) {
            return Err(e);
        }
        let output_list = match self.output_list() {
            Ok(o) => o,
            Err(e) => return Err(e),
        };
        let steps = match self.steps() {
            Ok(st) => st,
            Err(e) => return Err(e),
        };
        Ok(TestScript {
            path: Some(self.scanner.source_path()),
            hdl_file,
            compare_file,
            output_file,
            output_list,
            steps,
            generics,
        })
    }

    /// Reads the generics `<n, m, ...>`, if the next token opens them.
    fn generics(&mut self) -> (r: Result<Vec<usize>, N2VError>)
        requires
            old(self).ready(),
            generics_spec(old(self).src(), old(self).state()) !is Panics,
        ensures
            final(self).ready(),
            final(self).src() == old(self).src(),
            final(self).path() == old(self).path(),
            agrees(generics_spec(old(self).src(), old(self).state()), r, |v: Vec<usize>| v@, final(self).state(), old(self).path()),
    {
        let ghost src = self.src();
        let ghost target = generics_spec(src, self.state());
        proof {
            lemma_tok_progress(src, self.state());
        }
        let first = self.peek_token();
        if first.unwrap().token_type != TokenType::LeftAngle {
            return Ok(Vec::new());
        }
        if let Err(e) = self.consume(TokenType::LeftAngle) {
            return Err(e);
        }
        let mut res: Vec<usize> = Vec::new();
        loop
            invariant
                self.ready(),
                self.src() == src,
                src == old(self).src(),
                self.path() == old(self).path(),
                target == generics_spec(old(self).src(), old(self).state()),
                target !is Panics,
                generics_rest(src, self.state(), res@) == target,
            decreases measure(src, self.state()),
        {
            proof {
                lemma_tok_progress(src, self.state());
            }
            let t = self.next_token().unwrap();
            if t.token_type == TokenType::Number {
                let val = parse_usize(t.lexeme.as_str()).unwrap();
                res.push(val);
            } else if t.token_type == TokenType::Comma {
            } else {
                // The precondition leaves only `>` here.
                return Ok(res);
            }
        }
    }

    /// Reads the steps, up to the end of the text.
    fn steps(&mut self) -> (r: Result<Vec<Step>, N2VError>)
        requires
            old(self).ready(),
            steps_spec(old(self).src(), old(self).state(), Seq::empty(), None) !is Panics,
        ensures
            final(self).ready(),
            final(self).src() == old(self).src(),
            final(self).path() == old(self).path(),
            agrees(steps_spec(old(self).src(), old(self).state(), Seq::empty(), None), r, |v: Vec<Step>| steps_view(v@), final(self).state(), old(self).path()),
    {
        let ghost src = self.src();
        let ghost target = steps_spec(src, self.state(), Seq::empty(), None);
        let mut res: Vec<Step> = Vec::new();
        assert(steps_view(res@) =~= Seq::empty());
        loop
            invariant
                self.ready(),
                self.src() == src,
                src == old(self).src(),
                self.path() == old(self).path(),
                target == steps_spec(old(self).src(), old(self).state(), Seq::empty(), None),
                target !is Panics,
                steps_spec(src, self.state(), steps_view(res@), None) == target,
            decreases measure(src, self.state()),
        {
            let ghost m0 = measure(src, self.state());
            proof {
                lemma_tok_progress(src, self.state());
            }
            if self.peek_token().is_none() {
                return Ok(res);
            }
            let mut instructions: Vec<Instruction> = Vec::new();
            assert(instrs_view(instructions@) =~= Seq::empty());
            loop
                invariant_except_break
                    self.ready(),
                    self.src() == src,
                    src == old(self).src(),
                    self.path() == old(self).path(),
                    target == steps_spec(old(self).src(), old(self).state(), Seq::empty(), None),
                    target !is Panics,
                    steps_spec(src, self.state(), steps_view(res@), Some(instrs_view(instructions@))) == target,
                    measure(src, self.state()) <= m0,
                    instructions.len() > 0 ==> measure(src, self.state()) < m0,
                ensures
                    self.ready(),
                    self.src() == src,
                    src == old(self).src(),
                    self.path() == old(self).path(),
                    steps_spec(src, self.state(), steps_view(res@).push(instrs_view(instructions@)), None) == target,
                    measure(src, self.state()) < m0,
                decreases measure(src, self.state()),
            {
                let ghost s0 = self.state();
                proof {
                    lemma_tok_progress(src, s0);
                    lemma_instruction_progress(src, s0);
                }
                let tok = self.next_token().unwrap();
                let instruction = if tok.token_type == TokenType::SetCommand {
                    self.set()
                } else if tok.token_type == TokenType::Eval {
                    self.eval()
                } else if tok.token_type == TokenType::Output {
                    self.output()
                } else if tok.token_type == TokenType::Tick {
                    Instruction::Tick
                } else {
                    // The precondition leaves only `tock` here.
                    Instruction::Tock
                };
                assert(instruction_spec(src, s0) == Parsed::Gives(instr_view(instruction), self.state()));
                let ghost before = instrs_view(instructions@);
                instructions.push(instruction);
                assert(instrs_view(instructions@) =~= before.push(instr_view(instruction)));
                let ghost s1 = self.state();
                proof {
                    lemma_tok_progress(src, s1);
                    lemma_consume_progress(src, peek_tok(src, s1).unwrap().1, TokenType::Semicolon);
                }
                if self.peek_token().unwrap().token_type == TokenType::Comma {
                    if let Err(e) = self.consume(TokenType::Comma) {
                        return Err(e);
                    }
                } else {
                    if let Err(e) = self.consume(TokenType::Semicolon) {
                        return Err(e);
                    }
                    break;
                }
            }
            let ghost before = steps_view(res@);
            res.push(Step { instructions });
            assert(steps_view(res@) =~= before.push(instrs_view(instructions@)));
        }
    }

    /// Reads the rest of `set port value` after `set`.
    fn set(&mut self) -> (r: Instruction)
        requires
            old(self).ready(),
            set_spec(old(self).src(), old(self).state()) !is Panics,
        ensures
            final(self).ready(),
            final(self).src() == old(self).src(),
            final(self).path() == old(self).path(),
            set_spec(old(self).src(), old(self).state()) == Parsed::Gives(instr_view(r), final(self).state()),
    {
        let ghost src = self.src();
        let port = self.consume(TokenType::Identifier).unwrap().lexeme;
        proof {
            lemma_tok_progress(src, self.state());
        }
        let format = self.peek_token().unwrap().token_type;
        let number_system = if format == TokenType::Number {
            NumberSystem::Decimal
        } else if format == TokenType::BinaryFormatSpecifier {
            self.next_token();
            NumberSystem::Binary
        } else {
            // The precondition leaves only `%X` here.
            self.next_token();
            NumberSystem::Hex
        };
        let value = self.consume(TokenType::Number).unwrap().lexeme;
        Instruction::SetPort(port, InputValue { number_system, value })
    }

    /// The instruction `eval`.
    fn eval(&mut self) -> (r: Instruction)
        ensures
            r is Eval,
            *final(self) == *old(self),
    {
        Instruction::Eval
    }

    /// The instruction `output`.
    fn output(&mut self) -> (r: Instruction)
        ensures
            r is Output,
            *final(self) == *old(self),
    {
        Instruction::Output
    }

    /// Reads `output-list` and its columns, up to the `;`.
    fn output_list(&mut self) -> (r: Result<Vec<OutputFormat>, N2VError>)
        requires
            old(self).ready(),
            output_list_spec(old(self).src(), old(self).state()) !is Panics,
        ensures
            final(self).ready(),
            final(self).src() == old(self).src(),
            final(self).path() == old(self).path(),
            agrees(output_list_spec(old(self).src(), old(self).state()), r, |v: Vec<OutputFormat>| formats_view(v@), final(self).state(), old(self).path()),
    {
        let ghost src = self.src();
        let ghost target = output_list_spec(src, self.state());
        let mut res: Vec<OutputFormat> = Vec::new();
        if let Err(e) = self.consume(TokenType::OutputList) {
            return Err(e);
        }
        assert(formats_view(res@) =~= Seq::empty());
        loop
            invariant
                self.ready(),
                self.src() == src,
                src == old(self).src(),
                self.path() == old(self).path(),
                target == output_list_spec(old(self).src(), old(self).state()),
                target !is Panics,
                outputs_rest(src, self.state(), formats_view(res@)) == target,
            decreases measure(src, self.state()),
        {
            let ghost s0 = self.state();
            proof {
                lemma_tok_progress(src, s0);
            }
            let t = self.next_token().unwrap();
            if t.token_type == TokenType::Identifier {
                let ghost s1 = self.state();
                proof {
                    lemma_format_progress(src, s1, t.lexeme@);
                    lemma_tok_progress(src, s1);
                }
                let spec_tok = self.next_token().unwrap();
                let number_system = if spec_tok.token_type == TokenType::BinaryFormatSpecifier {
                    NumberSystem::Binary
                } else if spec_tok.token_type == TokenType::DecimalFormatSpecifier {
                    NumberSystem::Decimal
                } else if spec_tok.token_type == TokenType::HexFormatSpecifier {
                    NumberSystem::Hex
                } else {
                    // The precondition leaves only `%S` here.
                    NumberSystem::String
                };
                let space_before = self.number();
                if let Err(e) = self.consume(TokenType::Dot) {
                    return Err(e);
                }
                let output_columns = self.number();
                if let Err(e) = self.consume(TokenType::Dot) {
                    return Err(e);
                }
                let space_after = self.number();
                let f = OutputFormat {
                    port_name: t.lexeme,
                    number_system,
                    space_before,
                    output_columns,
                    space_after,
                };
                let ghost before = formats_view(res@);
                res.push(f);
                assert(formats_view(res@) =~= before.push(format_view(f)));
            } else {
                // The precondition leaves only `;` here.
                return Ok(res);
            }
        }
    }
}

} // verus!
