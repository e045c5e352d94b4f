//! Values in test scripts and compare files as bits. Up to 16 bits.
use crate::busmap::{BusMap, covers, write_bits};
use crate::circuit::{Circuit, Kind, Node, Values, circuit_wf, eval_node, inputs_given, lemma_ports_shape, lemma_wf_shape, missing_inputs_msg, port_values, ports_wf, same_shape, set_inputs, tick_vals};
use crate::chars::{whitespace, is_whitespace};
use crate::error::{ErrorKind, N2VError};
use crate::fmt::{digits_value, push_char, push_str};
use crate::simulator::{Bus, Port};
use crate::strmap::StrMap;
use crate::test_parser::{InputValue, Instruction, NumberSystem, OutputFormat, Step, TestScript};
use bitvec::field::BitField;
use bitvec::order::Msb0;
use bitvec::view::BitView;
use vstd::prelude::*;

verus! {

/// Bit `j` of a 16-bit word, counting from the least significant bit.
pub open spec fn word_bit(w: u16, j: int) -> bool {
    (w >> (j as u16)) & 1u16 == 1u16
}

/// Wraps the `bitvec` calls that store a 16-bit integer in a one-element
/// `u16` array through an `Msb0` view (`BitField::store_le` on the full
/// element, which stores the value itself), and read the bits back through
/// the same view: bit `i` of the result is bit `15 - i` of the word, the most
/// significant first.
#[verifier::external_body]
fn i16_msb_bits(num: i16) -> (r: Vec<bool>)
    ensures
        r@.len() == 16,
        forall|i: int| 0 <= i < 16 ==> #[trigger] r@[i] == word_bit(num as u16, 15 - i),
{
    let mut raw = [0u16; 1];
    raw.view_bits_mut::<Msb0>().store_le(num);
    raw.view_bits::<Msb0>().to_bitvec().into_iter().collect()
}

/// The value of a decimal integer with an optional sign, where it fits an
/// `i16`.
pub open spec fn i16_value(s: Seq<char>) -> Option<int> {
    if s.len() > 0 && s[0] == '-' {
        match digits_value(s.drop_first()) {
            Some(v) => if v <= 32768 { Some(-(v as int)) } else { None },
            None => None,
        }
    } else if s.len() > 0 && s[0] == '+' {
        match digits_value(s.drop_first()) {
            Some(v) => if v <= 32767 { Some(v as int) } else { None },
            None => None,
        }
    } else {
        match digits_value(s) {
            Some(v) => if v <= 32767 { Some(v as int) } else { None },
            None => None,
        }
    }
}

/// The magnitude of the ASCII digits of `s` from index `start` on, where it
/// is at most `limit`.
fn digits_upto(s: &str, start: usize, limit: u32) -> (r: Option<u32>)
    requires
        start <= s@.len(),
        limit <= 65536,
    ensures
        match r {
            Some(v) => digits_value(s@.skip(start as int)) == Some(v as nat) && v <= limit,
            None => digits_value(s@.skip(start as int)) is None || digits_value(s@.skip(start as int)).unwrap() > limit,
        },
{
    let n = s.unicode_len();
    if start == n {
        return None;
    }
    let ghost t = s@.skip(start as int);
    let mut v: u32 = 0;
    let mut i: usize = start;
    while i < n
        invariant
            n == s@.len(),
            start < n,
            start <= i <= n,
            t == s@.skip(start as int),
            limit <= 65536,
            v <= limit,
            i > start ==> digits_value(t.subrange(0, i - start)) == Some(v as nat),
            i == start ==> v == 0,
        decreases n - i,
    {
        let c = s.get_char(i);
        assert(t.subrange(0, i - start + 1).last() == c);
        assert(t.subrange(0, i - start + 1).drop_last() =~= t.subrange(0, i - start));
        if !('0' <= c && c <= '9') {
            proof {
                lemma_digits_prefix_none_at(t, i - start + 1);
            }
            return None;
        }
        let d = (c as u32 - '0' as u32);
        if v * 10 + d > limit {
            proof {
                lemma_digits_prefix_big_at(t, i - start + 1, v as nat, d as nat, limit as nat);
            }
            return None;
        }
        v = v * 10 + d;
        i = i + 1;
    }
    assert(t.subrange(0, n - start) =~= t);
    Some(v)
}

/// A non-digit in a prefix makes the whole not a numeral.
proof fn lemma_digits_prefix_none_at(s: Seq<char>, k: int)
    requires
        0 < k <= s.len(),
        digits_value(s.subrange(0, k)) is None,
    ensures
        digits_value(s) is None,
    decreases s.len() - k,
{
    if k < s.len() {
        assert(s.subrange(0, k + 1).drop_last() =~= s.subrange(0, k));
        lemma_digits_prefix_none_at(s, k + 1);
    } else {
        assert(s.subrange(0, k) =~= s);
    }
}

/// A prefix worth more than `limit` makes the whole worth more.
proof fn lemma_digits_prefix_big_at(s: Seq<char>, k: int, v: nat, d: nat, limit: nat)
    requires
        0 < k <= s.len(),
        k > 1 ==> digits_value(s.subrange(0, k - 1)) == Some(v),
        k == 1 ==> v == 0,
        crate::fmt::digit_value(s[k - 1]) == Some(d),
        v * 10 + d > limit,
    ensures
        digits_value(s) is None || digits_value(s).unwrap() > limit,
    decreases s.len() - k,
{
    let p = s.subrange(0, k);
    assert(p.last() == s[k - 1]);
    assert(p.drop_last() =~= s.subrange(0, k - 1));
    assert(digits_value(p) == Some(v * 10 + d));
    lemma_digits_grow_to(s, k, v * 10 + d, limit);
}

/// Extending a numeral does not make it smaller.
proof fn lemma_digits_grow_to(s: Seq<char>, k: int, w: nat, limit: nat)
    requires
        0 < k <= s.len(),
        digits_value(s.subrange(0, k)) == Some(w),
        w > limit,
    ensures
        digits_value(s) is None || digits_value(s).unwrap() > limit,
    decreases s.len() - k,
{
    if k < s.len() {
        let q = s.subrange(0, k + 1);
        assert(q.drop_last() =~= s.subrange(0, k));
        assert(q.last() == s[k]);
        match digits_value(q) {
            Some(w2) => {
                assert(w2 >= w);
                lemma_digits_grow_to(s, k + 1, w2, limit);
            },
            None => {
                lemma_digits_prefix_none_at(s, k + 1);
            },
        }
    } else {
        assert(s.subrange(0, k) =~= s);
    }
}

/// Parses a decimal `i16` with an optional sign, as `str::parse::<i16>` does.
pub fn parse_i16(s: &str) -> (r: Option<i16>)
    ensures
        match i16_value(s@) {
            Some(v) => r == Some(v as i16),
            None => r is None,
        },
{
    let n = s.unicode_len();
    if n > 0 && s.get_char(0) == '-' {
        match digits_upto(s, 1, 32768) {
            Some(v) => {
                assert(s@.skip(1) =~= s@.drop_first());
                let r = (0i32 - v as i32) as i16;
                Some(r)
            },
            None => {
                assert(s@.skip(1) =~= s@.drop_first());
                None
            },
        }
    } else if n > 0 && s.get_char(0) == '+' {
        match digits_upto(s, 1, 32767) {
            Some(v) => {
                assert(s@.skip(1) =~= s@.drop_first());
                Some(v as i16)
            },
            None => {
                assert(s@.skip(1) =~= s@.drop_first());
                None
            },
        }
    } else {
        match digits_upto(s, 0, 32767) {
            Some(v) => {
                assert(s@.skip(0) =~= s@);
                Some(v as i16)
            },
            None => {
                assert(s@.skip(0) =~= s@);
                None
            },
        }
    }
}

/// The bit that a binary digit stands for.
pub open spec fn binary_digit(c: char) -> bool {
    c == '1'
}

/// An input written in number system `ns` as `v` can be turned into bits: a
/// decimal that fits an `i16`, or binary digits. Hexadecimal and string inputs
/// are not supported.
pub open spec fn input_ok_of(ns: NumberSystem, v: Seq<char>) -> bool {
    match ns {
        NumberSystem::Decimal => i16_value(v) is Some,
        NumberSystem::Binary => forall|i: int| 0 <= i < v.len() ==> (#[trigger] v[i] == '0' || v[i] == '1'),
        _ => false,
    }
}

/// A test input can be turned into bits.
pub open spec fn input_ok(input: InputValue) -> bool {
    input_ok_of(input.number_system, input.value@)
}

/// The 16 bits of a decimal value as a two's-complement word, most
/// significant first.
pub open spec fn decimal_bits(v: int) -> Seq<bool> {
    Seq::new(16, |i: int| word_bit((v as i16) as u16, 15 - i))
}

/// The bits of an input written in number system `ns` as `v`, most
/// significant first: a decimal as a 16-bit two's-complement word, binary
/// digits as written.
pub open spec fn input_bits_of(ns: NumberSystem, v: Seq<char>) -> Seq<bool> {
    match ns {
        NumberSystem::Decimal => decimal_bits(i16_value(v).unwrap()),
        _ => v.map_values(|c: char| binary_digit(c)),
    }
}

/// The bits of a test input, most significant first.
pub open spec fn input_bits(input: InputValue) -> Seq<bool> {
    input_bits_of(input.number_system, input.value@)
}

/// The bits of a test input, most significant first.
pub fn test_input_to_bitvec(input: &InputValue) -> (r: Vec<bool>)
    requires
        input_ok(*input),
    ensures
        r@ == input_bits(*input),
{
    match input.number_system {
        NumberSystem::Decimal => {
            let num = parse_i16(input.value.as_str()).unwrap();
            let r = i16_msb_bits(num);
            assert(r@ =~= decimal_bits(i16_value(input.value@).unwrap()));
            r
        },
        _ => {
            let s = input.value.as_str();
            let n = s.unicode_len();
            let mut bools: Vec<bool> = Vec::new();
            let mut i: usize = 0;
            while i < n
                invariant
                    i <= n,
                    n == s@.len(),
                    s@ == input.value@,
                    bools@ == s@.take(i as int).map_values(|c: char| binary_digit(c)),
                decreases n - i,
            {
                let c = s.get_char(i);
                bools.push(c == '1');
                assert(s@.take(i + 1) =~= s@.take(i as int).push(c));
                assert(bools@ =~= s@.take(i + 1).map_values(|c: char| binary_digit(c)));
                i = i + 1;
            }
            assert(s@.take(n as int) =~= s@);
            bools
        },
    }
}

/// Bits as known signal values.
pub fn bitvec_to_vecbool(bv: Vec<bool>) -> (r: Vec<Option<bool>>)
    ensures
        r@ == bv@.map_values(|b: bool| Some(b)),
{
    let mut res: Vec<Option<bool>> = Vec::new();
    let mut i: usize = 0;
    while i < bv.len()
        invariant
            i <= bv.len(),
            res@ == bv@.take(i as int).map_values(|b: bool| Some(b)),
        decreases bv.len() - i,
    {
        res.push(Some(bv[i]));
        assert(bv@.take(i + 1) =~= bv@.take(i as int).push(bv@[i as int]));
        assert(res@ =~= bv@.take(i + 1).map_values(|b: bool| Some(b)));
        i = i + 1;
    }
    assert(bv@.take(bv.len() as int) =~= bv@);
    res
}

/// The characters of `s` that are not white space, in order.
pub open spec fn without_whitespace(s: Seq<char>) -> Seq<char>
    decreases s.len(),
{
    if s.len() == 0 {
        Seq::empty()
    } else if whitespace(s.last()) {
        without_whitespace(s.drop_last())
    } else {
        without_whitespace(s.drop_last()).push(s.last())
    }
}

/// The number of bytes of the UTF-8 encoding of `c`.
pub open spec fn utf8_width(c: char) -> nat {
    if (c as u32) < 0x80 {
        1
    } else if (c as u32) < 0x800 {
        2
    } else if (c as u32) < 0x10000 {
        3
    } else {
        4
    }
}

/// The number of bytes of the UTF-8 encoding of `s`: what `str::len` gives.
pub open spec fn utf8_len(s: Seq<char>) -> nat
    decreases s.len(),
{
    if s.len() == 0 {
        0
    } else {
        utf8_len(s.drop_last()) + utf8_width(s.last())
    }
}

/// `c` is encoded in one byte, so that a byte offset next to it falls
/// between characters.
pub open spec fn single_byte(c: char) -> bool {
    (c as u32) < 0x80
}

/// The pieces of `s` between the `|` characters, as `str::split('|')` gives
/// them: one more piece than there are separators.
pub open spec fn split_bars(s: Seq<char>) -> Seq<Seq<char>>
    decreases s.len(),
{
    if s.len() == 0 {
        seq![Seq::empty()]
    } else {
        let r = split_bars(s.drop_last());
        if s.last() == '|' {
            r.push(Seq::empty())
        } else {
            r.update(r.len() - 1, r.last().push(s.last()))
        }
    }
}

/// What reading a compare file, or a part of one, comes to.
pub enum CompareOutcome<T> {
    /// A value cannot be read as bits, or a line names one signal twice with
    /// two widths, or a line cannot be cut at its first and last byte.
    Panics,
    Fails(Seq<char>, ErrorKind),
    Gives(T),
}

/// What the lines of a compare file are read against: the file's name as
/// messages show it, the number system of each column of the output list,
/// the signal names of the header line, and the widths of the chip's ports.
pub struct CompareFile {
    pub path: Seq<char>,
    pub formats: Seq<NumberSystem>,
    pub header: Seq<Seq<char>>,
    pub widths: Map<Seq<char>, usize>,
}

/// The message for a header line that is too short.
pub open spec fn short_header_text(path: Seq<char>) -> Seq<char> {
    "Header line for cmp file "@ + path + " is too short. The header line is the first line of the .cmp file."@
}

/// The message for a line that is too short.
pub open spec fn short_line_text(line: Seq<char>, path: Seq<char>) -> Seq<char> {
    "The line "@ + line + " in "@ + path + " is too short to be correct."@
}

/// The message for a line with more columns than the output list.
pub open spec fn extra_columns_text(line: Seq<char>, path: Seq<char>) -> Seq<char> {
    "The line "@ + line + " in "@ + path + " contains more columns than the test script output-list."@
}

/// The message for a line with more columns than the header line.
pub open spec fn extra_header_columns_text(line: Seq<char>, path: Seq<char>) -> Seq<char> {
    "The line "@ + line + " in "@ + path + " contains more columns than the header line."@
}

/// The message for a header signal that the chip does not have.
pub open spec fn unknown_port_text(name: Seq<char>) -> Seq<char> {
    "CMP / HDL mismatch. The .cmp file refers to port `"@ + name + "`, but the HDL file does not."@
}

/// The last `w` bits of `bits` (all of them where there are fewer), as known
/// values.
pub open spec fn tail_bits(bits: Seq<bool>, w: nat) -> Seq<Option<bool>> {
    let n = if w < bits.len() { w as int } else { bits.len() as int };
    bits.subrange(bits.len() - n, bits.len() as int).map_values(|b: bool| Some(b))
}

/// Reading column `i`, written `v`, of the line `line` into the values `m`
/// read so far from that line.
pub open spec fn column_step(
    m: Map<Seq<char>, Seq<Option<bool>>>,
    i: int,
    v: Seq<char>,
    line: Seq<char>,
    f: CompareFile,
) -> CompareOutcome<Map<Seq<char>, Seq<Option<bool>>>> {
    if i >= f.formats.len() {
        CompareOutcome::Fails(extra_columns_text(line, f.path), ErrorKind::Other)
    } else if f.formats[i] == NumberSystem::String || v.contains('*') {
        CompareOutcome::Gives(m)
    } else if !input_ok_of(f.formats[i], v) {
        CompareOutcome::Panics
    } else if i >= f.header.len() {
        CompareOutcome::Fails(extra_header_columns_text(line, f.path), ErrorKind::Other)
    } else if !f.widths.contains_key(f.header[i]) {
        CompareOutcome::Fails(unknown_port_text(f.header[i]), ErrorKind::Other)
    } else {
        let value = tail_bits(input_bits_of(f.formats[i], v), f.widths[f.header[i]] as nat);
        if m.contains_key(f.header[i]) && m[f.header[i]].len() != value.len() {
            CompareOutcome::Panics
        } else {
            CompareOutcome::Gives(m.insert(f.header[i], value))
        }
    }
}

/// Reading the columns `cols` of the line `line`, in order.
pub open spec fn columns_outcome(cols: Seq<Seq<char>>, line: Seq<char>, f: CompareFile) -> CompareOutcome<
    Map<Seq<char>, Seq<Option<bool>>>,
>
    decreases cols.len(),
{
    if cols.len() == 0 {
        CompareOutcome::Gives(Map::empty())
    } else {
        match columns_outcome(cols.drop_last(), line, f) {
            CompareOutcome::Gives(m) => column_step(m, cols.len() - 1, cols.last(), line, f),
            other => other,
        }
    }
}

/// Reading one line `l` after the lines whose values are `acc`: an empty
/// line is skipped; the others lose their white space and must keep at least
/// three bytes.
pub open spec fn line_step(acc: Seq<Map<Seq<char>, Seq<Option<bool>>>>, l: Seq<char>, f: CompareFile) -> CompareOutcome<
    Seq<Map<Seq<char>, Seq<Option<bool>>>>,
> {
    if l.len() == 0 {
        CompareOutcome::Gives(acc)
    } else {
        let line = without_whitespace(l);
        if utf8_len(line) < 3 {
            CompareOutcome::Fails(short_line_text(line, f.path), ErrorKind::Other)
        } else if !(single_byte(line[0]) && single_byte(line.last())) {
            CompareOutcome::Panics
        } else {
            match columns_outcome(split_bars(line.subrange(1, line.len() - 1)), line, f) {
                CompareOutcome::Gives(m) => CompareOutcome::Gives(acc.push(m)),
                CompareOutcome::Fails(msg, k) => CompareOutcome::Fails(msg, k),
                CompareOutcome::Panics => CompareOutcome::Panics,
            }
        }
    }
}

/// Reading the lines after the header, in order.
pub open spec fn lines_outcome(lines: Seq<Seq<char>>, f: CompareFile) -> CompareOutcome<Seq<Map<Seq<char>, Seq<Option<bool>>>>>
    decreases lines.len(),
{
    if lines.len() == 0 {
        CompareOutcome::Gives(Seq::empty())
    } else {
        match lines_outcome(lines.drop_last(), f) {
            CompareOutcome::Gives(acc) => line_step(acc, lines.last(), f),
            other => other,
        }
    }
}

/// Reading a compare file of lines `lines`: the header line names the
/// signals of the columns; each other line that is not empty gives the
/// expected values of one `output`.
pub open spec fn compare_outcome(
    lines: Seq<Seq<char>>,
    path: Seq<char>,
    formats: Seq<NumberSystem>,
    widths: Map<Seq<char>, usize>,
) -> CompareOutcome<Seq<Map<Seq<char>, Seq<Option<bool>>>>> {
    if lines.len() == 0 {
        CompareOutcome::Fails("Corrupt cmp file. Expected more data."@, ErrorKind::IOError)
    } else {
        let header = without_whitespace(lines[0]);
        if utf8_len(header) < 3 {
            CompareOutcome::Fails(short_header_text(path), ErrorKind::IOError)
        } else if !(single_byte(header[0]) && single_byte(header.last())) {
            CompareOutcome::Panics
        } else {
            lines_outcome(
                lines.drop_first(),
                CompareFile { path, formats, header: split_bars(header.subrange(1, header.len() - 1)), widths },
            )
        }
    }
}

/// A compare file's context from the values the reader is given.
pub open spec fn compare_file(path: Seq<char>, output_list: Seq<OutputFormat>, header: Seq<String>, ports: Map<Seq<char>, Port>) -> CompareFile {
    CompareFile {
        path,
        formats: output_list.map_values(|o: OutputFormat| o.number_system),
        header: header.map_values(|h: String| h@),
        widths: ports.map_values(|p: Port| p.width),
    }
}

/// The texts of vectors of characters.
pub open spec fn char_vecs_view(v: Seq<Vec<char>>) -> Seq<Seq<char>> {
    v.map_values(|x: Vec<char>| x@)
}

/// `str::split` gives at least one piece.
proof fn lemma_split_bars_nonempty(s: Seq<char>)
    ensures
        split_bars(s).len() >= 1,
    decreases s.len(),
{
    if s.len() > 0 {
        lemma_split_bars_nonempty(s.drop_last());
    }
}

/// The UTF-8 length of a prefix is at most that of the whole.
proof fn lemma_utf8_len_prefix(s: Seq<char>, k: int)
    requires
        0 <= k <= s.len(),
    ensures
        utf8_len(s.take(k)) <= utf8_len(s),
    decreases s.len(),
{
    if k < s.len() {
        assert(s.drop_last().take(k) =~= s.take(k));
        lemma_utf8_len_prefix(s.drop_last(), k);
    } else {
        assert(s.take(k) =~= s);
    }
}

/// Once reading the first `k` columns has not given a value, reading all of
/// them ends the same way.
proof fn lemma_columns_stop(cols: Seq<Seq<char>>, k: int, line: Seq<char>, f: CompareFile)
    requires
        0 <= k <= cols.len(),
        !(columns_outcome(cols.take(k), line, f) is Gives),
    ensures
        columns_outcome(cols, line, f) == columns_outcome(cols.take(k), line, f),
    decreases cols.len(),
{
    if k == cols.len() {
        assert(cols.take(k) =~= cols);
    } else {
        assert(cols.drop_last().take(k) =~= cols.take(k));
        lemma_columns_stop(cols.drop_last(), k, line, f);
    }
}

/// Once reading the first `k` lines has not given a value, reading all of
/// them ends the same way.
proof fn lemma_lines_stop(lines: Seq<Seq<char>>, k: int, f: CompareFile)
    requires
        0 <= k <= lines.len(),
        !(lines_outcome(lines.take(k), f) is Gives),
    ensures
        lines_outcome(lines, f) == lines_outcome(lines.take(k), f),
    decreases lines.len(),
{
    if k == lines.len() {
        assert(lines.take(k) =~= lines);
    } else {
        assert(lines.drop_last().take(k) =~= lines.take(k));
        lemma_lines_stop(lines.drop_last(), k, f);
    }
}

/// The characters of `s` that are not white space.
fn strip_whitespace(s: &str) -> (r: Vec<char>)
    ensures
        r@ == without_whitespace(s@),
{
    let n = s.unicode_len();
    let mut r: Vec<char> = Vec::new();
    let mut i: usize = 0;
    while i < n
        invariant
            n == s@.len(),
            i <= n,
            r@ == without_whitespace(s@.take(i as int)),
        decreases n - i,
    {
        let c = s.get_char(i);
        assert(s@.take(i + 1).drop_last() =~= s@.take(i as int));
        assert(s@.take(i + 1).last() == c);
        if !is_whitespace(c) {
            r.push(c);
        }
        i = i + 1;
    }
    assert(s@.take(n as int) =~= s@);
    r
}

/// The number of bytes of the UTF-8 encoding of `c`.
fn utf8_width_of(c: char) -> (r: u32)
    ensures
        r == utf8_width(c),
{
    let v = c as u32;
    if v < 0x80 {
        1
    } else if v < 0x800 {
        2
    } else if v < 0x10000 {
        3
    } else {
        4
    }
}

/// Whether the UTF-8 encoding of `v` has fewer than three bytes.
fn under_three_bytes(v: &Vec<char>) -> (r: bool)
    ensures
        r == (utf8_len(v@) < 3),
{
    let mut total: u32 = 0;
    let mut i: usize = 0;
    while i < v.len() && total < 3
        invariant
            i <= v.len(),
            total == utf8_len(v@.take(i as int)),
            total < 7,
        decreases v.len() - i,
    {
        assert(v@.take(i + 1).drop_last() =~= v@.take(i as int));
        total = total + utf8_width_of(v[i]);
        i = i + 1;
    }
    proof {
        lemma_utf8_len_prefix(v@, i as int);
        if i == v.len() {
            assert(v@.take(i as int) =~= v@);
        }
    }
    total < 3
}

/// The pieces between the `|` characters of `v` from index `from` to `to`.
fn split_bars_of(v: &Vec<char>, from: usize, to: usize) -> (r: Vec<Vec<char>>)
    requires
        from <= to <= v.len(),
    ensures
        char_vecs_view(r@) == split_bars(v@.subrange(from as int, to as int)),
{
    let ghost t = v@.subrange(from as int, to as int);
    let mut pieces: Vec<Vec<char>> = Vec::new();
    let mut cur: Vec<char> = Vec::new();
    let mut k: usize = from;
    assert(t.take(0) =~= Seq::<char>::empty());
    assert(char_vecs_view(pieces@).push(cur@) =~= split_bars(t.take(0)));
    while k < to
        invariant
            from <= k <= to <= v.len(),
            t == v@.subrange(from as int, to as int),
            char_vecs_view(pieces@).push(cur@) == split_bars(t.take(k - from)),
        decreases to - k,
    {
        let c = v[k];
        let ghost before = char_vecs_view(pieces@);
        proof {
            assert(t.take(k - from + 1).drop_last() =~= t.take(k - from));
            assert(t.take(k - from + 1).last() == c);
            lemma_split_bars_nonempty(t.take(k - from));
        }
        if c == '|' {
            let done = cur;
            pieces.push(done);
            cur = Vec::new();
            assert(char_vecs_view(pieces@) =~= before.push(done@));
            assert(char_vecs_view(pieces@).push(cur@) =~= split_bars(t.take(k - from + 1)));
        } else {
            cur.push(c);
            assert(char_vecs_view(pieces@).push(cur@) =~= split_bars(t.take(k - from + 1)));
        }
        k = k + 1;
    }
    assert(t.take(to - from) =~= t);
    let ghost before = char_vecs_view(pieces@);
    pieces.push(cur);
    assert(char_vecs_view(pieces@) =~= before.push(pieces@.last()@));
    pieces
}

/// A string of the characters of `v`.
fn string_of(v: &Vec<char>) -> (r: String)
    ensures
        r@ == v@,
{
    let mut s = String::new();
    let mut i: usize = 0;
    while i < v.len()
        invariant
            i <= v.len(),
            s@ == v@.take(i as int),
        decreases v.len() - i,
    {
        push_char(&mut s, v[i]);
        assert(s@ =~= v@.take(i + 1));
        i = i + 1;
    }
    assert(v@.take(v.len() as int) =~= v@);
    s
}

/// Whether `v` holds a `*`.
fn has_star(v: &Vec<char>) -> (r: bool)
    ensures
        r == v@.contains('*'),
{
    let mut i: usize = 0;
    while i < v.len()
        invariant
            i <= v.len(),
            forall|j: int| 0 <= j < i ==> v@[j] != '*',
        decreases v.len() - i,
    {
        if v[i] == '*' {
            assert(v@[i as int] == '*');
            return true;
        }
        i = i + 1;
    }
    false
}

/// The last `w` bits of `bits` (all of them where there are fewer), as known
/// values.
fn tail_bits_of(bits: &Vec<bool>, w: usize) -> (r: Vec<Option<bool>>)
    ensures
        r@ == tail_bits(bits@, w as nat),
{
    let n = if w < bits.len() { w } else { bits.len() };
    let start = bits.len() - n;
    let mut r: Vec<Option<bool>> = Vec::new();
    let mut i: usize = start;
    while i < bits.len()
        invariant
            start <= i <= bits.len(),
            start == bits.len() - n,
            r@ == bits@.subrange(start as int, i as int).map_values(|b: bool| Some(b)),
        decreases bits.len() - i,
    {
        r.push(Some(bits[i]));
        assert(r@ =~= bits@.subrange(start as int, i + 1).map_values(|b: bool| Some(b)));
        i = i + 1;
    }
    r
}

/// The message text `head + line + " in " + path + tail`.
fn line_message(head: &str, line: &Vec<char>, path: &str, tail: &str) -> (r: String)
    ensures
        r@ == head@ + line@ + " in "@ + path@ + tail@,
{
    let mut msg = String::new();
    push_str(&mut msg, head);
    let l = string_of(line);
    push_str(&mut msg, l.as_str());
    push_str(&mut msg, " in ");
    push_str(&mut msg, path);
    push_str(&mut msg, tail);
    msg
}

/// Reads the columns `cols` of one line (`line`, without its white space)
/// of a compare file into the expected values of its signals.
#[verifier::spinoff_prover]
fn read_columns(
    cols: &Vec<Vec<char>>,
    line: &Vec<char>,
    path: &str,
    output_list: &Vec<OutputFormat>,
    header: &Vec<String>,
    ports: &StrMap<Port>,
) -> (r: Result<BusMap, N2VError>)
    requires
        !(columns_outcome(char_vecs_view(cols@), line@, compare_file(path@, output_list@, header@, ports.map())) is Panics),
    ensures
        match columns_outcome(char_vecs_view(cols@), line@, compare_file(path@, output_list@, header@, ports.map())) {
            CompareOutcome::Gives(m) => r matches Ok(bm) && bm.view() == m,
            CompareOutcome::Fails(msg, k) => r matches Err(e) && e.msg@ == msg && e.kind == k,
            CompareOutcome::Panics => false,
        },
{
    let ghost f = compare_file(path@, output_list@, header@, ports.map());
    let ghost cv = char_vecs_view(cols@);
    let mut bm = BusMap::new();
    let mut i: usize = 0;
    assert(cv.take(0) =~= Seq::<Seq<char>>::empty());
    while i < cols.len()
        invariant
            i <= cols.len(),
            f == compare_file(path@, output_list@, header@, ports.map()),
            cv == char_vecs_view(cols@),
            !(columns_outcome(cv, line@, f) is Panics),
            columns_outcome(cv.take(i as int), line@, f) == CompareOutcome::Gives(bm.view()),
        decreases cols.len() - i,
    {
        let ghost m = bm.view();
        proof {
            assert(cv.take(i + 1).drop_last() =~= cv.take(i as int));
            assert(cv.take(i + 1).last() == cv[i as int]);
        }
        let ghost step = column_step(m, i as int, cv[i as int], line@, f);
        assert(columns_outcome(cv.take(i + 1), line@, f) == step);
        let v = &cols[i];
        if i >= output_list.len() {
            proof {
                lemma_columns_stop(cv, i + 1, line@, f);
            }
            let msg = line_message("The line ", line, path, " contains more columns than the test script output-list.");
            return Err(N2VError { msg, kind: ErrorKind::Other });
        }
        let ns = output_list[i].number_system;
        assert(f.formats[i as int] == ns);
        let skip = match ns {
            NumberSystem::String => true,
            _ => has_star(v),
        };
        if skip {
            i = i + 1;
        } else {
            proof {
                if !input_ok_of(ns, v@) {
                    lemma_columns_stop(cv, i + 1, line@, f);
                }
            }
            let input = InputValue { number_system: ns, value: string_of(v) };
            let bits = test_input_to_bitvec(&input);
            if i >= header.len() {
                proof {
                    lemma_columns_stop(cv, i + 1, line@, f);
                }
                let msg = line_message("The line ", line, path, " contains more columns than the header line.");
                return Err(N2VError { msg, kind: ErrorKind::Other });
            }
            let name = &header[i];
            assert(f.header[i as int] == name@);
            let width = match ports.get(name.as_str()) {
                None => {
                    proof {
                        lemma_columns_stop(cv, i + 1, line@, f);
                    }
                    let mut msg = String::new();
                    push_str(&mut msg, "CMP / HDL mismatch. The .cmp file refers to port `");
                    push_str(&mut msg, name.as_str());
                    push_str(&mut msg, "`, but the HDL file does not.");
                    return Err(N2VError { msg, kind: ErrorKind::Other });
                },
                Some(p) => p.width,
            };
            assert(f.widths[name@] == width);
            let value = tail_bits_of(&bits, width);
            let len = value.len();
            match bm.create_bus(name.as_str(), len) {
                Err(_) => {
                    proof {
                        lemma_columns_stop(cv, i + 1, line@, f);
                    }
                    assert(false);
                    return Err(N2VError { msg: String::new(), kind: ErrorKind::Other });
                },
                Ok(()) => {},
            }
            let ghost created = bm.view();
            let bus = Bus { name: name.clone(), range: Some(std::ops::Range { start: 0, end: len }) };
            bm.insert_option(&bus, value);
            proof {
                assert(created[name@].len() == len);
                assert(write_bits(created[name@], 0, len as int, tail_bits(bits@, width as nat)) =~= tail_bits(bits@, width as nat));
                assert(bm.view() =~= m.insert(name@, tail_bits(bits@, width as nat)));
            }
            i = i + 1;
        }
    }
    assert(cv.take(cols.len() as int) =~= cv);
    Ok(bm)
}

/// The number of lines of `lines` that are not empty.
pub open spec fn nonempty_lines(lines: Seq<Seq<char>>) -> nat
    decreases lines.len(),
{
    if lines.len() == 0 {
        0
    } else {
        nonempty_lines(lines.drop_last()) + if lines.last().len() == 0 { 0nat } else { 1nat }
    }
}

/// Reading the lines after the header gives one set of values per line that
/// is not empty.
proof fn lemma_lines_count(lines: Seq<Seq<char>>, f: CompareFile)
    requires
        lines_outcome(lines, f) is Gives,
    ensures
        lines_outcome(lines, f)->Gives_0.len() == nonempty_lines(lines),
    decreases lines.len(),
{
    if lines.len() > 0 {
        lemma_lines_count(lines.drop_last(), f);
    }
}

/// A compare file that is read gives one set of expected values for each
/// line after the header that is not empty.
pub proof fn lemma_one_map_per_line(
    lines: Seq<Seq<char>>,
    path: Seq<char>,
    formats: Seq<NumberSystem>,
    widths: Map<Seq<char>, usize>,
)
    requires
        compare_outcome(lines, path, formats, widths) is Gives,
    ensures
        compare_outcome(lines, path, formats, widths)->Gives_0.len() == nonempty_lines(lines.drop_first()),
{
    let header = without_whitespace(lines[0]);
    lemma_lines_count(
        lines.drop_first(),
        CompareFile { path, formats, header: split_bars(header.subrange(1, header.len() - 1)), widths },
    );
}

/// What reading the compare file of lines `lines` for the test script
/// `ts`, against a chip with ports `ports`, comes to.
pub open spec fn compare_lines_outcome(lines: Seq<String>, path: Seq<char>, ts: TestScript, ports: Map<Seq<char>, Port>) -> CompareOutcome<
    Seq<Map<Seq<char>, Seq<Option<bool>>>>,
> {
    compare_outcome(
        lines.map_values(|l: String| l@),
        path,
        ts.output_list@.map_values(|o: OutputFormat| o.number_system),
        ports.map_values(|p: Port| p.width),
    )
}

/// Reads the lines of a compare file.
#[verifier::spinoff_prover]
fn read_compare_lines(lines: &Vec<String>, path: &str, test_script: &TestScript, ports: &StrMap<Port>) -> (r: Result<Vec<BusMap>, N2VError>)
    requires
        !(compare_lines_outcome(lines@, path@, *test_script, ports.map()) is Panics),
    ensures
        match compare_lines_outcome(lines@, path@, *test_script, ports.map()) {
            CompareOutcome::Gives(maps) => r matches Ok(v) && v@.map_values(|b: BusMap| b.view()) == maps,
            CompareOutcome::Fails(msg, k) => r matches Err(e) && e.msg@ == msg && e.kind == k,
            CompareOutcome::Panics => false,
        },
{
    let ghost lv = lines@.map_values(|l: String| l@);
    if lines.len() == 0 {
        return Err(N2VError { msg: String::from_str("Corrupt cmp file. Expected more data."), kind: ErrorKind::IOError });
    }
    let header = strip_whitespace(lines[0].as_str());
    assert(lv[0] == lines@[0]@);
    if under_three_bytes(&header) {
        let mut msg = String::new();
        push_str(&mut msg, "Header line for cmp file ");
        push_str(&mut msg, path);
        push_str(&mut msg, " is too short. The header line is the first line of the .cmp file.");
        return Err(N2VError { msg, kind: ErrorKind::IOError });
    }
    if header.len() == 0 {
        assert(utf8_len(header@) == 0);
        assert(false);
    }
    let hn = header.len();
    proof {
        if !(single_byte(header@[0]) && single_byte(header@.last())) {
            assert(false);
        }
        if hn == 1 {
            assert(header@.drop_last().len() == 0);
                    assert(utf8_len(header@.drop_last()) == 0);
                    assert(header@.last() == header@[0]);
            assert(utf8_len(header@) == utf8_width(header@[0]));
        }
    }
    let pieces = split_bars_of(&header, 1, hn - 1);
    let mut port_order: Vec<String> = Vec::new();
    let mut j: usize = 0;
    while j < pieces.len()
        invariant
            j <= pieces.len(),
            port_order@.map_values(|h: String| h@) == char_vecs_view(pieces@).take(j as int),
        decreases pieces.len() - j,
    {
        let ghost before = port_order@.map_values(|h: String| h@);
        port_order.push(string_of(&pieces[j]));
        assert(port_order@.map_values(|h: String| h@) =~= before.push(pieces@[j as int]@));
        assert(char_vecs_view(pieces@).take(j + 1) =~= char_vecs_view(pieces@).take(j as int).push(pieces@[j as int]@));
        j = j + 1;
    }
    assert(char_vecs_view(pieces@).take(pieces.len() as int) =~= char_vecs_view(pieces@));
    let ghost f = compare_file(path@, test_script.output_list@, port_order@, ports.map());
    let ghost body = lv.drop_first();
    assert(f == CompareFile {
        path: path@,
        formats: test_script.output_list@.map_values(|o: OutputFormat| o.number_system),
        header: split_bars(header@.subrange(1, header@.len() - 1)),
        widths: ports.map().map_values(|p: Port| p.width),
    });
    assert(compare_lines_outcome(lines@, path@, *test_script, ports.map()) == lines_outcome(body, f));
    let mut res: Vec<BusMap> = Vec::new();
    let mut k: usize = 1;
    assert(body.take(0) =~= Seq::<Seq<char>>::empty());
    assert(res@.map_values(|b: BusMap| b.view()) =~= Seq::<Map<Seq<char>, Seq<Option<bool>>>>::empty());
    while k < lines.len()
        invariant
            1 <= k <= lines.len(),
            lv == lines@.map_values(|l: String| l@),
            body == lv.drop_first(),
            f == compare_file(path@, test_script.output_list@, port_order@, ports.map()),
            !(lines_outcome(body, f) is Panics),
            compare_lines_outcome(lines@, path@, *test_script, ports.map()) == lines_outcome(body, f),
            lines_outcome(body.take(k - 1), f) == CompareOutcome::Gives(res@.map_values(|b: BusMap| b.view())),
        decreases lines.len() - k,
    {
        let ghost acc = res@.map_values(|b: BusMap| b.view());
        proof {
            assert(body.take(k as int).drop_last() =~= body.take(k - 1));
            assert(body.take(k as int).last() == lines@[k as int]@);
        }
        assert(lines_outcome(body.take(k as int), f) == line_step(acc, lines@[k as int]@, f));
        let l = lines[k].as_str();
        if l.unicode_len() == 0 {
            k = k + 1;
        } else {
            let line = strip_whitespace(l);
            if under_three_bytes(&line) {
                proof {
                    lemma_lines_stop(body, k as int, f);
                }
                let msg = line_message("The line ", &line, path, " is too short to be correct.");
                return Err(N2VError { msg, kind: ErrorKind::Other });
            }
            if line.len() == 0 {
                assert(utf8_len(line@) == 0);
                assert(false);
            }
            let ln = line.len();
            proof {
                if !(single_byte(line@[0]) && single_byte(line@.last())) {
                    lemma_lines_stop(body, k as int, f);
                }
                if ln == 1 {
                    assert(line@.drop_last().len() == 0);
                    assert(utf8_len(line@.drop_last()) == 0);
                    assert(line@.last() == line@[0]);
                    assert(utf8_len(line@) == utf8_width(line@[0]));
                }
            }
            let cols = split_bars_of(&line, 1, ln - 1);
            proof {
                if columns_outcome(char_vecs_view(cols@), line@, f) is Panics {
                    lemma_lines_stop(body, k as int, f);
                }
            }
            match read_columns(&cols, &line, path, &test_script.output_list, &port_order, ports) {
                Ok(bm) => {
                    res.push(bm);
                    assert(res@.map_values(|b: BusMap| b.view()) =~= acc.push(bm.view()));
                },
                Err(e) => {
                    proof {
                        lemma_lines_stop(body, k as int, f);
                    }
                    return Err(e);
                },
            }
            k = k + 1;
        }
    }
    assert(body.take(lines.len() - 1) =~= body);
    Ok(res)
}

/// Reads a nand2tetris compare file, given as its lines, into the expected
/// values of each `output` of `test_script`: the header line names the signal
/// of each column, and each line that is not empty gives one set of values.
/// `path` is the file's name as messages show it. A column whose number
/// system is `String`, or whose value holds a `*`, is not checked; the other
/// values keep their lowest bits, as many as their port is wide. `Err` for an
/// empty file, a header or line that is too short, a line
/// with more columns than the output list or the header, and a signal that
/// the chip does not have.
pub fn read_cmp(lines: &Vec<String>, path: &str, test_script: &TestScript, ports: &StrMap<Port>) -> (r: Result<Vec<BusMap>, N2VError>)
    requires
        !(compare_lines_outcome(lines@, path@, *test_script, ports.map()) is Panics),
    ensures
        match compare_lines_outcome(lines@, path@, *test_script, ports.map()) {
            CompareOutcome::Gives(maps) => r matches Ok(v) && v@.map_values(|b: BusMap| b.view()) == maps,
            CompareOutcome::Fails(msg, k) => r matches Err(e) && e.msg@ == msg && e.kind == k,
            CompareOutcome::Panics => false,
        },
{
    read_compare_lines(lines, path, test_script, ports)
}

/// Gives the input port `port`, `width` bits wide, the value of a `set`
/// instruction: its lowest bits, as many as the port is wide.
pub fn set_input(inputs: &mut BusMap, port: &String, value: &InputValue, width: usize)
    requires
        input_ok(*value),
        old(inputs).view().contains_key(port@) ==> old(inputs).view()[port@].len() == tail_bits(input_bits(*value), width as nat).len(),
    ensures
        final(inputs).view() == old(inputs).view().insert(port@, tail_bits(input_bits(*value), width as nat)),
{
    let bits = test_input_to_bitvec(value);
    let values = tail_bits_of(&bits, width);
    let len = values.len();
    match inputs.create_bus(port.as_str(), len) {
        Ok(()) => {},
        Err(_) => {
            assert(false);
        },
    }
    let ghost created = inputs.view();
    let bus = Bus { name: port.clone(), range: Some(std::ops::Range { start: 0, end: len }) };
    inputs.insert_option(&bus, values);
    proof {
        assert(created[port@].len() == len);
        assert(write_bits(created[port@], 0, len as int, tail_bits(bits@, width as nat)) =~= tail_bits(bits@, width as nat));
        assert(inputs.view() =~= old(inputs).view().insert(port@, tail_bits(input_bits(*value), width as nat)));
    }
}

/// Whether the outputs of a step pass the expected values of its compare
/// line: every expected signal is among the outputs, with the same bits.
pub fn output_matches(expected: &BusMap, outputs: &BusMap) -> (r: bool)
    ensures
        r == covers(outputs.view(), expected.view()),
{
    expected <= outputs
}

/// The verdict of a test run: `Err("Test failed.")` where the outputs of
/// some `output` instruction miss its compare line, `Ok` where all pass.
pub fn compare_outputs(expected: &Vec<BusMap>, got: &Vec<BusMap>) -> (r: Result<(), N2VError>)
    requires
        got@.len() <= expected@.len(),
    ensures
        r is Ok <==> forall|k: int| 0 <= k < got@.len() ==> covers(#[trigger] got@[k].view(), expected@[k].view()),
        r matches Err(e) ==> e.msg@ == "Test failed."@ && e.kind is Other,
{
    let mut failures: usize = 0;
    let mut k: usize = 0;
    while k < got.len()
        invariant
            k <= got@.len() <= expected@.len(),
            failures <= k,
            (failures == 0) <==> forall|j: int| 0 <= j < k ==> covers(#[trigger] got@[j].view(), expected@[j].view()),
        decreases got.len() - k,
    {
        if !output_matches(&expected[k], &got[k]) {
            failures = failures + 1;
        }
        k = k + 1;
    }
    if failures > 0 {
        return Err(N2VError { msg: String::from_str("Test failed."), kind: ErrorKind::Other });
    }
    Ok(())
}

/// The state of a test run: the values of the circuit, the inputs set so
/// far, the outputs of the last evaluation in this step, how many `output`
/// instructions have run, and whether all of their outputs matched.
pub struct RunState {
    pub vals: Values,
    pub inputs: Map<Seq<char>, Seq<Option<bool>>>,
    pub outputs: Map<Seq<char>, Seq<Option<bool>>>,
    pub count: nat,
    pub ok: bool,
}

/// The width of the first port named `name` from position `i` on.
pub open spec fn port_width_from(ports: Seq<Port>, name: Seq<char>, i: int) -> Option<usize>
    decreases ports.len() - i,
{
    if i < 0 || i >= ports.len() {
        None
    } else if ports[i].name.value@ == name {
        Some(ports[i].width)
    } else {
        port_width_from(ports, name, i + 1)
    }
}

/// A simulation of the circuit with the inputs of `st`; see `Circuit::compute`.
pub open spec fn sim_state(ns: Seq<Node>, ports: Seq<Port>, st: RunState) -> Result<RunState, (Seq<char>, ErrorKind)> {
    if !inputs_given(ports, st.inputs) {
        Err((missing_inputs_msg(), ErrorKind::Other))
    } else {
        let v = eval_node(ns, st.vals.update(0, set_inputs(st.vals[0], ports, st.inputs, ports.len() as int)), 0);
        Ok(RunState { vals: v, outputs: port_values(ports, v[0], ports.len() as int), ..st })
    }
}

/// One instruction of a test run, checking outputs against `expected`:
/// `None` where the run cannot go on (a port the chip lacks, an input
/// that is not a number, more outputs than compare lines).
pub open spec fn instr_step(ns: Seq<Node>, ports: Seq<Port>, expected: Seq<Map<Seq<char>, Seq<Option<bool>>>>, st: RunState, ins: Instruction) -> Option<
    Result<RunState, (Seq<char>, ErrorKind)>,
> {
    match ins {
        Instruction::SetPort(p, v) => match port_width_from(ports, p@, 0) {
            None => None,
            Some(w) => if !input_ok(v) {
                None
            } else {
                let bits = tail_bits(input_bits(v), w as nat);
                if st.inputs.contains_key(p@) && st.inputs[p@].len() != bits.len() {
                    None
                } else {
                    Some(Ok(RunState { inputs: st.inputs.insert(p@, bits), ..st }))
                }
            },
        },
        Instruction::Eval => Some(sim_state(ns, ports, st)),
        Instruction::Tick => Some(sim_state(ns, ports, st)),
        Instruction::Tock => Some(sim_state(ns, ports, RunState { vals: tick_vals(ns, st.vals, ns.len() as int), ..st })),
        Instruction::Output => if st.count >= expected.len() {
            None
        } else {
            Some(Ok(RunState { count: st.count + 1, ok: st.ok && covers(st.outputs, expected[st.count as int]), ..st }))
        },
    }
}

/// The first `k` instructions of a step.
pub open spec fn instrs_fold(
    ns: Seq<Node>,
    ports: Seq<Port>,
    expected: Seq<Map<Seq<char>, Seq<Option<bool>>>>,
    st: RunState,
    ins: Seq<Instruction>,
    k: int,
) -> Option<Result<RunState, (Seq<char>, ErrorKind)>>
    decreases k,
{
    if k <= 0 || k > ins.len() {
        Some(Ok(st))
    } else {
        match instrs_fold(ns, ports, expected, st, ins, k - 1) {
            None => None,
            Some(Err(e)) => Some(Err(e)),
            Some(Ok(s1)) => instr_step(ns, ports, expected, s1, ins[k - 1]),
        }
    }
}

/// The first `k` steps: each starts with no outputs.
pub open spec fn steps_fold(
    ns: Seq<Node>,
    ports: Seq<Port>,
    expected: Seq<Map<Seq<char>, Seq<Option<bool>>>>,
    st: RunState,
    steps: Seq<Step>,
    k: int,
) -> Option<Result<RunState, (Seq<char>, ErrorKind)>>
    decreases k,
{
    if k <= 0 || k > steps.len() {
        Some(Ok(st))
    } else {
        match steps_fold(ns, ports, expected, st, steps, k - 1) {
            None => None,
            Some(Err(e)) => Some(Err(e)),
            Some(Ok(s1)) => {
                let s2 = RunState { outputs: Map::empty(), ..s1 };
                instrs_fold(ns, ports, expected, s2, steps[k - 1].instructions@, steps[k - 1].instructions.len() as int)
            },
        }
    }
}

/// What running a test script on a circuit gives, against the expected
/// values of the compare lines: `Ok` where every `output` matched its line,
/// `Err("Test failed.")` where one did not, or the error of a simulation.
pub open spec fn run_outcome(
    ns: Seq<Node>,
    ports: Seq<Port>,
    vals: Values,
    script: TestScript,
    expected: Seq<Map<Seq<char>, Seq<Option<bool>>>>,
) -> Option<Result<(), (Seq<char>, ErrorKind)>> {
    let st0 = RunState { vals, inputs: Map::empty(), outputs: Map::empty(), count: 0, ok: true };
    match steps_fold(ns, ports, expected, st0, script.steps@, script.steps.len() as int) {
        None => None,
        Some(Err(e)) => Some(Err(e)),
        Some(Ok(st)) => if st.ok {
            Some(Ok(()))
        } else {
            Some(Err(("Test failed."@, ErrorKind::Other)))
        },
    }
}

proof fn lemma_instrs_prefix(
    ns: Seq<Node>,
    ports: Seq<Port>,
    expected: Seq<Map<Seq<char>, Seq<Option<bool>>>>,
    st: RunState,
    ins: Seq<Instruction>,
    i: int,
)
    requires
        0 <= i <= ins.len(),
        instrs_fold(ns, ports, expected, st, ins, ins.len() as int) is Some,
    ensures
        instrs_fold(ns, ports, expected, st, ins, i) is Some,
        instrs_fold(ns, ports, expected, st, ins, i) matches Some(Err(e)) ==> instrs_fold(ns, ports, expected, st, ins, ins.len() as int)
            == instrs_fold(ns, ports, expected, st, ins, i),
    decreases ins.len() - i,
{
    if i < ins.len() {
        lemma_instrs_prefix(ns, ports, expected, st, ins, i + 1);
    }
}

proof fn lemma_steps_prefix(
    ns: Seq<Node>,
    ports: Seq<Port>,
    expected: Seq<Map<Seq<char>, Seq<Option<bool>>>>,
    st: RunState,
    steps: Seq<Step>,
    i: int,
)
    requires
        0 <= i <= steps.len(),
        steps_fold(ns, ports, expected, st, steps, steps.len() as int) is Some,
    ensures
        steps_fold(ns, ports, expected, st, steps, i) is Some,
        steps_fold(ns, ports, expected, st, steps, i) matches Some(Err(e)) ==> steps_fold(ns, ports, expected, st, steps, steps.len() as int)
            == steps_fold(ns, ports, expected, st, steps, i),
    decreases steps.len() - i,
{
    if i < steps.len() {
        lemma_steps_prefix(ns, ports, expected, st, steps, i + 1);
    }
}

/// No instruction clears a failure.
proof fn lemma_step_keeps_failure(
    ns: Seq<Node>,
    ports: Seq<Port>,
    expected: Seq<Map<Seq<char>, Seq<Option<bool>>>>,
    st: RunState,
    ins: Instruction,
)
    requires
        !st.ok,
    ensures
        instr_step(ns, ports, expected, st, ins) matches Some(Ok(t)) ==> !t.ok,
{
}

/// Once a run has failed, the rest of a step's instructions keep it failed.
proof fn lemma_instrs_keep_failure(
    ns: Seq<Node>,
    ports: Seq<Port>,
    expected: Seq<Map<Seq<char>, Seq<Option<bool>>>>,
    st: RunState,
    ins: Seq<Instruction>,
    i: int,
    k: int,
)
    requires
        0 <= i <= k <= ins.len(),
        instrs_fold(ns, ports, expected, st, ins, i) matches Some(Ok(s)) && !s.ok,
    ensures
        instrs_fold(ns, ports, expected, st, ins, k) matches Some(Ok(t)) ==> !t.ok,
    decreases k,
{
    if k > i {
        lemma_instrs_keep_failure(ns, ports, expected, st, ins, i, k - 1);
        if let Some(Ok(s1)) = instrs_fold(ns, ports, expected, st, ins, k - 1) {
            lemma_step_keeps_failure(ns, ports, expected, s1, ins[k - 1]);
        }
    }
}

/// Once a run has failed, every later step keeps it failed.
proof fn lemma_steps_keep_failure(
    ns: Seq<Node>,
    ports: Seq<Port>,
    expected: Seq<Map<Seq<char>, Seq<Option<bool>>>>,
    st: RunState,
    steps: Seq<Step>,
    i: int,
    k: int,
)
    requires
        0 <= i <= k <= steps.len(),
        steps_fold(ns, ports, expected, st, steps, i) matches Some(Ok(s)) && !s.ok,
    ensures
        steps_fold(ns, ports, expected, st, steps, k) matches Some(Ok(t)) ==> !t.ok,
    decreases k,
{
    if k > i {
        lemma_steps_keep_failure(ns, ports, expected, st, steps, i, k - 1);
        if let Some(Ok(s1)) = steps_fold(ns, ports, expected, st, steps, k - 1) {
            let s2 = RunState { outputs: Map::empty(), ..s1 };
            let ins = steps[k - 1].instructions@;
            lemma_instrs_keep_failure(ns, ports, expected, s2, ins, 0, ins.len() as int);
        }
    }
}

/// A mismatch is never forgotten: where the run reaches an `output` (the
/// `i`-th instruction of step `k`) whose outputs do not cover the compare
/// line it is checked against, the run does not pass, whatever follows.
pub proof fn lemma_mismatch_fails_run(
    ns: Seq<Node>,
    ports: Seq<Port>,
    vals: Values,
    script: TestScript,
    expected: Seq<Map<Seq<char>, Seq<Option<bool>>>>,
    k: int,
    i: int,
)
    requires
        0 <= k < script.steps.len(),
        0 <= i < script.steps@[k].instructions.len(),
        script.steps@[k].instructions@[i] is Output,
        ({
            let st0 = RunState { vals, inputs: Map::empty(), outputs: Map::empty(), count: 0, ok: true };
            steps_fold(ns, ports, expected, st0, script.steps@, k) matches Some(Ok(s1)) && instrs_fold(
                ns,
                ports,
                expected,
                RunState { outputs: Map::empty(), ..s1 },
                script.steps@[k].instructions@,
                i,
            ) matches Some(Ok(s)) && s.count < expected.len() && !covers(s.outputs, expected[s.count as int])
        }),
    ensures
        run_outcome(ns, ports, vals, script, expected) != Some(Ok::<(), (Seq<char>, ErrorKind)>(())),
{
    let st0 = RunState { vals, inputs: Map::empty(), outputs: Map::empty(), count: 0, ok: true };
    let steps = script.steps@;
    let s1 = steps_fold(ns, ports, expected, st0, steps, k)->Some_0->Ok_0;
    let s2 = RunState { outputs: Map::empty(), ..s1 };
    let ins = steps[k].instructions@;
    let s = instrs_fold(ns, ports, expected, s2, ins, i)->Some_0->Ok_0;
    assert(instrs_fold(ns, ports, expected, s2, ins, i + 1) == instr_step(ns, ports, expected, s, ins[i]));
    lemma_instrs_keep_failure(ns, ports, expected, s2, ins, i + 1, ins.len() as int);
    assert(steps_fold(ns, ports, expected, st0, steps, k + 1) == instrs_fold(ns, ports, expected, s2, ins, ins.len() as int));
    if let Some(Ok(t)) = steps_fold(ns, ports, expected, st0, steps, k + 1) {
        lemma_steps_keep_failure(ns, ports, expected, st0, steps, k + 1, steps.len() as int);
    } else {
        if steps_fold(ns, ports, expected, st0, steps, steps.len() as int) is Some {
            lemma_steps_prefix(ns, ports, expected, st0, steps, k + 1);
        }
    }
}

/// The width of the first port named `name`.
fn find_port_width(ports: &Vec<Port>, name: &str) -> (r: Option<usize>)
    ensures
        r == port_width_from(ports@, name@, 0),
{
    let mut i: usize = 0;
    while i < ports.len()
        invariant
            i <= ports.len(),
            port_width_from(ports@, name@, 0) == port_width_from(ports@, name@, i as int),
        decreases ports.len() - i,
    {
        if crate::keys::key_eq(ports[i].name.value.as_str(), name) {
            return Some(ports[i].width);
        }
        i = i + 1;
    }
    None
}

/// Runs a test script on a circuit: `set` gives an input port its value,
/// `eval` and `tick` simulate, `tock` ticks the clock and simulates, and
/// `output` checks the outputs of the last simulation against the next of
/// the `expected` compare lines (every expected signal must be among them
/// with the same bits). See `run_outcome`.
#[verifier::rlimit(40)]
pub fn run_test(script: &TestScript, circuit: &mut Circuit, expected: &Vec<BusMap>) -> (r: Result<(), N2VError>)
    requires
        circuit_wf(old(circuit).nodes@, old(circuit).vals()),
        ports_wf(old(circuit).ports@, old(circuit).vals()),
        run_outcome(old(circuit).nodes@, old(circuit).ports@, old(circuit).vals(), *script, expected@.map_values(|b: BusMap| b.view())) is Some,
    ensures
        match run_outcome(old(circuit).nodes@, old(circuit).ports@, old(circuit).vals(), *script, expected@.map_values(|b: BusMap| b.view())).unwrap() {
            Ok(()) => r is Ok,
            Err((msg, k)) => r matches Err(e) && e.msg@ == msg && e.kind == k,
        },
{
    let ghost ns = circuit.nodes@;
    let ghost ports = circuit.ports@;
    let ghost exp = expected@.map_values(|b: BusMap| b.view());
    let ghost st0 = RunState { vals: circuit.vals(), inputs: Map::empty(), outputs: Map::empty(), count: 0, ok: true };
    let ghost steps = script.steps@;
    let mut inputs = BusMap::new();
    let mut outputs = BusMap::new();
    let mut count: usize = 0;
    let mut ok = true;
    let mut si: usize = 0;
    while si < script.steps.len()
        invariant
            si <= steps.len(),
            steps == script.steps@,
            ns == old(circuit).nodes@,
            ports == old(circuit).ports@,
            st0.vals == old(circuit).vals(),
            exp.len() == expected.len(),
            circuit.nodes@ == ns,
            circuit.ports@ == ports,
            circuit_wf(ns, circuit.vals()),
            ports_wf(ports, circuit.vals()),
            exp == expected@.map_values(|b: BusMap| b.view()),
            steps_fold(ns, ports, exp, st0, steps, steps.len() as int) is Some,
            steps_fold(ns, ports, exp, st0, steps, si as int) == Some(Ok::<RunState, (Seq<char>, ErrorKind)>(
                RunState { vals: circuit.vals(), inputs: inputs.view(), outputs: outputs.view(), count: count as nat, ok },
            )),
            run_outcome(ns, ports, st0.vals, *script, exp) == (match steps_fold(ns, ports, exp, st0, steps, steps.len() as int) {
                None => None,
                Some(Err(e)) => Some(Err(e)),
                Some(Ok(st)) => if st.ok {
                    Some(Ok(()))
                } else {
                    Some(Err(("Test failed."@, ErrorKind::Other)))
                },
            }),
        decreases steps.len() - si,
    {
        proof {
            lemma_steps_prefix(ns, ports, exp, st0, steps, si + 1);
        }
        outputs = BusMap::new();
        let ins = &script.steps[si].instructions;
        let ghost s2 = RunState { vals: circuit.vals(), inputs: inputs.view(), outputs: outputs.view(), count: count as nat, ok };
        proof {
            assert(steps_fold(ns, ports, exp, st0, steps, si + 1) == instrs_fold(ns, ports, exp, s2, ins@, ins.len() as int));
            lemma_instrs_prefix(ns, ports, exp, s2, ins@, 0);
        }
        let mut k: usize = 0;
        while k < ins.len()
            invariant
                k <= ins.len(),
                circuit.nodes@ == ns,
                circuit.ports@ == ports,
                circuit_wf(ns, circuit.vals()),
                ports_wf(ports, circuit.vals()),
                exp == expected@.map_values(|b: BusMap| b.view()),
                instrs_fold(ns, ports, exp, s2, ins@, ins.len() as int) is Some,
                ns == old(circuit).nodes@,
                ports == old(circuit).ports@,
                st0.vals == old(circuit).vals(),
                exp.len() == expected.len(),
                steps_fold(ns, ports, exp, st0, steps, si + 1) == instrs_fold(ns, ports, exp, s2, ins@, ins.len() as int),
                steps_fold(ns, ports, exp, st0, steps, si + 1) matches Some(Err(e)) ==> steps_fold(ns, ports, exp, st0, steps, steps.len() as int)
                    == steps_fold(ns, ports, exp, st0, steps, si + 1),
                run_outcome(ns, ports, st0.vals, *script, exp) == (match steps_fold(ns, ports, exp, st0, steps, steps.len() as int) {
                    None => None,
                    Some(Err(e)) => Some(Err(e)),
                    Some(Ok(st)) => if st.ok {
                        Some(Ok(()))
                    } else {
                        Some(Err(("Test failed."@, ErrorKind::Other)))
                    },
                }),
                instrs_fold(ns, ports, exp, s2, ins@, k as int) == Some(Ok::<RunState, (Seq<char>, ErrorKind)>(
                    RunState { vals: circuit.vals(), inputs: inputs.view(), outputs: outputs.view(), count: count as nat, ok },
                )),
            decreases ins.len() - k,
        {
            proof {
                lemma_instrs_prefix(ns, ports, exp, s2, ins@, k + 1);
            }
            let ghost cur = RunState { vals: circuit.vals(), inputs: inputs.view(), outputs: outputs.view(), count: count as nat, ok };
            assert(instrs_fold(ns, ports, exp, s2, ins@, k + 1) == instr_step(ns, ports, exp, cur, ins@[k as int]));
            match &ins[k] {
                Instruction::SetPort(p, v) => {
                    let w = find_port_width(&circuit.ports, p.as_str()).unwrap();
                    set_input(&mut inputs, p, v, w);
                },
                Instruction::Eval | Instruction::Tick => {
                    match circuit.compute(&inputs) {
                        Ok(o) => {
                            outputs = o;
                        },
                        Err(e) => {
                            proof {
                                assert(instrs_fold(ns, ports, exp, s2, ins@, k + 1) matches Some(Err(_)));
                            }
                            return Err(e);
                        },
                    }
                },
                Instruction::Tock => {
                    circuit.tick();
                    proof {
                        lemma_wf_shape(ns, cur.vals, circuit.vals());
                        lemma_ports_shape(ports, cur.vals, circuit.vals());
                    }
                    match circuit.compute(&inputs) {
                        Ok(o) => {
                            outputs = o;
                        },
                        Err(e) => {
                            proof {
                                assert(instrs_fold(ns, ports, exp, s2, ins@, k + 1) matches Some(Err(_)));
                            }
                            return Err(e);
                        },
                    }
                },
                Instruction::Output => {
                    assert(count < expected.len());
                    let m = output_matches(&expected[count], &outputs);
                    ok = ok && m;
                    count = count + 1;
                },
            }
            k = k + 1;
        }
        proof {
            assert(ins@.len() == ins.len());
        }
        si = si + 1;
    }
    if ok {
        Ok(())
    } else {
        Err(N2VError { msg: String::from_str("Test failed."), kind: ErrorKind::Other })
    }
}

} // verus!