//! The VHDL syntax that chips are synthesized to, and how it is written out.
use crate::chars::{lower_text, lowercase, to_lowercase};
use crate::error::N2VError;
use crate::expr::{GenericWidth, Op, Terminal, eval_expr, spec_eval_expr, width_text, num};
use crate::fmt::{decimal, push_char, push_decimal, push_str};
use crate::keys::{key_eq, key_lt};
use crate::opt::optimization::{OptimizationInfo, OptimizationPass};
use crate::opt::sequential::{SequentialPass, library_ordered, parts_outcome};
use crate::simulator::{infer_widths, infer_spec, infer_fuel};
use crate::parser::{
    AssignmentHDL, BusHDL, ChipHDL, Component, ComponentView, GenericPort, Part, PartView, PortDirection, PortMappingHDL,
    chip_named, chip_index_from, clone_opt_width, get_hdl, lemma_chip_index_from, missing_chip_msg, parts_view, components_view,
};
use crate::rom::bit_char;
use crate::strmap::StrMap;
use vstd::prelude::*;

verus! {

// ========= KEYWORDS ========== //

/// The name that stands for `name` in VHDL: names that are VHDL keywords (in
/// any case) get the suffix `_n2v`; others stay as they are.
pub open spec fn keyw_spec(name: Seq<char>) -> Seq<char> {
    let l = lower_text(name);
    if l == "in"@ {
        "in_n2v"@
    } else if l == "out"@ {
        "out_n2v"@
    } else if l == "not"@ {
        "not_n2v"@
    } else if l == "nand"@ {
        "nand_n2v"@
    } else if l == "and"@ {
        "and_n2v"@
    } else if l == "or"@ {
        "or_n2v"@
    } else if l == "xor"@ {
        "xor_n2v"@
    } else if l == "nor"@ {
        "nor_n2v"@
    } else if l == "dff"@ {
        "DFF_n2v"@
    } else if l == "register"@ {
        "register_n2v"@
    } else {
        name
    }
}

/// The lower-case names that `keyw` renames.
pub open spec fn renamed_word(l: Seq<char>) -> bool {
    l == "in"@ || l == "out"@ || l == "not"@ || l == "nand"@ || l == "and"@ || l == "or"@ || l == "xor"@ || l == "nor"@
        || l == "dff"@ || l == "register"@
}

/// A name whose lower-case form is none of the renamed words stays as it
/// is, and renaming it again changes nothing.
pub proof fn lemma_keyw_keeps_other_names(name: Seq<char>)
    requires
        !renamed_word(lower_text(name)),
    ensures
        keyw_spec(name) == name,
        keyw_spec(keyw_spec(name)) == keyw_spec(name),
{
}

/// The name that stands for `name` in VHDL, keywords renamed.
pub fn keyw(name: &str) -> (r: String)
    ensures
        r@ == keyw_spec(name@),
{
    let lower = to_lowercase(name);
    let l = lower.as_str();
    let out = if key_eq(l, "in") {
        "in_n2v"
    } else if key_eq(l, "out") {
        "out_n2v"
    } else if key_eq(l, "not") {
        "not_n2v"
    } else if key_eq(l, "nand") {
        "nand_n2v"
    } else if key_eq(l, "and") {
        "and_n2v"
    } else if key_eq(l, "or") {
        "or_n2v"
    } else if key_eq(l, "xor") {
        "xor_n2v"
    } else if key_eq(l, "nor") {
        "nor_n2v"
    } else if key_eq(l, "dff") {
        "DFF_n2v"
    } else if key_eq(l, "register") {
        "register_n2v"
    } else {
        name
    };
    String::from_str(out)
}

/// Appends the VHDL name for `name`.
fn push_keyw(s: &mut String, name: &str)
    ensures
        final(s)@ == old(s)@ + keyw_spec(name@),
{
    let k = keyw(name);
    push_str(s, k.as_str());
}

// ========= SYNTAX ========== //

/// A bit-vector literal; `values[0]` is the least significant bit.
#[derive(Debug, Clone)]
pub struct LiteralVHDL {
    pub values: Vec<bool>,
}

/// A slice of a signal: `foo(3 downto 0)`, `bar(X downto 0)` or just `foo`.
#[derive(Debug)]
pub struct SliceVHDL {
    /// The name of the signal.
    pub name: String,
    /// The start of the slice (inclusive), where the signal is indexed.
    pub start: Option<GenericWidth>,
    /// The end of the slice, where the signal is indexed.
    pub end: Option<GenericWidth>,
}

impl Clone for SliceVHDL {
    fn clone(&self) -> (r: Self)
        ensures
            r == *self,
    {
        SliceVHDL { name: self.name.clone(), start: clone_opt_width(&self.start), end: clone_opt_width(&self.end) }
    }
}

/// The right side of an assignment or a port mapping.
#[derive(Debug, Clone)]
pub enum SignalRhs {
    Slice(SliceVHDL),
    Literal(LiteralVHDL),
}

/// `left <= right;`: the signal on the right drives the one on the left.
#[derive(Debug, Clone)]
pub struct AssignmentVHDL {
    pub left: SliceVHDL,
    pub right: SignalRhs,
}

/// `assert signal = value report "msg";`
#[derive(Debug, Clone)]
pub struct AssertVHDL {
    pub signal_name: String,
    pub signal_value: LiteralVHDL,
    pub report_msg: String,
}

/// `wait for 10 ns;`
#[derive(Debug, Clone)]
pub struct WaitVHDL {}

/// `port => wire` in a port map.
#[derive(Debug, Clone)]
pub struct PortMappingVHDL {
    pub wire_name: String,
    pub port: SliceVHDL,
    pub wire: SignalRhs,
}

/// An instance of a component: `unit port map (...)`.
#[derive(Debug, Clone)]
pub struct VhdlComponent {
    pub unit: String,
    pub generic_params: Vec<GenericWidth>,
    pub port_mappings: Vec<PortMappingVHDL>,
}

/// A signal declaration.
#[derive(Debug, Clone)]
pub struct Signal {
    pub name: String,
    pub width: GenericWidth,
}

/// A port of an entity.
#[derive(Debug, Clone)]
pub struct VhdlPort {
    pub name: String,
    pub width: GenericWidth,
    pub direction: PortDirection,
}

// ========= TEXT ========== //

/// The bits of a literal, most significant first.
pub open spec fn bits_text(values: Seq<bool>) -> Seq<char>
    decreases values.len(),
{
    if values.len() == 0 {
        Seq::empty()
    } else {
        seq![bit_char(values.last())] + bits_text(values.drop_last())
    }
}

/// A literal: its bits, most significant first, in double quotes.
pub open spec fn literal_text(values: Seq<bool>) -> Seq<char> {
    "\""@ + bits_text(values) + "\""@
}

/// A slice: the constants `true` and `false` fill the whole vector; an indexed
/// slice reads `name(end downto start)`.
pub open spec fn slice_text(s: SliceVHDL) -> Seq<char> {
    if s.name@ == "true"@ {
        "(others => '1')"@
    } else if s.name@ == "false"@ {
        "(others => '0')"@
    } else if s.start is Some {
        keyw_spec(s.name@) + "("@ + width_text(s.end.unwrap()) + " downto "@ + width_text(s.start.unwrap()) + ")"@
    } else {
        keyw_spec(s.name@)
    }
}

/// A slice can be written: an indexed slice has both bounds.
pub open spec fn slice_ok(s: SliceVHDL) -> bool {
    s.start is Some ==> s.end is Some
}

/// The right side of an assignment.
pub open spec fn rhs_text(r: SignalRhs) -> Seq<char> {
    match r {
        SignalRhs::Slice(x) => slice_text(x),
        SignalRhs::Literal(x) => literal_text(x.values@),
    }
}

/// The right side can be written.
pub open spec fn rhs_ok(r: SignalRhs) -> bool {
    match r {
        SignalRhs::Slice(x) => slice_ok(x),
        SignalRhs::Literal(_) => true,
    }
}

/// An assignment.
pub open spec fn assignment_text(a: AssignmentVHDL) -> Seq<char> {
    slice_text(a.left) + " <= "@ + rhs_text(a.right) + ";"@
}

/// An assertion.
pub open spec fn assert_text(a: AssertVHDL) -> Seq<char> {
    "assert "@ + keyw_spec(a.signal_name@) + " = "@ + literal_text(a.signal_value.values@) + " report \""@ + a.report_msg@ + "\";"@
}

/// A wait.
pub open spec fn wait_text() -> Seq<char> {
    "wait for 10 ns;"@
}

/// A port mapping.
pub open spec fn port_mapping_text(m: PortMappingVHDL) -> Seq<char> {
    slice_text(m.port) + " => "@ + rhs_text(m.wire)
}

/// A port mapping can be written.
pub open spec fn port_mapping_ok(m: PortMappingVHDL) -> bool {
    slice_ok(m.port) && rhs_ok(m.wire)
}

/// Port mappings separated by `, `.
pub open spec fn port_mappings_text(ms: Seq<PortMappingVHDL>) -> Seq<char>
    decreases ms.len(),
{
    if ms.len() == 0 {
        Seq::empty()
    } else if ms.len() == 1 {
        port_mapping_text(ms[0])
    } else {
        port_mappings_text(ms.drop_last()) + ", "@ + port_mapping_text(ms.last())
    }
}

/// A component instance, with its line break.
pub open spec fn component_text(c: VhdlComponent) -> Seq<char> {
    keyw_spec(c.unit@) + " port map("@ + port_mappings_text(c.port_mappings@) + ");\n"@
}

/// A component instance can be written.
pub open spec fn component_ok(c: VhdlComponent) -> bool {
    forall|i: int| 0 <= i < c.port_mappings@.len() ==> port_mapping_ok(#[trigger] c.port_mappings@[i])
}

/// The width less one, as the top index of a vector.
pub open spec fn top_index(width: GenericWidth) -> Option<GenericWidth> {
    spec_eval_expr(
        GenericWidth::Expr(Op::Sub, Box::new(width), Box::new(num(1))),
        Map::empty(),
    )
}

/// The type of a vector of `width` bits: `std_logic_vector(top downto 0)`.
pub open spec fn vector_text(width: GenericWidth) -> Seq<char> {
    match width {
        GenericWidth::Terminal(Terminal::Num(n)) => "std_logic_vector("@ + decimal((n - 1) as nat) + " downto 0)"@,
        _ => "std_logic_vector("@ + width_text(top_index(width).unwrap()) + " downto 0)"@,
    }
}

/// A vector type can be written: a number width is at least one, and another
/// width less one can be evaluated.
pub open spec fn vector_ok(width: GenericWidth) -> bool {
    match width {
        GenericWidth::Terminal(Terminal::Num(n)) => n >= 1,
        _ => top_index(width) is Some,
    }
}

/// A signal declaration, without the word `signal`.
pub open spec fn signal_text(s: Signal) -> Seq<char> {
    keyw_spec(s.name@) + " : "@ + vector_text(s.width) + ";"@
}

/// A port declaration.
pub open spec fn port_text(p: VhdlPort) -> Seq<char> {
    keyw_spec(p.name@) + " : "@ + (if p.direction == PortDirection::In {
        "in "@
    } else {
        "out "@
    }) + vector_text(p.width)
}

/// Appends the VHDL type of a vector of `width` bits.
fn push_vector(s: &mut String, width: &GenericWidth)
    requires
        vector_ok(*width),
    ensures
        final(s)@ == old(s)@ + vector_text(*width),
{
    let ghost s0 = s@;
    push_str(s, "std_logic_vector(");
    match width {
        GenericWidth::Terminal(Terminal::Num(n)) => {
            push_decimal(s, *n - 1);
        },
        _ => {
            let sub1 = GenericWidth::Expr(
                Op::Sub,
                Box::new(width.clone()),
                Box::new(GenericWidth::Terminal(Terminal::Num(1))),
            );
            let top = eval_expr(&sub1, &StrMap::new());
            top.write_to(s);
        },
    }
    push_str(s, " downto 0)");
    assert(s@ =~= s0 + vector_text(*width));
}

impl LiteralVHDL {
    /// Appends the literal.
    pub fn write_to(&self, s: &mut String)
        ensures
            final(s)@ == old(s)@ + literal_text(self.values@),
    {
        let ghost s0 = s@;
        push_char(s, '"');
        proof {
            lemma_bits_len(self.values@);
            reveal_strlit("\"");
            assert(bits_text(self.values@).subrange(0, 0) =~= Seq::<char>::empty());
            assert(s@ =~= s0 + "\""@ + bits_text(self.values@).subrange(0, 0));
        }
        let mut i: usize = self.values.len();
        while i > 0
            invariant
                i <= self.values.len(),
                s@ == s0 + "\""@ + bits_text(self.values@).subrange(0, (self.values@.len() - i) as int),
                bits_text(self.values@).len() == self.values@.len(),
            decreases i,
        {
            proof {
                lemma_bits_text(self.values@, i as int);
            }
            i = i - 1;
            let ghost before = s@;
            if self.values[i] {
                push_char(s, '1');
            } else {
                push_char(s, '0');
            }
            assert(s@ =~= s0 + "\""@ + bits_text(self.values@).subrange(0, (self.values@.len() - i) as int));
        }
        push_char(s, '"');
        assert(bits_text(self.values@).subrange(0, self.values@.len() as int) =~= bits_text(self.values@));
        assert(s@ =~= s0 + literal_text(self.values@));
    }

    /// The literal as text.
    pub fn to_string(&self) -> (r: String)
        ensures
            r@ == literal_text(self.values@),
    {
        let mut s = String::new();
        self.write_to(&mut s);
        assert(s@ =~= literal_text(self.values@));
        s
    }
}

/// The characters of the bits, most significant first: the one at position
/// `k` is that of bit `len - 1 - k`.
proof fn lemma_bits_text(values: Seq<bool>, i: int)
    requires
        0 < i <= values.len(),
    ensures
        bits_text(values).len() == values.len(),
        bits_text(values)[values.len() - i] == bit_char(values[i - 1]),
    decreases values.len(),
{
    lemma_bits_len(values);
    if values.len() > 0 && i < values.len() {
        lemma_bits_text(values.drop_last(), i);
    }
}

/// There is one character for each bit.
proof fn lemma_bits_len(values: Seq<bool>)
    ensures
        bits_text(values).len() == values.len(),
    decreases values.len(),
{
    if values.len() > 0 {
        lemma_bits_len(values.drop_last());
    }
}

impl SliceVHDL {
    /// Appends the slice.
    pub fn write_to(&self, s: &mut String)
        requires
            slice_ok(*self),
        ensures
            final(s)@ == old(s)@ + slice_text(*self),
    {
        proof {
            reveal_strlit("true");
            reveal_strlit("false");
        }
        if key_eq(self.name.as_str(), "true") {
            push_str(s, "(others => '1')");
        } else if key_eq(self.name.as_str(), "false") {
            push_str(s, "(others => '0')");
        } else if self.start.is_some() {
            let ghost s0 = s@;
            let start = self.start.as_ref().unwrap();
            let end = self.end.as_ref().unwrap();
            push_keyw(s, self.name.as_str());
            push_str(s, "(");
            end.write_to(s);
            push_str(s, " downto ");
            start.write_to(s);
            push_str(s, ")");
            assert(s@ =~= s0 + slice_text(*self));
        } else {
            push_keyw(s, self.name.as_str());
        }
    }

    /// The slice as text.
    pub fn to_string(&self) -> (r: String)
        requires
            slice_ok(*self),
        ensures
            r@ == slice_text(*self),
    {
        let mut s = String::new();
        self.write_to(&mut s);
        assert(s@ =~= slice_text(*self));
        s
    }
}

impl SignalRhs {
    /// Appends the right side.
    pub fn write_to(&self, s: &mut String)
        requires
            rhs_ok(*self),
        ensures
            final(s)@ == old(s)@ + rhs_text(*self),
    {
        match self {
            SignalRhs::Slice(x) => x.write_to(s),
            SignalRhs::Literal(x) => x.write_to(s),
        }
    }

    /// The right side as text.
    pub fn to_string(&self) -> (r: String)
        requires
            rhs_ok(*self),
        ensures
            r@ == rhs_text(*self),
    {
        let mut s = String::new();
        self.write_to(&mut s);
        assert(s@ =~= rhs_text(*self));
        s
    }
}

impl AssignmentVHDL {
    /// Appends the assignment.
    pub fn write_to(&self, s: &mut String)
        requires
            slice_ok(self.left),
            rhs_ok(self.right),
        ensures
            final(s)@ == old(s)@ + assignment_text(*self),
    {
        let ghost s0 = s@;
        self.left.write_to(s);
        push_str(s, " <= ");
        self.right.write_to(s);
        push_str(s, ";");
        assert(s@ =~= s0 + assignment_text(*self));
    }

    /// The assignment as text.
    pub fn to_string(&self) -> (r: String)
        requires
            slice_ok(self.left),
            rhs_ok(self.right),
        ensures
            r@ == assignment_text(*self),
    {
        let mut s = String::new();
        self.write_to(&mut s);
        assert(s@ =~= assignment_text(*self));
        s
    }
}

impl AssertVHDL {
    /// Appends the assertion.
    pub fn write_to(&self, s: &mut String)
        ensures
            final(s)@ == old(s)@ + assert_text(*self),
    {
        let ghost s0 = s@;
        push_str(s, "assert ");
        push_keyw(s, self.signal_name.as_str());
        push_str(s, " = ");
        self.signal_value.write_to(s);
        push_str(s, " report \"");
        push_str(s, self.report_msg.as_str());
        push_str(s, "\";");
        assert(s@ =~= s0 + assert_text(*self));
    }

    /// The assertion as text.
    pub fn to_string(&self) -> (r: String)
        ensures
            r@ == assert_text(*self),
    {
        let mut s = String::new();
        self.write_to(&mut s);
        assert(s@ =~= assert_text(*self));
        s
    }
}

impl WaitVHDL {
    /// The wait as text.
    pub fn to_string(&self) -> (r: String)
        ensures
            r@ == wait_text(),
    {
        String::from_str("wait for 10 ns;")
    }
}

impl PortMappingVHDL {
    /// Appends the port mapping.
    pub fn write_to(&self, s: &mut String)
        requires
            port_mapping_ok(*self),
        ensures
            final(s)@ == old(s)@ + port_mapping_text(*self),
    {
        let ghost s0 = s@;
        self.port.write_to(s);
        push_str(s, " => ");
        self.wire.write_to(s);
        assert(s@ =~= s0 + port_mapping_text(*self));
    }

    /// The port mapping as text.
    pub fn to_string(&self) -> (r: String)
        requires
            port_mapping_ok(*self),
        ensures
            r@ == port_mapping_text(*self),
    {
        let mut s = String::new();
        self.write_to(&mut s);
        assert(s@ =~= port_mapping_text(*self));
        s
    }
}

impl VhdlComponent {
    /// Appends the component instance and its line break.
    pub fn write_to(&self, s: &mut String)
        requires
            component_ok(*self),
        ensures
            final(s)@ == old(s)@ + component_text(*self),
    {
        let ghost s0 = s@;
        push_keyw(s, self.unit.as_str());
        push_str(s, " port map(");
        let ghost s1 = s@;
        let mut i: usize = 0;
        while i < self.port_mappings.len()
            invariant
                i <= self.port_mappings.len(),
                component_ok(*self),
                s@ == s1 + port_mappings_text(self.port_mappings@.take(i as int)),
            decreases self.port_mappings.len() - i,
        {
            let ghost ms = self.port_mappings@.take(i + 1);
            assert(ms.drop_last() =~= self.port_mappings@.take(i as int));
            assert(ms.last() == self.port_mappings@[i as int]);
            if i != 0 {
                push_str(s, ", ");
            }
            self.port_mappings[i].write_to(s);
            assert(ms.len() == 1 ==> ms[0] == ms.last());
            assert(s@ =~= s1 + port_mappings_text(ms));
            i = i + 1;
        }
        assert(self.port_mappings@.take(self.port_mappings.len() as int) =~= self.port_mappings@);
        push_str(s, ");\n");
        assert(s@ =~= s0 + component_text(*self));
    }

    /// The component instance as text.
    pub fn to_string(&self) -> (r: String)
        requires
            component_ok(*self),
        ensures
            r@ == component_text(*self),
    {
        let mut s = String::new();
        self.write_to(&mut s);
        assert(s@ =~= component_text(*self));
        s
    }
}

impl Signal {
    /// Appends the declaration of the signal (without `signal`).
    pub fn write_to(&self, s: &mut String)
        requires
            vector_ok(self.width),
        ensures
            final(s)@ == old(s)@ + signal_text(*self),
    {
        let ghost s0 = s@;
        push_keyw(s, self.name.as_str());
        push_str(s, " : ");
        push_vector(s, &self.width);
        push_str(s, ";");
        assert(s@ =~= s0 + signal_text(*self));
    }

    /// The declaration of the signal as text.
    pub fn to_string(&self) -> (r: String)
        requires
            vector_ok(self.width),
        ensures
            r@ == signal_text(*self),
    {
        let mut s = String::new();
        self.write_to(&mut s);
        assert(s@ =~= signal_text(*self));
        s
    }
}

impl VhdlPort {
    /// Appends the declaration of the port.
    pub fn write_to(&self, s: &mut String)
        requires
            vector_ok(self.width),
        ensures
            final(s)@ == old(s)@ + port_text(*self),
    {
        let ghost s0 = s@;
        push_keyw(s, self.name.as_str());
        push_str(s, " : ");
        if self.direction == PortDirection::In {
            push_str(s, "in ");
        } else {
            push_str(s, "out ");
        }
        push_vector(s, &self.width);
        assert(s@ =~= s0 + port_text(*self));
    }

    /// The declaration of the port as text.
    pub fn to_string(&self) -> (r: String)
        requires
            vector_ok(self.width),
        ensures
            r@ == port_text(*self),
    {
        let mut s = String::new();
        self.write_to(&mut s);
        assert(s@ =~= port_text(*self));
        s
    }
}

// ========= STATEMENTS ========== //

/// A concurrent or sequential VHDL statement.
#[derive(Debug)]
pub enum Statement {
    Component(VhdlComponent),
    Process(Process),
    Assignment(AssignmentVHDL),
    Assert(AssertVHDL),
    Wait(WaitVHDL),
}

/// `process begin ... end process;`
#[derive(Debug)]
pub struct Process {
    pub statements: Vec<Statement>,
}

/// A statement with the number that labels it.
#[derive(Debug)]
pub struct IdStatement {
    pub id: usize,
    pub stmt: Statement,
}

/// The label `cn2v<id>: `.
pub open spec fn label_text(id: nat) -> Seq<char> {
    "cn2v"@ + decimal(id) + ": "@
}

/// A statement labelled `id`: components, processes and assertions carry the
/// label; assignments and waits do not.
pub open spec fn id_statement_text(id: nat, st: Statement) -> Seq<char>
    decreases st, 1nat,
{
    match st {
        Statement::Component(x) => label_text(id) + component_text(x),
        Statement::Process(p) => label_text(id) + process_text(p.statements@),
        Statement::Assignment(x) => assignment_text(x),
        Statement::Assert(x) => label_text(id) + assert_text(x),
        Statement::Wait(_) => wait_text(),
    }
}

/// The statements, each labelled by its position and followed by a line break.
pub open spec fn statement_lines(sts: Seq<Statement>) -> Seq<char>
    decreases sts, 0nat,
{
    if sts.len() == 0 {
        Seq::empty()
    } else {
        statement_lines(sts.drop_last()) + id_statement_text((sts.len() - 1) as nat, sts.last()) + "\n"@
    }
}

/// A process.
pub open spec fn process_text(sts: Seq<Statement>) -> Seq<char>
    decreases sts, 2nat,
{
    "process begin\n"@ + statement_lines(sts) + "end process;\n"@
}

/// A statement can be written.
pub open spec fn statement_ok(st: Statement) -> bool
    decreases st, 1nat,
{
    match st {
        Statement::Component(x) => component_ok(x),
        Statement::Process(p) => statements_ok(p.statements@),
        Statement::Assignment(x) => slice_ok(x.left) && rhs_ok(x.right),
        Statement::Assert(_) => true,
        Statement::Wait(_) => true,
    }
}

/// Each statement can be written.
pub open spec fn statements_ok(sts: Seq<Statement>) -> bool
    decreases sts, 0nat,
{
    if sts.len() == 0 {
        true
    } else {
        statements_ok(sts.drop_last()) && statement_ok(sts.last())
    }
}

/// Appends a statement labelled `id`.
fn write_statement(st: &Statement, id: usize, s: &mut String)
    requires
        statement_ok(*st),
    ensures
        final(s)@ == old(s)@ + id_statement_text(id as nat, *st),
    decreases *st, 1nat,
{
    let ghost s0 = s@;
    match st {
        Statement::Component(x) => {
            push_str(s, "cn2v");
            push_decimal(s, id);
            push_str(s, ": ");
            x.write_to(s);
        },
        Statement::Process(p) => {
            push_str(s, "cn2v");
            push_decimal(s, id);
            push_str(s, ": ");
            write_process(&p.statements, s);
        },
        Statement::Assignment(x) => x.write_to(s),
        Statement::Assert(x) => {
            push_str(s, "cn2v");
            push_decimal(s, id);
            push_str(s, ": ");
            x.write_to(s);
        },
        Statement::Wait(_) => push_str(s, "wait for 10 ns;"),
    }
    assert(s@ =~= s0 + id_statement_text(id as nat, *st));
}

/// Each statement of the prefix can be written.
proof fn lemma_statements_ok_prefix(sts: Seq<Statement>, k: int)
    requires
        statements_ok(sts),
        0 <= k < sts.len(),
    ensures
        statement_ok(sts[k]),
    decreases sts.len(),
{
    if k < sts.len() - 1 {
        lemma_statements_ok_prefix(sts.drop_last(), k);
    }
}

/// Appends each statement labelled by its position, each followed by a line break.
fn write_statement_lines(statements: &Vec<Statement>, s: &mut String)
    requires
        statements_ok(statements@),
    ensures
        final(s)@ == old(s)@ + statement_lines(statements@),
    decreases statements@, 1nat,
{
    let ghost s1 = s@;
    let mut i: usize = 0;
    while i < statements.len()
        invariant
            i <= statements.len(),
            statements_ok(statements@),
            s@ == s1 + statement_lines(statements@.take(i as int)),
        decreases statements.len() - i,
    {
        proof {
            lemma_statements_ok_prefix(statements@, i as int);
        }
        assert(decreases_to!(statements@ => statements@[i as int]));
        write_statement(&statements[i], i, s);
        push_str(s, "\n");
        assert(statements@.take(i + 1).drop_last() =~= statements@.take(i as int));
        assert(s@ =~= s1 + statement_lines(statements@.take(i + 1)));
        i = i + 1;
    }
    assert(statements@.take(statements.len() as int) =~= statements@);
}

/// Appends a process made of `statements`.
fn write_process(statements: &Vec<Statement>, s: &mut String)
    requires
        statements_ok(statements@),
    ensures
        final(s)@ == old(s)@ + process_text(statements@),
    decreases statements@, 2nat,
{
    let ghost s0 = s@;
    push_str(s, "process begin\n");
    write_statement_lines(statements, s);
    push_str(s, "end process;\n");
    assert(s@ =~= s0 + process_text(statements@));
}

impl IdStatement {
    /// The labelled statement as text.
    pub fn to_string(&self) -> (r: String)
        requires
            statement_ok(self.stmt),
        ensures
            r@ == id_statement_text(self.id as nat, self.stmt),
    {
        let mut s = String::new();
        write_statement(&self.stmt, self.id, &mut s);
        assert(s@ =~= id_statement_text(self.id as nat, self.stmt));
        s
    }
}

impl Process {
    /// The process as text.
    pub fn to_string(&self) -> (r: String)
        requires
            statements_ok(self.statements@),
        ensures
            r@ == process_text(self.statements@),
    {
        let mut s = String::new();
        write_process(&self.statements, &mut s);
        assert(s@ =~= process_text(self.statements@));
        s
    }
}

// ========= CONVERSIONS ========== //

/// A slice as a value.
pub struct SliceView {
    pub name: Seq<char>,
    pub start: Option<GenericWidth>,
    pub end: Option<GenericWidth>,
}

/// The right side of a mapping as a value.
pub enum RhsView {
    Slice(SliceView),
    Literal(Seq<bool>),
}

/// A port mapping as a value.
pub struct MappingView {
    pub wire_name: Seq<char>,
    pub port: SliceView,
    pub wire: RhsView,
}

/// A slice as a value.
pub open spec fn slice_view(s: SliceVHDL) -> SliceView {
    SliceView { name: s.name@, start: s.start, end: s.end }
}

/// A right side as a value.
pub open spec fn rhs_view(r: SignalRhs) -> RhsView {
    match r {
        SignalRhs::Slice(x) => RhsView::Slice(slice_view(x)),
        SignalRhs::Literal(x) => RhsView::Literal(x.values@),
    }
}

/// A port mapping as a value.
pub open spec fn mapping_view(m: PortMappingVHDL) -> MappingView {
    MappingView { wire_name: m.wire_name@, port: slice_view(m.port), wire: rhs_view(m.wire) }
}

/// The slice that stands for an HDL bus.
pub open spec fn bus_slice(b: BusHDL) -> SliceView {
    SliceView { name: b.name@, start: b.start, end: b.end }
}

impl SliceVHDL {
    /// The slice for an HDL bus: the same name and bounds.
    pub fn from(hdl: &BusHDL) -> (r: SliceVHDL)
        ensures
            slice_view(r) == bus_slice(*hdl),
            r.name == hdl.name,
    {
        SliceVHDL { name: hdl.name.clone(), start: clone_opt_width(&hdl.start), end: clone_opt_width(&hdl.end) }
    }
}

impl BusHDL {
    /// The HDL bus for the right side of an assignment, which must be a slice
    /// (a literal has no bus).
    pub fn from(vhdl: &SignalRhs) -> (r: BusHDL)
        requires
            vhdl is Slice,
        ensures
            bus_slice(r) == slice_view(vhdl->Slice_0),
    {
        match vhdl {
            SignalRhs::Slice(slice) => BusHDL {
                name: slice.name.clone(),
                start: clone_opt_width(&slice.start),
                end: clone_opt_width(&slice.end),
            },
            SignalRhs::Literal(_) => {
                // Ruled out by the precondition.
                BusHDL { name: String::new(), start: None, end: None }
            },
        }
    }
}

impl VhdlPort {
    /// The VHDL port for a declared HDL port.
    pub fn from(port: &GenericPort) -> (r: VhdlPort)
        ensures
            r.name == port.name.value,
            r.width == port.width,
            r.direction == port.direction,
    {
        VhdlPort { name: port.name.value.clone(), width: port.width.clone(), direction: port.direction }
    }
}

/// The VHDL mapping for an HDL port mapping.
pub open spec fn mapping_from_hdl(pm: PortMappingHDL) -> MappingView {
    MappingView { wire_name: pm.wire.name@, port: bus_slice(pm.port), wire: RhsView::Slice(bus_slice(pm.wire)) }
}

impl PortMappingVHDL {
    /// The VHDL port mapping for an HDL one: the same port and wire.
    pub fn from(pm: &PortMappingHDL) -> (r: PortMappingVHDL)
        ensures
            mapping_view(r) == mapping_from_hdl(*pm),
    {
        let wire = SignalRhs::Slice(SliceVHDL::from(&pm.wire));
        PortMappingVHDL { wire_name: pm.wire.name.clone(), port: SliceVHDL::from(&pm.port), wire }
    }
}

impl AssignmentVHDL {
    /// The VHDL assignment for an HDL one.
    pub fn from(assignment: &AssignmentHDL) -> (r: AssignmentVHDL)
        ensures
            slice_view(r.left) == bus_slice(assignment.left),
            rhs_view(r.right) == RhsView::Slice(bus_slice(assignment.right)),
    {
        AssignmentVHDL {
            left: SliceVHDL::from(&assignment.left),
            right: SignalRhs::Slice(SliceVHDL::from(&assignment.right)),
        }
    }
}

/// The distinct port names of the mappings, in order of first appearance.
pub open spec fn port_names(ms: Seq<PortMappingHDL>) -> Seq<Seq<char>>
    decreases ms.len(),
{
    if ms.len() == 0 {
        Seq::empty()
    } else {
        let prev = port_names(ms.drop_last());
        if prev.contains(ms.last().port.name@) {
            prev
        } else {
            prev.push(ms.last().port.name@)
        }
    }
}

/// The mappings of the port `name`, in order.
pub open spec fn mappings_of(ms: Seq<PortMappingHDL>, name: Seq<char>) -> Seq<PortMappingHDL>
    decreases ms.len(),
{
    if ms.len() == 0 {
        Seq::empty()
    } else {
        let prev = mappings_of(ms.drop_last(), name);
        if ms.last().port.name@ == name {
            prev.push(ms.last())
        } else {
            prev
        }
    }
}

/// The groups of mappings that share a port, as names and mappings.
pub open spec fn groups_view(groups: Seq<(String, Vec<PortMappingHDL>)>) -> Seq<(Seq<char>, Seq<PortMappingHDL>)> {
    groups.map_values(|g: (String, Vec<PortMappingHDL>)| (g.0@, g.1@))
}

/// The groups that `group_port_mappings` gives for the mappings `ms`.
pub open spec fn grouped(ms: Seq<PortMappingHDL>) -> Seq<(Seq<char>, Seq<PortMappingHDL>)> {
    port_names(ms).map_values(|n: Seq<char>| (n, mappings_of(ms, n)))
}

/// Groups the port mappings of a component by port: one group for each port
/// that is mapped, in the order in which the ports first appear, with the
/// mappings of that port in order.
pub fn group_port_mappings(component: &Component) -> (r: Vec<(String, Vec<PortMappingHDL>)>)
    ensures
        groups_view(r@) == grouped(component.mappings@),
{
    let ghost ms = component.mappings@;
    let mut groups: Vec<(String, Vec<PortMappingHDL>)> = Vec::new();
    let mut k: usize = 0;
    while k < component.mappings.len()
        invariant
            k <= component.mappings.len(),
            ms == component.mappings@,
            groups_view(groups@) == grouped(ms.take(k as int)),
        decreases component.mappings.len() - k,
    {
        let m = &component.mappings[k];
        let ghost pre = ms.take(k as int);
        let ghost cur = ms.take(k + 1);
        assert(cur.drop_last() =~= pre);
        assert(cur.last() == m);
        let ghost old_groups = groups_view(groups@);
        let found_at = find_group(&groups, m.port.name.as_str());
        let g: usize = match found_at {
            Some(i) => i,
            None => groups.len(),
        };
        proof {
            assert(groups_view(groups@).len() == groups@.len());
            assert(grouped(pre).len() == port_names(pre).len());
            assert(port_names(pre).len() == groups@.len());
            assert forall|j: int| 0 <= j < groups@.len() implies #[trigger] groups@[j].0@ == port_names(pre)[j] by {
                assert(groups_view(groups@)[j] == grouped(pre)[j]);
            }
        }
        if g < groups.len() {
            assert(port_names(pre).contains(m.port.name@)) by {
                assert(port_names(pre)[g as int] == m.port.name@);
            }
            assert(port_names(cur) == port_names(pre));
            let ghost raw = groups@;
            let mut entry = groups.remove(g);
            let ghost old_v = entry.1@;
            let mc = m.clone();
            entry.1.push(mc);
            let ghost new_entry = entry;
            groups.insert(g, entry);
            proof {
                assert(groups@ =~= raw.update(g as int, new_entry));
                lemma_names_distinct(pre);
                assert(port_names(pre)[g as int] == m.port.name@) by {
                    assert(groups_view(raw)[g as int] == grouped(pre)[g as int]);
                }
                assert(mappings_of(cur, m.port.name@) == mappings_of(pre, m.port.name@).push(*m));
                assert(old_v == mappings_of(pre, m.port.name@)) by {
                    assert(groups_view(raw)[g as int] == grouped(pre)[g as int]);
                }
                assert(new_entry.1@ =~= old_v.push(*m));
                assert forall|j: int| 0 <= j < groups@.len() implies #[trigger] groups_view(groups@)[j] == grouped(cur)[j] by {
                    assert(groups_view(raw)[j] == grouped(pre)[j]);
                    if j != g {
                        assert(port_names(pre)[j] != m.port.name@);
                        assert(mappings_of(cur, port_names(pre)[j]) == mappings_of(pre, port_names(pre)[j]));
                    }
                }
                assert(groups_view(groups@) =~= grouped(cur));
            }
        } else {
            proof {
                assert(!port_names(pre).contains(m.port.name@)) by {
                    if port_names(pre).contains(m.port.name@) {
                        let j = port_names(pre).index_of(m.port.name@);
                        assert(groups@[j].0@ == port_names(pre)[j]);
                    }
                }
            }
            let mut v: Vec<PortMappingHDL> = Vec::new();
            v.push(m.clone());
            groups.push((m.port.name.clone(), v));
            proof {
                lemma_mappings_of_absent(pre, m.port.name@);
                assert forall|j: int| 0 <= j < groups@.len() implies #[trigger] groups_view(groups@)[j] == grouped(cur)[j] by {
                    if j < old_groups.len() {
                        assert(groups_view(groups@)[j] == old_groups[j]);
                        assert(port_names(pre)[j] != m.port.name@) by {
                            if port_names(pre)[j] == m.port.name@ {
                                assert(port_names(pre).contains(m.port.name@));
                            }
                        }
                    } else {
                        assert(v@ =~= seq![*m]);
                        assert(mappings_of(pre, m.port.name@) =~= Seq::<PortMappingHDL>::empty());
                    }
                }
                assert(groups_view(groups@) =~= grouped(cur));
            }
        }
        k = k + 1;
    }
    assert(ms.take(component.mappings.len() as int) =~= ms);
    groups
}

/// The position of the group of port `name`, if there is one.
fn find_group(groups: &Vec<(String, Vec<PortMappingHDL>)>, name: &str) -> (r: Option<usize>)
    ensures
        match r {
            Some(i) => i < groups.len() && groups@[i as int].0@ == name@,
            None => forall|j: int| 0 <= j < groups@.len() ==> groups@[j].0@ != name@,
        },
{
    let mut g: usize = 0;
    while g < groups.len()
        invariant
            g <= groups.len(),
            forall|j: int| 0 <= j < g ==> groups@[j].0@ != name@,
        decreases groups.len() - g,
    {
        if key_eq(groups[g].0.as_str(), name) {
            return Some(g);
        }
        g = g + 1;
    }
    None
}

/// No port name is listed twice.
proof fn lemma_names_distinct(ms: Seq<PortMappingHDL>)
    ensures
        port_names(ms).no_duplicates(),
    decreases ms.len(),
{
    if ms.len() > 0 {
        lemma_names_distinct(ms.drop_last());
    }
}

/// A port that no mapping names has no mappings.
proof fn lemma_mappings_of_absent(ms: Seq<PortMappingHDL>, name: Seq<char>)
    requires
        !port_names(ms).contains(name),
    ensures
        mappings_of(ms, name) == Seq::<PortMappingHDL>::empty(),
    decreases ms.len(),
{
    if ms.len() > 0 {
        let prev = port_names(ms.drop_last());
        if prev.contains(name) {
            let j = prev.index_of(name);
            assert(port_names(ms).contains(name)) by {
                if !prev.contains(ms.last().port.name@) {
                    assert(port_names(ms)[j] == name);
                } else {
                    assert(port_names(ms)[j] == name);
                }
            }
        }
        if ms.last().port.name@ == name {
            assert(port_names(ms).contains(name)) by {
                if prev.contains(name) {
                } else {
                    assert(port_names(ms).last() == name);
                }
            }
        }
        lemma_mappings_of_absent(ms.drop_last(), name);
    }
}

/// The name of the intermediate signal for the `i`-th mapping of an output
/// port that is mapped more than once.
pub open spec fn intermediate_name(port: Seq<char>, i: nat) -> Seq<char> {
    port + "_"@ + decimal(i)
}

/// The VHDL mappings for the group of mappings `g` of port `name`: a port
/// mapped once keeps its wire; a port mapped several times drives an
/// intermediate signal for each mapping.
pub open spec fn group_mappings(name: Seq<char>, g: Seq<PortMappingHDL>) -> Seq<MappingView> {
    if g.len() == 1 {
        seq![mapping_from_hdl(g[0])]
    } else {
        Seq::new(
            g.len(),
            |i: int|
                MappingView {
                    wire_name: intermediate_name(name, i as nat),
                    port: bus_slice(g[i].port),
                    wire: RhsView::Slice(SliceView { name: intermediate_name(name, i as nat), start: g[i].wire.start, end: g[i].wire.end }),
                },
        )
    }
}

/// The VHDL mappings for all the groups, in order.
pub open spec fn all_group_mappings(groups: Seq<(Seq<char>, Seq<PortMappingHDL>)>) -> Seq<MappingView>
    decreases groups.len(),
{
    if groups.len() == 0 {
        Seq::empty()
    } else {
        all_group_mappings(groups.drop_last()) + group_mappings(groups.last().0, groups.last().1)
    }
}

/// Port mappings as values.
pub open spec fn mappings_view(ms: Seq<PortMappingVHDL>) -> Seq<MappingView> {
    ms.map_values(|m: PortMappingVHDL| mapping_view(m))
}

impl VhdlComponent {
    /// The VHDL instance of an HDL component. In HDL an output port can drive
    /// several signals, which VHDL does not allow: such a port drives one
    /// intermediate signal for each mapping instead. The ports come in the
    /// order in which they are first mapped.
    pub fn from(component: &Component) -> (r: VhdlComponent)
        ensures
            r.unit == component.name.value,
            r.generic_params@ == component.generic_params@,
            mappings_view(r.port_mappings@) == all_group_mappings(grouped(component.mappings@)),
    {
        let port_mappings = group_port_mappings(component);
        let ghost groups = groups_view(port_mappings@);
        let mut vhdl_port_mappings: Vec<PortMappingVHDL> = Vec::new();
        let mut k: usize = 0;
        while k < port_mappings.len()
            invariant
                k <= port_mappings.len(),
                groups == groups_view(port_mappings@),
                mappings_view(vhdl_port_mappings@) == all_group_mappings(groups.take(k as int)),
            decreases port_mappings.len() - k,
        {
            let port_name = &port_mappings[k].0;
            let mappings = &port_mappings[k].1;
            let ghost before = mappings_view(vhdl_port_mappings@);
            assert(groups.take(k + 1).drop_last() =~= groups.take(k as int));
            assert(groups.take(k + 1).last() == (port_name@, mappings@));
            if mappings.len() == 1 {
                let pm = PortMappingVHDL::from(&mappings[0]);
                vhdl_port_mappings.push(pm);
                assert(mappings_view(vhdl_port_mappings@) =~= before + group_mappings(port_name@, mappings@));
            } else {
                let mut i: usize = 0;
                while i < mappings.len()
                    invariant
                        i <= mappings.len(),
                        mappings.len() != 1,
                        mappings_view(vhdl_port_mappings@) == before + group_mappings(port_name@, mappings@).take(i as int),
                    decreases mappings.len() - i,
                {
                    let mapping = &mappings[i];
                    let mut intermediate_signal_name = port_name.clone();
                    push_str(&mut intermediate_signal_name, "_");
                    push_decimal(&mut intermediate_signal_name, i);
                    let wire = SliceVHDL {
                        name: intermediate_signal_name.clone(),
                        start: clone_opt_width(&mapping.wire.start),
                        end: clone_opt_width(&mapping.wire.end),
                    };
                    let pm = PortMappingVHDL {
                        wire_name: intermediate_signal_name,
                        port: SliceVHDL::from(&mapping.port),
                        wire: SignalRhs::Slice(wire),
                    };
                    let ghost prev = mappings_view(vhdl_port_mappings@);
                    vhdl_port_mappings.push(pm);
                    assert(mappings_view(vhdl_port_mappings@) =~= prev.push(mapping_view(pm)));
                    assert(group_mappings(port_name@, mappings@).take(i + 1) =~= group_mappings(port_name@, mappings@).take(i as int).push(group_mappings(port_name@, mappings@)[i as int]));
                    assert(mapping_view(pm) == group_mappings(port_name@, mappings@)[i as int]);
                    assert(mappings_view(vhdl_port_mappings@) =~= before + group_mappings(port_name@, mappings@).take(i + 1));
                    i = i + 1;
                }
                assert(group_mappings(port_name@, mappings@).take(mappings.len() as int) =~= group_mappings(port_name@, mappings@));
            }
            k = k + 1;
        }
        assert(groups.take(port_mappings.len() as int) =~= groups);
        VhdlComponent {
            unit: component.name.value.clone(),
            generic_params: crate::parser::clone_widths(&component.generic_params),
            port_mappings: vhdl_port_mappings,
        }
    }
}

// ========= NAMED THINGS ========== //

/// An object that is tracked by name.
pub trait Pet {
    /// The name.
    spec fn pet_name(&self) -> Seq<char>;

    /// The name.
    fn name(&self) -> (r: &str)
        ensures
            r@ == self.pet_name(),
    ;
}

impl Pet for VhdlPort {
    open spec fn pet_name(&self) -> Seq<char> {
        self.name@
    }

    fn name(&self) -> (r: &str) {
        self.name.as_str()
    }
}

/// A container of named objects.
pub trait Cage {
    /// The names of the objects, in order.
    spec fn pet_names(&self) -> Seq<Seq<char>>;

    /// Whether an object is named `name`.
    fn contains_name(&self, name: &str) -> (r: bool)
        ensures
            r == self.pet_names().contains(name@),
    ;
}

impl Cage for Vec<VhdlPort> {
    open spec fn pet_names(&self) -> Seq<Seq<char>> {
        self@.map_values(|p: VhdlPort| p.name@)
    }

    fn contains_name(&self, name: &str) -> (r: bool) {
        let mut i: usize = 0;
        while i < self.len()
            invariant
                i <= self.len(),
                forall|j: int| 0 <= j < i ==> self@[j].name@ != name@,
            decreases self.len() - i,
        {
            if key_eq(self[i].name(), name) {
                assert(self.pet_names()[i as int] == name@);
                return true;
            }
            i = i + 1;
        }
        proof {
            if self.pet_names().contains(name@) {
                let j = self.pet_names().index_of(name@);
                assert(self@[j].name@ == name@);
            }
        }
        false
    }
}

// ========= ENTITIES ========== //

/// A VHDL entity synthesized from a chip, with its architecture.
pub struct VhdlEntity {
    /// The name of the chip.
    pub name: String,
    /// Declared generics.
    pub generics: Vec<String>,
    /// Declared ports.
    pub ports: Vec<VhdlPort>,
    /// Declared signals.
    pub signals: Vec<Signal>,
    /// The statements of the architecture.
    pub statements: Vec<Statement>,
    /// What the sequential pass found, if it ran.
    pub optimization_info: Option<OptimizationInfo>,
    /// The parse tree of the chip.
    pub chip_hdl: ChipHDL,
}

/// Texts joined by a separator.
pub open spec fn joined(texts: Seq<Seq<char>>, sep: Seq<char>) -> Seq<char>
    decreases texts.len(),
{
    if texts.len() == 0 {
        Seq::empty()
    } else if texts.len() == 1 {
        texts[0]
    } else {
        joined(texts.drop_last(), sep) + sep + texts.last()
    }
}

/// Texts, each followed by a line break.
pub open spec fn lines(texts: Seq<Seq<char>>) -> Seq<char>
    decreases texts.len(),
{
    if texts.len() == 0 {
        Seq::empty()
    } else {
        lines(texts.drop_last()) + texts.last() + "\n"@
    }
}

/// The names of the components among the parts, loop bodies included, in order.
pub open spec fn part_names(parts: Seq<PartView>) -> Seq<Seq<char>>
    decreases parts.len(),
{
    if parts.len() == 0 {
        Seq::empty()
    } else {
        part_names(parts.drop_last()) + match parts.last() {
            PartView::Component(c) => seq![c.name.value@],
            PartView::Loop(l) => l.body.map_values(|c: ComponentView| c.name.value@),
            PartView::AssignmentHDL(_) => Seq::empty(),
        }
    }
}

/// Each name once, at its first occurrence.
pub open spec fn first_occurrences(s: Seq<Seq<char>>) -> Seq<Seq<char>>
    decreases s.len(),
{
    if s.len() == 0 {
        Seq::empty()
    } else {
        let p = first_occurrences(s.drop_last());
        if p.contains(s.last()) {
            p
        } else {
            p.push(s.last())
        }
    }
}

/// The declaration text of a port of a chip.
pub open spec fn hdl_port_text(p: GenericPort) -> Seq<char> {
    keyw_spec(p.name.value@) + " : "@ + (if p.direction == PortDirection::In {
        "in "@
    } else {
        "out "@
    }) + vector_text(p.width)
}

/// Whether the pass found the chip `name` to be sequential.
pub open spec fn flagged_sequential(info: Option<OptimizationInfo>, name: Seq<char>) -> bool {
    match info {
        Some(OptimizationInfo::SequentialFlagMap(m)) => m.map().contains_key(name) && m.map()[name],
        _ => false,
    }
}

/// The declaration of the component `name`, whose chip is `chip`: a clock
/// port first where the chip is sequential, then the chip's ports.
pub open spec fn declaration_text(name: Seq<char>, chip: ChipHDL, info: Option<OptimizationInfo>) -> Seq<char> {
    "component "@ + keyw_spec(name) + " is\n"@ + "port (\n"@ + (if flagged_sequential(info, name) {
        "clk : in std_logic_vector(0 downto 0);\n"@
    } else {
        Seq::empty()
    }) + joined(chip.ports@.map_values(|p: GenericPort| hdl_port_text(p)), ";\n"@) + "\n"@ + ");\n"@ + "end component "@
        + keyw_spec(name) + ";\n"@
}

/// The declarations of the components named `names`, each followed by a
/// line break.
pub open spec fn declarations_text(names: Seq<Seq<char>>, lib: Seq<ChipHDL>, info: Option<OptimizationInfo>) -> Seq<char>
    decreases names.len(),
{
    if names.len() == 0 {
        Seq::empty()
    } else {
        declarations_text(names.drop_last(), lib, info) + declaration_text(names.last(), chip_named(lib, names.last()).unwrap(), info)
            + "\n"@
    }
}

/// The port declarations of the entity, each keyword renamed as a whole.
pub open spec fn entity_ports_text(ports: Seq<VhdlPort>) -> Seq<char> {
    if ports.len() == 0 {
        Seq::empty()
    } else {
        "port (\n"@ + joined(ports.map_values(|p: VhdlPort| keyw_spec(port_text(p))), ";\n"@) + "\n"@ + ");\n"@
    }
}

/// The whole text of an entity and its architecture. `lib` holds the chips
/// of its components.
pub open spec fn entity_text(e: VhdlEntity, lib: Seq<ChipHDL>) -> Seq<char> {
    let k = keyw_spec(e.name@);
    "library ieee;\n"@ + "use ieee.std_logic_1164.all;\n"@ + "\n"@ + "entity "@ + k + " is\n"@ + lines(
        e.generics@.map_values(|g: String| g@),
    ) + entity_ports_text(e.ports@) + "end entity "@ + k + ";\n"@ + "\n"@ + "architecture arch of "@ + k + " is\n"@
        + declarations_text(first_occurrences(part_names(parts_view(e.chip_hdl.parts@))), lib, e.optimization_info)
        + lines(e.signals@.map_values(|x: Signal| "signal "@ + signal_text(x))) + "begin\n"@ + statement_lines(e.statements@)
        + "end arch;\n"@
}

/// The chips of the components named `names` are all in the library, and
/// their ports can be written.
pub open spec fn declarations_ok(names: Seq<Seq<char>>, lib: Seq<ChipHDL>) -> bool {
    forall|i: int|
        0 <= i < names.len() ==> (#[trigger] chip_named(lib, names[i]) matches Some(c) && forall|j: int|
            0 <= j < c.ports@.len() ==> vector_ok(#[trigger] c.ports@[j].width))
}

/// An entity can be written: the pass did not return nothing, every width can
/// be written, every statement can, and the library holds the chip of each
/// component.
pub open spec fn entity_ok(e: VhdlEntity, lib: Seq<ChipHDL>) -> bool {
    &&& !(e.optimization_info matches Some(OptimizationInfo::Nothing))
    &&& forall|i: int| 0 <= i < e.ports@.len() ==> vector_ok(#[trigger] e.ports@[i].width)
    &&& forall|i: int| 0 <= i < e.signals@.len() ==> vector_ok(#[trigger] e.signals@[i].width)
    &&& statements_ok(e.statements@)
    &&& declarations_ok(first_occurrences(part_names(parts_view(e.chip_hdl.parts@))), lib)
}

/// Appends the declaration text of a port of a chip.
fn write_hdl_port(p: &GenericPort, s: &mut String)
    requires
        vector_ok(p.width),
    ensures
        final(s)@ == old(s)@ + hdl_port_text(*p),
{
    let vp = VhdlPort::from(p);
    vp.write_to(s);
}

/// Appends `lines`, each followed by a line break.
fn write_lines(texts: &Vec<String>, s: &mut String)
    ensures
        final(s)@ == old(s)@ + lines(texts@.map_values(|g: String| g@)),
{
    let ghost s0 = s@;
    let ghost ts = texts@.map_values(|g: String| g@);
    let mut i: usize = 0;
    while i < texts.len()
        invariant
            i <= texts.len(),
            ts == texts@.map_values(|g: String| g@),
            s@ == s0 + lines(ts.take(i as int)),
        decreases texts.len() - i,
    {
        push_str(s, texts[i].as_str());
        push_str(s, "\n");
        assert(ts.take(i + 1).drop_last() =~= ts.take(i as int));
        assert(s@ =~= s0 + lines(ts.take(i + 1)));
        i = i + 1;
    }
    assert(ts.take(texts.len() as int) =~= ts);
}

impl VhdlEntity {
    /// The declaration of the component `dep`, whose chip is found in `library`.
    fn declaration(&self, dep: &str, library: &Vec<ChipHDL>) -> (r: String)
        requires
            !(self.optimization_info matches Some(OptimizationInfo::Nothing)),
            chip_named(library@, dep@) matches Some(c) && forall|j: int| 0 <= j < c.ports@.len() ==> vector_ok(#[trigger] c.ports@[j].width),
        ensures
            r@ == declaration_text(dep@, chip_named(library@, dep@).unwrap(), self.optimization_info),
    {
        let chip_hdl = get_hdl(dep, library).unwrap();
        let mut decl = String::new();
        push_str(&mut decl, "component ");
        push_keyw(&mut decl, dep);
        push_str(&mut decl, " is\n");
        push_str(&mut decl, "port (\n");
        let ghost s1 = decl@;
        match &self.optimization_info {
            Some(OptimizationInfo::SequentialFlagMap(seq_flag_map)) => {
                if let Some(flag) = seq_flag_map.get(dep) {
                    if *flag {
                        push_str(&mut decl, "clk : in std_logic_vector(0 downto 0);\n");
                    }
                }
            },
            _ => {},
        }
        let ghost s2 = decl@;
        assert(s2 == s1 + (if flagged_sequential(self.optimization_info, dep@) {
            "clk : in std_logic_vector(0 downto 0);\n"@
        } else {
            Seq::<char>::empty()
        }));
        let ghost texts = chip_hdl.ports@.map_values(|p: GenericPort| hdl_port_text(p));
        let mut i: usize = 0;
        while i < chip_hdl.ports.len()
            invariant
                i <= chip_hdl.ports.len(),
                texts == chip_hdl.ports@.map_values(|p: GenericPort| hdl_port_text(p)),
                forall|j: int| 0 <= j < chip_hdl.ports@.len() ==> vector_ok(#[trigger] chip_hdl.ports@[j].width),
                decl@ == s2 + joined(texts.take(i as int), ";\n"@),
            decreases chip_hdl.ports.len() - i,
        {
            if i != 0 {
                push_str(&mut decl, ";\n");
            }
            write_hdl_port(&chip_hdl.ports[i], &mut decl);
            let ghost t = texts.take(i + 1);
            assert(t.drop_last() =~= texts.take(i as int));
            assert(t.len() == 1 ==> t[0] == t.last());
            assert(decl@ =~= s2 + joined(t, ";\n"@));
            i = i + 1;
        }
        assert(texts.take(chip_hdl.ports.len() as int) =~= texts);
        push_str(&mut decl, "\n");
        push_str(&mut decl, ");\n");
        push_str(&mut decl, "end component ");
        push_keyw(&mut decl, dep);
        push_str(&mut decl, ";\n");
        assert(decl@ =~= declaration_text(dep@, chip_named(library@, dep@).unwrap(), self.optimization_info));
        decl
    }

    /// The names of the components of the chip, each once, in order of first
    /// appearance.
    fn component_names(&self) -> (r: Vec<String>)
        ensures
            r@.map_values(|g: String| g@) == first_occurrences(part_names(parts_view(self.chip_hdl.parts@))),
    {
        let ghost parts = parts_view(self.chip_hdl.parts@);
        let mut seen: Vec<String> = Vec::new();
        let mut p: usize = 0;
        assert(seen@.map_values(|g: String| g@) =~= first_occurrences(part_names(parts.take(0))));
        while p < self.chip_hdl.parts.len()
            invariant
                p <= self.chip_hdl.parts.len(),
                parts == parts_view(self.chip_hdl.parts@),
                seen@.map_values(|g: String| g@) == first_occurrences(part_names(parts.take(p as int))),
            decreases self.chip_hdl.parts.len() - p,
        {
            assert(parts.take(p + 1).drop_last() =~= parts.take(p as int));
            assert(parts.take(p + 1).last() == self.chip_hdl.parts@[p as int]@);
            let ghost before = part_names(parts.take(p as int));
            match &self.chip_hdl.parts[p] {
                Part::Component(component) => {
                    add_first_occurrence(&mut seen, &component.name.value, Ghost(before));
                    assert(before.push(component.name.value@) =~= before + seq![component.name.value@]);
                },
                Part::Loop(loop_hdl) => {
                    let ghost names = components_view(loop_hdl.body@).map_values(|c: ComponentView| c.name.value@);
                    let mut k: usize = 0;
                    while k < loop_hdl.body.len()
                        invariant
                            k <= loop_hdl.body.len(),
                            names == components_view(loop_hdl.body@).map_values(|c: ComponentView| c.name.value@),
                            seen@.map_values(|g: String| g@) == first_occurrences(before + names.take(k as int)),
                        decreases loop_hdl.body.len() - k,
                    {
                        add_first_occurrence(&mut seen, &loop_hdl.body[k].name.value, Ghost(before + names.take(k as int)));
                        assert((before + names.take(k as int)).push(loop_hdl.body@[k as int].name.value@) =~= before + names.take(k + 1));
                        k = k + 1;
                    }
                    assert(names.take(loop_hdl.body.len() as int) =~= names);
                },
                Part::AssignmentHDL(_) => {
                    assert(before + Seq::<Seq<char>>::empty() =~= before);
                },
            }
            p = p + 1;
        }
        assert(parts.take(self.chip_hdl.parts.len() as int) =~= parts);
        seen
    }

    /// Appends the port clause of the entity.
    fn write_ports(&self, f: &mut String)
        requires
            forall|j: int| 0 <= j < self.ports@.len() ==> vector_ok(#[trigger] self.ports@[j].width),
        ensures
            final(f)@ == old(f)@ + entity_ports_text(self.ports@),
    {
        if self.ports.len() > 0 {
            push_str(f, "port (\n");
            let ghost s1 = f@;
            let ghost texts = self.ports@.map_values(|p: VhdlPort| keyw_spec(port_text(p)));
            let mut i: usize = 0;
            while i < self.ports.len()
                invariant
                    i <= self.ports.len(),
                    texts == self.ports@.map_values(|p: VhdlPort| keyw_spec(port_text(p))),
                    forall|j: int| 0 <= j < self.ports@.len() ==> vector_ok(#[trigger] self.ports@[j].width),
                    f@ == s1 + joined(texts.take(i as int), ";\n"@),
                decreases self.ports.len() - i,
            {
                if i != 0 {
                    push_str(f, ";\n");
                }
                let t = self.ports[i].to_string();
                push_keyw(f, t.as_str());
                let ghost tk = texts.take(i + 1);
                assert(tk.drop_last() =~= texts.take(i as int));
                assert(tk.len() == 1 ==> tk[0] == tk.last());
                assert(f@ =~= s1 + joined(tk, ";\n"@));
                i = i + 1;
            }
            assert(texts.take(self.ports.len() as int) =~= texts);
            push_str(f, "\n");
            push_str(f, ");\n");
        }
        assert(f@ =~= old(f)@ + entity_ports_text(self.ports@));
    }

    /// Appends the declaration of each component the chip uses, once each.
    fn write_declarations(&self, library: &Vec<ChipHDL>, f: &mut String)
        requires
            entity_ok(*self, library@),
        ensures
            final(f)@ == old(f)@ + declarations_text(
                first_occurrences(part_names(parts_view(self.chip_hdl.parts@))),
                library@,
                self.optimization_info,
            ),
    {
        let names = self.component_names();
        let ghost ns = names@.map_values(|g: String| g@);
        let ghost s_decl = f@;
        let mut i: usize = 0;
        while i < names.len()
            invariant
                i <= names.len(),
                ns == names@.map_values(|g: String| g@),
                ns == first_occurrences(part_names(parts_view(self.chip_hdl.parts@))),
                entity_ok(*self, library@),
                f@ == s_decl + declarations_text(ns.take(i as int), library@, self.optimization_info),
            decreases names.len() - i,
        {
            assert(ns[i as int] == names@[i as int]@);
            let decl = self.declaration(names[i].as_str(), library);
            push_str(f, decl.as_str());
            push_str(f, "\n");
            assert(ns.take(i + 1).drop_last() =~= ns.take(i as int));
            assert(f@ =~= s_decl + declarations_text(ns.take(i + 1), library@, self.optimization_info));
            i = i + 1;
        }
        assert(ns.take(names.len() as int) =~= ns);
    }

    /// Appends a signal declaration line for each signal.
    fn write_signals(&self, f: &mut String)
        requires
            forall|j: int| 0 <= j < self.signals@.len() ==> vector_ok(#[trigger] self.signals@[j].width),
        ensures
            final(f)@ == old(f)@ + lines(self.signals@.map_values(|x: Signal| "signal "@ + signal_text(x))),
    {
        let ghost s_sig = f@;
        let ghost sig_texts = self.signals@.map_values(|x: Signal| "signal "@ + signal_text(x));
        let mut i: usize = 0;
        while i < self.signals.len()
            invariant
                i <= self.signals.len(),
                sig_texts == self.signals@.map_values(|x: Signal| "signal "@ + signal_text(x)),
                forall|j: int| 0 <= j < self.signals@.len() ==> vector_ok(#[trigger] self.signals@[j].width),
                f@ == s_sig + lines(sig_texts.take(i as int)),
            decreases self.signals.len() - i,
        {
            push_str(f, "signal ");
            self.signals[i].write_to(f);
            push_str(f, "\n");
            assert(sig_texts.take(i + 1).drop_last() =~= sig_texts.take(i as int));
            assert(f@ =~= s_sig + lines(sig_texts.take(i + 1)));
            i = i + 1;
        }
        assert(sig_texts.take(self.signals.len() as int) =~= sig_texts);
    }

    /// The entity and its architecture as VHDL text.
    pub fn to_string(&self, library: &Vec<ChipHDL>) -> (r: String)
        requires
            entity_ok(*self, library@),
        ensures
            r@ == entity_text(*self, library@),
    {
        let mut f = String::new();
        push_str(&mut f, "library ieee;\n");
        push_str(&mut f, "use ieee.std_logic_1164.all;\n");
        push_str(&mut f, "\n");
        push_str(&mut f, "entity ");
        push_keyw(&mut f, self.name.as_str());
        push_str(&mut f, " is\n");
        write_lines(&self.generics, &mut f);
        self.write_ports(&mut f);
        push_str(&mut f, "end entity ");
        push_keyw(&mut f, self.name.as_str());
        push_str(&mut f, ";\n");
        push_str(&mut f, "\n");
        push_str(&mut f, "architecture arch of ");
        push_keyw(&mut f, self.name.as_str());
        push_str(&mut f, " is\n");
        self.write_declarations(library, &mut f);
        self.write_signals(&mut f);
        push_str(&mut f, "begin\n");
        write_statement_lines(&self.statements, &mut f);
        push_str(&mut f, "end arch;\n");
        assert(f@ =~= entity_text(*self, library@));
        f
    }
}

/// Adds `name` to `seen` unless it is there already.
fn add_first_occurrence(seen: &mut Vec<String>, name: &String, Ghost(before): Ghost<Seq<Seq<char>>>)
    requires
        old(seen)@.map_values(|g: String| g@) == first_occurrences(before),
    ensures
        final(seen)@.map_values(|g: String| g@) == first_occurrences(before.push(name@)),
{
    assert(before.push(name@).drop_last() =~= before);
    let mut i: usize = 0;
    while i < seen.len()
        invariant
            i <= seen.len(),
            seen@.map_values(|g: String| g@) == first_occurrences(before),
            before.push(name@).drop_last() == before,
            forall|j: int| 0 <= j < i ==> seen@[j]@ != name@,
        decreases seen.len() - i,
    {
        if key_eq(seen[i].as_str(), name.as_str()) {
            assert(seen@.map_values(|g: String| g@)[i as int] == name@);
            assert(first_occurrences(before).contains(name@));
            return;
        }
        i = i + 1;
    }
    proof {
        if first_occurrences(before).contains(name@) {
            let j = first_occurrences(before).index_of(name@);
            assert(seen@.map_values(|g: String| g@)[j] == name@);
        }
    }
    let ghost old_view = seen@.map_values(|g: String| g@);
    seen.push(name.clone());
    assert(seen@.map_values(|g: String| g@) =~= old_view.push(name@));
}

/// A Quartus Prime project for a chip: its parse tree, its VHDL entity, and
/// the directory that the project is written to.
pub struct QuartusProject {
    pub chip_hdl: ChipHDL,
    pub chip_vhdl: VhdlEntity,
    pub project_dir: String,
}

impl QuartusProject {
    /// A project for `chip_hdl` and its entity `chip_vhdl` in `project_dir`.
    pub fn new(chip_hdl: ChipHDL, chip_vhdl: VhdlEntity, project_dir: String) -> (r: QuartusProject)
        ensures
            r.chip_hdl == chip_hdl,
            r.chip_vhdl == chip_vhdl,
            r.project_dir == project_dir,
    {
        QuartusProject { chip_hdl, chip_vhdl, project_dir }
    }
}

/// The line of a project script that adds a VHDL file.
pub open spec fn vhdl_file_line(file: Seq<char>) -> Seq<char> {
    "set_global_assignment -name VHDL_FILE "@ + file + "\n"@
}

/// The lines that add the VHDL files of the chips named `names`.
pub open spec fn chip_file_lines(names: Seq<Seq<char>>) -> Seq<char>
    decreases names.len(),
{
    if names.len() == 0 {
        Seq::empty()
    } else {
        chip_file_lines(names.drop_last()) + vhdl_file_line(names.last() + ".vhdl"@)
    }
}

/// The assignments of a project script for the top-level entity `name`:
/// the entity, the NAND gate's file, the entity's file, and the file of each
/// chip named in `names`.
pub open spec fn tcl_block(name: Seq<char>, names: Seq<Seq<char>>) -> Seq<char> {
    "set_global_assignment -name TOP_LEVEL_ENTITY "@ + keyw_spec(name) + "\n"@ + vhdl_file_line("NAND.vhdl"@)
        + vhdl_file_line(name + ".vhdl"@) + chip_file_lines(names)
}

/// The Quartus project script for the top-level entity `name`, where
/// `names` are the chips that the sequential pass visited: the assignments
/// come three times over, between the line that creates the project and the
/// one that closes it.
pub open spec fn tcl_text(name: Seq<char>, names: Seq<Seq<char>>) -> Seq<char> {
    "project_new "@ + name + " -overwrite"@ + tcl_block(name, names) + tcl_block(name, names) + tcl_block(name, names)
        + "project_close"@
}

/// The Quartus project script of a project: `Err` where the sequential pass
/// over the chip finds a chip missing from `library`. The chips that the pass
/// visited come in ascending order of name.
pub fn quartus_tcl(qp: &QuartusProject, library: &Vec<ChipHDL>) -> (r: Result<String, N2VError>)
    requires
        library_ordered(library@),
    ensures
        match parts_outcome(library@, parts_view(qp.chip_hdl.parts@), Map::empty()) {
            Ok((b, m)) => r matches Ok(t) && exists|names: Seq<Seq<char>>| {
                &&& names.to_set() == m.insert(qp.chip_hdl.name@, b).dom()
                &&& forall|i: int, j: int| 0 <= i < j < names.len() ==> key_lt(#[trigger] names[i], #[trigger] names[j])
                &&& t@ == tcl_text(qp.chip_vhdl.name@, names)
            },
            Err(name) => r matches Err(e) && e.msg@ == missing_chip_msg(name) && e.kind is IOError,
        },
{
    let mut sequential_pass = SequentialPass::new();
    let info = match sequential_pass.apply(&qp.chip_hdl, library) {
        Ok((_, info)) => info,
        Err(e) => return Err(e),
    };
    let name = qp.chip_vhdl.name.as_str();
    let mut block = String::new();
    push_str(&mut block, "set_global_assignment -name TOP_LEVEL_ENTITY ");
    let top = keyw(name);
    push_str(&mut block, top.as_str());
    push_str(&mut block, "\n");
    push_str(&mut block, "set_global_assignment -name VHDL_FILE ");
    push_str(&mut block, "NAND.vhdl");
    push_str(&mut block, "\n");
    push_str(&mut block, "set_global_assignment -name VHDL_FILE ");
    push_str(&mut block, name);
    push_str(&mut block, ".vhdl");
    push_str(&mut block, "\n");
    let ghost head = block@;
    assert(head =~= "set_global_assignment -name TOP_LEVEL_ENTITY "@ + keyw_spec(name@) + "\n"@ + vhdl_file_line("NAND.vhdl"@)
        + vhdl_file_line(name@ + ".vhdl"@));
    match &info {
        OptimizationInfo::SequentialFlagMap(fm) => {
            proof {
                use_type_invariant(fm);
                fm.lemma_layout();
            }
            let n = fm.len();
            let mut i: usize = 0;
            assert(fm.keys().take(0) =~= Seq::<Seq<char>>::empty());
            while i < n
                invariant
                    n == fm.keys().len(),
                    i <= n,
                    block@ == head + chip_file_lines(fm.keys().take(i as int)),
                decreases n - i,
            {
                let k = fm.key_at(i);
                push_str(&mut block, "set_global_assignment -name VHDL_FILE ");
                push_str(&mut block, k.as_str());
                push_str(&mut block, ".vhdl");
                push_str(&mut block, "\n");
                assert(fm.keys().take(i + 1).drop_last() =~= fm.keys().take(i as int));
                assert(fm.keys().take(i + 1).last() == k@);
                assert(block@ =~= head + chip_file_lines(fm.keys().take(i + 1)));
                i = i + 1;
            }
            assert(fm.keys().take(n as int) =~= fm.keys());
            assert(fm.keys().to_set() =~= fm.map().dom());
        },
        OptimizationInfo::Nothing => {},
    }
    let mut tcl = String::new();
    push_str(&mut tcl, "project_new ");
    push_str(&mut tcl, name);
    push_str(&mut tcl, " -overwrite");
    push_str(&mut tcl, block.as_str());
    push_str(&mut tcl, block.as_str());
    push_str(&mut tcl, block.as_str());
    push_str(&mut tcl, "project_close");
    Ok(tcl)
}

// ========= SYNTHESIS ========== //

/// The clock port that a sequential chip gets.
pub open spec fn is_clock_port(p: VhdlPort) -> bool {
    p.name@ == "clk"@ && p.width == num(1) && p.direction == PortDirection::In
}

/// The clock mapping that a sequential component gets.
pub open spec fn clock_mapping() -> MappingView {
    MappingView {
        wire_name: "clk"@,
        port: SliceView { name: "clk"@, start: None, end: None },
        wire: RhsView::Slice(SliceView { name: "clk"@, start: None, end: None }),
    }
}

/// The values of the generics of a chip, in the order of their declaration.
pub open spec fn generic_values(decls: Seq<crate::parser::Identifier>, variables: Map<Seq<char>, usize>) -> Seq<GenericWidth> {
    decls.map_values(|d: crate::parser::Identifier| num(variables[d.value@]))
}

/// A port mapping for the clock.
pub(crate) fn clock_port_mapping() -> (r: PortMappingVHDL)
    ensures
        mapping_view(r) == clock_mapping(),
        port_mapping_ok(r),
{
    PortMappingVHDL {
        wire_name: String::from_str("clk"),
        port: SliceVHDL { name: String::from_str("clk"), start: None, end: None },
        wire: SignalRhs::Slice(SliceVHDL { name: String::from_str("clk"), start: None, end: None }),
    }
}

/// Whether a flag map says that the chip `name` is sequential.
pub(crate) fn flagged(info: &OptimizationInfo, name: &str) -> (r: bool)
    ensures
        r == flagged_sequential(Some(*info), name@),
{
    match info {
        OptimizationInfo::SequentialFlagMap(m) => match m.get(name) {
            Some(f) => *f,
            None => false,
        },
        OptimizationInfo::Nothing => false,
    }
}

impl VhdlEntity {
    /// Synthesizes the VHDL entity of a chip from its parse tree, its
    /// components (loops unrolled) and the values of its variables: its
    /// ports (and a clock port where the chip is sequential), a signal for
    /// each inferred width that is not a port, an instance of each component
    /// (with the clock where the component is sequential), and its
    /// assignments. `Err` where the sequential pass or width inference fails.
    #[verifier::spinoff_prover]
    pub fn from_chip(
        chip_hdl: &ChipHDL,
        components: &Vec<Component>,
        variables: &StrMap<usize>,
        library: &Vec<ChipHDL>,
    ) -> (r: Result<VhdlEntity, N2VError>)
        requires
            library_ordered(library@),
            forall|i: int| 0 <= i < chip_hdl.generic_decls@.len() ==> variables.map().contains_key(#[trigger] chip_hdl.generic_decls@[i].value@),
            exists|fuel: nat| infer_spec(*chip_hdl, library@, components_view(components@), Seq::empty(), generic_values(chip_hdl.generic_decls@, variables.map()), fuel) is Some,
        ensures
            ({
                let fuel = infer_fuel(*chip_hdl, library@, components_view(components@), Seq::empty(), generic_values(chip_hdl.generic_decls@, variables.map()));
                let widths = infer_spec(*chip_hdl, library@, components_view(components@), Seq::empty(), generic_values(chip_hdl.generic_decls@, variables.map()), fuel).unwrap();
                match parts_outcome(library@, parts_view(chip_hdl.parts@), Map::empty()) {
                    Err(name) => r matches Err(e) && e.msg@ == missing_chip_msg(name) && e.kind is IOError,
                    Ok((b, m)) => match widths {
                        Err((msg, k)) => r matches Err(e) && e.msg@ == msg && e.kind == k,
                        Ok(w) => r matches Ok(ent) && {
                            let flags = m.insert(chip_hdl.name@, b);
                            let n = chip_hdl.ports@.len();
                            &&& ent.name == chip_hdl.name
                            &&& ent.generics@.map_values(|g: String| g@) == chip_hdl.generic_decls@.map_values(|d: crate::parser::Identifier| d.value@)
                            &&& ent.optimization_info matches Some(OptimizationInfo::SequentialFlagMap(fm)) && fm.map() == flags
                            &&& ent.ports@.len() == n + (if flags.contains_key(chip_hdl.name@) && flags[chip_hdl.name@] { 1int } else { 0int })
                            &&& forall|i: int| 0 <= i < n ==> (#[trigger] ent.ports@[i]).name == chip_hdl.ports@[i].name.value
                                && ent.ports@[i].width == chip_hdl.ports@[i].width && ent.ports@[i].direction == chip_hdl.ports@[i].direction
                            &&& ent.ports@.len() > n ==> is_clock_port(ent.ports@[n as int])
                            &&& forall|i: int| 0 <= i < ent.signals@.len() ==> w.contains_key((#[trigger] ent.signals@[i]).name@)
                                && ent.signals@[i].width == w[ent.signals@[i].name@]
                                && !ent.ports@.map_values(|p: VhdlPort| p.name@).contains(ent.signals@[i].name@)
                            &&& forall|k: Seq<char>| #[trigger] w.contains_key(k) && !ent.ports@.map_values(|p: VhdlPort| p.name@).contains(k)
                                ==> ent.signals@.map_values(|x: Signal| x.name@).contains(k)
                            &&& ent.statements@.len() == components@.len() + crate::simulator::assignments_of(parts_view(chip_hdl.parts@)).len()
                            &&& forall|i: int| 0 <= i < components@.len() ==> (#[trigger] ent.statements@[i] matches Statement::Component(vc)
                                && vc.unit == components@[i].name.value
                                && mappings_view(vc.port_mappings@) == all_group_mappings(grouped(components@[i].mappings@)) + (if flags.contains_key(
                                    components@[i].name.value@,
                                ) && flags[components@[i].name.value@] {
                                    seq![clock_mapping()]
                                } else {
                                    Seq::empty()
                                }))
                            &&& forall|i: int| 0 <= i < crate::simulator::assignments_of(parts_view(chip_hdl.parts@)).len() ==> (#[trigger] ent.statements@[components@.len() + i] matches Statement::Assignment(a)
                                && slice_view(a.left) == bus_slice(crate::simulator::assignments_of(parts_view(chip_hdl.parts@))[i].left)
                                && rhs_view(a.right) == RhsView::Slice(bus_slice(crate::simulator::assignments_of(parts_view(chip_hdl.parts@))[i].right)))
                        },
                    },
                }
            }),
    {
        let mut ports: Vec<VhdlPort> = Vec::new();
        let mut i: usize = 0;
        while i < chip_hdl.ports.len()
            invariant
                i <= chip_hdl.ports.len(),
                ports@.len() == i,
                forall|j: int| 0 <= j < i ==> (#[trigger] ports@[j]).name == chip_hdl.ports@[j].name.value
                    && ports@[j].width == chip_hdl.ports@[j].width && ports@[j].direction == chip_hdl.ports@[j].direction,
            decreases chip_hdl.ports.len() - i,
        {
            ports.push(VhdlPort::from(&chip_hdl.ports[i]));
            i = i + 1;
        }
        let mut sequential_pass = SequentialPass::new();
        let info = match sequential_pass.apply(chip_hdl, library) {
            Ok((_, info)) => info,
            Err(e) => return Err(e),
        };
        if flagged(&info, chip_hdl.name.as_str()) {
            ports.push(VhdlPort {
                name: String::from_str("clk"),
                width: GenericWidth::Terminal(Terminal::Num(1)),
                direction: PortDirection::In,
            });
        }
        let mut generic_params: Vec<GenericWidth> = Vec::new();
        let mut generic_decls: Vec<String> = Vec::new();
        let mut g: usize = 0;
        while g < chip_hdl.generic_decls.len()
            invariant
                g <= chip_hdl.generic_decls.len(),
                forall|i: int| 0 <= i < chip_hdl.generic_decls@.len() ==> variables.map().contains_key(#[trigger] chip_hdl.generic_decls@[i].value@),
                generic_params@ == generic_values(chip_hdl.generic_decls@, variables.map()).take(g as int),
                generic_decls@.map_values(|s: String| s@) == chip_hdl.generic_decls@.map_values(|d: crate::parser::Identifier| d.value@).take(g as int),
            decreases chip_hdl.generic_decls.len() - g,
        {
            let decl = &chip_hdl.generic_decls[g];
            assert(variables.map().contains_key(chip_hdl.generic_decls@[g as int].value@));
            let param = *variables.get(decl.value.as_str()).unwrap();
            generic_params.push(GenericWidth::Terminal(Terminal::Num(param)));
            let ghost before = generic_decls@.map_values(|s: String| s@);
            generic_decls.push(decl.value.clone());
            assert(generic_decls@.map_values(|s: String| s@) =~= before.push(decl.value@));
            assert(generic_params@ =~= generic_values(chip_hdl.generic_decls@, variables.map()).take(g + 1));
            assert(generic_decls@.map_values(|s: String| s@) =~= chip_hdl.generic_decls@.map_values(|d: crate::parser::Identifier| d.value@).take(g + 1));
            g = g + 1;
        }
        assert(generic_params@ =~= generic_values(chip_hdl.generic_decls@, variables.map()));
        assert(generic_decls@.map_values(|s: String| s@) =~= chip_hdl.generic_decls@.map_values(|d: crate::parser::Identifier| d.value@));
        let no_assignments: Vec<AssignmentHDL> = Vec::new();
        assert(no_assignments@ =~= Seq::<AssignmentHDL>::empty());
        let inferred_widths = match infer_widths(chip_hdl, &no_assignments, components, library, &generic_params) {
            Ok(w) => w,
            Err(e) => return Err(e),
        };
        let ghost w = inferred_widths.map();
        let ghost port_names = ports@.map_values(|p: VhdlPort| p.name@);
        let mut signals: Vec<Signal> = Vec::new();
        let n = inferred_widths.len();
        let mut k: usize = 0;
        proof {
            use_type_invariant(&inferred_widths);
            inferred_widths.lemma_layout();
        }
        while k < n
            invariant
                k <= n,
                n == inferred_widths.keys().len(),
                w == inferred_widths.map(),
                inferred_widths.wf(),
                port_names == ports@.map_values(|p: VhdlPort| p.name@),
                forall|j: int| 0 <= j < signals@.len() ==> w.contains_key((#[trigger] signals@[j]).name@)
                    && signals@[j].width == w[signals@[j].name@] && !port_names.contains(signals@[j].name@),
                forall|j: int| 0 <= j < k ==> !port_names.contains(#[trigger] inferred_widths.keys()[j])
                    ==> signals@.map_values(|x: Signal| x.name@).contains(inferred_widths.keys()[j]),
            decreases n - k,
        {
            proof {
                inferred_widths.lemma_layout();
            }
            let name = inferred_widths.key_at(k);
            if !ports.contains_name(name.as_str()) {
                let width = inferred_widths.value_at(k).clone();
                let ghost before = signals@.map_values(|x: Signal| x.name@);
                let sig = Signal { name: name.clone(), width };
                signals.push(sig);
                proof {
                    assert(signals@.map_values(|x: Signal| x.name@) =~= before.push(name@));
                    assert(signals@.map_values(|x: Signal| x.name@)[before.len() as int] == name@);
                    assert forall|j: int| 0 <= j < k && !port_names.contains(#[trigger] inferred_widths.keys()[j]) implies signals@.map_values(
                        |x: Signal| x.name@,
                    ).contains(inferred_widths.keys()[j]) by {
                        let q = before.index_of(inferred_widths.keys()[j]);
                        assert(signals@.map_values(|x: Signal| x.name@)[q] == inferred_widths.keys()[j]);
                    }
                }
            }
            k = k + 1;
        }
        proof {
            inferred_widths.lemma_layout();
            assert forall|key: Seq<char>| #[trigger] w.contains_key(key) && !port_names.contains(key) implies signals@.map_values(
                |x: Signal| x.name@,
            ).contains(key) by {
                let j = inferred_widths.keys().index_of(key);
                assert(inferred_widths.keys()[j] == key);
            }
        }
        let mut statements: Vec<Statement> = Vec::new();
        let mut c: usize = 0;
        while c < components.len()
            invariant
                c <= components.len(),
                statements@.len() == c,
                info matches OptimizationInfo::SequentialFlagMap(_),
                forall|i: int| 0 <= i < c ==> (#[trigger] statements@[i] matches Statement::Component(vc)
                    && vc.unit == components@[i].name.value
                    && mappings_view(vc.port_mappings@) == all_group_mappings(grouped(components@[i].mappings@)) + (if flagged_sequential(
                        Some(info),
                        components@[i].name.value@,
                    ) {
                        seq![clock_mapping()]
                    } else {
                        Seq::empty()
                    })),
            decreases components.len() - c,
        {
            let mut vc = VhdlComponent::from(&components[c]);
            let ghost base = mappings_view(vc.port_mappings@);
            if flagged(&info, vc.unit.as_str()) {
                vc.port_mappings.push(clock_port_mapping());
                assert(mappings_view(vc.port_mappings@) =~= base + seq![clock_mapping()]);
            } else {
                assert(mappings_view(vc.port_mappings@) =~= base + Seq::<MappingView>::empty());
            }
            statements.push(Statement::Component(vc));
            c = c + 1;
        }
        let ghost asgs = crate::simulator::assignments_of(parts_view(chip_hdl.parts@));
        let gathered = crate::simulator::gather_assignments(&chip_hdl.parts);
        let mut a: usize = 0;
        while a < gathered.len()
            invariant
                a <= gathered.len(),
                gathered@ == asgs,
                statements@.len() == components@.len() + a,
                forall|i: int| 0 <= i < components@.len() ==> (#[trigger] statements@[i] matches Statement::Component(vc)
                    && vc.unit == components@[i].name.value
                    && mappings_view(vc.port_mappings@) == all_group_mappings(grouped(components@[i].mappings@)) + (if flagged_sequential(
                        Some(info),
                        components@[i].name.value@,
                    ) {
                        seq![clock_mapping()]
                    } else {
                        Seq::empty()
                    })),
                forall|i: int| 0 <= i < a ==> (#[trigger] statements@[components@.len() + i] matches Statement::Assignment(x)
                    && slice_view(x.left) == bus_slice(asgs[i].left) && rhs_view(x.right) == RhsView::Slice(bus_slice(asgs[i].right))),
            decreases gathered.len() - a,
        {
            let av = AssignmentVHDL::from(&gathered[a]);
            statements.push(Statement::Assignment(av));
            a = a + 1;
        }
        Ok(VhdlEntity {
            name: chip_hdl.name.clone(),
            generics: generic_decls,
            ports,
            signals,
            statements,
            optimization_info: Some(info),
            chip_hdl: chip_hdl.clone(),
        })
    }
}

/// The number of mappings in the groups of the ports `names`.
pub open spec fn group_total(ms: Seq<PortMappingHDL>, names: Seq<Seq<char>>) -> nat
    decreases names.len(),
{
    if names.len() == 0 {
        0
    } else {
        group_total(ms, names.drop_last()) + mappings_of(ms, names.last()).len()
    }
}

/// Each group gives as many VHDL mappings as it has HDL mappings.
proof fn lemma_group_mappings_len(groups: Seq<(Seq<char>, Seq<PortMappingHDL>)>)
    ensures
        all_group_mappings(groups).len() == groups.fold_left(0nat, |acc: nat, g: (Seq<char>, Seq<PortMappingHDL>)| acc + g.1.len()),
    decreases groups.len(),
{
    if groups.len() > 0 {
        lemma_group_mappings_len(groups.drop_last());
    }
}

/// The groups of `ms` hold as many mappings as the groups' counts add up to.
proof fn lemma_grouped_total(ms: Seq<PortMappingHDL>, names: Seq<Seq<char>>)
    ensures
        names.map_values(|n: Seq<char>| (n, mappings_of(ms, n))).fold_left(0nat, |acc: nat, g: (Seq<char>, Seq<PortMappingHDL>)| acc + g.1.len())
            == group_total(ms, names),
    decreases names.len(),
{
    if names.len() > 0 {
        lemma_grouped_total(ms, names.drop_last());
        assert(names.map_values(|n: Seq<char>| (n, mappings_of(ms, n))).drop_last() =~= names.drop_last().map_values(
            |n: Seq<char>| (n, mappings_of(ms, n)),
        ));
    }
}

/// Adding a mapping of port `n` adds one to the total of a list of distinct
/// names where `n` is listed, and nothing where it is not.
proof fn lemma_group_total_push(ms: Seq<PortMappingHDL>, m: PortMappingHDL, names: Seq<Seq<char>>)
    requires
        names.no_duplicates(),
    ensures
        group_total(ms.push(m), names) == group_total(ms, names) + (if names.contains(m.port.name@) { 1nat } else { 0nat }),
    decreases names.len(),
{
    assert(ms.push(m).drop_last() =~= ms);
    if names.len() > 0 {
        let init = names.drop_last();
        assert(init.no_duplicates()) by {
            assert forall|i: int, j: int| 0 <= i < init.len() && 0 <= j < init.len() && i != j implies init[i] != init[j] by {
                assert(init[i] == names[i] && init[j] == names[j]);
            }
        }
        lemma_group_total_push(ms, m, init);
        if names.last() == m.port.name@ {
            assert(!init.contains(m.port.name@)) by {
                if init.contains(m.port.name@) {
                    let j = init.index_of(m.port.name@);
                    assert(names[j] == names[names.len() - 1]);
                }
            }
        } else {
            assert(names.contains(m.port.name@) == init.contains(m.port.name@)) by {
                if names.contains(m.port.name@) {
                    let j = names.index_of(m.port.name@);
                    assert(j != names.len() - 1);
                    assert(init[j] == m.port.name@);
                }
                if init.contains(m.port.name@) {
                    let j = init.index_of(m.port.name@);
                    assert(names[j] == m.port.name@);
                }
            }
        }
    }
}

/// The names of the groups of `ms` cover all its mappings.
proof fn lemma_names_cover(ms: Seq<PortMappingHDL>)
    ensures
        group_total(ms, port_names(ms)) == ms.len(),
    decreases ms.len(),
{
    if ms.len() > 0 {
        let init = ms.drop_last();
        let m = ms.last();
        assert(init.push(m) =~= ms);
        lemma_names_cover(init);
        lemma_names_distinct(init);
        lemma_group_total_push(init, m, port_names(init));
        if !port_names(init).contains(m.port.name@) {
            lemma_names_distinct(ms);
            lemma_group_total_push(init, m, port_names(ms));
            assert(port_names(ms).drop_last() =~= port_names(init));
            lemma_mappings_of_absent(init, m.port.name@);
            assert(mappings_of(ms, m.port.name@) =~= seq![m]);
        }
    }
}

/// Each port mapping of an HDL component gives exactly one port mapping of
/// its VHDL instance.
pub proof fn lemma_one_vhdl_mapping_per_hdl_mapping(ms: Seq<PortMappingHDL>)
    ensures
        all_group_mappings(grouped(ms)).len() == ms.len(),
{
    lemma_group_mappings_len(grouped(ms));
    lemma_grouped_total(ms, port_names(ms));
    lemma_names_cover(ms);
}

} // verus!
