//! Modelsim testbenches for nand2tetris test scripts.
use crate::busmap::BusMap;
use crate::error::N2VError;
use crate::expr::{GenericWidth, Terminal, num};
use crate::fmt::push_str;
use crate::opt::optimization::{OptimizationInfo, OptimizationPass};
use crate::opt::sequential::{SequentialPass, library_ordered, parts_outcome};
use crate::parser::{ChipHDL, Component, GenericPort, Identifier, Part, missing_chip_msg, parts_view};
use crate::test_parser::{InputValue, Instruction, InstrView, NumberSystem, OutputFormat, Step, TestScript, instr_view, instrs_view, steps_view};
use crate::test_script::{i16_value, input_bits_of, input_ok_of, test_input_to_bitvec, word_bit};
use crate::vhdl::{
    AssertVHDL, AssignmentVHDL, LiteralVHDL, MappingView, PortMappingVHDL, Process, RhsView, Signal, SignalRhs, SliceVHDL,
    SliceView, Statement, VhdlComponent, VhdlEntity, WaitVHDL, clock_mapping, clock_port_mapping, flagged, keyw,
    keyw_spec, mappings_view,
};
use vstd::prelude::*;

verus! {

/// A statement of a testbench process as values.
pub enum BenchStmt {
    /// A signal set to a literal (its bits least significant first).
    Assign(Seq<char>, Seq<bool>),
    Wait,
    /// An assertion that a signal has a value, with the report.
    Assert(Seq<char>, Seq<bool>, Seq<char>),
}

/// `s` is the statement `b`.
#[verifier::opaque]
pub open spec fn is_bench_stmt(s: Statement, b: BenchStmt) -> bool {
    match b {
        BenchStmt::Assign(n, v) => s matches Statement::Assignment(a) && a.left.name@ == n && a.left.start is None
            && a.left.end is None && (a.right matches SignalRhs::Literal(l) && l.values@ == v),
        BenchStmt::Wait => s is Wait,
        BenchStmt::Assert(n, v, m) => s matches Statement::Assert(a) && a.signal_name@ == n && a.signal_value.values@ == v
            && a.report_msg@ == m,
    }
}

/// The bits that a `set` of `v` in number system `ns` gives a port, least
/// significant first: the lowest bits of the input, as many as the input has
/// characters.
pub open spec fn set_bits(ns: NumberSystem, v: Seq<char>) -> Seq<bool> {
    let bits = input_bits_of(ns, v);
    let n = if v.len() < bits.len() { v.len() as int } else { bits.len() as int };
    bits.reverse().take(n)
}

/// A `set` assigns the value written. For binary digits, bit `k` of the
/// literal (least significant first) is the `k`-th digit from the right;
/// for a decimal, it is bit `k` of the value as a 16-bit two's-complement
/// word. The literal has as many bits as the input has characters, 16 at
/// most for a decimal.
pub proof fn lemma_set_bits_denote_value(ns: NumberSystem, v: Seq<char>)
    requires
        input_ok_of(ns, v),
    ensures
        ns is Binary ==> {
            &&& set_bits(ns, v).len() == v.len()
            &&& forall|k: int| 0 <= k < v.len() ==> #[trigger] set_bits(ns, v)[k] == (v[v.len() - 1 - k] == '1')
        },
        ns is Decimal ==> {
            &&& set_bits(ns, v).len() == if v.len() < 16 { v.len() as int } else { 16 }
            &&& forall|k: int| 0 <= k < set_bits(ns, v).len() ==> #[trigger] set_bits(ns, v)[k] == word_bit(
                (i16_value(v).unwrap() as i16) as u16,
                k,
            )
        },
{
    let bits = input_bits_of(ns, v);
    if ns is Binary {
        assert(bits.len() == v.len());
        assert forall|k: int| 0 <= k < v.len() implies #[trigger] set_bits(ns, v)[k] == (v[v.len() - 1 - k] == '1') by {
            assert(set_bits(ns, v)[k] == bits.reverse()[k]);
            assert(bits.reverse()[k] == bits[bits.len() - 1 - k]);
        }
    }
    if ns is Decimal {
        assert(bits.len() == 16);
        assert forall|k: int| 0 <= k < set_bits(ns, v).len() implies #[trigger] set_bits(ns, v)[k] == word_bit(
            (i16_value(v).unwrap() as i16) as u16,
            k,
        ) by {
            assert(set_bits(ns, v)[k] == bits[15 - k]);
            assert(15 - (15 - k) == k);
        }
    }
}

/// The values of a bus, least significant first, as known bits.
pub open spec fn known_reversed(v: Seq<Option<bool>>) -> Seq<bool> {
    v.reverse().map_values(|b: Option<bool>| b.unwrap())
}

/// The assertions that check the outputs against one line of the compare
/// file: one for each of its signals, in order.
pub open spec fn output_asserts(bm: BusMap) -> Seq<BenchStmt> {
    bm.names().map_values(|n: Seq<char>| BenchStmt::Assert(n, known_reversed(bm.view()[n]), "Test failure "@ + n))
}

/// The number of `output` instructions among `instrs`.
pub open spec fn outputs_in(instrs: Seq<InstrView>) -> nat
    decreases instrs.len(),
{
    if instrs.len() == 0 {
        0
    } else {
        outputs_in(instrs.drop_last()) + if instrs.last() is Output { 1nat } else { 0nat }
    }
}

/// The number of `output` instructions in `steps`.
pub open spec fn outputs_in_steps(steps: Seq<Seq<InstrView>>) -> nat
    decreases steps.len(),
{
    if steps.len() == 0 {
        0
    } else {
        outputs_in_steps(steps.drop_last()) + outputs_in(steps.last())
    }
}

/// The statements for one instruction, where `oi` is the number of outputs
/// before it.
#[verifier::opaque]
pub open spec fn instr_stmts(i: InstrView, expected: Seq<BusMap>, oi: int) -> Seq<BenchStmt> {
    match i {
        InstrView::SetPort(port, ns, value) => seq![BenchStmt::Assign(port, set_bits(ns, value))],
        InstrView::Tick => seq![BenchStmt::Assign("clk"@, seq![false]), BenchStmt::Wait],
        InstrView::Tock => seq![BenchStmt::Assign("clk"@, seq![true]), BenchStmt::Wait],
        InstrView::Output => output_asserts(expected[oi]),
        InstrView::Eval => seq![BenchStmt::Wait],
    }
}

/// The statements for the instructions `instrs`, where `oi` is the number of
/// outputs before them.
pub open spec fn instrs_stmts(instrs: Seq<InstrView>, expected: Seq<BusMap>, oi: int) -> Seq<BenchStmt>
    decreases instrs.len(),
{
    if instrs.len() == 0 {
        Seq::empty()
    } else {
        instrs_stmts(instrs.drop_last(), expected, oi) + instr_stmts(instrs.last(), expected, oi + outputs_in(instrs.drop_last()))
    }
}

/// The statements for the steps, in order.
pub open spec fn steps_stmts(steps: Seq<Seq<InstrView>>, expected: Seq<BusMap>) -> Seq<BenchStmt>
    decreases steps.len(),
{
    if steps.len() == 0 {
        Seq::empty()
    } else {
        steps_stmts(steps.drop_last(), expected) + instrs_stmts(steps.last(), expected, outputs_in_steps(steps.drop_last()) as int)
    }
}

/// Every value of every signal of a line of the compare file is known.
#[verifier::opaque]
pub open spec fn line_known(bm: BusMap) -> bool {
    forall|n: Seq<char>| #[trigger] bm.view().contains_key(n) ==> forall|b: int|
        0 <= b < bm.view()[n].len() ==> (#[trigger] bm.view()[n][b]) is Some
}

/// One instruction can be turned into statements, where `j` is the number of
/// outputs before it: a `set` value can be read as bits, and an `output` has
/// its line of the compare file, with every value known.
pub open spec fn instr_ok(i: InstrView, expected: Seq<BusMap>, j: int) -> bool {
    match i {
        InstrView::SetPort(_, ns, v) => input_ok_of(ns, v),
        InstrView::Output => 0 <= j < expected.len() && line_known(expected[j]),
        _ => true,
    }
}

/// Each instruction can be turned into statements.
pub open spec fn instrs_ok(instrs: Seq<InstrView>, expected: Seq<BusMap>, oi: int) -> bool {
    forall|k: int| 0 <= k < instrs.len() ==> instr_ok(#[trigger] instrs[k], expected, oi + outputs_in(instrs.take(k)))
}

/// Every step can be turned into statements.
pub open spec fn steps_ok(steps: Seq<Seq<InstrView>>, expected: Seq<BusMap>) -> bool {
    forall|s: int| 0 <= s < steps.len() ==> instrs_ok(#[trigger] steps[s], expected, outputs_in_steps(steps.take(s)) as int)
}

/// A testbench: the chip under test (with an instance of itself among its
/// parts, so that it is declared), the signals, and the statements of the
/// test process.
pub struct TestBench {
    pub chip: ChipHDL,
    pub signals: TestbenchSignals,
    pub instructions: Vec<Statement>,
}

/// The signals of a testbench: one for each column of the output list, and
/// the clock.
pub struct TestbenchSignals {
    pub value: Vec<Signal>,
}

impl Signal {
    /// The signal for a column of the output list: as wide as the column.
    pub fn from(o: &OutputFormat) -> (r: Signal)
        ensures
            r.name == o.port_name,
            r.width == num(o.output_columns),
    {
        Signal { name: o.port_name.clone(), width: GenericWidth::Terminal(Terminal::Num(o.output_columns)) }
    }
}

impl TestbenchSignals {
    /// The signals for an output list: one for each column, then the clock.
    pub fn from(output_list: &Vec<OutputFormat>) -> (r: TestbenchSignals)
        ensures
            r.value@.len() == output_list@.len() + 1,
            forall|i: int| 0 <= i < output_list@.len() ==> (#[trigger] r.value@[i]).name == output_list@[i].port_name
                && r.value@[i].width == num(output_list@[i].output_columns),
            r.value@[output_list@.len() as int].name@ == "clk"@,
            r.value@[output_list@.len() as int].width == num(1),
    {
        let mut value: Vec<Signal> = Vec::new();
        let mut i: usize = 0;
        while i < output_list.len()
            invariant
                i <= output_list.len(),
                value@.len() == i,
                forall|j: int| 0 <= j < i ==> (#[trigger] value@[j]).name == output_list@[j].port_name
                    && value@[j].width == num(output_list@[j].output_columns),
            decreases output_list.len() - i,
        {
            value.push(Signal::from(&output_list[i]));
            i = i + 1;
        }
        value.push(Signal { name: String::from_str("clk"), width: GenericWidth::Terminal(Terminal::Num(1)) });
        TestbenchSignals { value }
    }
}

/// A signal set to a literal.
fn assign_literal(name: String, values: Vec<bool>) -> (r: Statement)
    ensures
        is_bench_stmt(r, BenchStmt::Assign(name@, values@)),
{
    proof {
        reveal(is_bench_stmt);
    }
    Statement::Assignment(AssignmentVHDL {
        left: SliceVHDL { name, start: None, end: None },
        right: SignalRhs::Literal(LiteralVHDL { values }),
    })
}

/// The bits of `v`, least significant first, as many as `v` has
/// characters, where `v` is written in `ns`.
fn set_value_bits(value: &InputValue) -> (r: Vec<bool>)
    requires
        input_ok_of(value.number_system, value.value@),
    ensures
        r@ == set_bits(value.number_system, value.value@),
{
    let bits = test_input_to_bitvec(value);
    let len = value.value.as_str().unicode_len();
    let n = if len < bits.len() { len } else { bits.len() };
    let mut r: Vec<bool> = Vec::new();
    let mut i: usize = 0;
    while i < n
        invariant
            i <= n,
            n <= bits@.len(),
            r@ == bits@.reverse().take(i as int),
        decreases n - i,
    {
        r.push(bits[bits.len() - 1 - i]);
        assert(r@ =~= bits@.reverse().take(i + 1));
        i = i + 1;
    }
    r
}

/// The assertions for one line of the compare file.
fn push_output_asserts(instructions: &mut Vec<Statement>, bm: &BusMap)
    requires
        line_known(*bm),
    ensures
        final(instructions)@.len() == old(instructions)@.len() + output_asserts(*bm).len(),
        forall|k: int| 0 <= k < old(instructions)@.len() ==> #[trigger] final(instructions)@[k] == old(instructions)@[k],
        forall|k: int| 0 <= k < output_asserts(*bm).len() ==> is_bench_stmt(
            #[trigger] final(instructions)@[old(instructions)@.len() + k],
            output_asserts(*bm)[k],
        ),
{
    proof {
        reveal(is_bench_stmt);
        reveal(line_known);
    }
    let names = bm.signals();
    let ghost base = instructions@.len();
    let mut i: usize = 0;
    while i < names.len()
        invariant
            i <= names.len(),
            crate::busmap::string_views(names@) == bm.names(),
            forall|k: Seq<char>| #[trigger] bm.view().contains_key(k) <==> bm.names().contains(k),
            line_known(*bm),
            base == old(instructions)@.len(),
            instructions@.len() == base + i,
            forall|k: int| 0 <= k < base ==> #[trigger] instructions@[k] == old(instructions)@[k],
            forall|k: int| 0 <= k < i ==> is_bench_stmt(#[trigger] instructions@[base + k], output_asserts(*bm)[k]),
        decreases names.len() - i,
    {
        proof {
            reveal(is_bench_stmt);
            reveal(line_known);
        }
        let b = &names[i];
        assert(bm.names()[i as int] == b@);
        assert(bm.names().contains(b@));
        let next_bus = bm.get_name(b.as_str());
        assert forall|q: int| 0 <= q < next_bus@.len() implies (#[trigger] next_bus@[q]) is Some by {
            assert(bm.view().contains_key(b@));
            assert(bm.view()[b@][q] is Some);
        }
        let mut values: Vec<bool> = Vec::new();
        let mut j: usize = 0;
        while j < next_bus.len()
            invariant
                j <= next_bus.len(),
                forall|q: int| 0 <= q < next_bus@.len() ==> (#[trigger] next_bus@[q]) is Some,
                values@ == next_bus@.reverse().take(j as int).map_values(|x: Option<bool>| x.unwrap()),
            decreases next_bus.len() - j,
        {
            let x = next_bus[next_bus.len() - 1 - j];
            values.push(x.unwrap());
            assert(next_bus@.reverse().take(j + 1) =~= next_bus@.reverse().take(j as int).push(next_bus@[next_bus.len() - 1 - j]));
            assert(values@ =~= next_bus@.reverse().take(j + 1).map_values(|x: Option<bool>| x.unwrap()));
            j = j + 1;
        }
        assert(next_bus@.reverse().take(next_bus.len() as int) =~= next_bus@.reverse());
        let mut report_msg = String::new();
        push_str(&mut report_msg, "Test failure ");
        push_str(&mut report_msg, b.as_str());
        instructions.push(Statement::Assert(AssertVHDL {
            signal_name: b.clone(),
            signal_value: LiteralVHDL { values },
            report_msg,
        }));
        i = i + 1;
    }
}

/// A one-bit literal.
fn bit(b: bool) -> (r: Vec<bool>)
    ensures
        r@ == seq![b],
{
    let mut r: Vec<bool> = Vec::new();
    r.push(b);
    r
}

/// Appends the statements for one instruction, where `oi` is the number of
/// outputs before it.
fn push_instr_stmts(instructions: &mut Vec<Statement>, inst: &Instruction, expected: &Vec<BusMap>, oi: usize)
    requires
        instr_ok(instr_view(*inst), expected@, oi as int),
    ensures
        final(instructions)@.len() == old(instructions)@.len() + instr_stmts(instr_view(*inst), expected@, oi as int).len(),
        forall|k: int| 0 <= k < old(instructions)@.len() ==> #[trigger] final(instructions)@[k] == old(instructions)@[k],
        forall|k: int| 0 <= k < instr_stmts(instr_view(*inst), expected@, oi as int).len() ==> is_bench_stmt(
            #[trigger] final(instructions)@[old(instructions)@.len() + k],
            instr_stmts(instr_view(*inst), expected@, oi as int)[k],
        ),
{
    proof {
        reveal(instr_stmts);
        reveal(is_bench_stmt);
    }
    match inst {
        Instruction::SetPort(port_name, port_value) => {
            let values = set_value_bits(port_value);
            instructions.push(assign_literal(port_name.clone(), values));
        },
        Instruction::Tick => {
            instructions.push(assign_literal(String::from_str("clk"), bit(false)));
            instructions.push(Statement::Wait(WaitVHDL {}));
        },
        Instruction::Tock => {
            instructions.push(assign_literal(String::from_str("clk"), bit(true)));
            instructions.push(Statement::Wait(WaitVHDL {}));
        },
        Instruction::Output => {
            push_output_asserts(instructions, &expected[oi]);
        },
        Instruction::Eval => {
            instructions.push(Statement::Wait(WaitVHDL {}));
        },
    }
}

/// Appends the statements for the instructions of one step, where `oi` is
/// the number of outputs before them; returns the number of outputs after
/// them.
#[verifier::rlimit(60)]
#[verifier::spinoff_prover]
fn push_step_stmts(instructions: &mut Vec<Statement>, step: &Step, expected: &Vec<BusMap>, oi: usize) -> (r: usize)
    requires
        instrs_ok(instrs_view(step.instructions@), expected@, oi as int),
    ensures
        r == oi + outputs_in(instrs_view(step.instructions@)),
        final(instructions)@.len() == old(instructions)@.len() + instrs_stmts(instrs_view(step.instructions@), expected@, oi as int).len(),
        forall|k: int| 0 <= k < old(instructions)@.len() ==> #[trigger] final(instructions)@[k] == old(instructions)@[k],
        forall|k: int| 0 <= k < instrs_stmts(instrs_view(step.instructions@), expected@, oi as int).len() ==> is_bench_stmt(
            #[trigger] final(instructions)@[old(instructions)@.len() + k],
            instrs_stmts(instrs_view(step.instructions@), expected@, oi as int)[k],
        ),
{
    let ghost instrs = instrs_view(step.instructions@);
    let ghost oi0 = oi as int;
    let ghost base = instructions@.len();
    let ghost start = instructions@;
    let mut oi = oi;
    assert(instrs.take(0) =~= Seq::<InstrView>::empty());
    let mut k: usize = 0;
    while k < step.instructions.len()
        invariant
            k <= step.instructions.len(),
            instrs == instrs_view(step.instructions@),
            instrs_ok(instrs, expected@, oi0),
            oi == oi0 + outputs_in(instrs.take(k as int)),
            base == start.len(),
            instructions@.len() == base + instrs_stmts(instrs.take(k as int), expected@, oi0).len(),
            forall|j: int| 0 <= j < base ==> #[trigger] instructions@[j] == start[j],
            forall|j: int| 0 <= j < instrs_stmts(instrs.take(k as int), expected@, oi0).len() ==> is_bench_stmt(
                #[trigger] instructions@[base + j],
                instrs_stmts(instrs.take(k as int), expected@, oi0)[j],
            ),
        decreases step.instructions.len() - k,
    {
        let inst = &step.instructions[k];
        let ghost before = instructions@;
        let ghost prev = instrs_stmts(instrs.take(k as int), expected@, oi0);
        assert(instrs[k as int] == instr_view(*inst));
        assert(instr_ok(instrs[k as int], expected@, oi0 + outputs_in(instrs.take(k as int))));
        push_instr_stmts(instructions, inst, expected, oi);
        let ghost added = instr_stmts(instr_view(*inst), expected@, oi as int);
        assert(instrs.take(k + 1).drop_last() =~= instrs.take(k as int));
        assert(instrs.take(k + 1).last() == instrs[k as int]);
        let ghost next = instrs_stmts(instrs.take(k + 1), expected@, oi0);
        assert(next == prev + added);
        assert forall|j: int| 0 <= j < base implies #[trigger] instructions@[j] == start[j] by {
            assert(instructions@[j] == before[j]);
        }
        assert forall|j: int| 0 <= j < next.len() implies is_bench_stmt(#[trigger] instructions@[base + j], next[j]) by {
            if j < prev.len() {
                assert(instructions@[base + j] == before[base + j]);
            } else {
                let q = j - prev.len();
                assert(instructions@[before.len() + q] == instructions@[base + j]);
            }
        }
        let is_output = match inst {
            Instruction::Output => true,
            _ => false,
        };
        if is_output {
            assert(instrs[k as int] is Output);
            let n = expected.len();
            assert(oi < n);
            oi = oi + 1;
        }
        k = k + 1;
    }
    assert(instrs.take(step.instructions.len() as int) =~= instrs);
    oi
}

impl TestBench {
    /// The testbench for a test script, of the chip `hdl`, where `expected`
    /// holds the lines of the compare file, one for each `output`. The chip
    /// gets an instance of itself as its last part; each `set` assigns the
    /// port its value, `tick` and `tock` set the clock and wait, `eval` waits,
    /// and `output` asserts each signal of the next compare line.
    #[verifier::rlimit(60)]
    #[verifier::spinoff_prover]
    pub fn from_script(test_script: &TestScript, hdl: ChipHDL, expected: &Vec<BusMap>) -> (r: TestBench)
        requires
            steps_ok(steps_view(test_script.steps@), expected@),
        ensures
            r.chip.name == hdl.name,
            r.chip.ports == hdl.ports,
            r.chip.path == hdl.path,
            r.chip.generic_decls == hdl.generic_decls,
            r.chip.parts@.len() == hdl.parts@.len() + 1,
            parts_view(r.chip.parts@).drop_last() == parts_view(hdl.parts@),
            r.chip.parts@.last() matches Part::Component(c) && c.name.value@ == hdl.name@ && c.name.path is None
                && c.name.line is None && c.mappings@.len() == 0 && c.generic_params@.len() == 0,
            r.signals.value@.len() == test_script.output_list@.len() + 1,
            forall|i: int| 0 <= i < test_script.output_list@.len() ==> (#[trigger] r.signals.value@[i]).name
                == test_script.output_list@[i].port_name && r.signals.value@[i].width == num(
                test_script.output_list@[i].output_columns,
            ),
            r.signals.value@[test_script.output_list@.len() as int].name@ == "clk"@,
            r.signals.value@[test_script.output_list@.len() as int].width == num(1),
            r.instructions@.len() == steps_stmts(steps_view(test_script.steps@), expected@).len(),
            forall|k: int| 0 <= k < r.instructions@.len() ==> is_bench_stmt(
                #[trigger] r.instructions@[k],
                steps_stmts(steps_view(test_script.steps@), expected@)[k],
            ),
    {
        let mut hdl = hdl;
        let ghost parts0 = parts_view(hdl.parts@);
        let p = Part::Component(Component {
            name: Identifier::from(hdl.name.as_str()),
            mappings: Vec::new(),
            generic_params: Vec::new(),
        });
        hdl.parts.push(p);
        assert(parts_view(hdl.parts@).drop_last() =~= parts0);
        let ghost steps = steps_view(test_script.steps@);
        let mut instructions: Vec<Statement> = Vec::new();
        let mut oi: usize = 0;
        let mut s: usize = 0;
        assert(steps.take(0) =~= Seq::<Seq<InstrView>>::empty());
        while s < test_script.steps.len()
            invariant
                s <= test_script.steps.len(),
                steps == steps_view(test_script.steps@),
                steps_ok(steps, expected@),
                oi == outputs_in_steps(steps.take(s as int)),
                instructions@.len() == steps_stmts(steps.take(s as int), expected@).len(),
                forall|k: int| 0 <= k < instructions@.len() ==> is_bench_stmt(
                    #[trigger] instructions@[k],
                    steps_stmts(steps.take(s as int), expected@)[k],
                ),
            decreases test_script.steps.len() - s,
        {
            let step = &test_script.steps[s];
            let ghost instrs = steps[s as int];
            let ghost oi0 = oi as int;
            let ghost base = instructions@.len();
            let ghost before = instructions@;
            let ghost done = steps_stmts(steps.take(s as int), expected@);
            assert(instrs == instrs_view(step.instructions@));
            oi = push_step_stmts(&mut instructions, step, expected, oi);
            assert(steps.take(s + 1).drop_last() =~= steps.take(s as int));
            assert(steps.take(s + 1).last() == instrs);
            let ghost all = steps_stmts(steps.take(s + 1), expected@);
            let ghost mine = instrs_stmts(instrs, expected@, oi0);
            assert(all == done + mine);
            assert forall|j: int| 0 <= j < all.len() implies is_bench_stmt(#[trigger] instructions@[j], all[j]) by {
                if j >= base {
                    assert(instructions@[base + (j - base)] == instructions@[j]);
                } else {
                    assert(instructions@[j] == before[j]);
                }
            }
            s = s + 1;
        }
        assert(steps.take(test_script.steps.len() as int) =~= steps);
        TestBench { chip: hdl, signals: TestbenchSignals::from(&test_script.output_list), instructions }
    }
}

/// The mapping of a port to the signal of the same name.
pub open spec fn self_mapping(p: GenericPort) -> MappingView {
    let n = p.name.value@;
    MappingView {
        wire_name: n,
        port: SliceView { name: n, start: None, end: None },
        wire: RhsView::Slice(SliceView { name: n, start: None, end: None }),
    }
}

/// The name of a testbench entity.
pub open spec fn bench_name(chip_name: Seq<char>) -> Seq<char> {
    chip_name + "_tst"@
}

impl VhdlEntity {
    /// The VHDL entity of a testbench: named after the chip with `_tst`, with
    /// no generics or ports and the testbench's signals; its statements are
    /// an instance of the chip, each port mapped to the signal of the same
    /// name (and the clock where the chip is found sequential), then a
    /// process of the testbench's statements. `Err` where a chip that the
    /// chip uses is missing from `library`.
    pub fn from_test_bench(test_bench: TestBench, library: &Vec<ChipHDL>) -> (r: Result<VhdlEntity, N2VError>)
        requires
            library_ordered(library@),
        ensures
            match parts_outcome(library@, parts_view(test_bench.chip.parts@), Map::empty()) {
                Err(name) => r matches Err(e) && e.msg@ == missing_chip_msg(name) && e.kind is IOError,
                Ok((b, m)) => r matches Ok(ent) && {
                    let flags = m.insert(test_bench.chip.name@, b);
                    let unit = keyw_spec(test_bench.chip.name@);
                    &&& ent.name@ == bench_name(test_bench.chip.name@)
                    &&& ent.generics@.len() == 0
                    &&& ent.ports@.len() == 0
                    &&& ent.signals@ == test_bench.signals.value@
                    &&& ent.optimization_info matches Some(OptimizationInfo::SequentialFlagMap(fm)) && fm.map() == flags
                    &&& ent.chip_hdl@ == test_bench.chip@
                    &&& ent.statements@.len() == 2
                    &&& ent.statements@[0] matches Statement::Component(vc) && vc.unit@ == unit && vc.generic_params@.len() == 0
                        && mappings_view(vc.port_mappings@) == test_bench.chip.ports@.map_values(|p: GenericPort| self_mapping(p)) + (
                    if flags.contains_key(unit) && flags[unit] {
                        seq![clock_mapping()]
                    } else {
                        Seq::empty()
                    })
                    &&& ent.statements@[1] matches Statement::Process(p) && p.statements@ == test_bench.instructions@
                },
            },
    {
        let TestBench { chip, signals, instructions } = test_bench;
        let mut name = chip.name.clone();
        push_str(&mut name, "_tst");
        let mut port_mappings: Vec<PortMappingVHDL> = Vec::new();
        let mut i: usize = 0;
        while i < chip.ports.len()
            invariant
                i <= chip.ports.len(),
                port_mappings@.len() == i,
                mappings_view(port_mappings@) == chip.ports@.take(i as int).map_values(|p: GenericPort| self_mapping(p)),
            decreases chip.ports.len() - i,
        {
            let n = &chip.ports[i].name.value;
            let ghost before = mappings_view(port_mappings@);
            port_mappings.push(PortMappingVHDL {
                wire_name: n.clone(),
                port: SliceVHDL { name: n.clone(), start: None, end: None },
                wire: SignalRhs::Slice(SliceVHDL { name: n.clone(), start: None, end: None }),
            });
            assert(chip.ports@.take(i + 1) =~= chip.ports@.take(i as int).push(chip.ports@[i as int]));
            assert(crate::vhdl::mapping_view(port_mappings@[i as int]) == self_mapping(chip.ports@[i as int]));
            assert(mappings_view(port_mappings@) =~= before.push(self_mapping(chip.ports@[i as int])));
            assert(mappings_view(port_mappings@) =~= chip.ports@.take(i + 1).map_values(|p: GenericPort| self_mapping(p)));
            i = i + 1;
        }
        assert(chip.ports@.take(chip.ports.len() as int) =~= chip.ports@);
        let unit = keyw(chip.name.as_str());
        let mut sequential_pass = SequentialPass::new();
        let (chip_hdl, info) = match sequential_pass.apply(&chip, library) {
            Ok(x) => x,
            Err(e) => return Err(e),
        };
        if flagged(&info, unit.as_str()) {
            let ghost before = mappings_view(port_mappings@);
            port_mappings.push(clock_port_mapping());
            assert(mappings_view(port_mappings@) =~= before.push(clock_mapping()));
        } else {
            assert(mappings_view(port_mappings@) =~= mappings_view(port_mappings@) + Seq::<MappingView>::empty());
        }
        let mut statements: Vec<Statement> = Vec::new();
        statements.push(Statement::Component(VhdlComponent { unit, generic_params: Vec::new(), port_mappings }));
        statements.push(Statement::Process(Process { statements: instructions }));
        Ok(VhdlEntity {
            name,
            generics: Vec::new(),
            ports: Vec::new(),
            signals: signals.value,
            statements,
            optimization_info: Some(info),
            chip_hdl,
        })
    }
}

} // verus!
