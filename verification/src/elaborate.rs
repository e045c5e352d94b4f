//! Elaboration of a chip one level deep: which part, port or assignment
//! drives each bit of each signal, with the checks that no bit is driven
//! twice and that every input bit of every part is connected.
use crate::chip::{Chip, ChipModel, chip_outcome, port_view};
use crate::error::{ErrorKind, N2VError};
use crate::expr::{GenericWidth, Terminal, eval_expr_numeric, numeric_state, spec_eval_expr};
use crate::fmt::{decimal, push_decimal, push_str};
use crate::parser::{ChipHDL, Component, ComponentView, GenericPort, Identifier, PortDirection, PortMappingHDL, chip_named, get_hdl, missing_chip, missing_chip_msg, port_index_from, components_view};
use crate::simulator::{Assignment, Port, assignment_view, numeric_outcome};
use crate::strmap::StrMap;
use vstd::prelude::*;

verus! {

/// What drives one bit of a signal.
#[derive(Debug, Clone, Copy, PartialEq, Eq, Structural)]
pub enum Source {
    /// Bit `bit` of the chip's input port at position `port`.
    Input { port: usize, bit: usize },
    /// Bit `bit` of the assignment at position `assignment`.
    Assigned { assignment: usize, bit: usize },
    /// Bit `bit` of the output port at position `port` of the part at
    /// position `part`.
    Part { part: usize, port: usize, bit: usize },
    /// Bit `bit` of the 16-bit constant `true` or `false`.
    Literal { value: bool, bit: usize },
}

/// A table from signal names to the source of each bit, `None` where a bit
/// has none yet.
pub type Sources = Map<Seq<char>, Seq<Option<Source>>>;

/// An error: its message and kind.
pub type Failure = (Seq<char>, ErrorKind);

/// The sources of the chip's input ports: each bit of an input port drives
/// itself.
pub open spec fn input_sources(ports: Seq<(Seq<char>, usize, PortDirection)>) -> Sources
    decreases ports.len(),
{
    if ports.len() == 0 {
        Map::empty()
    } else {
        let t = input_sources(ports.drop_last());
        let p = ports.last();
        let k = ports.len() - 1;
        if p.2 == PortDirection::In {
            t.insert(p.0, Seq::new(p.1 as nat, |i: int| Some(Source::Input { port: k as usize, bit: i as usize })))
        } else {
            t
        }
    }
}

/// The sources after the assignments: each assignment drives every bit of
/// its left side.
pub open spec fn assigned_sources(asgs: Seq<(String, String, usize)>, t: Sources) -> Sources
    decreases asgs.len(),
{
    if asgs.len() == 0 {
        t
    } else {
        let t1 = assigned_sources(asgs.drop_last(), t);
        let a = asgs.last();
        let k = asgs.len() - 1;
        t1.insert(a.0@, Seq::new(a.2 as nat, |i: int| Some(Source::Assigned { assignment: k as usize, bit: i as usize })))
    }
}

/// The generics a part is instantiated with: numbers as they are, and
/// variables by their values; other widths are left out.
pub open spec fn part_generics(params: Seq<GenericWidth>, vars: Map<Seq<char>, usize>) -> Seq<usize>
    decreases params.len(),
{
    if params.len() == 0 {
        Seq::empty()
    } else {
        let r = part_generics(params.drop_last(), vars);
        match params.last() {
            GenericWidth::Terminal(Terminal::Num(w)) => r.push(w),
            GenericWidth::Terminal(Terminal::Var(v)) => r.push(vars[v.value@]),
            _ => r,
        }
    }
}

/// Whether every variable among `params` has a value.
pub open spec fn generics_bound(params: Seq<GenericWidth>, vars: Map<Seq<char>, usize>) -> bool {
    forall|i: int| 0 <= i < params.len() ==> (#[trigger] params[i] matches GenericWidth::Terminal(Terminal::Var(v)) ==> vars.contains_key(v.value@))
}

/// The value of an optional bound: `default` where there is none.
pub open spec fn bound_value(b: Option<GenericWidth>, vars: Map<Seq<char>, usize>, default: int) -> Option<Result<int, Seq<char>>> {
    match b {
        None => Some(Ok(default)),
        Some(x) => match numeric_outcome(x, vars) {
            None => None,
            Some(Ok(n)) => Some(Ok(n as int)),
            Some(Err(m)) => Some(Err(m)),
        },
    }
}

/// The message for a mapping to a port the part does not have.
pub open spec fn no_port_msg(name: Seq<char>) -> Seq<char> {
    "Attempt to get non-existent port "@ + name + "."@
}

/// The message for a bit that two mappings drive.
pub open spec fn duplicate_msg(name: Seq<char>) -> Seq<char> {
    "Duplicate source for signal name "@ + name + "."@
}

/// The message for a part input port some of whose bits are not connected.
pub open spec fn uncovered_msg(name: Seq<char>) -> Seq<char> {
    "Component does not provide inputs for all bits of "@ + name + "."@
}

/// Places the sources of `count` port bits, starting at port bit `ps` and
/// signal bit `ws`, into `row`: `Err(())` where a bit already has a source,
/// `None` where a signal bit is out of range.
pub open spec fn place_bits(row: Seq<Option<Source>>, part: usize, port: usize, ps: int, ws: int, count: nat) -> Option<Result<Seq<Option<Source>>, ()>>
    decreases count,
{
    if count == 0 {
        Some(Ok(row))
    } else {
        match place_bits(row, part, port, ps, ws, (count - 1) as nat) {
            None => None,
            Some(Err(())) => Some(Err(())),
            Some(Ok(r)) => {
                let j = ws + count - 1;
                let i = ps + count - 1;
                if j < 0 || j >= r.len() || i < 0 || i > usize::MAX {
                    None
                } else if r[j] is Some {
                    Some(Err(()))
                } else {
                    Some(Ok(r.update(j, Some(Source::Part { part, port, bit: i as usize }))))
                }
            },
        }
    }
}

/// The number of bits from `ps` through `pe`, none where `pe` is below `ps`.
pub open spec fn span_len(ps: int, pe: int) -> nat {
    if ps <= pe + 1 {
        (pe + 1 - ps) as nat
    } else {
        0
    }
}

/// The bits `[ps, pe]` of a bus marked connected.
pub open spec fn cover_bits(bits: Seq<bool>, ps: int, pe: int) -> Seq<bool> {
    Seq::new(bits.len(), |i: int| bits[i] || (ps <= i <= pe))
}

/// One port mapping of the part at position `ci`, whose chip is `ph`
/// and whose generics have the values `pvars`: an output drives the bits of
/// its signal, an input marks the bits of its port connected.
pub open spec fn mapping_step(
    signals: Map<Seq<char>, Seq<Option<bool>>>,
    vars: Map<Seq<char>, usize>,
    ci: usize,
    ph: ChipHDL,
    pvars: Map<Seq<char>, usize>,
    m: PortMappingHDL,
    t: Sources,
    used: Map<Seq<char>, Seq<bool>>,
) -> Option<Result<(Sources, Map<Seq<char>, Seq<bool>>), Failure>> {
    match port_index_from(ph.ports@, m.port.name@, 0) {
        None => Some(Err((no_port_msg(m.port.name@), ErrorKind::ParseIdentError(m.wire_ident)))),
        Some(pi) => {
            let port = ph.ports@[pi];
            match numeric_outcome(port.width, pvars) {
                None => None,
                Some(Err(msg)) => Some(Err((msg, ErrorKind::NonNumeric))),
                Some(Ok(pw)) => match bound_value(m.port.start, vars, 0) {
                    None => None,
                    Some(Err(msg)) => Some(Err((msg, ErrorKind::NonNumeric))),
                    Some(Ok(ps)) => match bound_value(m.port.end, vars, pw - 1) {
                        None => None,
                        Some(Err(msg)) => Some(Err((msg, ErrorKind::NonNumeric))),
                        Some(Ok(pe)) => if pe < 0 || pe + 1 > usize::MAX {
                            None
                        } else if port.direction == PortDirection::In {
                            if !used.contains_key(m.port.name@) || pe + 1 > used[m.port.name@].len() {
                                None
                            } else {
                                Some(Ok((t, used.insert(m.port.name@, cover_bits(used[m.port.name@], ps, pe)))))
                            }
                        } else {
                            match bound_value(m.wire.start, vars, 0) {
                                None => None,
                                Some(Err(msg)) => Some(Err((msg, ErrorKind::NonNumeric))),
                                Some(Ok(ws)) => match bound_value(m.wire.end, vars, pw - 1) {
                                    None => None,
                                    Some(Err(msg)) => Some(Err((msg, ErrorKind::NonNumeric))),
                                    Some(Ok(we)) => {
                                        let sig = m.wire.name@;
                                        if we < 0 || (!t.contains_key(sig) && !signals.contains_key(sig)) {
                                            None
                                        } else {
                                            let row = if t.contains_key(sig) {
                                                t[sig]
                                            } else {
                                                Seq::new(signals[sig].len(), |i: int| None::<Source>)
                                            };
                                            match place_bits(row, ci, pi as usize, ps, ws, span_len(ps, pe)) {
                                                None => None,
                                                Some(Err(())) => Some(Err((duplicate_msg(sig), ErrorKind::ParseIdentError(m.wire_ident)))),
                                                Some(Ok(r)) => Some(Ok((t.insert(sig, r), used))),
                                            }
                                        }
                                    },
                                },
                            }
                        },
                    },
                },
            }
        },
    }
}

/// The port mappings of one part, in order.
pub open spec fn mappings_fold(
    signals: Map<Seq<char>, Seq<Option<bool>>>,
    vars: Map<Seq<char>, usize>,
    ci: usize,
    ph: ChipHDL,
    pvars: Map<Seq<char>, usize>,
    ms: Seq<PortMappingHDL>,
    t: Sources,
    used: Map<Seq<char>, Seq<bool>>,
) -> Option<Result<(Sources, Map<Seq<char>, Seq<bool>>), Failure>>
    decreases ms.len(),
{
    if ms.len() == 0 {
        Some(Ok((t, used)))
    } else {
        match mappings_fold(signals, vars, ci, ph, pvars, ms.drop_last(), t, used) {
            None => None,
            Some(Err(e)) => Some(Err(e)),
            Some(Ok((t1, u1))) => mapping_step(signals, vars, ci, ph, pvars, ms.last(), t1, u1),
        }
    }
}

/// The bits of each port of a part, none connected yet.
pub open spec fn unconnected(ports: Seq<(Seq<char>, usize, PortDirection)>) -> Map<Seq<char>, Seq<bool>>
    decreases ports.len(),
{
    if ports.len() == 0 {
        Map::empty()
    } else {
        let u = unconnected(ports.drop_last());
        let p = ports.last();
        if u.contains_key(p.0) {
            u
        } else {
            u.insert(p.0, Seq::new(p.1 as nat, |i: int| false))
        }
    }
}

/// The first input port among `ports` with a bit that is not connected.
pub open spec fn first_uncovered(ports: Seq<GenericPort>, used: Map<Seq<char>, Seq<bool>>) -> Option<int>
    decreases ports.len(),
{
    if ports.len() == 0 {
        None
    } else {
        match first_uncovered(ports.drop_last(), used) {
            Some(i) => Some(i),
            None => {
                let p = ports.last();
                if p.direction == PortDirection::In && exists|b: int| 0 <= b < used[p.name.value@].len() && !used[p.name.value@][b] {
                    Some(ports.len() - 1)
                } else {
                    None
                }
            },
        }
    }
}

/// The end of one part, after its mappings: every input port of the part's
/// chip `ph` must have all its bits connected.
pub open spec fn after_mappings(
    ph: ChipHDL,
    name: Identifier,
    f: Option<Result<(Sources, Map<Seq<char>, Seq<bool>>), Failure>>,
) -> Option<Result<Sources, Failure>> {
    match f {
        None => None,
        Some(Err(e)) => Some(Err(e)),
        Some(Ok((t2, used))) => if forall|i: int| 0 <= i < ph.ports@.len() && ph.ports@[i].direction == PortDirection::In ==> used.contains_key(#[trigger] ph.ports@[i].name.value@) {
            match first_uncovered(ph.ports@, used) {
                Some(i) => Some(Err((uncovered_msg(ph.ports@[i].name.value@), ErrorKind::ParseIdentError(name)))),
                None => Some(Ok(t2)),
            }
        } else {
            None
        },
    }
}

/// One part: its chip is looked up and built, its mappings placed, and its
/// input ports checked.
pub open spec fn part_step(
    lib: Seq<ChipHDL>,
    signals: Map<Seq<char>, Seq<Option<bool>>>,
    vars: Map<Seq<char>, usize>,
    ci: usize,
    c: ComponentView,
    t: Sources,
) -> Option<Result<Sources, Failure>> {
    match chip_named(lib, c.name.value@) {
        None => Some(Err((missing_chip_msg(c.name.value@), ErrorKind::IOError))),
        Some(ph) => if !generics_bound(c.generic_params, vars) {
            None
        } else {
            match chip_outcome(ph, lib, part_generics(c.generic_params, vars)) {
                None => None,
                Some(Err(e)) => Some(Err(e)),
                Some(Ok(pm)) => after_mappings(ph, c.name, mappings_fold(signals, vars, ci, ph, pm.variables, c.mappings, t, unconnected(pm.ports))),
            }
        },
    }
}

/// The parts, in order.
pub open spec fn parts_fold(
    lib: Seq<ChipHDL>,
    signals: Map<Seq<char>, Seq<Option<bool>>>,
    vars: Map<Seq<char>, usize>,
    cs: Seq<ComponentView>,
    t: Sources,
) -> Option<Result<Sources, Failure>>
    decreases cs.len(),
{
    if cs.len() == 0 {
        Some(Ok(t))
    } else {
        match parts_fold(lib, signals, vars, cs.drop_last(), t) {
            None => None,
            Some(Err(e)) => Some(Err(e)),
            Some(Ok(t1)) => if cs.len() - 1 > usize::MAX {
                None
            } else {
                part_step(lib, signals, vars, (cs.len() - 1) as usize, cs.last(), t1)
            },
        }
    }
}

/// The sources that the chip's input ports, assignments and parts drive.
pub open spec fn sources_of(m: ChipModel, lib: Seq<ChipHDL>) -> Option<Result<Sources, Failure>> {
    parts_fold(lib, m.signals, m.variables, m.components, assigned_sources(m.assignments, input_sources(m.ports)))
}

/// Whether an assignment reads, or a part mapping connects, the signal `name`.
pub open spec fn mentions(m: ChipModel, name: Seq<char>) -> bool {
    ||| exists|k: int| 0 <= k < m.assignments.len() && (#[trigger] m.assignments[k]).1@ == name
    ||| exists|ci: int, q: int|
        0 <= ci < m.components.len() && 0 <= q < m.components[ci].mappings.len() && (#[trigger] m.components[ci].mappings[q]).wire.name@ == name
}

/// The sixteen bits of the constant `value`.
pub open spec fn literal_row(value: bool) -> Seq<Option<Source>> {
    Seq::new(16, |i: int| Some(Source::Literal { value, bit: i as usize }))
}

/// The sources with the constants `false` and `true` added where the chip
/// uses them.
pub open spec fn with_literals(t: Sources, m: ChipModel) -> Sources {
    let t1 = if mentions(m, "false"@) { t.insert("false"@, literal_row(false)) } else { t };
    if mentions(m, "true"@) { t1.insert("true"@, literal_row(true)) } else { t1 }
}

/// The message for a signal with no sources.
pub open spec fn no_source_msg(name: Seq<char>) -> Seq<char> {
    "No source for signal name "@ + name + "."@
}

/// The message for a bit beyond a signal's width.
pub open spec fn bit_range_msg(i: nat, name: Seq<char>) -> Seq<char> {
    "Bit "@ + decimal(i) + " for signal name "@ + name + " is out of range."@
}

/// The message for a bit with no source.
pub open spec fn bit_undefined_msg(i: nat, name: Seq<char>) -> Seq<char> {
    "Bit "@ + decimal(i) + " for signal name "@ + name + " is undefined."@
}

/// Reading the source of bit `i` of the signal `name`: the error, if any.
pub open spec fn read_error(t: Sources, name: Seq<char>, i: nat, ident: Identifier) -> Option<Failure> {
    if !t.contains_key(name) {
        Some((no_source_msg(name), ErrorKind::ParseIdentError(ident)))
    } else if i >= t[name].len() {
        Some((bit_range_msg(i, name), ErrorKind::ParseIdentError(ident)))
    } else if t[name][i as int] is None {
        Some((bit_undefined_msg(i, name), ErrorKind::ParseIdentError(ident)))
    } else {
        None
    }
}

/// A name with no place in a file.
pub open spec fn bare_ident(name: String) -> Identifier {
    Identifier { value: name, path: None, line: None }
}

/// The first error reading the first `n` bits of an assignment: each bit of
/// the right side, then of the left side.
pub open spec fn assign_reads(t: Sources, a: (String, String, usize), n: nat) -> Option<Failure>
    decreases n,
{
    if n == 0 {
        None
    } else {
        match assign_reads(t, a, (n - 1) as nat) {
            Some(e) => Some(e),
            None => match read_error(t, a.1@, (n - 1) as nat, bare_ident(a.1)) {
                Some(e) => Some(e),
                None => read_error(t, a.0@, (n - 1) as nat, bare_ident(a.0)),
            },
        }
    }
}

/// The first error reading the bits of the first `k` assignments.
pub open spec fn assigns_reads(t: Sources, asgs: Seq<(String, String, usize)>, k: int) -> Option<Failure>
    decreases k,
{
    if k <= 0 || k > asgs.len() {
        None
    } else {
        match assigns_reads(t, asgs, k - 1) {
            Some(e) => Some(e),
            None => assign_reads(t, asgs[k - 1], asgs[k - 1].2 as nat),
        }
    }
}

/// The first error reading `n` bits of the signal `name` from bit `start` on.
pub open spec fn bits_reads(t: Sources, name: Seq<char>, ident: Identifier, start: int, n: nat) -> Option<Failure>
    decreases n,
{
    if n == 0 || start < 0 {
        None
    } else {
        match bits_reads(t, name, ident, start, (n - 1) as nat) {
            Some(e) => Some(e),
            None => read_error(t, name, (start + n - 1) as nat, ident),
        }
    }
}

/// Reading the signal bits that an input mapping of a part connects: the
/// error, if any; `None` where a step cannot be carried out.
pub open spec fn mapping_reads(t: Sources, vars: Map<Seq<char>, usize>, ph: ChipHDL, pvars: Map<Seq<char>, usize>, m: PortMappingHDL) -> Option<Option<Failure>> {
    match port_index_from(ph.ports@, m.port.name@, 0) {
        None => None,
        Some(pi) => if ph.ports@[pi].direction != PortDirection::In {
            Some(None)
        } else {
            match numeric_outcome(ph.ports@[pi].width, pvars) {
                Some(Ok(pw)) => match (bound_value(m.port.start, vars, 0), bound_value(m.port.end, vars, pw - 1)) {
                    (Some(Ok(ps)), Some(Ok(pe))) => if pe < 0 || pe + 1 > usize::MAX {
                        None
                    } else {
                        match bound_value(m.wire.start, vars, 0) {
                            None => None,
                            Some(Err(msg)) => Some(Some((msg, ErrorKind::NonNumeric))),
                            Some(Ok(ws)) => match bound_value(m.wire.end, vars, pw - 1) {
                                None => None,
                                Some(Err(msg)) => Some(Some((msg, ErrorKind::NonNumeric))),
                                Some(Ok(we)) => if we < 0 || ws < 0 || ws + span_len(ps, pe) > usize::MAX {
                                    None
                                } else {
                                    Some(bits_reads(t, m.wire.name@, m.wire_ident, ws, span_len(ps, pe)))
                                },
                            },
                        }
                    },
                    _ => None,
                },
                _ => None,
            }
        },
    }
}

/// The first `k` mappings of a part.
pub open spec fn mappings_reads(
    t: Sources,
    vars: Map<Seq<char>, usize>,
    ph: ChipHDL,
    pvars: Map<Seq<char>, usize>,
    ms: Seq<PortMappingHDL>,
    k: int,
) -> Option<Option<Failure>>
    decreases k,
{
    if k <= 0 || k > ms.len() {
        Some(None)
    } else {
        match mappings_reads(t, vars, ph, pvars, ms, k - 1) {
            None => None,
            Some(Some(e)) => Some(Some(e)),
            Some(None) => mapping_reads(t, vars, ph, pvars, ms[k - 1]),
        }
    }
}

/// Reading what the input mappings of one part connect.
pub open spec fn part_reads(lib: Seq<ChipHDL>, t: Sources, vars: Map<Seq<char>, usize>, c: ComponentView) -> Option<Option<Failure>> {
    match chip_named(lib, c.name.value@) {
        None => None,
        Some(ph) => if !generics_bound(c.generic_params, vars) {
            None
        } else {
            match chip_outcome(ph, lib, part_generics(c.generic_params, vars)) {
                Some(Ok(pm)) => mappings_reads(t, vars, ph, pm.variables, c.mappings, c.mappings.len() as int),
                _ => None,
            }
        },
    }
}

/// The first `k` parts.
pub open spec fn parts_reads(lib: Seq<ChipHDL>, t: Sources, vars: Map<Seq<char>, usize>, cs: Seq<ComponentView>, k: int) -> Option<Option<Failure>>
    decreases k,
{
    if k <= 0 || k > cs.len() {
        Some(None)
    } else {
        match parts_reads(lib, t, vars, cs, k - 1) {
            None => None,
            Some(Some(e)) => Some(Some(e)),
            Some(None) => part_reads(lib, t, vars, cs[k - 1]),
        }
    }
}

/// What elaborating the chip `m` gives: the source of every bit of every
/// signal (the constants `true` and `false` among them where used), or the
/// first error. The sources are gathered first (see `sources_of`); then the
/// bits that each assignment and each input mapping of a part read must
/// each have a source. `None` where a step cannot be carried out.
pub open spec fn elaboration(m: ChipModel, lib: Seq<ChipHDL>) -> Option<Result<Sources, Failure>> {
    match sources_of(m, lib) {
        None => None,
        Some(Err(e)) => Some(Err(e)),
        Some(Ok(t)) => {
            let t2 = with_literals(t, m);
            match assigns_reads(t2, m.assignments, m.assignments.len() as int) {
                Some(e) => Some(Err(e)),
                None => match parts_reads(lib, t2, m.variables, m.components, m.components.len() as int) {
                    None => None,
                    Some(Some(e)) => Some(Err(e)),
                    Some(None) => Some(Ok(t2)),
                },
            }
        },
    }
}

/// A table of sources as a value.
pub open spec fn table_view(t: StrMap<Vec<Option<Source>>>) -> Sources {
    t.map().map_values(|v: Vec<Option<Source>>| v@)
}

/// Evaluates an optional lower bound; a missing one is 0.
fn eval_start(b: &Option<GenericWidth>, vars: &StrMap<usize>) -> (r: Result<usize, N2VError>)
    requires
        bound_value(*b, vars.map(), 0) is Some,
    ensures
        match bound_value(*b, vars.map(), 0).unwrap() {
            Ok(n) => r matches Ok(x) && x == n,
            Err(m) => r matches Err(e) && e.msg@ == m && e.kind == ErrorKind::NonNumeric,
        },
{
    match b {
        None => Ok(0),
        Some(x) => eval_expr_numeric(x, vars),
    }
}

/// Evaluates an optional upper bound; a missing one is `width - 1`.
fn eval_end(b: &Option<GenericWidth>, vars: &StrMap<usize>, width: usize) -> (r: Result<usize, N2VError>)
    requires
        bound_value(*b, vars.map(), width - 1) is Some,
        bound_value(*b, vars.map(), width - 1) matches Some(Ok(n)) ==> n >= 0,
    ensures
        match bound_value(*b, vars.map(), width - 1).unwrap() {
            Ok(n) => r matches Ok(x) && x == n,
            Err(m) => r matches Err(e) && e.msg@ == m && e.kind == ErrorKind::NonNumeric,
        },
{
    match b {
        None => Ok(width - 1),
        Some(x) => eval_expr_numeric(x, vars),
    }
}

/// Places the sources of `count` port bits into `row`; see `place_bits`.
fn place(row: &mut Vec<Option<Source>>, part: usize, port: usize, ps: usize, ws: usize, count: usize) -> (r: bool)
    requires
        place_bits(old(row)@, part, port, ps as int, ws as int, count as nat) is Some,
    ensures
        match place_bits(old(row)@, part, port, ps as int, ws as int, count as nat).unwrap() {
            Ok(v) => r && final(row)@ == v,
            Err(()) => !r,
        },
{
    let ghost row0 = row@;
    let mut k: usize = 0;
    proof {
        assert forall|n: nat| n <= count implies (#[trigger] place_bits(row0, part, port, ps as int, ws as int, n)) is Some by {
            lemma_place_prefix(row0, part, port, ps as int, ws as int, n, count as nat);
        }
    }
    while k < count
        invariant
            k <= count,
            row0 == old(row)@,
            place_bits(row0, part, port, ps as int, ws as int, count as nat) is Some,
            forall|n: nat| n <= count ==> (#[trigger] place_bits(row0, part, port, ps as int, ws as int, n)) is Some,
            place_bits(row0, part, port, ps as int, ws as int, k as nat) == Some(Ok::<Seq<Option<Source>>, ()>(row@)),
        decreases count - k,
    {
        assert(place_bits(row0, part, port, ps as int, ws as int, (k + 1) as nat) is Some);
        let len = row.len();
        assert(ws + k < row@.len() && ps + k <= usize::MAX) by {
            let n1 = (k + 1) as nat;
            assert((n1 - 1) as nat == k as nat);
            assert(place_bits(row0, part, port, ps as int, ws as int, (n1 - 1) as nat) == Some(Ok::<Seq<Option<Source>>, ()>(row@)));
        }
        let j = ws + k;
        let i = ps + k;
        if row[j].is_some() {
            proof {
                assert(place_bits(row0, part, port, ps as int, ws as int, (k + 1) as nat) == Some(Err::<Seq<Option<Source>>, ()>(())));
                lemma_place_err(row0, part, port, ps as int, ws as int, (k + 1) as nat, count as nat);
            }
            return false;
        }
        row.set(j, Some(Source::Part { part, port, bit: i }));
        k = k + 1;
    }
    true
}

/// Placing fewer bits is defined where placing more is.
proof fn lemma_place_prefix(row: Seq<Option<Source>>, part: usize, port: usize, ps: int, ws: int, n: nat, count: nat)
    requires
        n <= count,
        place_bits(row, part, port, ps, ws, count) is Some,
    ensures
        place_bits(row, part, port, ps, ws, n) is Some,
        place_bits(row, part, port, ps, ws, n) matches Some(Err(_)) ==> place_bits(row, part, port, ps, ws, count) matches Some(Err(_)),
    decreases count - n,
{
    if n < count {
        lemma_place_prefix(row, part, port, ps, ws, n, (count - 1) as nat);
    }
}

proof fn lemma_place_err(row: Seq<Option<Source>>, part: usize, port: usize, ps: int, ws: int, n: nat, count: nat)
    requires
        n <= count,
        place_bits(row, part, port, ps, ws, count) is Some,
        place_bits(row, part, port, ps, ws, n) matches Some(Err(_)),
    ensures
        place_bits(row, part, port, ps, ws, count) matches Some(Err(_)),
{
    lemma_place_prefix(row, part, port, ps, ws, n, count);
}

/// Which bits of each part port are connected, as a value.
pub open spec fn used_view(u: StrMap<Vec<bool>>) -> Map<Seq<char>, Seq<bool>> {
    u.map().map_values(|v: Vec<bool>| v@)
}

/// A row of `n` bits with no source.
fn no_sources(n: usize) -> (r: Vec<Option<Source>>)
    ensures
        r@ == Seq::new(n as nat, |i: int| None::<Source>),
{
    let mut r: Vec<Option<Source>> = Vec::new();
    let mut i: usize = 0;
    while i < n
        invariant
            i <= n,
            r@ == Seq::new(i as nat, |k: int| None::<Source>),
        decreases n - i,
    {
        r.push(None);
        i = i + 1;
        assert(r@ =~= Seq::new(i as nat, |k: int| None::<Source>));
    }
    r
}

/// `bits` with the bits `[ps, pe]` marked connected.
fn cover(bits: &Vec<bool>, ps: usize, pe: usize) -> (r: Vec<bool>)
    ensures
        r@ == cover_bits(bits@, ps as int, pe as int),
{
    let mut r: Vec<bool> = Vec::new();
    let mut b: usize = 0;
    while b < bits.len()
        invariant
            b <= bits.len(),
            r@ == cover_bits(bits@, ps as int, pe as int).take(b as int),
        decreases bits.len() - b,
    {
        r.push(bits[b] || (ps <= b && b <= pe));
        b = b + 1;
        assert(r@ =~= cover_bits(bits@, ps as int, pe as int).take(b as int));
    }
    assert(r@ =~= cover_bits(bits@, ps as int, pe as int));
    r
}

pub(crate) fn text_error(head: &str, name: &str, kind: ErrorKind) -> (e: N2VError)
    ensures
        e.msg@ == head@ + name@ + "."@,
        e.kind == kind,
{
    let mut msg = String::new();
    push_str(&mut msg, head);
    push_str(&mut msg, name);
    push_str(&mut msg, ".");
    proof {
        reveal_strlit(".");
    }
    N2VError { msg, kind }
}

/// Places one port mapping of the part at position `ci`; see `mapping_step`.
#[verifier::rlimit(40)]
fn place_mapping(
    chip: &Chip,
    ci: usize,
    ph: &ChipHDL,
    pvars: &StrMap<usize>,
    m: &PortMappingHDL,
    table: &mut StrMap<Vec<Option<Source>>>,
    used: &mut StrMap<Vec<bool>>,
) -> (r: Result<(), N2VError>)
    requires
        mapping_step(chip.signals.view(), chip.variables.map(), ci, *ph, pvars.map(), *m, table_view(*old(table)), used_view(*old(used))) is Some,
    ensures
        match mapping_step(chip.signals.view(), chip.variables.map(), ci, *ph, pvars.map(), *m, table_view(*old(table)), used_view(*old(used))).unwrap() {
            Ok((t, u)) => r is Ok && table_view(*final(table)) == t && used_view(*final(used)) == u,
            Err((msg, k)) => r matches Err(e) && e.msg@ == msg && e.kind == k,
        },
{
    proof {
        reveal_strlit("Attempt to get non-existent port ");
        reveal_strlit("Duplicate source for signal name ");
    }
    let pi = match ph.port_index(m.port.name.as_str()) {
        Some(i) => i,
        None => {
            return Err(text_error("Attempt to get non-existent port ", m.port.name.as_str(), ErrorKind::ParseIdentError(m.wire_ident.clone())));
        },
    };
    let port = &ph.ports[pi];
    let pw = match eval_expr_numeric(&port.width, pvars) {
        Ok(x) => x,
        Err(e) => return Err(e),
    };
    let ps = match eval_start(&m.port.start, &chip.variables) {
        Ok(x) => x,
        Err(e) => return Err(e),
    };
    let pe = match eval_end(&m.port.end, &chip.variables, pw) {
        Ok(x) => x,
        Err(e) => return Err(e),
    };
    if port.direction == PortDirection::In {
        let bits = cover(used.get(m.port.name.as_str()).unwrap(), ps, pe);
        used.insert(m.port.name.clone(), bits);
        proof {
            assert(used_view(*final(used)) =~= used_view(*old(used)).insert(m.port.name@, bits@));
        }
        return Ok(());
    }
    let ws = match eval_start(&m.wire.start, &chip.variables) {
        Ok(x) => x,
        Err(e) => return Err(e),
    };
    // The wire's end is evaluated for its errors only: the port range decides
    // how many bits are placed.
    let _we = match eval_end(&m.wire.end, &chip.variables, pw) {
        Ok(x) => x,
        Err(e) => return Err(e),
    };
    let sig = &m.wire.name;
    let mut row = match table.get(sig.as_str()) {
        Some(v) => v.clone(),
        None => no_sources(chip.signals.get_width(sig.as_str()).unwrap()),
    };
    proof {
        assert(row@ == (if table_view(*old(table)).contains_key(sig@) {
            table_view(*old(table))[sig@]
        } else {
            Seq::new(chip.signals.view()[sig@].len(), |i: int| None::<Source>)
        }));
    }
    let count = if ps <= pe + 1 {
        pe + 1 - ps
    } else {
        0
    };
    if !place(&mut row, ci, pi, ps, ws, count) {
        return Err(text_error("Duplicate source for signal name ", sig.as_str(), ErrorKind::ParseIdentError(m.wire_ident.clone())));
    }
    let ghost rv = row@;
    table.insert(sig.clone(), row);
    proof {
        assert(table_view(*final(table)) =~= table_view(*old(table)).insert(sig@, rv));
    }
    Ok(())
}

/// A prefix of the mappings is defined where the whole list is, and an error
/// in a prefix is the error of the whole list.
proof fn lemma_mappings_prefix(
    signals: Map<Seq<char>, Seq<Option<bool>>>,
    vars: Map<Seq<char>, usize>,
    ci: usize,
    ph: ChipHDL,
    pvars: Map<Seq<char>, usize>,
    ms: Seq<PortMappingHDL>,
    t: Sources,
    used: Map<Seq<char>, Seq<bool>>,
    i: int,
)
    requires
        0 <= i <= ms.len(),
        mappings_fold(signals, vars, ci, ph, pvars, ms, t, used) is Some,
    ensures
        mappings_fold(signals, vars, ci, ph, pvars, ms.take(i), t, used) is Some,
        mappings_fold(signals, vars, ci, ph, pvars, ms.take(i), t, used) matches Some(Err(e)) ==> mappings_fold(
            signals,
            vars,
            ci,
            ph,
            pvars,
            ms,
            t,
            used,
        ) == mappings_fold(signals, vars, ci, ph, pvars, ms.take(i), t, used),
    decreases ms.len(),
{
    if i == ms.len() {
        assert(ms.take(i) =~= ms);
    } else {
        assert(ms.drop_last().take(i) =~= ms.take(i));
        lemma_mappings_prefix(signals, vars, ci, ph, pvars, ms.drop_last(), t, used, i);
    }
}

/// The first port found among a prefix is the first among all ports.
proof fn lemma_uncovered_prefix(ports: Seq<GenericPort>, used: Map<Seq<char>, Seq<bool>>, i: int)
    requires
        0 <= i <= ports.len(),
        first_uncovered(ports.take(i), used) is Some,
    ensures
        first_uncovered(ports, used) == first_uncovered(ports.take(i), used),
    decreases ports.len(),
{
    if i == ports.len() {
        assert(ports.take(i) =~= ports);
    } else {
        assert(ports.drop_last().take(i) =~= ports.take(i));
        lemma_uncovered_prefix(ports.drop_last(), used, i);
    }
}

/// `n` bits, none connected.
fn no_bits(n: usize) -> (r: Vec<bool>)
    ensures
        r@ == Seq::new(n as nat, |i: int| false),
{
    let mut r: Vec<bool> = Vec::new();
    let mut i: usize = 0;
    while i < n
        invariant
            i <= n,
            r@ == Seq::new(i as nat, |k: int| false),
        decreases n - i,
    {
        r.push(false);
        i = i + 1;
        assert(r@ =~= Seq::new(i as nat, |k: int| false));
    }
    r
}

/// The first bit of `bits` that is not set, if any.
fn first_unset(bits: &Vec<bool>) -> (r: Option<usize>)
    ensures
        match r {
            Some(b) => b < bits.len() && !bits@[b as int],
            None => forall|x: int| 0 <= x < bits.len() ==> bits@[x],
        },
{
    let mut b: usize = 0;
    while b < bits.len()
        invariant
            b <= bits.len(),
            forall|x: int| 0 <= x < b ==> bits@[x],
        decreases bits.len() - b,
    {
        if !bits[b] {
            return Some(b);
        }
        b = b + 1;
    }
    None
}

/// Elaborates the part at position `ci`; see `part_step`.
#[verifier::rlimit(60)]
#[verifier::spinoff_prover]
fn elaborate_part(
    chip: &Chip,
    library: &Vec<ChipHDL>,
    ci: usize,
    c: &Component,
    table: &mut StrMap<Vec<Option<Source>>>,
) -> (r: Result<(), N2VError>)
    requires
        part_step(library@, chip.signals.view(), chip.variables.map(), ci, c@, table_view(*old(table))) is Some,
    ensures
        match part_step(library@, chip.signals.view(), chip.variables.map(), ci, c@, table_view(*old(table))).unwrap() {
            Ok(t) => r is Ok && table_view(*final(table)) == t,
            Err((msg, k)) => r matches Err(e) && e.msg@ == msg && e.kind == k,
        },
{
    let ghost signals = chip.signals.view();
    let ghost vars = chip.variables.map();
    let ghost t0 = table_view(*table);
    let ph = match get_hdl(c.name.value.as_str(), library) {
        Some(h) => h,
        None => return Err(missing_chip(c.name.value.as_str())),
    };
    let mut rg: Vec<usize> = Vec::new();
    let mut i: usize = 0;
    proof {
        assert(c.generic_params@.take(0) =~= Seq::<GenericWidth>::empty());
    }
    while i < c.generic_params.len()
        invariant
            i <= c.generic_params.len(),
            vars == chip.variables.map(),
            generics_bound(c.generic_params@, vars),
            rg@ == part_generics(c.generic_params@.take(i as int), vars),
        decreases c.generic_params.len() - i,
    {
        proof {
            assert(c.generic_params@.take(i + 1).drop_last() =~= c.generic_params@.take(i as int));
            assert(c.generic_params@.take(i + 1).last() == c.generic_params@[i as int]);
        }
        match &c.generic_params[i] {
            GenericWidth::Terminal(Terminal::Num(w)) => {
                rg.push(*w);
            },
            GenericWidth::Terminal(Terminal::Var(v)) => {
                assert(vars.contains_key(v.value@));
                let x = chip.variables.get(v.value.as_str()).unwrap();
                rg.push(*x);
            },
            _ => {},
        }
        i = i + 1;
    }
    proof {
        assert(c.generic_params@.take(i as int) =~= c.generic_params@);
    }
    let pc = match Chip::build(ph, library, &rg) {
        Ok(x) => x,
        Err(e) => return Err(e),
    };
    let ghost pm = pc.model();
    let ghost pvars = pc.variables.map();
    let mut used: StrMap<Vec<bool>> = StrMap::new();
    let mut j: usize = 0;
    proof {
        assert(pm.ports.take(0) =~= Seq::<(Seq<char>, usize, PortDirection)>::empty());
        assert(used_view(used) =~= Map::<Seq<char>, Seq<bool>>::empty());
    }
    while j < pc.ports.len()
        invariant
            j <= pc.ports.len(),
            pm == pc.model(),
            used_view(used) == unconnected(pm.ports.take(j as int)),
        decreases pc.ports.len() - j,
    {
        let p = &pc.ports[j];
        proof {
            assert(pm.ports.take(j + 1).drop_last() =~= pm.ports.take(j as int));
            assert(pm.ports.take(j + 1).last() == port_view(pc.ports@[j as int]));
        }
        if !used.contains_key(p.name.value.as_str()) {
            let bits = no_bits(p.width);
            used.insert(p.name.value.clone(), bits);
            proof {
                assert(used_view(used) =~= unconnected(pm.ports.take(j + 1)));
            }
        }
        j = j + 1;
    }
    proof {
        assert(pm.ports.take(j as int) =~= pm.ports);
    }
    let ghost u0 = used_view(used);
    let ghost ms = c.mappings@;
    let ghost goal = part_step(library@, chip.signals.view(), chip.variables.map(), ci, c@, t0);
    assert(goal == after_mappings(*ph, c.name, mappings_fold(signals, vars, ci, *ph, pvars, ms, t0, u0)));
    let mut k: usize = 0;
    proof {
        assert(ms.take(0) =~= Seq::<PortMappingHDL>::empty());
    }
    while k < c.mappings.len()
        invariant
            k <= c.mappings.len(),
            ms == c.mappings@,
            signals == chip.signals.view(),
            vars == chip.variables.map(),
            pvars == pc.variables.map(),
            mappings_fold(signals, vars, ci, *ph, pvars, ms, t0, u0) is Some,
            goal == after_mappings(*ph, c.name, mappings_fold(signals, vars, ci, *ph, pvars, ms, t0, u0)),
            goal == part_step(library@, chip.signals.view(), chip.variables.map(), ci, c@, t0),
            t0 == table_view(*old(table)),
            mappings_fold(signals, vars, ci, *ph, pvars, ms.take(k as int), t0, u0) == Some(
                Ok::<(Sources, Map<Seq<char>, Seq<bool>>), Failure>((table_view(*table), used_view(used))),
            ),
        decreases c.mappings.len() - k,
    {
        proof {
            lemma_mappings_prefix(signals, vars, ci, *ph, pvars, ms, t0, u0, k + 1);
            assert(ms.take(k + 1).drop_last() =~= ms.take(k as int));
            assert(ms.take(k + 1).last() == ms[k as int]);
        }
        let ghost tv = table_view(*table);
        let ghost uv = used_view(used);
        match place_mapping(chip, ci, ph, &pc.variables, &c.mappings[k], table, &mut used) {
            Ok(()) => {},
            Err(e) => {
                proof {
                    assert(mappings_fold(signals, vars, ci, *ph, pvars, ms.take(k + 1), t0, u0) == mapping_step(
                        signals,
                        vars,
                        ci,
                        *ph,
                        pvars,
                        ms[k as int],
                        tv,
                        uv,
                    ));
                }
                return Err(e);
            },
        }
        k = k + 1;
    }
    proof {
        assert(ms.take(k as int) =~= ms);
    }
    let ghost u = used_view(used);
    let mut q: usize = 0;
    proof {
        assert(ph.ports@.take(0) =~= Seq::<GenericPort>::empty());
    }
    while q < ph.ports.len()
        invariant
            q <= ph.ports.len(),
            u == used_view(used),
            goal == after_mappings(*ph, c.name, Some(Ok::<(Sources, Map<Seq<char>, Seq<bool>>), Failure>((table_view(*table), u)))),
            goal == part_step(library@, chip.signals.view(), chip.variables.map(), ci, c@, t0),
            t0 == table_view(*old(table)),
            forall|i: int| 0 <= i < ph.ports@.len() && ph.ports@[i].direction == PortDirection::In ==> u.contains_key(#[trigger] ph.ports@[i].name.value@),
            first_uncovered(ph.ports@.take(q as int), u) is None,
        decreases ph.ports.len() - q,
    {
        let p = &ph.ports[q];
        proof {
            assert(ph.ports@.take(q + 1).drop_last() =~= ph.ports@.take(q as int));
            assert(ph.ports@.take(q + 1).last() == ph.ports@[q as int]);
        }
        if p.direction == PortDirection::In {
            assert(u.contains_key(ph.ports@[q as int].name.value@));
            let bits = used.get(p.name.value.as_str()).unwrap();
            match first_unset(bits) {
                Some(b) => {
                    proof {
                        reveal_strlit("Component does not provide inputs for all bits of ");
                        assert(!u[ph.ports@[q as int].name.value@][b as int]);
                        assert(first_uncovered(ph.ports@.take(q + 1), u) == Some(q as int));
                        lemma_uncovered_prefix(ph.ports@, u, q + 1);
                        assert(first_uncovered(ph.ports@, u) == Some(q as int));
                        assert(goal == Some(Err::<Sources, Failure>((uncovered_msg(ph.ports@[q as int].name.value@), ErrorKind::ParseIdentError(c.name)))));
                    }
                    return Err(text_error("Component does not provide inputs for all bits of ", p.name.value.as_str(), ErrorKind::ParseIdentError(c.name.clone())));
                },
                None => {},
            }
        }
        q = q + 1;
    }
    proof {
        assert(ph.ports@.take(q as int) =~= ph.ports@);
    }
    Ok(())
}

/// The bits of an input port, each its own source.
fn input_row(port: usize, width: usize) -> (r: Vec<Option<Source>>)
    ensures
        r@ == Seq::new(width as nat, |i: int| Some(Source::Input { port, bit: i as usize })),
{
    let mut r: Vec<Option<Source>> = Vec::new();
    let mut i: usize = 0;
    while i < width
        invariant
            i <= width,
            r@ == Seq::new(i as nat, |k: int| Some(Source::Input { port, bit: k as usize })),
        decreases width - i,
    {
        r.push(Some(Source::Input { port, bit: i }));
        i = i + 1;
        assert(r@ =~= Seq::new(i as nat, |k: int| Some(Source::Input { port, bit: k as usize })));
    }
    r
}

/// The bits of an assignment's left side, each driven by the assignment.
fn assigned_row(assignment: usize, width: usize) -> (r: Vec<Option<Source>>)
    ensures
        r@ == Seq::new(width as nat, |i: int| Some(Source::Assigned { assignment, bit: i as usize })),
{
    let mut r: Vec<Option<Source>> = Vec::new();
    let mut i: usize = 0;
    while i < width
        invariant
            i <= width,
            r@ == Seq::new(i as nat, |k: int| Some(Source::Assigned { assignment, bit: k as usize })),
        decreases width - i,
    {
        r.push(Some(Source::Assigned { assignment, bit: i }));
        i = i + 1;
        assert(r@ =~= Seq::new(i as nat, |k: int| Some(Source::Assigned { assignment, bit: k as usize })));
    }
    r
}

/// A prefix of the parts is defined where all are, and an error in a prefix
/// is the error of all.
proof fn lemma_parts_prefix(
    lib: Seq<ChipHDL>,
    signals: Map<Seq<char>, Seq<Option<bool>>>,
    vars: Map<Seq<char>, usize>,
    cs: Seq<ComponentView>,
    t: Sources,
    i: int,
)
    requires
        0 <= i <= cs.len(),
        parts_fold(lib, signals, vars, cs, t) is Some,
    ensures
        parts_fold(lib, signals, vars, cs.take(i), t) is Some,
        parts_fold(lib, signals, vars, cs.take(i), t) matches Some(Err(e)) ==> parts_fold(lib, signals, vars, cs, t)
            == parts_fold(lib, signals, vars, cs.take(i), t),
    decreases cs.len(),
{
    if i == cs.len() {
        assert(cs.take(i) =~= cs);
    } else {
        assert(cs.drop_last().take(i) =~= cs.take(i));
        lemma_parts_prefix(lib, signals, vars, cs.drop_last(), t, i);
    }
}

proof fn lemma_assign_reads_prefix(t: Sources, a: (String, String, usize), n: nat, k: nat)
    requires
        k <= n,
        assign_reads(t, a, k) is Some,
    ensures
        assign_reads(t, a, n) == assign_reads(t, a, k),
    decreases n - k,
{
    if k < n {
        lemma_assign_reads_prefix(t, a, (n - 1) as nat, k);
    }
}

proof fn lemma_assigns_reads_prefix(t: Sources, asgs: Seq<(String, String, usize)>, n: int, k: int)
    requires
        0 <= k <= n <= asgs.len(),
        assigns_reads(t, asgs, k) is Some,
    ensures
        assigns_reads(t, asgs, n) == assigns_reads(t, asgs, k),
    decreases n - k,
{
    if k < n {
        lemma_assigns_reads_prefix(t, asgs, n - 1, k);
    }
}

proof fn lemma_bits_reads_prefix(t: Sources, name: Seq<char>, ident: Identifier, start: int, n: nat, k: nat)
    requires
        k <= n,
        bits_reads(t, name, ident, start, k) is Some,
    ensures
        bits_reads(t, name, ident, start, n) == bits_reads(t, name, ident, start, k),
    decreases n - k,
{
    if k < n {
        lemma_bits_reads_prefix(t, name, ident, start, (n - 1) as nat, k);
    }
}

proof fn lemma_mappings_reads_prefix(
    t: Sources,
    vars: Map<Seq<char>, usize>,
    ph: ChipHDL,
    pvars: Map<Seq<char>, usize>,
    ms: Seq<PortMappingHDL>,
    n: int,
    k: int,
)
    requires
        0 <= k <= n <= ms.len(),
        mappings_reads(t, vars, ph, pvars, ms, n) is Some,
    ensures
        mappings_reads(t, vars, ph, pvars, ms, k) is Some,
        mappings_reads(t, vars, ph, pvars, ms, k) matches Some(Some(e)) ==> mappings_reads(t, vars, ph, pvars, ms, n)
            == mappings_reads(t, vars, ph, pvars, ms, k),
    decreases n - k,
{
    if k < n {
        lemma_mappings_reads_prefix(t, vars, ph, pvars, ms, n - 1, k);
    }
}

proof fn lemma_parts_reads_prefix(lib: Seq<ChipHDL>, t: Sources, vars: Map<Seq<char>, usize>, cs: Seq<ComponentView>, n: int, k: int)
    requires
        0 <= k <= n <= cs.len(),
        parts_reads(lib, t, vars, cs, n) is Some,
    ensures
        parts_reads(lib, t, vars, cs, k) is Some,
        parts_reads(lib, t, vars, cs, k) matches Some(Some(e)) ==> parts_reads(lib, t, vars, cs, n) == parts_reads(lib, t, vars, cs, k),
    decreases n - k,
{
    if k < n {
        lemma_parts_reads_prefix(lib, t, vars, cs, n - 1, k);
    }
}

/// The error, if any, of reading the source of bit `i` of `name`.
fn read_check(table: &StrMap<Vec<Option<Source>>>, name: &String, i: usize, ident: &Identifier) -> (r: Result<(), N2VError>)
    ensures
        match read_error(table_view(*table), name@, i as nat, *ident) {
            None => r is Ok,
            Some((msg, k)) => r matches Err(e) && e.msg@ == msg && e.kind == k,
        },
{
    proof {
        reveal_strlit("No source for signal name ");
        reveal_strlit("Bit ");
        reveal_strlit(" for signal name ");
        reveal_strlit(" is out of range.");
        reveal_strlit(" is undefined.");
    }
    match table.get(name.as_str()) {
        None => Err(text_error("No source for signal name ", name.as_str(), ErrorKind::ParseIdentError(ident.clone()))),
        Some(row) => {
            if i >= row.len() || row[i].is_none() {
                let mut msg = String::new();
                push_str(&mut msg, "Bit ");
                push_decimal(&mut msg, i);
                push_str(&mut msg, " for signal name ");
                push_str(&mut msg, name.as_str());
                if i >= row.len() {
                    push_str(&mut msg, " is out of range.");
                    proof {
                        assert(msg@ =~= bit_range_msg(i as nat, name@));
                    }
                } else {
                    push_str(&mut msg, " is undefined.");
                    proof {
                        assert(msg@ =~= bit_undefined_msg(i as nat, name@));
                    }
                }
                return Err(N2VError { msg, kind: ErrorKind::ParseIdentError(ident.clone()) });
            }
            Ok(())
        },
    }
}

/// The first error reading `count` bits of `name` from bit `start` on.
fn bits_check(table: &StrMap<Vec<Option<Source>>>, name: &String, ident: &Identifier, start: usize, count: usize) -> (r: Result<(), N2VError>)
    requires
        start + count <= usize::MAX,
    ensures
        match bits_reads(table_view(*table), name@, *ident, start as int, count as nat) {
            None => r is Ok,
            Some((msg, k)) => r matches Err(e) && e.msg@ == msg && e.kind == k,
        },
{
    let ghost t = table_view(*table);
    let mut k: usize = 0;
    while k < count
        invariant
            k <= count,
            start + count <= usize::MAX,
            t == table_view(*table),
            bits_reads(t, name@, *ident, start as int, k as nat) is None,
        decreases count - k,
    {
        match read_check(table, name, start + k, ident) {
            Ok(()) => {},
            Err(e) => {
                proof {
                    assert(bits_reads(t, name@, *ident, start as int, (k + 1) as nat) is Some);
                    lemma_bits_reads_prefix(t, name@, *ident, start as int, count as nat, (k + 1) as nat);
                }
                return Err(e);
            },
        }
        k = k + 1;
    }
    Ok(())
}

/// The first error reading the bits of an assignment; see `assign_reads`.
fn assign_check(table: &StrMap<Vec<Option<Source>>>, x: &crate::simulator::Assignment) -> (r: Result<(), N2VError>)
    ensures
        match assign_reads(table_view(*table), crate::simulator::assignment_view(*x), x.width as nat) {
            None => r is Ok,
            Some((msg, k)) => r matches Err(e) && e.msg@ == msg && e.kind == k,
        },
{
    let ghost t = table_view(*table);
    let ghost av = crate::simulator::assignment_view(*x);
    let ri = Identifier { value: x.right.name.clone(), path: None, line: None };
    let li = Identifier { value: x.left.name.clone(), path: None, line: None };
    let mut j: usize = 0;
    while j < x.width
        invariant
            j <= x.width,
            av == crate::simulator::assignment_view(*x),
            ri == bare_ident(av.1),
            li == bare_ident(av.0),
            t == table_view(*table),
            assign_reads(t, av, j as nat) is None,
        decreases x.width - j,
    {
        match read_check(table, &x.right.name, j, &ri) {
            Ok(()) => {},
            Err(e) => {
                proof {
                    assert(assign_reads(t, av, (j + 1) as nat) is Some);
                    lemma_assign_reads_prefix(t, av, av.2 as nat, (j + 1) as nat);
                }
                return Err(e);
            },
        }
        match read_check(table, &x.left.name, j, &li) {
            Ok(()) => {},
            Err(e) => {
                proof {
                    assert(assign_reads(t, av, (j + 1) as nat) is Some);
                    lemma_assign_reads_prefix(t, av, av.2 as nat, (j + 1) as nat);
                }
                return Err(e);
            },
        }
        j = j + 1;
    }
    Ok(())
}

/// The sixteen bits of the constant `value`.
fn literal_row_exec(value: bool) -> (r: Vec<Option<Source>>)
    ensures
        r@ == literal_row(value),
{
    let mut r: Vec<Option<Source>> = Vec::new();
    let mut i: usize = 0;
    while i < 16
        invariant
            i <= 16,
            r@ == Seq::new(i as nat, |k: int| Some(Source::Literal { value, bit: k as usize })),
        decreases 16 - i,
    {
        r.push(Some(Source::Literal { value, bit: i }));
        i = i + 1;
        assert(r@ =~= Seq::new(i as nat, |k: int| Some(Source::Literal { value, bit: k as usize })));
    }
    r
}

impl Chip {
    /// Whether an assignment reads, or a part mapping connects, `name`.
    fn mentions_exec(&self, name: &str) -> (r: bool)
        ensures
            r == mentions(self.model(), name@),
    {
        let ghost m = self.model();
        let mut k: usize = 0;
        while k < self.assignments.len()
            invariant
                k <= self.assignments.len(),
                m == self.model(),
                forall|x: int| 0 <= x < k ==> (#[trigger] m.assignments[x]).1@ != name@,
            decreases self.assignments.len() - k,
        {
            assert(m.assignments[k as int] == crate::simulator::assignment_view(self.assignments@[k as int]));
            if crate::keys::key_eq(self.assignments[k].right.name.as_str(), name) {
                return true;
            }
            k = k + 1;
        }
        let mut ci: usize = 0;
        while ci < self.components.len()
            invariant
                ci <= self.components.len(),
                m == self.model(),
                forall|x: int| 0 <= x < m.assignments.len() ==> (#[trigger] m.assignments[x]).1@ != name@,
                forall|c: int, q: int| 0 <= c < ci && 0 <= q < m.components[c].mappings.len() ==> (#[trigger] m.components[c].mappings[q]).wire.name@ != name@,
            decreases self.components.len() - ci,
        {
            let c = &self.components[ci];
            assert(m.components[ci as int] == c@);
            let mut q: usize = 0;
            while q < c.mappings.len()
                invariant
                    q <= c.mappings.len(),
                    m == self.model(),
                    ci < self.components.len(),
                    m.components[ci as int] == c@,
                    forall|x: int| 0 <= x < q ==> (#[trigger] m.components[ci as int].mappings[x]).wire.name@ != name@,
                decreases c.mappings.len() - q,
            {
                if crate::keys::key_eq(c.mappings[q].wire.name.as_str(), name) {
                    assert(m.components[ci as int].mappings[q as int].wire.name@ == name@);
                    return true;
                }
                q = q + 1;
            }
            ci = ci + 1;
        }
        false
    }
}

impl Chip {
    /// Elaborates the chip one level deep: the source of every bit of every
    /// signal that the chip's input ports, assignments and parts drive, part by
    /// part in order; see `elaboration`. Each part's chip is built from
    /// `library`. Fails where a part's chip is missing or cannot be built,
    /// where a mapping names a port its chip lacks, where a bit would get a
    /// second source, or where an input bit of a part is not connected.
    #[verifier::rlimit(40)]
    pub fn elaborate(&self, library: &Vec<ChipHDL>) -> (r: Result<StrMap<Vec<Option<Source>>>, N2VError>)
        requires
            elaboration(self.model(), library@) is Some,
        ensures
            match elaboration(self.model(), library@).unwrap() {
                Ok(t) => r matches Ok(x) && table_view(x) == t,
                Err((msg, k)) => r matches Err(e) && e.msg@ == msg && e.kind == k,
            },
    {
        let ghost m = self.model();
        let mut table: StrMap<Vec<Option<Source>>> = StrMap::new();
        let mut k: usize = 0;
        proof {
            assert(m.ports.take(0) =~= Seq::<(Seq<char>, usize, PortDirection)>::empty());
            assert(table_view(table) =~= Map::<Seq<char>, Seq<Option<Source>>>::empty());
        }
        while k < self.ports.len()
            invariant
                k <= self.ports.len(),
                m == self.model(),
                table_view(table) == input_sources(m.ports.take(k as int)),
            decreases self.ports.len() - k,
        {
            let p = &self.ports[k];
            proof {
                assert(m.ports.take(k + 1).drop_last() =~= m.ports.take(k as int));
                assert(m.ports.take(k + 1).last() == port_view(self.ports@[k as int]));
            }
            if p.direction == PortDirection::In {
                let row = input_row(k, p.width);
                table.insert(p.name.value.clone(), row);
                proof {
                    assert(table_view(table) =~= input_sources(m.ports.take(k + 1)));
                }
            }
            k = k + 1;
        }
        proof {
            assert(m.ports.take(k as int) =~= m.ports);
        }
        let ghost base = table_view(table);
        let mut a: usize = 0;
        proof {
            assert(m.assignments.take(0) =~= Seq::<(String, String, usize)>::empty());
        }
        while a < self.assignments.len()
            invariant
                a <= self.assignments.len(),
                m == self.model(),
                table_view(table) == assigned_sources(m.assignments.take(a as int), base),
            decreases self.assignments.len() - a,
        {
            let asg = &self.assignments[a];
            proof {
                assert(m.assignments.take(a + 1).drop_last() =~= m.assignments.take(a as int));
                assert(m.assignments.take(a + 1).last() == assignment_view(self.assignments@[a as int]));
            }
            let row = assigned_row(a, asg.width);
            table.insert(asg.left.name.clone(), row);
            proof {
                assert(table_view(table) =~= assigned_sources(m.assignments.take(a + 1), base));
            }
            a = a + 1;
        }
        proof {
            assert(m.assignments.take(a as int) =~= m.assignments);
        }
        let ghost t1 = table_view(table);
        let ghost cs = m.components;
        let mut ci: usize = 0;
        proof {
            assert(cs.take(0) =~= Seq::<ComponentView>::empty());
        }
        while ci < self.components.len()
            invariant
                ci <= self.components.len(),
                m == self.model(),
                cs == m.components,
                t1 == assigned_sources(m.assignments, input_sources(m.ports)),
                parts_fold(library@, m.signals, m.variables, cs, t1) is Some,
                parts_fold(library@, m.signals, m.variables, cs.take(ci as int), t1) == Some(Ok::<Sources, Failure>(table_view(table))),
            decreases self.components.len() - ci,
        {
            proof {
                lemma_parts_prefix(library@, m.signals, m.variables, cs, t1, ci + 1);
                assert(cs.take(ci + 1).drop_last() =~= cs.take(ci as int));
                assert(cs.take(ci + 1).last() == self.components@[ci as int]@);
            }
            match elaborate_part(self, library, ci, &self.components[ci], &mut table) {
                Ok(()) => {},
                Err(e) => return Err(e),
            }
            ci = ci + 1;
        }
        proof {
            assert(cs.take(ci as int) =~= cs);
        }
        let ghost t = table_view(table);
        if self.mentions_exec("false") {
            table.insert(String::from_str("false"), literal_row_exec(false));
        }
        if self.mentions_exec("true") {
            table.insert(String::from_str("true"), literal_row_exec(true));
        }
        let ghost t2 = table_view(table);
        proof {
            reveal_strlit("false");
            reveal_strlit("true");
            assert(t2 =~= with_literals(t, m));
            assert(elaboration(m, library@) == (match assigns_reads(t2, m.assignments, m.assignments.len() as int) {
                Some(e) => Some(Err::<Sources, Failure>(e)),
                None => match parts_reads(library@, t2, m.variables, m.components, m.components.len() as int) {
                    None => None,
                    Some(Some(e)) => Some(Err(e)),
                    Some(None) => Some(Ok(t2)),
                },
            }));
        }
        let ghost asgs = m.assignments;
        let mut a: usize = 0;
        while a < self.assignments.len()
            invariant
                a <= self.assignments.len(),
                m == self.model(),
                asgs == m.assignments,
                t2 == table_view(table),
                assigns_reads(t2, asgs, a as int) is None,
                elaboration(m, library@) == (match assigns_reads(t2, m.assignments, m.assignments.len() as int) {
                    Some(e) => Some(Err::<Sources, Failure>(e)),
                    None => match parts_reads(library@, t2, m.variables, m.components, m.components.len() as int) {
                        None => None,
                        Some(Some(e)) => Some(Err(e)),
                        Some(None) => Some(Ok(t2)),
                    },
                }),
            decreases self.assignments.len() - a,
        {
            let x = &self.assignments[a];
            assert(asgs[a as int] == crate::simulator::assignment_view(self.assignments@[a as int]));
            match assign_check(&table, x) {
                Ok(()) => {},
                Err(e) => {
                    proof {
                        assert(assigns_reads(t2, asgs, a + 1) is Some);
                        lemma_assigns_reads_prefix(t2, asgs, asgs.len() as int, a + 1);
                    }
                    return Err(e);
                },
            }
            a = a + 1;
        }
        let mut ci: usize = 0;
        while ci < self.components.len()
            invariant
                ci <= self.components.len(),
                m == self.model(),
                cs == m.components,
                t2 == table_view(table),
                assigns_reads(t2, m.assignments, m.assignments.len() as int) is None,
                elaboration(m, library@) == (match assigns_reads(t2, m.assignments, m.assignments.len() as int) {
                    Some(e) => Some(Err::<Sources, Failure>(e)),
                    None => match parts_reads(library@, t2, m.variables, m.components, m.components.len() as int) {
                        None => None,
                        Some(Some(e)) => Some(Err(e)),
                        Some(None) => Some(Ok(t2)),
                    },
                }),
                parts_reads(library@, t2, m.variables, cs, cs.len() as int) is Some,
                parts_reads(library@, t2, m.variables, cs, ci as int) == Some(None::<Failure>),
            decreases self.components.len() - ci,
        {
            proof {
                lemma_parts_reads_prefix(library@, t2, m.variables, cs, cs.len() as int, ci + 1);
            }
            match part_reads_check(self, library, &self.components[ci], &table) {
                Ok(()) => {},
                Err(e) => {
                    proof {
                        assert(parts_reads(library@, t2, m.variables, cs, ci + 1) matches Some(Some(_)));
                    }
                    return Err(e);
                },
            }
            ci = ci + 1;
        }
        Ok(table)
    }
}

/// Reads the sources of the signal bits that the input mappings of the part
/// `c` connect; see `part_reads`.
#[verifier::rlimit(60)]
fn part_reads_check(chip: &Chip, library: &Vec<ChipHDL>, c: &Component, table: &StrMap<Vec<Option<Source>>>) -> (r: Result<(), N2VError>)
    requires
        part_reads(library@, table_view(*table), chip.variables.map(), c@) is Some,
    ensures
        match part_reads(library@, table_view(*table), chip.variables.map(), c@).unwrap() {
            None => r is Ok,
            Some((msg, k)) => r matches Err(e) && e.msg@ == msg && e.kind == k,
        },
{
    let ghost t = table_view(*table);
    let ghost vars = chip.variables.map();
    let ph = get_hdl(c.name.value.as_str(), library).unwrap();
    let mut rg: Vec<usize> = Vec::new();
    let mut g: usize = 0;
    proof {
        assert(c.generic_params@.take(0) =~= Seq::<GenericWidth>::empty());
    }
    while g < c.generic_params.len()
        invariant
            g <= c.generic_params.len(),
            vars == chip.variables.map(),
            generics_bound(c.generic_params@, vars),
            rg@ == part_generics(c.generic_params@.take(g as int), vars),
        decreases c.generic_params.len() - g,
    {
        proof {
            assert(c.generic_params@.take(g + 1).drop_last() =~= c.generic_params@.take(g as int));
            assert(c.generic_params@.take(g + 1).last() == c.generic_params@[g as int]);
        }
        match &c.generic_params[g] {
            GenericWidth::Terminal(Terminal::Num(w)) => {
                rg.push(*w);
            },
            GenericWidth::Terminal(Terminal::Var(v)) => {
                assert(vars.contains_key(v.value@));
                let x = chip.variables.get(v.value.as_str()).unwrap();
                rg.push(*x);
            },
            _ => {},
        }
        g = g + 1;
    }
    proof {
        assert(c.generic_params@.take(g as int) =~= c.generic_params@);
    }
    let pc = match Chip::build(ph, library, &rg) {
        Ok(x) => x,
        Err(_) => {
            return Ok(());
        },
    };
    let ghost pvars = pc.variables.map();
    let ghost ms = c.mappings@;
    let mut q: usize = 0;
    while q < c.mappings.len()
        invariant
            q <= c.mappings.len(),
            ms == c.mappings@,
            vars == chip.variables.map(),
            pvars == pc.variables.map(),
            t == table_view(*table),
            mappings_reads(t, vars, *ph, pvars, ms, ms.len() as int) is Some,
            part_reads(library@, t, vars, c@) == mappings_reads(t, vars, *ph, pvars, ms, ms.len() as int),
            mappings_reads(t, vars, *ph, pvars, ms, q as int) == Some(None::<Failure>),
        decreases c.mappings.len() - q,
    {
        proof {
            lemma_mappings_reads_prefix(t, vars, *ph, pvars, ms, ms.len() as int, q + 1);
        }
        let mp = &c.mappings[q];
        assert(mp == ms[q as int]);
        let pi = ph.port_index(mp.port.name.as_str()).unwrap();
        if ph.ports[pi].direction == PortDirection::In {
            let pw = eval_expr_numeric(&ph.ports[pi].width, &pc.variables).unwrap();
            let ps = eval_start(&mp.port.start, &chip.variables).unwrap();
            let pe = eval_end(&mp.port.end, &chip.variables, pw).unwrap();
            let ws = match eval_start(&mp.wire.start, &chip.variables) {
                Ok(x) => x,
                Err(e) => {
                    proof {
                        assert(mappings_reads(t, vars, *ph, pvars, ms, q + 1) matches Some(Some(_)));
                    }
                    return Err(e);
                },
            };
            match eval_end(&mp.wire.end, &chip.variables, pw) {
                Ok(_) => {},
                Err(e) => {
                    proof {
                        assert(mappings_reads(t, vars, *ph, pvars, ms, q + 1) matches Some(Some(_)));
                    }
                    return Err(e);
                },
            }
            let count = if ps <= pe + 1 { pe + 1 - ps } else { 0 };
            match bits_check(table, &mp.wire.name, &mp.wire_ident, ws, count) {
                Ok(()) => {},
                Err(e) => {
                    proof {
                        assert(mappings_reads(t, vars, *ph, pvars, ms, q + 1) matches Some(Some(_)));
                    }
                    return Err(e);
                },
            }
        }
        q = q + 1;
    }
    proof {
        assert(ms.len() == c.mappings.len());
    }
    Ok(())
}

} // verus!
