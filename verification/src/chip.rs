//! Chips built from parsed HDL for simulation: the ports with their widths
//! resolved, the signals, the components with loops unrolled, and the
//! assignments; Nand and DFF are built in.
use crate::busmap::{BusMap, width_mismatch_text};
use crate::chars::{to_uppercase, upper_text, uppercase};
use crate::elaborate::{Source, elaboration, table_view};
use crate::error::{ErrorKind, N2VError};
use crate::expr::{GenericWidth, Terminal, eval_expr_numeric, num, numeric_state, spec_eval_expr, width_text};
use crate::fmt::{push_decimal, push_str};
use crate::parser::{clone_opt_string, AssignmentHDL, ChipHDL, Component, ComponentView, GenericPort, Identifier, PortDirection, components_view, parts_view};
use crate::simulator::{
    Assignment, Bus, Port, assignment_view, assignments_of, expand_parts, gather_assignments, generate_assignments, generate_components,
    generic_state, generics_count_msg, infer_fuel, infer_spec, infer_widths, numeric_outcome, resolved_assignments,
};
use crate::strmap::StrMap;
use crate::keys::{key_eq, key_lt, lemma_key_lt_irreflexive, lemma_key_lt_total, lemma_key_lt_transitive};
use vstd::prelude::*;

verus! {

/// A chip ready for simulation.
pub struct Chip {
    pub name: String,
    /// The ports in the order the chip declares them, widths resolved.
    pub ports: Vec<Port>,
    /// The bits of every port and internal signal.
    pub signals: BusMap,
    /// The components, with for-generate loops unrolled.
    pub components: Vec<Component>,
    pub assignments: Vec<Assignment>,
    /// The values of the generics.
    pub variables: StrMap<usize>,
    /// Where the chip has been elaborated: the source of every bit of every
    /// signal (see `Chip::elaborate`); empty otherwise.
    pub sources: StrMap<Vec<Option<Source>>>,
}

/// A resolved port as a value: name, width and direction.
pub open spec fn port_view(p: Port) -> (Seq<char>, usize, PortDirection) {
    (p.name.value@, p.width, p.direction)
}

/// A chip as a value.
pub struct ChipModel {
    pub name: Seq<char>,
    pub ports: Seq<(Seq<char>, usize, PortDirection)>,
    pub signals: Map<Seq<char>, Seq<Option<bool>>>,
    pub components: Seq<ComponentView>,
    pub assignments: Seq<(String, String, usize)>,
    pub variables: Map<Seq<char>, usize>,
}

impl Chip {
    /// The chip as a value.
    pub open spec fn model(&self) -> ChipModel {
        ChipModel {
            name: self.name@,
            ports: self.ports@.map_values(|p: Port| port_view(p)),
            signals: self.signals.view(),
            components: components_view(self.components@),
            assignments: self.assignments@.map_values(|a: Assignment| assignment_view(a)),
            variables: self.variables.map(),
        }
    }
}

/// `n` unknown bits.
pub open spec fn unknown_bits(n: nat) -> Seq<Option<bool>> {
    Seq::new(n, |i: int| None::<bool>)
}

/// The built-in Nand chip: inputs `a` and `b`, output `out`, one bit each,
/// all unknown.
pub open spec fn nand_model() -> ChipModel {
    ChipModel {
        name: "nand"@,
        ports: seq![("a"@, 1usize, PortDirection::In), ("b"@, 1usize, PortDirection::In), ("out"@, 1usize, PortDirection::Out)],
        signals: Map::empty().insert("a"@, unknown_bits(1)).insert("b"@, unknown_bits(1)).insert("out"@, unknown_bits(1)),
        components: Seq::empty(),
        assignments: Seq::empty(),
        variables: Map::empty(),
    }
}

/// The built-in DFF chip: input `in` and output `out`, one bit each, both
/// starting at 0.
pub open spec fn dff_model() -> ChipModel {
    ChipModel {
        name: "DFF"@,
        ports: seq![("in"@, 1usize, PortDirection::In), ("out"@, 1usize, PortDirection::Out)],
        signals: Map::empty().insert("in"@, seq![Some(false)]).insert("out"@, seq![Some(false)]),
        components: Seq::empty(),
        assignments: Seq::empty(),
        variables: Map::empty(),
    }
}

fn one_bit_port(name: &str, direction: PortDirection) -> (r: Port)
    ensures
        port_view(r) == (name@, 1usize, direction),
{
    Port { name: Identifier::from(name), width: 1, direction }
}

/// The built-in Nand chip.
pub fn make_nand_chip() -> (r: Chip)
    ensures
        r.model() == nand_model(),
        table_view(r.sources) == Map::<Seq<char>, Seq<Option<Source>>>::empty(),
{
    let mut signals = BusMap::new();
    let _ = signals.create_bus("a", 1);
    let _ = signals.create_bus("b", 1);
    let _ = signals.create_bus("out", 1);
    let mut ports: Vec<Port> = Vec::new();
    ports.push(one_bit_port("a", PortDirection::In));
    ports.push(one_bit_port("b", PortDirection::In));
    ports.push(one_bit_port("out", PortDirection::Out));
    let r = Chip {
        name: String::from_str("nand"),
        ports,
        signals,
        components: Vec::new(),
        assignments: Vec::new(),
        variables: StrMap::new(),
        sources: StrMap::new(),
    };
    proof {
        reveal_strlit("a");
        reveal_strlit("b");
        reveal_strlit("out");
        assert(r.model().ports =~= nand_model().ports);
        assert(r.model().signals =~= nand_model().signals);
        assert(r.model().components =~= nand_model().components);
        assert(r.model().assignments =~= nand_model().assignments);
        assert(table_view(r.sources) =~= Map::<Seq<char>, Seq<Option<Source>>>::empty());
    }
    r
}

/// The built-in DFF chip.
pub fn make_dff_chip() -> (r: Chip)
    ensures
        r.model() == dff_model(),
        table_view(r.sources) == Map::<Seq<char>, Seq<Option<Source>>>::empty(),
{
    let mut signals = BusMap::new();
    let _ = signals.create_bus("in", 1);
    let _ = signals.create_bus("out", 1);
    let mut zero: Vec<Option<bool>> = Vec::new();
    zero.push(Some(false));
    signals.insert_option(&Bus { name: String::from_str("in"), range: Some(0..1) }, zero);
    let mut zero2: Vec<Option<bool>> = Vec::new();
    zero2.push(Some(false));
    signals.insert_option(&Bus { name: String::from_str("out"), range: Some(0..1) }, zero2);
    let mut ports: Vec<Port> = Vec::new();
    ports.push(one_bit_port("in", PortDirection::In));
    ports.push(one_bit_port("out", PortDirection::Out));
    let r = Chip {
        name: String::from_str("DFF"),
        ports,
        signals,
        components: Vec::new(),
        assignments: Vec::new(),
        variables: StrMap::new(),
        sources: StrMap::new(),
    };
    proof {
        reveal_strlit("in");
        reveal_strlit("out");
        assert(r.model().ports =~= dff_model().ports);
        assert(unknown_bits(1).subrange(0, 0) + seq![Some(false)] + unknown_bits(1).subrange(1, 1) =~= seq![Some(false)]);
        assert(r.model().signals =~= dff_model().signals);
        assert(r.model().components =~= dff_model().components);
        assert(r.model().assignments =~= dff_model().assignments);
        assert(table_view(r.sources) =~= Map::<Seq<char>, Seq<Option<Source>>>::empty());
    }
    r
}

/// The message where a port cannot be created.
pub open spec fn port_error_msg(name: Seq<char>, e: Seq<char>) -> Seq<char> {
    "Cannot create port "@ + name + ": "@ + e
}

/// The port buses and the resolved ports, port by port: `None` where a width
/// cannot be evaluated, `Err` at the first width that is not a number or the
/// first port whose name is taken with another width.
pub open spec fn port_buses(ports: Seq<GenericPort>, state: Map<Seq<char>, usize>) -> Option<
    Result<(Map<Seq<char>, Seq<Option<bool>>>, Seq<(Seq<char>, usize, PortDirection)>), (Seq<char>, ErrorKind)>,
>
    decreases ports.len(),
{
    if ports.len() == 0 {
        Some(Ok((Map::empty(), Seq::empty())))
    } else {
        match port_buses(ports.drop_last(), state) {
            None => None,
            Some(Err(e)) => Some(Err(e)),
            Some(Ok((m, ps))) => {
                let p = ports.last();
                let name = p.name.value@;
                match numeric_outcome(p.width, state) {
                    None => None,
                    Some(Err(msg)) => Some(Err((msg, ErrorKind::NonNumeric))),
                    Some(Ok(w)) => if m.contains_key(name) && m[name].len() != w {
                        Some(Err((port_error_msg(name, width_mismatch_text(name, m[name].len(), w as nat)), ErrorKind::ParseIdentError(p.name))))
                    } else {
                        let m2 = if m.contains_key(name) { m } else { m.insert(name, unknown_bits(w as nat)) };
                        Some(Ok((m2, ps.push((name, w, p.direction)))))
                    },
                }
            },
        }
    }
}

/// The number a width holds, zero where it holds none.
pub open spec fn width_num(w: GenericWidth) -> nat {
    match w {
        GenericWidth::Terminal(Terminal::Num(x)) => x as nat,
        _ => 0,
    }
}

/// Whether the inferred width of `n` is a number that agrees with any bus
/// of that name already made.
pub open spec fn internal_ok(sigs: Map<Seq<char>, Seq<Option<bool>>>, widths: Map<Seq<char>, GenericWidth>, n: Seq<char>) -> bool {
    &&& widths[n] matches GenericWidth::Terminal(Terminal::Num(_))
    &&& sigs.contains_key(n) ==> sigs[n].len() == width_num(widths[n])
}

/// The message where the internal signal `n` cannot be created.
pub open spec fn internal_msg(sigs: Map<Seq<char>, Seq<Option<bool>>>, widths: Map<Seq<char>, GenericWidth>, n: Seq<char>) -> Seq<char> {
    let head = "Cannot create internal signal "@ + n + " of width "@ + width_text(widths[n]) + "."@;
    match widths[n] {
        GenericWidth::Terminal(Terminal::Num(x)) => head + " "@ + width_mismatch_text(n, sigs[n].len(), x as nat),
        _ => head,
    }
}

/// Whether `n` is an inferred signal whose bus cannot be made.
pub open spec fn failing(sigs: Map<Seq<char>, Seq<Option<bool>>>, widths: Map<Seq<char>, GenericWidth>, n: Seq<char>) -> bool {
    widths.contains_key(n) && !internal_ok(sigs, widths, n)
}

/// The first inferred signal, in the order of names, whose bus cannot be made.
pub open spec fn first_failing(sigs: Map<Seq<char>, Seq<Option<bool>>>, widths: Map<Seq<char>, GenericWidth>) -> Seq<char> {
    choose|n: Seq<char>| failing(sigs, widths, n) && forall|m: Seq<char>| failing(sigs, widths, m) ==> !key_lt(m, n)
}

/// The buses `sigs` with a bus of unknown bits added for each name of
/// `names` that has none, of its inferred width.
pub open spec fn with_internal(
    sigs: Map<Seq<char>, Seq<Option<bool>>>,
    widths: Map<Seq<char>, GenericWidth>,
    names: Set<Seq<char>>,
) -> Map<Seq<char>, Seq<Option<bool>>> {
    Map::new(
        |k: Seq<char>| sigs.contains_key(k) || names.contains(k),
        |k: Seq<char>| if sigs.contains_key(k) { sigs[k] } else { unknown_bits(width_num(widths[k])) },
    )
}

/// The generics as numeric widths.
pub open spec fn numeric_generics(generics: Seq<usize>) -> Seq<GenericWidth> {
    generics.map_values(|x: usize| num(x))
}

/// What building the chip `hdl` with the generics `generics` gives: Nand
/// and DFF (by their upper-case names) are built in; otherwise the number of
/// generics must be the number declared, the ports get buses of their
/// widths, loops are unrolled, widths are inferred, the assignments are
/// resolved, and every inferred signal gets a bus of its numeric width.
/// `None` where a step cannot be carried out.
pub open spec fn chip_outcome(hdl: ChipHDL, lib: Seq<ChipHDL>, generics: Seq<usize>) -> Option<Result<ChipModel, (Seq<char>, ErrorKind)>> {
    if upper_text(hdl.name@) == "NAND"@ {
        Some(Ok(nand_model()))
    } else if upper_text(hdl.name@) == "DFF"@ {
        Some(Ok(dff_model()))
    } else if generics.len() != hdl.generic_decls.len() {
        Some(Err((generics_count_msg(hdl.name@, hdl.generic_decls.len() as nat, generics.len() as nat), ErrorKind::SimulationError(hdl.path))))
    } else {
        let state = generic_state(hdl.generic_decls@, generics);
        match port_buses(hdl.ports@, state) {
            None => None,
            Some(Err(e)) => Some(Err(e)),
            Some(Ok((sigs, ports))) => match expand_parts(parts_view(hdl.parts@), state) {
                None => None,
                Some(Err(m)) => Some(Err((m, ErrorKind::NonNumeric))),
                Some(Ok(comps)) => {
                    let asgs = assignments_of(parts_view(hdl.parts@));
                    let gg = numeric_generics(generics);
                    match infer_spec(hdl, lib, comps, asgs, gg, infer_fuel(hdl, lib, comps, asgs, gg)) {
                        None => None,
                        Some(Err((m, k))) => Some(Err((m, k))),
                        Some(Ok(widths)) => match resolved_assignments(widths, asgs, state) {
                            None => None,
                            Some(Err(m)) => Some(Err((m, ErrorKind::NonNumeric))),
                            Some(Ok(av)) => if forall|n: Seq<char>| widths.contains_key(n) ==> internal_ok(sigs, widths, n) {
                                Some(Ok(ChipModel {
                                    name: hdl.name@,
                                    ports,
                                    signals: with_internal(sigs, widths, widths.dom()),
                                    components: comps,
                                    assignments: av,
                                    variables: state,
                                }))
                            } else {
                                let n = first_failing(sigs, widths);
                                Some(Err((internal_msg(sigs, widths, n), ErrorKind::SimulationError(hdl.path))))
                            },
                        },
                    }
                },
            },
        }
    }
}

/// A failing name below which no name fails is the first one.
proof fn lemma_first_failing(sigs: Map<Seq<char>, Seq<Option<bool>>>, widths: Map<Seq<char>, GenericWidth>, n: Seq<char>)
    requires
        failing(sigs, widths, n),
        forall|m: Seq<char>| failing(sigs, widths, m) ==> !key_lt(m, n),
    ensures
        first_failing(sigs, widths) == n,
{
    let f = first_failing(sigs, widths);
    assert(failing(sigs, widths, f) && forall|m: Seq<char>| failing(sigs, widths, m) ==> !key_lt(m, f));
    if f != n {
        lemma_key_lt_total(f, n);
    }
}

/// A prefix of the ports builds as far as the whole list does, and an error
/// in a prefix is the error of the whole list.
proof fn lemma_port_buses_prefix(ports: Seq<GenericPort>, state: Map<Seq<char>, usize>, i: int)
    requires
        0 <= i <= ports.len(),
        port_buses(ports, state) is Some,
    ensures
        port_buses(ports.take(i), state) is Some,
        port_buses(ports.take(i), state) matches Some(Err(e)) ==> port_buses(ports, state) == port_buses(ports.take(i), state),
    decreases ports.len(),
{
    if i == ports.len() {
        assert(ports.take(i) =~= ports);
    } else {
        assert(ports.drop_last().take(i) =~= ports.take(i));
        lemma_port_buses_prefix(ports.drop_last(), state, i);
    }
}

impl Chip {
    /// Builds the chip `hdl` with the generics `generics`, the components'
    /// chips coming from `library` (see `chip_outcome`), and where
    /// `elaborate` holds, elaborates it (see `Chip::elaborate`): the chip is
    /// then returned with the source of every bit of its signals, or the error
    /// of the elaboration.
    pub fn new(hdl: &ChipHDL, library: &Vec<ChipHDL>, elaborate: bool, generics: &Vec<usize>) -> (r: Result<Chip, N2VError>)
        requires
            chip_outcome(*hdl, library@, generics@) is Some,
            elaborate && chip_outcome(*hdl, library@, generics@).unwrap() is Ok ==> elaboration(
                chip_outcome(*hdl, library@, generics@).unwrap()->Ok_0,
                library@,
            ) is Some,
        ensures
            match chip_outcome(*hdl, library@, generics@).unwrap() {
                Ok(m) => if elaborate {
                    match elaboration(m, library@).unwrap() {
                        Ok(t) => r matches Ok(c) && c.model() == m && table_view(c.sources) == t,
                        Err((msg, k)) => r matches Err(e) && e.msg@ == msg && e.kind == k,
                    }
                } else {
                    r matches Ok(c) && c.model() == m && table_view(c.sources) == Map::<Seq<char>, Seq<Option<Source>>>::empty()
                },
                Err((msg, k)) => r matches Err(e) && e.msg@ == msg && e.kind == k,
            },
    {
        let mut chip = match Chip::build(hdl, library, generics) {
            Ok(c) => c,
            Err(e) => return Err(e),
        };
        if elaborate {
            match chip.elaborate(library) {
                Ok(t) => {
                    chip.sources = t;
                },
                Err(e) => return Err(e),
            }
        }
        Ok(chip)
    }

    /// Builds the chip `hdl` with the generics `generics` without elaborating
    /// it; see `chip_outcome`.
    #[verifier::rlimit(40)]
    pub(crate) fn build(hdl: &ChipHDL, library: &Vec<ChipHDL>, generics: &Vec<usize>) -> (r: Result<Chip, N2VError>)
        requires
            chip_outcome(*hdl, library@, generics@) is Some,
        ensures
            match chip_outcome(*hdl, library@, generics@).unwrap() {
                Ok(m) => r matches Ok(c) && c.model() == m && table_view(c.sources) == Map::<Seq<char>, Seq<Option<Source>>>::empty(),
                Err((msg, k)) => r matches Err(e) && e.msg@ == msg && e.kind == k,
            },
    {
        let up = to_uppercase(hdl.name.as_str());
        if key_eq(up.as_str(), "NAND") {
            proof { reveal_strlit("NAND"); }
            return Ok(make_nand_chip());
        }
        if key_eq(up.as_str(), "DFF") {
            proof { reveal_strlit("DFF"); reveal_strlit("NAND"); }
            return Ok(make_dff_chip());
        }
        proof { reveal_strlit("DFF"); reveal_strlit("NAND"); }
        if generics.len() != hdl.generic_decls.len() {
            let mut msg = String::new();
            push_str(&mut msg, "Chip ");
            push_str(&mut msg, hdl.name.as_str());
            push_str(&mut msg, " declares ");
            push_decimal(&mut msg, hdl.generic_decls.len());
            push_str(&mut msg, " generics but instantiated with ");
            push_decimal(&mut msg, generics.len());
            proof {
                reveal_strlit("Chip ");
                reveal_strlit(" declares ");
                reveal_strlit(" generics but instantiated with ");
                assert(msg@ =~= generics_count_msg(hdl.name@, hdl.generic_decls.len() as nat, generics.len() as nat));
            }
            return Err(N2VError { msg, kind: ErrorKind::SimulationError(clone_opt_string(&hdl.path)) });
        }
        let ghost state = generic_state(hdl.generic_decls@, generics@);
        let mut variables: StrMap<usize> = StrMap::new();
        let mut g: usize = 0;
        proof {
            assert(hdl.generic_decls@.take(0) =~= Seq::<Identifier>::empty());
        }
        while g < hdl.generic_decls.len()
            invariant
                g <= hdl.generic_decls.len(),
                hdl.generic_decls.len() == generics.len(),
                variables.map() == generic_state(hdl.generic_decls@.take(g as int), generics@),
            decreases hdl.generic_decls.len() - g,
        {
            variables.insert(hdl.generic_decls[g].value.clone(), generics[g]);
            proof {
                assert(hdl.generic_decls@.take(g + 1).drop_last() =~= hdl.generic_decls@.take(g as int));
            }
            g = g + 1;
        }
        proof {
            assert(hdl.generic_decls@.take(g as int) =~= hdl.generic_decls@);
        }
        let mut signals = BusMap::new();
        let mut ports: Vec<Port> = Vec::new();
        let mut i: usize = 0;
        proof {
            assert(hdl.ports@.take(0) =~= Seq::<GenericPort>::empty());
            assert(ports@.map_values(|p: Port| port_view(p)) =~= Seq::<(Seq<char>, usize, PortDirection)>::empty());
        }
        while i < hdl.ports.len()
            invariant
                i <= hdl.ports.len(),
                upper_text(hdl.name@) != "NAND"@,
                upper_text(hdl.name@) != "DFF"@,
                generics.len() == hdl.generic_decls.len(),
                variables.map() == state,
                state == generic_state(hdl.generic_decls@, generics@),
                port_buses(hdl.ports@, state) is Some,
                port_buses(hdl.ports@.take(i as int), state) == Some(
                    Ok::<(Map<Seq<char>, Seq<Option<bool>>>, Seq<(Seq<char>, usize, PortDirection)>), (Seq<char>, ErrorKind)>(
                        (signals.view(), ports@.map_values(|p: Port| port_view(p))),
                    ),
                ),
            decreases hdl.ports.len() - i,
        {
            proof {
                lemma_port_buses_prefix(hdl.ports@, state, i + 1);
                assert(hdl.ports@.take(i + 1).drop_last() =~= hdl.ports@.take(i as int));
            }
            let p = &hdl.ports[i];
            proof {
                assert(hdl.ports@.take(i + 1).last() == hdl.ports@[i as int]);
            }
            let w = match eval_expr_numeric(&p.width, &variables) {
                Ok(x) => x,
                Err(e) => {
                    proof {
                        assert(port_buses(hdl.ports@.take(i + 1), state) == Some(
                            Err::<(Map<Seq<char>, Seq<Option<bool>>>, Seq<(Seq<char>, usize, PortDirection)>), (Seq<char>, ErrorKind)>(
                                (e.msg@, ErrorKind::NonNumeric),
                            ),
                        ));
                    }
                    return Err(e);
                },
            };
            match signals.create_bus(p.name.value.as_str(), w) {
                Ok(()) => {},
                Err(e) => {
                    let mut msg = String::new();
                    push_str(&mut msg, "Cannot create port ");
                    push_str(&mut msg, p.name.value.as_str());
                    push_str(&mut msg, ": ");
                    push_str(&mut msg, e.as_str());
                    proof {
                        reveal_strlit("Cannot create port ");
                        reveal_strlit(": ");
                        assert(msg@ =~= port_error_msg(p.name.value@, e@));
                        assert(port_buses(hdl.ports@.take(i + 1), state) == Some(
                            Err::<(Map<Seq<char>, Seq<Option<bool>>>, Seq<(Seq<char>, usize, PortDirection)>), (Seq<char>, ErrorKind)>(
                                (msg@, ErrorKind::ParseIdentError(p.name)),
                            ),
                        ));
                    }
                    return Err(N2VError { msg, kind: ErrorKind::ParseIdentError(p.name.clone()) });
                },
            }
            let ghost before = ports@.map_values(|p: Port| port_view(p));
            ports.push(Port { name: p.name.clone(), width: w, direction: p.direction });
            proof {
                assert(ports@.map_values(|p: Port| port_view(p)) =~= before.push((p.name.value@, w, p.direction)));
            }
            i = i + 1;
        }
        proof {
            assert(hdl.ports@.take(i as int) =~= hdl.ports@);
        }
        let components = match generate_components(hdl, generics) {
            Ok(c) => c,
            Err(e) => return Err(e),
        };
        let assignments = gather_assignments(&hdl.parts);
        let mut gg: Vec<GenericWidth> = Vec::new();
        let mut j: usize = 0;
        while j < generics.len()
            invariant
                j <= generics.len(),
                gg@ == numeric_generics(generics@.take(j as int)),
            decreases generics.len() - j,
        {
            gg.push(GenericWidth::Terminal(Terminal::Num(generics[j])));
            proof {
                assert(numeric_generics(generics@.take(j + 1)) =~= numeric_generics(generics@.take(j as int)).push(num(generics@[j as int])));
            }
            j = j + 1;
        }
        proof {
            assert(generics@.take(j as int) =~= generics@);
            let comps = components_view(components@);
            let fuel = infer_fuel(*hdl, library@, comps, assignments@, gg@);
            assert(infer_spec(*hdl, library@, comps, assignments@, gg@, fuel) is Some);
        }
        let inferred = match infer_widths(hdl, &assignments, &components, library, &gg) {
            Ok(w) => w,
            Err(e) => return Err(e),
        };
        let generated = match generate_assignments(&inferred, assignments, &variables) {
            Ok(a) => a,
            Err(e) => return Err(e),
        };
        let ghost sigs = signals.view();
        let ghost widths = inferred.map();
        let ghost ks = inferred.keys();
        proof {
            use_type_invariant(&inferred);
            inferred.lemma_layout();
            assert(ks.take(0).to_set() =~= Set::<Seq<char>>::empty());
            assert(with_internal(sigs, widths, Set::empty()) =~= sigs);
        }
        let ghost final_model = ChipModel {
            name: hdl.name@,
            ports: ports@.map_values(|p: Port| port_view(p)),
            signals: with_internal(sigs, widths, widths.dom()),
            components: components_view(components@),
            assignments: generated@.map_values(|a: Assignment| assignment_view(a)),
            variables: state,
        };
        let ghost outcome = if forall|n: Seq<char>| widths.contains_key(n) ==> internal_ok(sigs, widths, n) {
            Some(Ok::<ChipModel, (Seq<char>, ErrorKind)>(final_model))
        } else {
            Some(Err::<ChipModel, (Seq<char>, ErrorKind)>((internal_msg(sigs, widths, first_failing(sigs, widths)), ErrorKind::SimulationError(hdl.path))))
        };
        assert(chip_outcome(*hdl, library@, generics@) == outcome);
        let n_keys = inferred.len();
        let mut k: usize = 0;
        while k < n_keys
            invariant
                n_keys == ks.len(),
                k <= n_keys,
                ks == inferred.keys(),
                widths == inferred.map(),
                ks.no_duplicates(),
                forall|a: int, b: int| 0 <= a < b < ks.len() ==> key_lt(#[trigger] ks[a], #[trigger] ks[b]),
                forall|x: Seq<char>| #[trigger] widths.contains_key(x) <==> ks.contains(x),
                forall|a: int| 0 <= a < ks.len() ==> #[trigger] widths[ks[a]] == inferred.value_at_spec(a),
                forall|a: int| 0 <= a < k ==> internal_ok(sigs, widths, #[trigger] ks[a]),
                signals.view() == with_internal(sigs, widths, ks.take(k as int).to_set()),
                chip_outcome(*hdl, library@, generics@) == outcome,
                outcome == (if forall|n: Seq<char>| widths.contains_key(n) ==> internal_ok(sigs, widths, n) {
                    Some(Ok::<ChipModel, (Seq<char>, ErrorKind)>(final_model))
                } else {
                    Some(Err::<ChipModel, (Seq<char>, ErrorKind)>((internal_msg(sigs, widths, first_failing(sigs, widths)), ErrorKind::SimulationError(hdl.path))))
                }),
            decreases n_keys - k,
        {
            let name = inferred.key_at(k);
            let w = inferred.value_at(k);
            let ghost prev = ks.take(k as int).to_set();
            proof {
                assert(!prev.contains(ks[k as int])) by {
                    if prev.contains(ks[k as int]) {
                        assert(ks.take(k as int).contains(ks[k as int]));
                        let a = ks.take(k as int).index_of(ks[k as int]);
                        assert(ks.take(k as int)[a] == ks[k as int]);
                        assert(ks[a] == ks[k as int]);
                        assert(false);
                    }
                }
                assert forall|x: Seq<char>| ks.take(k + 1).to_set().contains(x) <==> prev.insert(ks[k as int]).contains(x) by {
                    if ks.take(k + 1).contains(x) {
                        let a = ks.take(k + 1).index_of(x);
                        if a < k {
                            assert(ks.take(k as int)[a] == x);
                            assert(ks.take(k as int).contains(x));
                        }
                    }
                    if prev.contains(x) {
                        let a = ks.take(k as int).index_of(x);
                        assert(ks.take(k + 1)[a] == x);
                    }
                    if x == ks[k as int] {
                        assert(ks.take(k + 1)[k as int] == x);
                    }
                }
                assert(ks.take(k + 1).to_set() =~= prev.insert(ks[k as int]));
            }
            match w {
                GenericWidth::Terminal(Terminal::Num(x)) => {
                    match signals.create_bus(name.as_str(), *x) {
                        Ok(()) => {
                            proof {
                                assert(signals.view() =~= with_internal(sigs, widths, ks.take(k + 1).to_set()));
                            }
                        },
                        Err(e) => {
                            let mut msg = String::new();
                            push_str(&mut msg, "Cannot create internal signal ");
                            push_str(&mut msg, name.as_str());
                            push_str(&mut msg, " of width ");
                            w.write_to(&mut msg);
                            push_str(&mut msg, ". ");
                            push_str(&mut msg, e.as_str());
                            proof {
                                let n = ks[k as int];
                                reveal_strlit("Cannot create internal signal ");
                                reveal_strlit(" of width ");
                                reveal_strlit(". ");
                                reveal_strlit(".");
                                reveal_strlit(" ");
                                assert(msg@ =~= internal_msg(sigs, widths, n));
                                self::lemma_first_is_least(sigs, widths, ks, k as int);
                                assert(failing(sigs, widths, n));
                            }
                            return Err(N2VError { msg, kind: ErrorKind::SimulationError(clone_opt_string(&hdl.path)) });
                        },
                    }
                },
                _ => {
                    let mut msg = String::new();
                    push_str(&mut msg, "Cannot create internal signal ");
                    push_str(&mut msg, name.as_str());
                    push_str(&mut msg, " of width ");
                    w.write_to(&mut msg);
                    push_str(&mut msg, ".");
                    proof {
                        let n = ks[k as int];
                        reveal_strlit("Cannot create internal signal ");
                        reveal_strlit(" of width ");
                        reveal_strlit(".");
                        assert(msg@ =~= internal_msg(sigs, widths, n));
                        self::lemma_first_is_least(sigs, widths, ks, k as int);
                        assert(failing(sigs, widths, n));
                    }
                    return Err(N2VError { msg, kind: ErrorKind::SimulationError(clone_opt_string(&hdl.path)) });
                },
            }
            k = k + 1;
        }
        proof {
            assert(ks.take(k as int) =~= ks);
            assert(ks.to_set() =~= widths.dom());
            assert forall|n: Seq<char>| widths.contains_key(n) implies internal_ok(sigs, widths, n) by {
                let a = ks.index_of(n);
                assert(ks[a] == n);
            }
        }
        let sources: StrMap<Vec<Option<Source>>> = StrMap::new();
        proof {
            assert(table_view(sources) =~= Map::<Seq<char>, Seq<Option<Source>>>::empty());
        }
        Ok(Chip { name: hdl.name.clone(), ports, signals, components, assignments: generated, variables, sources })
    }
}

/// Where the names before position `k` all build and the name at `k` does
/// not, the name at `k` is the first that fails.
proof fn lemma_first_is_least(
    sigs: Map<Seq<char>, Seq<Option<bool>>>,
    widths: Map<Seq<char>, GenericWidth>,
    ks: Seq<Seq<char>>,
    k: int,
)
    requires
        0 <= k < ks.len(),
        forall|a: int, b: int| 0 <= a < b < ks.len() ==> key_lt(#[trigger] ks[a], #[trigger] ks[b]),
        forall|x: Seq<char>| #[trigger] widths.contains_key(x) <==> ks.contains(x),
        forall|a: int| 0 <= a < k ==> internal_ok(sigs, widths, #[trigger] ks[a]),
        failing(sigs, widths, ks[k]),
    ensures
        first_failing(sigs, widths) == ks[k],
{
    assert forall|m: Seq<char>| failing(sigs, widths, m) implies !key_lt(m, ks[k]) by {
        assert(ks.contains(m));
        let b = ks.index_of(m);
        assert(ks[b] == m);
        if b < k {
            assert(internal_ok(sigs, widths, ks[b]));
        } else if b == k {
            lemma_key_lt_irreflexive(m);
        } else {
            assert(key_lt(ks[k], ks[b]));
            if key_lt(m, ks[k]) {
                lemma_key_lt_transitive(m, ks[k], m);
                lemma_key_lt_irreflexive(m);
            }
        }
    }
    lemma_first_failing(sigs, widths, ks[k]);
}

/// The Nand of two bits; unknown where either is unknown.
pub open spec fn nand_bit(a: Option<bool>, b: Option<bool>) -> Option<bool> {
    match (a, b) {
        (Some(x), Some(y)) => Some(!(x && y)),
        _ => None,
    }
}

/// The chip `m` with the signals `signals`.
pub open spec fn with_signals(m: ChipModel, signals: Map<Seq<char>, Seq<Option<bool>>>) -> ChipModel {
    ChipModel { signals, ..m }
}

/// Whether `signals` holds a one-bit bus named `name`.
pub open spec fn one_bit(signals: Map<Seq<char>, Seq<Option<bool>>>, name: Seq<char>) -> bool {
    signals.contains_key(name) && signals[name].len() == 1
}

/// Writes `v` to the one-bit bus `name`.
pub(crate) fn set_bit(signals: &mut BusMap, name: &str, v: Option<bool>)
    requires
        one_bit(old(signals).view(), name@),
    ensures
        final(signals).view() == old(signals).view().insert(name@, seq![v]),
{
    let mut bits: Vec<Option<bool>> = Vec::new();
    bits.push(v);
    signals.insert_option(&Bus { name: String::from_str(name), range: Some(0..1) }, bits);
    proof {
        let cur = old(signals).view()[name@];
        assert(cur.subrange(0, 0) + seq![v] + cur.subrange(1, 1) =~= seq![v]);
    }
}

/// Whether `signals` holds one-bit buses for all of `names`.
pub open spec fn one_bits(signals: Map<Seq<char>, Seq<Option<bool>>>, names: Seq<Seq<char>>) -> bool {
    forall|i: int| 0 <= i < names.len() ==> one_bit(signals, #[trigger] names[i])
}

/// Whether the one-bit bus `name` exists.
fn has_one_bit(signals: &BusMap, name: &str) -> (r: bool)
    ensures
        r == one_bit(signals.view(), name@),
{
    match signals.get_width(name) {
        Some(w) => w == 1,
        None => false,
    }
}

impl Chip {
    /// One evaluation of a built-in gate: the Nand chip (by its upper-case
    /// name), with one-bit buses `a`, `b` and `out`, sets `out` to the Nand
    /// of `a` and `b`; every other chip, the DFF among them, is left as it is
    /// (a DFF's output changes only when the clock ticks).
    pub fn compute_gate(&mut self)
        ensures
            upper_text(old(self).name@) == "NAND"@ && one_bits(old(self).signals.view(), seq!["a"@, "b"@, "out"@])
                ==> final(self).model() == with_signals(
                old(self).model(),
                old(self).signals.view().insert(
                    "out"@,
                    seq![nand_bit(old(self).signals.view()["a"@][0], old(self).signals.view()["b"@][0])],
                ),
            ),
            !(upper_text(old(self).name@) == "NAND"@ && one_bits(old(self).signals.view(), seq!["a"@, "b"@, "out"@]))
                ==> final(self).model() == old(self).model(),
    {
        proof {
            reveal_strlit("NAND");
            reveal_strlit("a");
            reveal_strlit("b");
            reveal_strlit("out");
        }
        let ghost names = seq!["a"@, "b"@, "out"@];
        let up = to_uppercase(self.name.as_str());
        if key_eq(up.as_str(), "NAND") && has_one_bit(&self.signals, "a") && has_one_bit(&self.signals, "b")
            && has_one_bit(&self.signals, "out") {
            assert(one_bits(self.signals.view(), names));
            let a = self.signals.get_name("a");
            let b = self.signals.get_name("b");
            let v = crate::simulator::nand(a[0], b[0]);
            set_bit(&mut self.signals, "out", v);
        } else {
            assert(!(upper_text(self.name@) == "NAND"@ && one_bits(self.signals.view(), names))) by {
                if upper_text(self.name@) == "NAND"@ && one_bits(self.signals.view(), names) {
                    assert(one_bit(self.signals.view(), names[0]));
                    assert(one_bit(self.signals.view(), names[1]));
                    assert(one_bit(self.signals.view(), names[2]));
                }
            }
        }
    }

    /// A clock tick of a DFF (by its upper-case name) with one-bit buses `in`
    /// and `out`: its output takes the value of its input. Every other chip is
    /// left as it is.
    pub fn tick_dff(&mut self)
        ensures
            upper_text(old(self).name@) == "DFF"@ && one_bits(old(self).signals.view(), seq!["in"@, "out"@]) ==> final(self).model()
                == with_signals(old(self).model(), old(self).signals.view().insert("out"@, seq![old(self).signals.view()["in"@][0]])),
            !(upper_text(old(self).name@) == "DFF"@ && one_bits(old(self).signals.view(), seq!["in"@, "out"@])) ==> final(self).model()
                == old(self).model(),
    {
        proof {
            reveal_strlit("DFF");
            reveal_strlit("in");
            reveal_strlit("out");
        }
        let ghost names = seq!["in"@, "out"@];
        let up = to_uppercase(self.name.as_str());
        if key_eq(up.as_str(), "DFF") && has_one_bit(&self.signals, "in") && has_one_bit(&self.signals, "out") {
            assert(one_bits(self.signals.view(), names));
            let x = self.signals.get_name("in");
            set_bit(&mut self.signals, "out", x[0]);
        } else {
            assert(!(upper_text(self.name@) == "DFF"@ && one_bits(self.signals.view(), names))) by {
                if upper_text(self.name@) == "DFF"@ && one_bits(self.signals.view(), names) {
                    assert(one_bit(self.signals.view(), names[0]));
                    assert(one_bit(self.signals.view(), names[1]));
                }
            }
        }
    }
}

} // verus!
