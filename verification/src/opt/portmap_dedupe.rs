//! Port map deduplication: in HDL an output port of a component may drive
//! several signals, which VHDL does not allow. This pass gives each such port
//! one intermediate signal and assigns that signal to each of the signals it
//! drove. The VHDL synthesizer depends on this pass.
use crate::error::{ErrorKind, N2VError};
use crate::expr::GenericWidth;
use crate::fmt::{decimal, push_decimal, push_str};
use crate::keys::key_eq;
use crate::opt::optimization::{OptimizationInfo, OptimizationPass};
use crate::parser::{
    AssignmentHDL, BusHDL, ChipHDL, Component, ComponentView, GenericPort, Identifier, Loop, Part, PartView, PortDirection,
    PortMappingHDL, chip_named, clone_components, clone_opt_string, clone_widths, components_view, get_hdl, missing_chip,
    missing_chip_msg, parts_view, port_index_from, lemma_port_index_from,
};
use vstd::prelude::*;

verus! {

/// A bus as its name and bounds.
pub type BusView = (Seq<char>, Option<GenericWidth>, Option<GenericWidth>);

/// A bus as its name and bounds.
pub open spec fn bus_view(b: BusHDL) -> BusView {
    (b.name@, b.start, b.end)
}

/// A port mapping as values: the wire identifier's name, path and line, the
/// wire and the port.
pub struct MappingView {
    pub ident: Seq<char>,
    pub path: Option<String>,
    pub line: Option<u32>,
    pub wire: BusView,
    pub port: BusView,
}

/// A port mapping as values.
pub open spec fn mapping_view(m: PortMappingHDL) -> MappingView {
    MappingView {
        ident: m.wire_ident.value@,
        path: m.wire_ident.path,
        line: m.wire_ident.line,
        wire: bus_view(m.wire),
        port: bus_view(m.port),
    }
}

/// Port mappings as values.
pub open spec fn mappings_view(ms: Seq<PortMappingHDL>) -> Seq<MappingView> {
    ms.map_values(|m: PortMappingHDL| mapping_view(m))
}

/// An assignment as values: the left bus and the right bus.
pub open spec fn assignment_view(a: AssignmentHDL) -> (BusView, BusView) {
    (bus_view(a.left), bus_view(a.right))
}

/// Assignments as values.
pub open spec fn assignments_view(v: Seq<AssignmentHDL>) -> Seq<(BusView, BusView)> {
    v.map_values(|a: AssignmentHDL| assignment_view(a))
}

/// The number of mappings from index `k` on that map the port `name`.
pub open spec fn count_from(ms: Seq<PortMappingHDL>, name: Seq<char>, k: int) -> nat
    decreases ms.len() - k,
{
    if k < 0 || k >= ms.len() {
        0
    } else {
        (if ms[k].port.name@ == name { 1nat } else { 0nat }) + count_from(ms, name, k + 1)
    }
}

/// The intermediate signal of a port of the `counter`-th component.
pub open spec fn signal_name(port: Seq<char>, counter: u32) -> Seq<char> {
    port + "_"@ + decimal(counter as nat)
}

/// What the mapping at index `k` becomes: the mappings it gives and the
/// assignments it gives. An input port, or an output port mapped once, keeps
/// its mapping. An output port mapped more than once drives its intermediate
/// signal, which is assigned to each wire it was mapped to; the port's last
/// mapping is replaced by the mapping to that signal, the others dropped.
pub open spec fn mapping_result(ms: Seq<PortMappingHDL>, k: int, dir: PortDirection, counter: u32) -> (Seq<MappingView>, Seq<(BusView, BusView)>) {
    let m = ms[k];
    let pn = m.port.name@;
    if dir == PortDirection::In || count_from(ms, pn, 0) <= 1 {
        (seq![mapping_view(m)], Seq::empty())
    } else {
        let sig = signal_name(pn, counter);
        let a = (bus_view(m.wire), (sig, None, None));
        if count_from(ms, pn, k + 1) > 0 {
            (Seq::empty(), seq![a])
        } else {
            (
                seq![MappingView { ident: sig, path: m.wire_ident.path, line: m.wire_ident.line, wire: (sig, None, None), port: bus_view(m.port) }],
                seq![a],
            )
        }
    }
}

/// What the mappings from index `k` on become, or the first port (in order)
/// that the component's chip does not have.
pub open spec fn dedupe_from(ms: Seq<PortMappingHDL>, ports: Seq<GenericPort>, counter: u32, k: int) -> Result<(Seq<MappingView>, Seq<(BusView, BusView)>), Seq<char>>
    decreases ms.len() - k,
{
    if k < 0 || k >= ms.len() {
        Ok((Seq::empty(), Seq::empty()))
    } else {
        match port_index_from(ports, ms[k].port.name@, 0) {
            None => Err(ms[k].port.name@),
            Some(pi) => match dedupe_from(ms, ports, counter, k + 1) {
                Err(e) => Err(e),
                Ok((rm, ra)) => {
                    let (m1, a1) = mapping_result(ms, k, ports[pi].direction, counter);
                    Ok((m1 + rm, a1 + ra))
                },
            },
        }
    }
}

/// The message when a component maps a port that its chip does not have.
pub open spec fn missing_port_msg(name: Seq<char>) -> Seq<char> {
    "Non-existent port "@ + name
}

/// A component as values, its mappings given.
pub struct ComponentResult {
    pub name: Identifier,
    pub mappings: Seq<MappingView>,
    pub generic_params: Seq<GenericWidth>,
}

/// The outcome of processing the component `c` as the `counter`-th component:
/// the new component and the assignments it gives; or the error.
pub open spec fn component_dedupe(lib: Seq<ChipHDL>, c: ComponentView, counter: u32) -> Result<(ComponentResult, Seq<(BusView, BusView)>), (Seq<char>, ErrorKind)> {
    match chip_named(lib, c.name.value@) {
        None => Err((missing_chip_msg(c.name.value@), ErrorKind::IOError)),
        Some(chip) => match dedupe_from(c.mappings, chip.ports@, counter, 0) {
            Err(pn) => Err((missing_port_msg(pn), ErrorKind::Other)),
            Ok((ms, asgs)) => Ok((ComponentResult { name: c.name, mappings: ms, generic_params: c.generic_params }, asgs)),
        },
    }
}

/// A component as values.
pub open spec fn component_result(c: Component) -> ComponentResult {
    ComponentResult { name: c.name, mappings: mappings_view(c.mappings@), generic_params: c.generic_params@ }
}

/// Gives each output port that is mapped more than once its own signal.
pub struct PortMapDedupe {
    component_counter: u32,
}

impl PortMapDedupe {
    /// The number of components processed so far.
    pub closed spec fn counter(&self) -> u32 {
        self.component_counter
    }

    /// A pass that has processed no component yet.
    pub fn new() -> (r: PortMapDedupe)
        ensures
            r.counter() == 0,
    {
        PortMapDedupe { component_counter: 0 }
    }

    /// The number of mappings from index `from` on that map port `name`.
    fn count_port(ms: &Vec<PortMappingHDL>, name: &str, from: usize) -> (r: usize)
        requires
            from <= ms.len(),
        ensures
            r == count_from(ms@, name@, from as int),
    {
        let mut cnt: usize = 0;
        let mut i: usize = from;
        while i < ms.len()
            invariant
                from <= i <= ms.len(),
                cnt <= i - from,
                cnt + count_from(ms@, name@, i as int) == count_from(ms@, name@, from as int),
            decreases ms.len() - i,
        {
            if key_eq(ms[i].port.name.as_str(), name) {
                cnt = cnt + 1;
            }
            i = i + 1;
        }
        cnt
    }

    /// Processes one component: each output port that it maps more than once
    /// gets a signal named after the port and this component's number, which
    /// is assigned to each wire the port drove (added to `new_assignments`).
    /// Returns the new component and all the assignments so far.
    #[verifier::spinoff_prover]
    fn process_component(&mut self, comp: &Component, new_assignments: &mut Vec<AssignmentHDL>, library: &Vec<ChipHDL>) -> (r: Result<(Component, Vec<AssignmentHDL>), N2VError>)
        requires
            old(self).counter() < u32::MAX,
        ensures
            final(self).counter() == old(self).counter() + 1,
            match component_dedupe(library@, comp@, final(self).counter()) {
                Ok((c, asgs)) => r matches Ok((nc, all)) && component_result(nc) == c
                    && assignments_view(final(new_assignments)@) == assignments_view(old(new_assignments)@) + asgs
                    && assignments_view(all@) == assignments_view(final(new_assignments)@),
                Err((msg, k)) => r matches Err(e) && e.msg@ == msg && e.kind == k,
            },
    {
        self.component_counter = self.component_counter + 1;
        let counter = self.component_counter;
        let comp_chip = match get_hdl(comp.name.value.as_str(), library) {
            Some(c) => c,
            None => return Err(missing_chip(comp.name.value.as_str())),
        };
        let ghost ms = comp.mappings@;
        let ghost ports = comp_chip.ports@;
        let ghost target = dedupe_from(ms, ports, counter, 0);
        let ghost old_asgs = assignments_view(new_assignments@);
        let mut mappings: Vec<PortMappingHDL> = Vec::new();
        let mut k: usize = 0;
        assert(mappings_view(mappings@) =~= Seq::<MappingView>::empty());
        assert(assignments_view(new_assignments@) =~= old_asgs + Seq::<(BusView, BusView)>::empty());
        while k < comp.mappings.len()
            invariant
                k <= comp.mappings.len(),
                ms == comp.mappings@,
                ports == comp_chip.ports@,
                counter == self.component_counter,
                self.counter() == old(self).counter() + 1,
                target == dedupe_from(ms, ports, counter, 0),
                chip_named(library@, comp.name.value@) == Some(*comp_chip),
                old_asgs == assignments_view(old(new_assignments)@),
                target == (match dedupe_from(ms, ports, counter, k as int) {
                    Ok((rm, ra)) => Ok((mappings_view(mappings@) + rm, assignments_view(new_assignments@).skip(old_asgs.len() as int) + ra)),
                    Err(e) => Err(e),
                }),
                assignments_view(new_assignments@).len() >= old_asgs.len(),
                assignments_view(new_assignments@).take(old_asgs.len() as int) == old_asgs,
            decreases comp.mappings.len() - k,
        {
            let mapping = &comp.mappings[k];
            proof {
                lemma_port_index_from(ports, mapping.port.name@, 0);
            }
            let port_idx = match comp_chip.port_index(mapping.port.name.as_str()) {
                Some(i) => i,
                None => {
                    let mut msg = String::new();
                    push_str(&mut msg, "Non-existent port ");
                    push_str(&mut msg, mapping.port.name.as_str());
                    return Err(N2VError { msg, kind: ErrorKind::Other });
                },
            };
            let dir = comp_chip.ports[port_idx].direction;
            let ghost before_m = mappings_view(mappings@);
            let ghost before_a = assignments_view(new_assignments@);
            let ghost (m1, a1) = mapping_result(ms, k as int, dir, counter);
            let total = Self::count_port(&comp.mappings, mapping.port.name.as_str(), 0);
            if dir == PortDirection::In || total <= 1 {
                mappings.push(mapping.clone());
            } else {
                let mut new_signal_name = mapping.port.name.clone();
                push_str(&mut new_signal_name, "_");
                push_decimal(&mut new_signal_name, counter as usize);
                let later = Self::count_port(&comp.mappings, mapping.port.name.as_str(), k + 1);
                new_assignments.push(AssignmentHDL {
                    left: mapping.wire.clone(),
                    right: BusHDL { name: new_signal_name.clone(), start: None, end: None },
                });
                if later == 0 {
                    mappings.push(PortMappingHDL {
                        wire_ident: Identifier {
                            value: new_signal_name.clone(),
                            path: clone_opt_string(&mapping.wire_ident.path),
                            line: mapping.wire_ident.line,
                        },
                        wire: BusHDL { name: new_signal_name, start: None, end: None },
                        port: mapping.port.clone(),
                    });
                }
            }
            proof {
                assert(mappings_view(mappings@) =~= before_m + m1);
                assert(assignments_view(new_assignments@) =~= before_a + a1);
                assert(assignments_view(new_assignments@).skip(old_asgs.len() as int) =~= before_a.skip(old_asgs.len() as int) + a1);
                assert(assignments_view(new_assignments@).take(old_asgs.len() as int) =~= before_a.take(old_asgs.len() as int));
                match dedupe_from(ms, ports, counter, k + 1) {
                    Ok((rm, ra)) => {
                        assert(before_m + (m1 + rm) =~= (before_m + m1) + rm);
                        assert(before_a.skip(old_asgs.len() as int) + (a1 + ra) =~= (before_a.skip(old_asgs.len() as int) + a1) + ra);
                    },
                    Err(e) => {},
                }
            }
            k = k + 1;
        }
        let all = new_assignments.clone();
        proof {
            assert(assignments_view(new_assignments@) =~= old_asgs + assignments_view(new_assignments@).skip(old_asgs.len() as int));
            assert(mappings_view(mappings@) + Seq::<MappingView>::empty() =~= mappings_view(mappings@));
            assert(assignments_view(new_assignments@).skip(old_asgs.len() as int) + Seq::<(BusView, BusView)>::empty() =~= assignments_view(new_assignments@).skip(old_asgs.len() as int));
            assert(assignments_view(all@) =~= assignments_view(new_assignments@));
        }
        let new_comp = Component {
            name: comp.name.clone(),
            mappings,
            generic_params: clone_widths(&comp.generic_params),
        };
        Ok((new_comp, all))
    }
}

/// A part of the new chip as values.
pub enum PartResult {
    Component(ComponentResult),
    Loop(GenericWidth, GenericWidth, Identifier, Seq<ComponentResult>),
    AssignmentHDL((BusView, BusView)),
}

/// A part as values.
pub open spec fn part_result(p: Part) -> PartResult {
    match p {
        Part::Component(c) => PartResult::Component(component_result(c)),
        Part::Loop(l) => PartResult::Loop(l.start, l.end, l.iterator, l.body@.map_values(|c: Component| component_result(c))),
        Part::AssignmentHDL(a) => PartResult::AssignmentHDL(assignment_view(a)),
    }
}

/// The number of components among the parts, loop bodies included.
pub open spec fn component_count(parts: Seq<PartView>) -> nat
    decreases parts.len(),
{
    if parts.len() == 0 {
        0
    } else {
        component_count(parts.drop_last()) + match parts.last() {
            PartView::Component(_) => 1nat,
            PartView::Loop(l) => l.body.len(),
            PartView::AssignmentHDL(_) => 0nat,
        }
    }
}

/// The outcome of processing the components of a loop body in order, the
/// first numbered `counter + 1`: the new components, the last number used,
/// and the assignments given.
pub open spec fn dedupe_body(lib: Seq<ChipHDL>, body: Seq<ComponentView>, counter: u32) -> Result<(Seq<ComponentResult>, u32, Seq<(BusView, BusView)>), (Seq<char>, ErrorKind)>
    decreases body.len(),
{
    if body.len() == 0 {
        Ok((Seq::empty(), counter, Seq::empty()))
    } else {
        match dedupe_body(lib, body.drop_last(), counter) {
            Err(e) => Err(e),
            Ok((cs, c, asgs)) => match component_dedupe(lib, body.last(), (c + 1) as u32) {
                Err(e) => Err(e),
                Ok((cr, a)) => Ok((cs.push(cr), (c + 1) as u32, asgs + a)),
            },
        }
    }
}

/// The outcome of processing the parts in order: the new parts (each old
/// assignment kept in its place), the last number used, and the assignments
/// given.
pub open spec fn dedupe_parts(lib: Seq<ChipHDL>, parts: Seq<PartView>, counter: u32) -> Result<(Seq<PartResult>, u32, Seq<(BusView, BusView)>), (Seq<char>, ErrorKind)>
    decreases parts.len(),
{
    if parts.len() == 0 {
        Ok((Seq::empty(), counter, Seq::empty()))
    } else {
        match dedupe_parts(lib, parts.drop_last(), counter) {
            Err(e) => Err(e),
            Ok((ps, c, asgs)) => match parts.last() {
                PartView::Component(comp) => match component_dedupe(lib, comp, (c + 1) as u32) {
                    Err(e) => Err(e),
                    Ok((cr, a)) => Ok((ps.push(PartResult::Component(cr)), (c + 1) as u32, asgs + a)),
                },
                PartView::Loop(l) => match dedupe_body(lib, l.body, c) {
                    Err(e) => Err(e),
                    Ok((crs, c2, a)) => Ok((ps.push(PartResult::Loop(l.start, l.end, l.iterator, crs)), c2, asgs + a)),
                },
                PartView::AssignmentHDL(a) => Ok((ps.push(PartResult::AssignmentHDL(assignment_view(a))), c, asgs)),
            },
        }
    }
}

/// A prefix of a body counts no more components than the whole.
proof fn lemma_body_count(lib: Seq<ChipHDL>, body: Seq<ComponentView>, counter: u32)
    requires
        counter + body.len() < u32::MAX,
    ensures
        dedupe_body(lib, body, counter) matches Ok((_, c, _)) ==> c == counter + body.len(),
    decreases body.len(),
{
    if body.len() > 0 {
        lemma_body_count(lib, body.drop_last(), counter);
    }
}

/// The parts number their components one after another.
proof fn lemma_parts_count(lib: Seq<ChipHDL>, parts: Seq<PartView>, counter: u32)
    requires
        counter + component_count(parts) < u32::MAX,
    ensures
        dedupe_parts(lib, parts, counter) matches Ok((_, c, _)) ==> c == counter + component_count(parts),
    decreases parts.len(),
{
    if parts.len() > 0 {
        lemma_parts_count(lib, parts.drop_last(), counter);
        if let Ok((ps, c, asgs)) = dedupe_parts(lib, parts.drop_last(), counter) {
            if let PartView::Loop(l) = parts.last() {
                lemma_body_count(lib, l.body, c);
            }
        }
    }
}

/// An error in a prefix of the parts is the error of all of them.
proof fn lemma_parts_error(lib: Seq<ChipHDL>, parts: Seq<PartView>, counter: u32, q: int)
    requires
        0 <= q <= parts.len(),
    ensures
        dedupe_parts(lib, parts.take(q), counter) matches Err(e) ==> dedupe_parts(lib, parts, counter) == Err::<(Seq<PartResult>, u32, Seq<(BusView, BusView)>), (Seq<char>, ErrorKind)>(e),
    decreases parts.len() - q,
{
    if q < parts.len() {
        lemma_parts_error(lib, parts, counter, q + 1);
        assert(parts.take(q + 1).drop_last() =~= parts.take(q));
    } else {
        assert(parts.take(q) =~= parts);
    }
}

/// An error in a prefix of a body is the error of the whole body.
proof fn lemma_body_error(lib: Seq<ChipHDL>, body: Seq<ComponentView>, counter: u32, q: int)
    requires
        0 <= q <= body.len(),
    ensures
        dedupe_body(lib, body.take(q), counter) matches Err(e) ==> dedupe_body(lib, body, counter) == Err::<(Seq<ComponentResult>, u32, Seq<(BusView, BusView)>), (Seq<char>, ErrorKind)>(e),
    decreases body.len() - q,
{
    if q < body.len() {
        lemma_body_error(lib, body, counter, q + 1);
        assert(body.take(q + 1).drop_last() =~= body.take(q));
    } else {
        assert(body.take(q) =~= body);
    }
}

/// The component counts of the prefixes grow with them.
proof fn lemma_count_prefix(parts: Seq<PartView>, q: int)
    requires
        0 <= q <= parts.len(),
    ensures
        component_count(parts.take(q)) <= component_count(parts),
    decreases parts.len() - q,
{
    if q < parts.len() {
        lemma_count_prefix(parts, q + 1);
        assert(parts.take(q + 1).drop_last() =~= parts.take(q));
    } else {
        assert(parts.take(q) =~= parts);
    }
}

/// The new chip as values: the chip's name, ports, path and generics with
/// the new parts.
pub open spec fn chip_result(c: ChipHDL) -> (Seq<char>, Seq<GenericPort>, Seq<PartResult>, Option<String>, Seq<Identifier>) {
    (c.name@, c.ports@, c.parts@.map_values(|p: Part| part_result(p)), c.path, c.generic_decls@)
}

impl OptimizationPass for PortMapDedupe {
    open spec fn can_apply(&self, chip: ChipHDL, library: Seq<ChipHDL>) -> bool {
        self.counter() + component_count(parts_view(chip.parts@)) < u32::MAX
    }

    /// The chip with each component processed in order (loop bodies too),
    /// each of its own assignments kept in its place, and the new
    /// assignments added at the end.
    #[verifier::spinoff_prover]
    fn apply(&mut self, chip: &ChipHDL, library: &Vec<ChipHDL>) -> (r: Result<(ChipHDL, OptimizationInfo), N2VError>)
        ensures
            match dedupe_parts(library@, parts_view(chip.parts@), old(self).counter()) {
                Ok((ps, c, asgs)) => final(self).counter() == c && (r matches Ok((nc, info)) && info is Nothing && chip_result(nc) == (
                    chip.name@,
                    chip.ports@,
                    ps + asgs.map_values(|a: (BusView, BusView)| PartResult::AssignmentHDL(a)),
                    chip.path,
                    chip.generic_decls@,
                )),
                Err((msg, k)) => r matches Err(e) && e.msg@ == msg && e.kind == k,
            },
    {
        let ghost parts = parts_view(chip.parts@);
        let ghost c0 = self.counter();
        let mut new_parts: Vec<Part> = Vec::new();
        let mut new_assignments: Vec<AssignmentHDL> = Vec::new();
        let mut i: usize = 0;
        proof {
            lemma_parts_count(library@, parts, c0);
            assert(parts.take(0) =~= Seq::<PartView>::empty());
            assert(new_parts@.map_values(|p: Part| part_result(p)) =~= Seq::<PartResult>::empty());
            assert(assignments_view(new_assignments@) =~= Seq::<(BusView, BusView)>::empty());
        }
        while i < chip.parts.len()
            invariant
                i <= chip.parts.len(),
                parts == parts_view(chip.parts@),
                c0 == old(self).counter(),
                c0 + component_count(parts) < u32::MAX,
                dedupe_parts(library@, parts.take(i as int), c0) == Ok::<(Seq<PartResult>, u32, Seq<(BusView, BusView)>), (Seq<char>, ErrorKind)>((
                    new_parts@.map_values(|p: Part| part_result(p)),
                    self.counter(),
                    assignments_view(new_assignments@),
                )),
            decreases chip.parts.len() - i,
        {
            proof {
                lemma_count_prefix(parts, i as int);
                lemma_parts_count(library@, parts.take(i as int), c0);
                lemma_count_prefix(parts, i as int + 1);
                lemma_parts_error(library@, parts, c0, i as int + 1);
                assert(parts.take(i + 1).drop_last() =~= parts.take(i as int));
                assert(parts.take(i + 1).last() == chip.parts@[i as int]@);
                assert(component_count(parts.take(i + 1)) == component_count(parts.take(i as int)) + match chip.parts@[i as int]@ {
                    PartView::Component(_) => 1nat,
                    PartView::Loop(l) => l.body.len(),
                    PartView::AssignmentHDL(_) => 0nat,
                });
            }
            let ghost before_p = new_parts@.map_values(|p: Part| part_result(p));
            let ghost before_a = assignments_view(new_assignments@);
            match &chip.parts[i] {
                Part::Component(comp) => {
                    match self.process_component(comp, &mut new_assignments, library) {
                        Ok((new_comp, _)) => {
                            new_parts.push(Part::Component(new_comp));
                            assert(new_parts@.map_values(|p: Part| part_result(p)) =~= before_p.push(PartResult::Component(component_result(new_comp))));
                        },
                        Err(e) => {
                            return Err(e);
                        },
                    }
                },
                Part::Loop(loop_part) => {
                    let ghost body = components_view(loop_part.body@);
                    let ghost cstart = self.counter();
                    let mut new_loop_body: Vec<Component> = Vec::new();
                    let mut k: usize = 0;
                    proof {
                        lemma_body_count(library@, body, cstart);
                        assert(body.take(0) =~= Seq::<ComponentView>::empty());
                        assert(new_loop_body@.map_values(|c: Component| component_result(c)) =~= Seq::<ComponentResult>::empty());
                        assert(before_a + Seq::<(BusView, BusView)>::empty() =~= before_a);
                    }
                    while k < loop_part.body.len()
                        invariant
                            k <= loop_part.body.len(),
                            parts == parts_view(chip.parts@),
                            c0 == old(self).counter(),
                            i < chip.parts.len(),
                            chip.parts@[i as int]@ == PartView::Loop(loop_part@),
                            dedupe_parts(library@, parts.take(i as int), c0) == Ok::<(Seq<PartResult>, u32, Seq<(BusView, BusView)>), (Seq<char>, ErrorKind)>((before_p, cstart, before_a)),
                            parts.take(i + 1).drop_last() == parts.take(i as int),
                            parts.take(i + 1).last() == chip.parts@[i as int]@,
                            dedupe_parts(library@, parts.take(i + 1), c0) matches Err(e) ==> dedupe_parts(library@, parts, c0) == Err::<(Seq<PartResult>, u32, Seq<(BusView, BusView)>), (Seq<char>, ErrorKind)>(e),
                            body == components_view(loop_part.body@),
                            cstart + body.len() < u32::MAX,
                            dedupe_body(library@, body.take(k as int), cstart) matches Ok((cs, c, a)) && cs == new_loop_body@.map_values(
                                |c: Component| component_result(c),
                            ) && c == self.counter() && before_a + a == assignments_view(new_assignments@),
                        decreases loop_part.body.len() - k,
                    {
                        proof {
                            lemma_body_count(library@, body.take(k as int), cstart);
                            lemma_body_error(library@, body, cstart, k as int + 1);
                            assert(body.take(k + 1).drop_last() =~= body.take(k as int));
                            assert(body.take(k + 1).last() == loop_part.body@[k as int]@);
                        }
                        let ghost prev_a = assignments_view(new_assignments@);
                        match self.process_component(&loop_part.body[k], &mut new_assignments, library) {
                            Ok((new_comp, _)) => {
                                let ghost prev_c = new_loop_body@.map_values(|c: Component| component_result(c));
                                new_loop_body.push(new_comp);
                                assert(new_loop_body@.map_values(|c: Component| component_result(c)) =~= prev_c.push(component_result(new_comp)));
                                proof {
                                    if let Ok((cs, c, a)) = dedupe_body(library@, body.take(k as int), cstart) {
                                        if let Ok((cr, a2)) = component_dedupe(library@, body.take(k + 1).last(), (c + 1) as u32) {
                                            assert(before_a + (a + a2) =~= (before_a + a) + a2);
                                        }
                                    }
                                }
                            },
                            Err(e) => {
                                return Err(e);
                            },
                        }
                        k = k + 1;
                    }
                    assert(body.take(loop_part.body.len() as int) =~= body);
                    let new_loop = Loop {
                        start: loop_part.start.clone(),
                        end: loop_part.end.clone(),
                        iterator: loop_part.iterator.clone(),
                        body: new_loop_body,
                    };
                    new_parts.push(Part::Loop(new_loop));
                    assert(new_parts@.map_values(|p: Part| part_result(p)) =~= before_p.push(part_result(Part::Loop(new_loop))));
                },
                Part::AssignmentHDL(a) => {
                    let ghost before_p = new_parts@.map_values(|p: Part| part_result(p));
                    new_parts.push(Part::AssignmentHDL(a.clone()));
                    assert(new_parts@.map_values(|p: Part| part_result(p)) =~= before_p.push(
                        PartResult::AssignmentHDL(assignment_view(*a)),
                    ));
                },
            }
            i = i + 1;
        }
        assert(parts.take(chip.parts.len() as int) =~= parts);
        let ghost ps = new_parts@.map_values(|p: Part| part_result(p));
        let ghost asgs = assignments_view(new_assignments@);
        let mut j: usize = 0;
        while j < new_assignments.len()
            invariant
                j <= new_assignments.len(),
                asgs == assignments_view(new_assignments@),
                new_parts@.map_values(|p: Part| part_result(p)) == ps + asgs.take(j as int).map_values(|a: (BusView, BusView)| PartResult::AssignmentHDL(a)),
            decreases new_assignments.len() - j,
        {
            let ghost before = new_parts@.map_values(|p: Part| part_result(p));
            let a = new_assignments[j].clone();
            new_parts.push(Part::AssignmentHDL(a));
            assert(asgs[j as int] == assignment_view(a));
            assert(new_parts@.map_values(|p: Part| part_result(p)) =~= before.push(PartResult::AssignmentHDL(asgs[j as int])));
            assert(asgs.take(j + 1) =~= asgs.take(j as int).push(asgs[j as int]));
            assert(asgs.take(j + 1).map_values(|a: (BusView, BusView)| PartResult::AssignmentHDL(a)) =~= asgs.take(j as int).map_values(|a: (BusView, BusView)| PartResult::AssignmentHDL(a)).push(PartResult::AssignmentHDL(asgs[j as int])));
            assert(new_parts@.map_values(|p: Part| part_result(p)) =~= ps + asgs.take(j + 1).map_values(|a: (BusView, BusView)| PartResult::AssignmentHDL(a)));
            j = j + 1;
        }
        assert(asgs.take(new_assignments.len() as int) =~= asgs);
        let ports = chip.ports.clone();
        assert(ports@ =~= chip.ports@);
        let generic_decls = chip.generic_decls.clone();
        assert(generic_decls@ =~= chip.generic_decls@);
        let new_chip = ChipHDL {
            name: chip.name.clone(),
            ports,
            parts: new_parts,
            path: clone_opt_string(&chip.path),
            generic_decls,
        };
        Ok((new_chip, OptimizationInfo::Nothing))
    }
}

/// The number of mappings among `vs` that map the port `name`.
pub open spec fn port_uses(vs: Seq<MappingView>, name: Seq<char>) -> nat
    decreases vs.len(),
{
    if vs.len() == 0 {
        0
    } else {
        (if vs[0].port.0 == name { 1nat } else { 0nat }) + port_uses(vs.drop_first(), name)
    }
}

/// Counting uses splits over concatenation.
proof fn lemma_port_uses_concat(a: Seq<MappingView>, b: Seq<MappingView>, name: Seq<char>)
    ensures
        port_uses(a + b, name) == port_uses(a, name) + port_uses(b, name),
    decreases a.len(),
{
    if a.len() > 0 {
        assert((a + b).drop_first() =~= a.drop_first() + b);
        lemma_port_uses_concat(a.drop_first(), b, name);
    } else {
        assert(a + b =~= b);
    }
}

/// From mapping `k` on, an output port keeps at most one mapping, and none
/// where it is not mapped from `k` on.
proof fn lemma_dedupe_uses(ms: Seq<PortMappingHDL>, ports: Seq<GenericPort>, counter: u32, k: int, name: Seq<char>, pi: int)
    requires
        0 <= k <= ms.len(),
        port_index_from(ports, name, 0) == Some(pi),
        ports[pi].direction == PortDirection::Out,
        dedupe_from(ms, ports, counter, k) is Ok,
    ensures
        port_uses((dedupe_from(ms, ports, counter, k)->Ok_0).0, name) <= 1,
        count_from(ms, name, k) == 0 ==> port_uses((dedupe_from(ms, ports, counter, k)->Ok_0).0, name) == 0,
    decreases ms.len() - k,
{
    if k < ms.len() {
        lemma_dedupe_uses(ms, ports, counter, k + 1, name, pi);
        let m = ms[k];
        let pj = port_index_from(ports, m.port.name@, 0).unwrap();
        let (m1, a1) = mapping_result(ms, k, ports[pj].direction, counter);
        let rest = (dedupe_from(ms, ports, counter, k + 1)->Ok_0).0;
        lemma_port_uses_concat(m1, rest, name);
        assert(m1.len() <= 1);
        if m1.len() == 1 {
            assert(m1.drop_first() =~= Seq::<MappingView>::empty());
            assert(port_uses(m1.drop_first(), name) == 0);
            assert(port_uses(m1, name) == (if m1[0].port.0 == name { 1nat } else { 0nat }));
        } else {
            assert(m1 =~= Seq::<MappingView>::empty());
        }
        if m.port.name@ == name {
            assert(pj == pi);
            lemma_count_from_positive(ms, name, k);
        }
    }
}

/// The mapping at `k` counts toward `count_from` at `k`.
proof fn lemma_count_from_positive(ms: Seq<PortMappingHDL>, name: Seq<char>, k: int)
    requires
        0 <= k < ms.len(),
        ms[k].port.name@ == name,
    ensures
        count_from(ms, name, 0) >= count_from(ms, name, k),
        count_from(ms, name, k) == 1 + count_from(ms, name, k + 1),
    decreases k,
{
    if k > 0 {
        lemma_count_from_le(ms, name, 0, k);
    }
}

/// `count_from` does not grow as the start moves on.
proof fn lemma_count_from_le(ms: Seq<PortMappingHDL>, name: Seq<char>, i: int, k: int)
    requires
        0 <= i <= k <= ms.len(),
    ensures
        count_from(ms, name, i) >= count_from(ms, name, k),
    decreases k - i,
{
    if i < k {
        lemma_count_from_le(ms, name, i + 1, k);
    }
}

/// After the pass, a component maps each output port of its chip at most
/// once: every other mapping of the port became an assignment.
pub proof fn lemma_dedupe_single_output(lib: Seq<ChipHDL>, c: ComponentView, counter: u32, name: Seq<char>)
    requires
        component_dedupe(lib, c, counter) is Ok,
        chip_named(lib, c.name.value@) matches Some(chip) && port_index_from(chip.ports@, name, 0) matches Some(pi)
            && chip.ports@[pi].direction == PortDirection::Out,
    ensures
        port_uses((component_dedupe(lib, c, counter)->Ok_0).0.mappings, name) <= 1,
{
    let chip = chip_named(lib, c.name.value@).unwrap();
    let pi = port_index_from(chip.ports@, name, 0).unwrap();
    lemma_dedupe_uses(c.mappings, chip.ports@, counter, 0, name, pi);
}

} // verus!
