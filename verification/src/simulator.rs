//! Values shared with the simulator: buses, resolved ports, assignments and
//! wires, and the Nand gate at the bottom of every chip.
use crate::busmap::BusMap;
use crate::error::{ErrorKind, N2VError};
use crate::expr::{GenericWidth, Op, Terminal, eval_expr, eval_expr_numeric, replace_expr, spec_add, spec_sub, spec_eval_expr, spec_replace, numeric_state, num, width_add, width_sub, width_text};
use crate::fmt::{push_str, push_decimal, decimal};
use crate::chars::{ascii_lowercase, lower_text, lowercase, to_ascii_lowercase, to_lowercase};
use crate::parser::{
    AssignmentHDL, BusHDL, ChipHDL, Component, ComponentView, GenericPort, Identifier, Part, PartView, PortDirection,
    PortMappingHDL, chip_named, clone_opt_string, get_hdl, missing_chip, missing_chip_msg, parts_view, components_view,
    port_index_from, lemma_port_index_from,
};
use crate::strmap::StrMap;
use vstd::prelude::*;

verus! {

/// A named bus, optionally restricted to the bits `[start, end)`.
#[derive(Debug, PartialEq, Eq, Hash)]
pub struct Bus {
    pub name: String,
    pub range: Option<std::ops::Range<usize>>,
}

impl Clone for Bus {
    fn clone(&self) -> (r: Self)
        ensures
            r == *self,
    {
        Bus {
            name: self.name.clone(),
            range: match &self.range {
                Some(r) => Some(r.start..r.end),
                None => None,
            },
        }
    }
}

impl Bus {
    /// A bus with no range, which covers the whole signal.
    pub fn from(name: &str) -> (r: Bus)
        ensures
            r.name@ == name@,
            r.range is None,
    {
        Bus { name: String::from_str(name), range: None }
    }
}

/// The Nand of two bits; unknown where either input is unknown.
pub fn nand(a: Option<bool>, b: Option<bool>) -> (r: Option<bool>)
    ensures
        r == (match (a, b) {
            (Some(x), Some(y)) => Some(!(x && y)),
            _ => None,
        }),
{
    if a.is_none() || b.is_none() {
        return None;
    }
    Some(!(a.unwrap() && b.unwrap()))
}

/// The outputs of a chip are kept for each set of inputs it has seen: this is
/// the key, the chip's name and its inputs.
pub struct InputCacheEntry {
    name: String,
    signals: BusMap,
}

impl InputCacheEntry {
    /// The key for chip `name` on inputs `signals`.
    pub fn new(name: String, signals: BusMap) -> (r: InputCacheEntry)
        ensures
            r.name() == name,
            r.signals() == signals,
    {
        InputCacheEntry { name, signals }
    }

    /// The chip's name.
    pub closed spec fn name(&self) -> String {
        self.name
    }

    /// The chip's inputs.
    pub closed spec fn signals(&self) -> BusMap {
        self.signals
    }
}

/// A port of a chip, with its width resolved to a number.
#[derive(Debug)]
pub struct Port {
    pub name: Identifier,
    pub width: usize,
    pub direction: PortDirection,
}

impl Clone for Port {
    fn clone(&self) -> (r: Self)
        ensures
            r == *self,
    {
        Port { name: self.name.clone(), width: self.width, direction: self.direction }
    }
}

/// An assignment between two buses of the same width.
#[derive(Debug)]
pub struct Assignment {
    pub left: Bus,
    pub right: Bus,
    pub width: usize,
}

/// A wire of the circuit, from a bus of one chip to a bus of another.
#[derive(Debug)]
pub struct Wire {
    pub source: Bus,
    pub target: Bus,
}

impl Clone for Wire {
    fn clone(&self) -> (r: Self)
        ensures
            r == *self,
    {
        Wire { source: self.source.clone(), target: self.target.clone() }
    }
}

/// The assignments among `parts`, in order.
pub open spec fn assignments_of(parts: Seq<PartView>) -> Seq<AssignmentHDL>
    decreases parts.len(),
{
    if parts.len() == 0 {
        Seq::empty()
    } else {
        let rest = assignments_of(parts.drop_last());
        match parts.last() {
            PartView::AssignmentHDL(a) => rest.push(a),
            _ => rest,
        }
    }
}

/// Gathers the assignments among `parts`, in order.
pub fn gather_assignments(parts: &Vec<Part>) -> (r: Vec<AssignmentHDL>)
    ensures
        r@ == assignments_of(parts_view(parts@)),
{
    let mut assignment_vec: Vec<AssignmentHDL> = Vec::new();
    let mut i: usize = 0;
    while i < parts.len()
        invariant
            i <= parts.len(),
            assignment_vec@ == assignments_of(parts_view(parts@).take(i as int)),
        decreases parts.len() - i,
    {
        assert(parts_view(parts@).take(i + 1).drop_last() =~= parts_view(parts@).take(i as int));
        match &parts[i] {
            Part::AssignmentHDL(pa) => {
                assignment_vec.push(pa.clone());
            },
            _ => {},
        }
        i = i + 1;
    }
    assert(parts_view(parts@).take(parts.len() as int) =~= parts_view(parts@));
    assignment_vec
}

/// A bus of `width` bits, from bit 0.
pub open spec fn full_bus(name: String, width: usize) -> Bus {
    Bus { name, range: Some(0..width) }
}

/// The assignments with their widths resolved: each takes the width inferred
/// for its left side, evaluated under `state`. `None` where that width is
/// missing or cannot be evaluated (the simulator panics); `Err` with the
/// message of the first width that is not a number.
pub open spec fn resolved_assignments(
    widths: Map<Seq<char>, GenericWidth>,
    assignments: Seq<AssignmentHDL>,
    state: Map<Seq<char>, usize>,
) -> Option<Result<Seq<(String, String, usize)>, Seq<char>>>
    decreases assignments.len(),
{
    if assignments.len() == 0 {
        Some(Ok(Seq::empty()))
    } else {
        let a = assignments[0];
        if !widths.contains_key(a.left.name@) {
            None
        } else {
            let w = widths[a.left.name@];
            match spec_eval_expr(w, numeric_state(state)) {
                None => None,
                Some(GenericWidth::Terminal(Terminal::Num(n))) => match resolved_assignments(widths, assignments.drop_first(), state) {
                    Some(Ok(rest)) => Some(Ok(seq![(a.left.name, a.right.name, n)] + rest)),
                    other => other,
                },
                Some(_) => Some(Err("Expression "@ + width_text(w) + " is non-numeric"@)),
            }
        }
    }
}

/// An assignment as its names and width.
pub open spec fn assignment_view(a: Assignment) -> (String, String, usize) {
    (a.left.name, a.right.name, a.width)
}

/// The buses of each assignment span its width from bit 0.
pub open spec fn assignment_buses_full(a: Assignment) -> bool {
    a.left == full_bus(a.left.name, a.width) && a.right == full_bus(a.right.name, a.width)
}

/// Resolves the widths of `assignments` from the widths inferred for their
/// left sides.
pub fn generate_assignments(
    inferred_widths: &StrMap<GenericWidth>,
    assignments: Vec<AssignmentHDL>,
    generic_state: &StrMap<usize>,
) -> (r: Result<Vec<Assignment>, N2VError>)
    requires
        resolved_assignments(inferred_widths.map(), assignments@, generic_state.map()) is Some,
    ensures
        match resolved_assignments(inferred_widths.map(), assignments@, generic_state.map()).unwrap() {
            Ok(v) => r matches Ok(x) && x@.map_values(|a: Assignment| assignment_view(a)) == v
                && forall|i: int| 0 <= i < x@.len() ==> assignment_buses_full(#[trigger] x@[i]),
            Err(m) => r matches Err(e) && e.msg@ == m && e.kind is NonNumeric,
        },
{
    let ghost wmap = inferred_widths.map();
    let ghost smap = generic_state.map();
    let mut converted_assignments: Vec<Assignment> = Vec::new();
    let mut i: usize = 0;
    proof {
        assert(assignments@.skip(0) =~= assignments@);
        assert(converted_assignments@.map_values(|a: Assignment| assignment_view(a)) =~= Seq::<(String, String, usize)>::empty());
        match resolved_assignments(wmap, assignments@, smap).unwrap() {
            Ok(rest) => assert(Seq::<(String, String, usize)>::empty() + rest =~= rest),
            Err(m) => {},
        }
    }
    while i < assignments.len()
        invariant
            i <= assignments.len(),
            wmap == inferred_widths.map(),
            smap == generic_state.map(),
            resolved_assignments(wmap, assignments@, smap) is Some,
            forall|k: int| 0 <= k < converted_assignments@.len() ==> assignment_buses_full(#[trigger] converted_assignments@[k]),
            ({
                let done = converted_assignments@.map_values(|a: Assignment| assignment_view(a));
                match resolved_assignments(wmap, assignments@.skip(i as int), smap).unwrap() {
                    Ok(rest) => resolved_assignments(wmap, assignments@, smap).unwrap() == Ok::<Seq<(String, String, usize)>, Seq<char>>(done + rest),
                    Err(m) => resolved_assignments(wmap, assignments@, smap).unwrap() == Err::<Seq<(String, String, usize)>, Seq<char>>(m),
                }
            }),
            resolved_assignments(wmap, assignments@.skip(i as int), smap) is Some,
        decreases assignments.len() - i,
    {
        let a = &assignments[i];
        let ghost tail = assignments@.skip(i as int);
        assert(tail[0] == assignments@[i as int]);
        assert(tail.drop_first() =~= assignments@.skip(i + 1));
        let w = inferred_widths.get(a.left.name.as_str()).unwrap();
        let usize_w = match eval_expr_numeric(w, generic_state) {
            Ok(x) => x,
            Err(e) => return Err(e),
        };
        let left_bus = Bus { name: a.left.name.clone(), range: Some(0..usize_w) };
        let right_bus = Bus { name: a.right.name.clone(), range: Some(0..usize_w) };
        let new_assignment = Assignment { left: left_bus, right: right_bus, width: usize_w };
        let ghost before = converted_assignments@.map_values(|a: Assignment| assignment_view(a));
        converted_assignments.push(new_assignment);
        proof {
            assert(converted_assignments@.map_values(|a: Assignment| assignment_view(a)) =~= before.push(assignment_view(new_assignment)));
            match resolved_assignments(wmap, assignments@.skip(i + 1), smap).unwrap() {
                Ok(rest) => {
                    assert(before + (seq![assignment_view(new_assignment)] + rest) =~= before.push(assignment_view(new_assignment)) + rest);
                },
                Err(m) => {},
            }
        }
        i = i + 1;
    }
    proof {
        assert(assignments@.skip(assignments.len() as int) =~= Seq::<AssignmentHDL>::empty());
        assert(converted_assignments@.map_values(|a: Assignment| assignment_view(a)) + Seq::<(String, String, usize)>::empty() =~= converted_assignments@.map_values(|a: Assignment| assignment_view(a)));
    }
    Ok(converted_assignments)
}

/// The values of the generics of a chip: each declared name takes the value
/// at its position, a later declaration of a name overriding an earlier one.
pub open spec fn generic_state(decls: Seq<Identifier>, generics: Seq<usize>) -> Map<Seq<char>, usize>
    decreases decls.len(),
{
    if decls.len() == 0 {
        Map::empty()
    } else {
        generic_state(decls.drop_last(), generics).insert(decls.last().value@, generics[decls.len() - 1])
    }
}

/// Evaluates `w` under `state` to a number: `None` where the evaluation
/// panics, `Err` with its message where the result is not a number.
pub open spec fn numeric_outcome(w: GenericWidth, state: Map<Seq<char>, usize>) -> Option<Result<usize, Seq<char>>> {
    match spec_eval_expr(w, numeric_state(state)) {
        None => None,
        Some(GenericWidth::Terminal(Terminal::Num(n))) => Some(Ok(n)),
        Some(_) => Some(Err("Expression "@ + width_text(w) + " is non-numeric"@)),
    }
}

/// A width with the loop variable `it` set to `i`.
pub open spec fn opt_width_at(w: Option<GenericWidth>, it: Seq<char>, i: usize) -> Option<GenericWidth> {
    match w {
        Some(x) => Some(spec_replace(x, it, num(i))),
        None => None,
    }
}

/// A bus with the loop variable `it` set to `i`.
pub open spec fn bus_at(b: BusHDL, it: Seq<char>, i: usize) -> BusHDL {
    BusHDL { name: b.name, start: opt_width_at(b.start, it, i), end: opt_width_at(b.end, it, i) }
}

/// A port mapping with the loop variable `it` set to `i`.
pub open spec fn mapping_at(m: PortMappingHDL, it: Seq<char>, i: usize) -> PortMappingHDL {
    PortMappingHDL { wire_ident: m.wire_ident, wire: bus_at(m.wire, it, i), port: bus_at(m.port, it, i) }
}

/// A component of a loop body with the loop variable `it` set to `i`.
pub open spec fn component_at(c: ComponentView, it: Seq<char>, i: usize) -> ComponentView {
    ComponentView {
        name: c.name,
        mappings: c.mappings.map_values(|m: PortMappingHDL| mapping_at(m, it, i)),
        generic_params: c.generic_params.map_values(|g: GenericWidth| spec_replace(g, it, num(i))),
    }
}

/// The body of a loop repeated for `it` from `start` to `end`, inclusive.
pub open spec fn unrolled(body: Seq<ComponentView>, it: Seq<char>, start: int, end: int) -> Seq<ComponentView>
    decreases end - start + 1,
{
    if end < start {
        Seq::empty()
    } else {
        unrolled(body, it, start, end - 1) + body.map_values(|c: ComponentView| component_at(c, it, end as usize))
    }
}

/// The components of a chip's parts, with loops unrolled and assignments left
/// out. `None` where the unrolling panics; `Err` with the message of the first
/// loop bound that is not a number.
pub open spec fn expand_parts(parts: Seq<PartView>, state: Map<Seq<char>, usize>) -> Option<Result<Seq<ComponentView>, Seq<char>>>
    decreases parts.len(),
{
    if parts.len() == 0 {
        Some(Ok(Seq::empty()))
    } else {
        match expand_parts(parts.drop_last(), state) {
            Some(Ok(prev)) => match parts.last() {
                PartView::Component(c) => Some(Ok(prev.push(c))),
                PartView::Loop(l) => match numeric_outcome(l.start, state) {
                    Some(Ok(start)) => match numeric_outcome(l.end, state) {
                        Some(Ok(end)) => if end == usize::MAX {
                            None
                        } else {
                            Some(Ok(prev + unrolled(l.body, l.iterator.value@, start as int, end as int)))
                        },
                        Some(Err(m)) => Some(Err(m)),
                        None => None,
                    },
                    Some(Err(m)) => Some(Err(m)),
                    None => None,
                },
                PartView::AssignmentHDL(_) => Some(Ok(prev)),
            },
            other => other,
        }
    }
}

/// The message when a chip is given another number of generics than it declares.
pub open spec fn generics_count_msg(name: Seq<char>, declared: nat, given: nat) -> Seq<char> {
    "Chip "@ + name + " declares "@ + decimal(declared) + " generics but instantiated with "@ + decimal(given)
}

/// A copy of a bus with the loop variable named `it` replaced by `rep`, the
/// number `i`.
fn bus_at_index(b: &BusHDL, it: &String, rep: &GenericWidth, Ghost(i): Ghost<usize>) -> (r: BusHDL)
    requires
        *rep == num(i),
    ensures
        r == bus_at(*b, it@, i),
{
    BusHDL {
        name: b.name.clone(),
        start: match &b.start {
            Some(w) => Some(replace_expr(w, it, rep)),
            None => None,
        },
        end: match &b.end {
            Some(w) => Some(replace_expr(w, it, rep)),
            None => None,
        },
    }
}

/// A component of a loop body instantiated for the loop variable `it` equal to `i`.
fn component_at_index(c: &Component, it: &String, i: usize) -> (r: Component)
    ensures
        r@ == component_at(c@, it@, i),
{
    let rep = GenericWidth::Terminal(Terminal::Num(i));
    let mut mappings: Vec<PortMappingHDL> = Vec::new();
    let mut k: usize = 0;
    while k < c.mappings.len()
        invariant
            k <= c.mappings.len(),
            rep == num(i),
            mappings@ == c.mappings@.take(k as int).map_values(|m: PortMappingHDL| mapping_at(m, it@, i)),
        decreases c.mappings.len() - k,
    {
        let m = &c.mappings[k];
        let nm = PortMappingHDL {
            wire_ident: m.wire_ident.clone(),
            wire: bus_at_index(&m.wire, it, &rep, Ghost(i)),
            port: bus_at_index(&m.port, it, &rep, Ghost(i)),
        };
        mappings.push(nm);
        assert(c.mappings@.take(k + 1) =~= c.mappings@.take(k as int).push(c.mappings@[k as int]));
        assert(mappings@ =~= c.mappings@.take(k + 1).map_values(|m: PortMappingHDL| mapping_at(m, it@, i)));
        k = k + 1;
    }
    let mut generic_params: Vec<GenericWidth> = Vec::new();
    let mut k: usize = 0;
    while k < c.generic_params.len()
        invariant
            k <= c.generic_params.len(),
            rep == num(i),
            generic_params@ == c.generic_params@.take(k as int).map_values(|g: GenericWidth| spec_replace(g, it@, num(i))),
        decreases c.generic_params.len() - k,
    {
        generic_params.push(replace_expr(&c.generic_params[k], it, &rep));
        assert(c.generic_params@.take(k + 1) =~= c.generic_params@.take(k as int).push(c.generic_params@[k as int]));
        assert(generic_params@ =~= c.generic_params@.take(k + 1).map_values(|g: GenericWidth| spec_replace(g, it@, num(i))));
        k = k + 1;
    }
    assert(c.mappings@.take(c.mappings.len() as int) =~= c.mappings@);
    assert(c.generic_params@.take(c.generic_params.len() as int) =~= c.generic_params@);
    Component { name: c.name.clone(), mappings, generic_params }
}

/// The components of a chip instantiated with the generics `generics`: its
/// component parts, and the body of each loop repeated for each value of its
/// variable, in order. `Err` where the number of generics differs from the
/// number the chip declares, or where a loop bound is not a number.
pub fn generate_components(hdl: &ChipHDL, generics: &Vec<usize>) -> (r: Result<Vec<Component>, N2VError>)
    requires
        generics.len() == hdl.generic_decls.len() ==> expand_parts(parts_view(hdl.parts@), generic_state(hdl.generic_decls@, generics@)) is Some,
    ensures
        generics.len() != hdl.generic_decls.len() ==> (r matches Err(e) && e.msg@ == generics_count_msg(hdl.name@, hdl.generic_decls.len() as nat, generics.len() as nat)
            && e.kind == ErrorKind::SimulationError(hdl.path)),
        generics.len() == hdl.generic_decls.len() ==> match expand_parts(parts_view(hdl.parts@), generic_state(hdl.generic_decls@, generics@)).unwrap() {
            Ok(v) => r matches Ok(x) && components_view(x@) == v,
            Err(m) => r matches Err(e) && e.msg@ == m && e.kind is NonNumeric,
        },
{
    if generics.len() != hdl.generic_decls.len() {
        let mut msg = String::new();
        push_str(&mut msg, "Chip ");
        push_str(&mut msg, hdl.name.as_str());
        push_str(&mut msg, " declares ");
        push_decimal(&mut msg, hdl.generic_decls.len());
        push_str(&mut msg, " generics but instantiated with ");
        push_decimal(&mut msg, generics.len());
        return Err(N2VError { msg, kind: ErrorKind::SimulationError(clone_opt_string(&hdl.path)) });
    }
    let mut variables: StrMap<usize> = StrMap::new();
    let mut gv: usize = 0;
    while gv < hdl.generic_decls.len()
        invariant
            gv <= hdl.generic_decls.len(),
            generics.len() == hdl.generic_decls.len(),
            variables.map() == generic_state(hdl.generic_decls@.take(gv as int), generics@),
        decreases hdl.generic_decls.len() - gv,
    {
        variables.insert(hdl.generic_decls[gv].value.clone(), generics[gv]);
        assert(hdl.generic_decls@.take(gv + 1).drop_last() =~= hdl.generic_decls@.take(gv as int));
        gv = gv + 1;
    }
    assert(hdl.generic_decls@.take(hdl.generic_decls.len() as int) =~= hdl.generic_decls@);
    let ghost state = variables.map();
    let ghost parts = parts_view(hdl.parts@);
    let mut res: Vec<Component> = Vec::new();
    let mut p: usize = 0;
    assert(parts.take(0) =~= Seq::<PartView>::empty());
    assert(components_view(res@) =~= Seq::<ComponentView>::empty());
    while p < hdl.parts.len()
        invariant
            p <= hdl.parts.len(),
            parts == parts_view(hdl.parts@),
            state == variables.map(),
            generics.len() == hdl.generic_decls.len(),
            state == generic_state(hdl.generic_decls@, generics@),
            expand_parts(parts, state) is Some,
            expand_parts(parts.take(p as int), state) == Some(Ok::<Seq<ComponentView>, Seq<char>>(components_view(res@))),
            forall|q: int| p <= q <= parts.len() ==> #[trigger] expand_parts(parts.take(q), state) is Some
                ==> expand_parts(parts.take(p as int), state) is Some,
        decreases hdl.parts.len() - p,
    {
        assert(parts.take(p + 1).drop_last() =~= parts.take(p as int));
        assert(parts.take(p + 1).last() == parts[p as int]);
        proof {
            lemma_expand_prefix(parts, state, p as int + 1);
        }
        match &hdl.parts[p] {
            Part::Component(c) => {
                let ghost before = components_view(res@);
                res.push(c.clone());
                assert(components_view(res@) =~= before.push(c@));
            },
            Part::Loop(l) => {
                let start = match eval_expr_numeric(&l.start, &variables) {
                    Ok(x) => x,
                    Err(e) => {
                        proof {
                            lemma_expand_error_stays(parts, state, p as int + 1);
                        }
                        return Err(e);
                    },
                };
                let end = match eval_expr_numeric(&l.end, &variables) {
                    Ok(x) => x,
                    Err(e) => {
                        proof {
                            lemma_expand_error_stays(parts, state, p as int + 1);
                        }
                        return Err(e);
                    },
                };
                let ghost base = components_view(res@);
                let ghost body = components_view(l.body@);
                let ghost it = l.iterator.value@;
                let mut i: usize = start;
                assert(unrolled(body, it, start as int, start as int - 1) =~= Seq::<ComponentView>::empty());
                assert(components_view(res@) =~= base + Seq::<ComponentView>::empty());
                while i < end + 1
                    invariant
                        start <= i,
                        i <= end + 1 || i == start,
                        end < usize::MAX,
                        body == components_view(l.body@),
                        it == l.iterator.value@,
                        components_view(res@) == base + unrolled(body, it, start as int, i as int - 1),
                    decreases end + 1 - i,
                {
                    let ghost before = components_view(res@);
                    let mut k: usize = 0;
                    while k < l.body.len()
                        invariant
                            k <= l.body.len(),
                            body == components_view(l.body@),
                            it == l.iterator.value@,
                            components_view(res@) == before + body.take(k as int).map_values(|c: ComponentView| component_at(c, it, i)),
                        decreases l.body.len() - k,
                    {
                        let nc = component_at_index(&l.body[k], &l.iterator.value, i);
                        assert(body[k as int] == l.body@[k as int]@);
                        let ghost prev = components_view(res@);
                        res.push(nc);
                        assert(components_view(res@) =~= prev.push(nc@));
                        assert(body.take(k + 1) =~= body.take(k as int).push(body[k as int]));
                        assert(body.take(k + 1).map_values(|c: ComponentView| component_at(c, it, i)) =~= body.take(k as int).map_values(|c: ComponentView| component_at(c, it, i)).push(component_at(body[k as int], it, i)));
                        assert(components_view(res@) =~= before + body.take(k + 1).map_values(|c: ComponentView| component_at(c, it, i)));
                        k = k + 1;
                    }
                    assert(body.take(l.body.len() as int) =~= body);
                    assert(i <= end);
                    assert(unrolled(body, it, start as int, i as int) == unrolled(body, it, start as int, i as int - 1) + body.map_values(|c: ComponentView| component_at(c, it, i)));
                    assert(components_view(res@) =~= base + unrolled(body, it, start as int, i as int));
                    i = i + 1;
                }
                assert(components_view(res@) =~= base + unrolled(body, it, start as int, end as int));
            },
            Part::AssignmentHDL(_) => {},
        }
        p = p + 1;
    }
    assert(parts.take(hdl.parts.len() as int) =~= parts);
    Ok(res)
}

/// A prefix of the parts expands without panicking where the whole does.
proof fn lemma_expand_prefix(parts: Seq<PartView>, state: Map<Seq<char>, usize>, q: int)
    requires
        0 <= q <= parts.len(),
        expand_parts(parts, state) is Some,
    ensures
        expand_parts(parts.take(q), state) is Some,
        expand_parts(parts.take(q), state) matches Some(Err(m)) ==> expand_parts(parts, state) == Some(Err::<Seq<ComponentView>, Seq<char>>(m)),
    decreases parts.len() - q,
{
    if q < parts.len() {
        lemma_expand_prefix(parts, state, q + 1);
        assert(parts.take(q + 1).drop_last() =~= parts.take(q));
    } else {
        assert(parts.take(q) =~= parts);
    }
}

/// An error in a prefix is the error of the whole.
proof fn lemma_expand_error_stays(parts: Seq<PartView>, state: Map<Seq<char>, usize>, q: int)
    requires
        0 <= q <= parts.len(),
        expand_parts(parts, state) is Some,
    ensures
        expand_parts(parts.take(q), state) matches Some(Err(m)) ==> expand_parts(parts, state) == Some(Err::<Seq<ComponentView>, Seq<char>>(m)),
{
    lemma_expand_prefix(parts, state, q);
}

/// Optional text as its characters.
pub open spec fn opt_text(s: Option<String>) -> Option<Seq<char>> {
    match s {
        Some(x) => Some(x@),
        None => None,
    }
}

/// Two identifiers are the same: the same name, path and line.
pub open spec fn same_ident(a: Identifier, b: Identifier) -> bool {
    a.value@ == b.value@ && opt_text(a.path) == opt_text(b.path) && a.line == b.line
}

/// Two width expressions are the same: the same shape, numbers and
/// identifiers.
pub open spec fn same_width(a: GenericWidth, b: GenericWidth) -> bool
    decreases a,
{
    match (a, b) {
        (GenericWidth::Terminal(Terminal::Num(x)), GenericWidth::Terminal(Terminal::Num(y))) => x == y,
        (GenericWidth::Terminal(Terminal::Var(x)), GenericWidth::Terminal(Terminal::Var(y))) => same_ident(x, y),
        (GenericWidth::Expr(o1, a1, b1), GenericWidth::Expr(o2, a2, b2)) => o1 == o2 && same_width(*a1, *a2) && same_width(*b1, *b2),
        _ => false,
    }
}

/// Two maps of widths are the same: the same names, with the same widths.
pub open spec fn same_width_maps(m1: Map<Seq<char>, GenericWidth>, m2: Map<Seq<char>, GenericWidth>) -> bool {
    &&& m1.dom() == m2.dom()
    &&& forall|k: Seq<char>| #[trigger] m1.contains_key(k) ==> same_width(m1[k], m2[k])
}

/// Whether two optional strings are the same text.
fn opt_string_eq(a: &Option<String>, b: &Option<String>) -> (r: bool)
    ensures
        r == (opt_text(*a) == opt_text(*b)),
{
    match (a, b) {
        (Some(x), Some(y)) => crate::keys::key_eq(x.as_str(), y.as_str()),
        (None, None) => true,
        _ => false,
    }
}

/// Whether two identifiers are the same.
fn ident_eq(a: &Identifier, b: &Identifier) -> (r: bool)
    ensures
        r == same_ident(*a, *b),
{
    crate::keys::key_eq(a.value.as_str(), b.value.as_str()) && opt_string_eq(&a.path, &b.path) && a.line == b.line
}

/// Whether two width expressions are the same.
pub fn width_eq(a: &GenericWidth, b: &GenericWidth) -> (r: bool)
    ensures
        r == same_width(*a, *b),
    decreases a,
{
    match (a, b) {
        (GenericWidth::Terminal(Terminal::Num(x)), GenericWidth::Terminal(Terminal::Num(y))) => *x == *y,
        (GenericWidth::Terminal(Terminal::Var(x)), GenericWidth::Terminal(Terminal::Var(y))) => ident_eq(x, y),
        (GenericWidth::Expr(o1, a1, b1), GenericWidth::Expr(o2, a2, b2)) => *o1 == *o2 && width_eq(a1, a2) && width_eq(b1, b2),
        _ => false,
    }
}

/// A copy of a map of widths.
pub fn copy_widths(m: &StrMap<GenericWidth>) -> (r: StrMap<GenericWidth>)
    ensures
        r.map() == m.map(),
{
    let mut r: StrMap<GenericWidth> = StrMap::new();
    let n = m.len();
    let mut i: usize = 0;
    proof {
        use_type_invariant(m);
        assert(m.keys().subrange(0, 0).to_set() =~= Set::empty());
        assert(r.map() =~= m.map().restrict(Set::empty()));
    }
    while i < n
        invariant
            n == m.keys().len(),
            i <= n,
            m.wf(),
            r.map() == m.map().restrict(m.keys().subrange(0, i as int).to_set()),
        decreases n - i,
    {
        let k = m.key_at(i).clone();
        let v = m.value_at(i).clone();
        r.insert(k, v);
        proof {
            m.lemma_layout();
            assert(m.keys().subrange(0, i + 1) =~= m.keys().subrange(0, i as int).push(m.keys()[i as int]));
            m.keys().subrange(0, i as int).lemma_push_to_set_commute(m.keys()[i as int]);
            assert(r.map() =~= m.map().restrict(m.keys().subrange(0, i + 1).to_set()));
        }
        i = i + 1;
    }
    proof {
        m.lemma_layout();
        assert(m.keys().subrange(0, n as int) =~= m.keys());
        assert(m.map().dom() =~= m.keys().to_set());
        assert(r.map() =~= m.map());
    }
    r
}

/// Whether two maps of widths are the same.
pub fn same_widths(a: &StrMap<GenericWidth>, b: &StrMap<GenericWidth>) -> (r: bool)
    ensures
        r == same_width_maps(a.map(), b.map()),
{
    proof {
        use_type_invariant(a);
        use_type_invariant(b);
        a.lemma_layout();
        b.lemma_layout();
    }
    if a.len() != b.len() {
        return false;
    }
    let mut i: usize = 0;
    while i < a.len()
        invariant
            i <= a.keys().len(),
            a.keys().len() == b.keys().len(),
            a.wf(),
            b.wf(),
            forall|j: int| 0 <= j < i ==> b.map().contains_key(#[trigger] a.keys()[j]) && same_width(a.map()[a.keys()[j]], b.map()[a.keys()[j]]),
        decreases a.keys().len() - i,
    {
        proof {
            a.lemma_layout();
        }
        let k = a.key_at(i);
        match b.get(k.as_str()) {
            None => {
                proof {
                    assert(a.map().contains_key(k@));
                }
                return false;
            },
            Some(v) => {
                let av = a.value_at(i);
                if !width_eq(av, v) {
                    proof {
                        assert(a.map().contains_key(k@));
                    }
                    return false;
                }
                assert(b.map().contains_key(a.keys()[i as int]) && same_width(a.map()[a.keys()[i as int]], b.map()[a.keys()[i as int]]));
            },
        }
        i = i + 1;
    }
    proof {
        a.lemma_layout();
        b.lemma_layout();
        assert forall|k: Seq<char>| a.map().dom().contains(k) implies b.map().dom().contains(k) by {
            let j = a.keys().index_of(k);
            assert(a.keys()[j] == k);
        }
        vstd::set_lib::lemma_subset_equality(a.map().dom(), b.map().dom());
        assert forall|k: Seq<char>| #[trigger] a.map().contains_key(k) implies same_width(a.map()[k], b.map()[k]) by {
            let j = a.keys().index_of(k);
            assert(a.keys()[j] == k);
        }
    }
    true
}

// ========= WIDTH INFERENCE ========== //

/// What width inference works from: the chip's name, the library of chips,
/// the components (loops unrolled), the assignments, and the values of the
/// chip's generics.
pub struct InferEnv {
    pub hdl_name: Seq<char>,
    pub lib: Seq<ChipHDL>,
    pub comps: Seq<ComponentView>,
    pub asgs: Seq<AssignmentHDL>,
    pub vars: Map<Seq<char>, GenericWidth>,
}

/// An error of width inference: its message and kind.
pub type WidthError = (Seq<char>, ErrorKind);

/// The outcome of a step of width inference: `None` where it panics (or, for
/// the whole inference, where it does not end); else the widths or the error.
pub type WidthOutcome = Option<Result<Map<Seq<char>, GenericWidth>, WidthError>>;

/// An optional expression, evaluated: `None` where the evaluation panics.
pub open spec fn eval_opt(w: Option<GenericWidth>, vars: Map<Seq<char>, GenericWidth>) -> Option<Option<GenericWidth>> {
    match w {
        None => Some(None),
        Some(x) => match spec_eval_expr(x, vars) {
            None => None,
            Some(v) => Some(Some(v)),
        },
    }
}

/// The range of a bus, its inclusive bounds turned into `[start, end + 1)`:
/// `Some(None)` where it has no range, `None` where evaluating it panics (or
/// it has a start and no end).
pub open spec fn range_of(b: BusHDL, vars: Map<Seq<char>, GenericWidth>) -> Option<Option<(GenericWidth, GenericWidth)>> {
    match (eval_opt(b.start, vars), eval_opt(b.end, vars)) {
        (Some(s), Some(e)) => match s {
            None => Some(None),
            Some(ws) => match e {
                None => None,
                Some(we) => match spec_add(we, num(1)) {
                    None => None,
                    Some(e1) => Some(Some((ws, e1))),
                },
            },
        },
        _ => None,
    }
}

/// Whether a width is a number.
pub open spec fn is_num(w: GenericWidth) -> bool {
    w matches GenericWidth::Terminal(Terminal::Num(_))
}

/// The start of a width-mismatch message.
pub open spec fn inferred_prefix(hdl_name: Seq<char>, comp_name: Seq<char>, wire: Seq<char>, w: GenericWidth) -> Seq<char> {
    "Chip "@ + hdl_name + " component "@ + comp_name + " inferred width of signal "@ + wire + " is "@ + width_text(w)
}

/// The effect of a mapping whose wire has no range and whose port has none:
/// the wire takes the port's width, or must already have it.
pub open spec fn case_none_none(hdl_name: Seq<char>, comp_name: Seq<char>, m: PortMappingHDL, pw: GenericWidth, widths: Map<Seq<char>, GenericWidth>) -> WidthOutcome {
    let wn = m.wire.name@;
    if !widths.contains_key(wn) {
        Some(Ok(widths.insert(wn, pw)))
    } else {
        let w = widths[wn];
        if is_num(w) && !same_width(w, pw) {
            Some(Err((inferred_prefix(hdl_name, comp_name, wn, w) + ", not equal to width of port "@ + m.port.name@ + " which is "@
                + width_text(pw) + "."@, ErrorKind::ParseIdentError(m.wire_ident))))
        } else {
            Some(Ok(widths))
        }
    }
}

/// The effect of a mapping whose wire has no range and whose port has the
/// range `[ps, pe)`: the wire takes the range's length, or must already have it.
pub open spec fn case_none_some(hdl_name: Seq<char>, comp_name: Seq<char>, m: PortMappingHDL, ps: GenericWidth, pe: GenericWidth, widths: Map<Seq<char>, GenericWidth>) -> WidthOutcome {
    let wn = m.wire.name@;
    if !widths.contains_key(wn) {
        match spec_sub(pe, ps) {
            None => None,
            Some(d) => Some(Ok(widths.insert(wn, d))),
        }
    } else {
        let w = widths[wn];
        if is_num(w) {
            match spec_sub(pe, ps) {
                None => None,
                Some(d) => if !same_width(w, d) {
                    Some(Err((inferred_prefix(hdl_name, comp_name, wn, w) + ", not equal to width of port "@ + m.port.name@
                        + " range which is "@ + width_text(d) + "."@, ErrorKind::ParseIdentError(m.wire_ident))))
                } else {
                    Some(Ok(widths))
                },
            }
        } else {
            Some(Ok(widths))
        }
    }
}

/// The larger of two widths, as the width of the wire.
pub open spec fn max_width(a: GenericWidth, b: GenericWidth, vars: Map<Seq<char>, GenericWidth>) -> Option<GenericWidth> {
    spec_eval_expr(GenericWidth::Expr(Op::Max, Box::new(a), Box::new(b)), vars)
}

/// The effect of a mapping whose wire has the range `[ws, we)` and whose
/// port has no range: the range must be as long as the port is wide; the
/// wire then takes `we`, or the larger of `we` and its width.
pub open spec fn case_some_none(e: InferEnv, comp_name: Seq<char>, m: PortMappingHDL, pw: GenericWidth, ws: GenericWidth, we: GenericWidth, widths: Map<Seq<char>, GenericWidth>) -> WidthOutcome {
    let wn = m.wire.name@;
    let d = spec_sub(we, ws);
    if is_num(we) && is_num(ws) && d is None {
        None
    } else if is_num(we) && is_num(ws) && !same_width(d.unwrap(), pw) {
        if !widths.contains_key(wn) {
            Some(Err((inferred_prefix(e.hdl_name, comp_name, wn, d.unwrap()) + ", not equal to width of port "@ + m.port.name@
                + " width which is "@ + width_text(pw) + "."@, ErrorKind::ParseIdentError(m.wire_ident))))
        } else {
            Some(Err(("Chip `"@ + e.hdl_name + "` component `"@ + comp_name + "` wire range of signal `"@ + wn + "` is "@
                + width_text(d.unwrap()) + ", not equal port `"@ + m.port.name@ + "` width, which is "@ + width_text(pw) + "."@,
                ErrorKind::ParseIdentError(m.wire_ident))))
        }
    } else if !widths.contains_key(wn) {
        Some(Ok(widths.insert(wn, we)))
    } else {
        match max_width(we, widths[wn], e.vars) {
            None => None,
            Some(mx) => Some(Ok(widths.insert(wn, mx))),
        }
    }
}

/// The effect of a mapping whose wire has the range `[ws, we)` and whose
/// port has the range `[ps, pe)`: the ranges must be as long as each other;
/// the wire then takes `we`, or the larger of `we` and its width.
pub open spec fn case_some_some(e: InferEnv, comp_name: Seq<char>, m: PortMappingHDL, ws: GenericWidth, we: GenericWidth, ps: GenericWidth, pe: GenericWidth, widths: Map<Seq<char>, GenericWidth>) -> WidthOutcome {
    let wn = m.wire.name@;
    let all_num = is_num(we) && is_num(ws) && is_num(pe) && is_num(ps);
    let dw = spec_sub(we, ws);
    let dp = spec_sub(pe, ps);
    if all_num && (dw is None || dp is None) {
        None
    } else if all_num && !same_width(dw.unwrap(), dp.unwrap()) {
        Some(Err((inferred_prefix(e.hdl_name, comp_name, wn, dw.unwrap()) + ", not equal to width of port "@ + m.port.name@
            + " range which is "@ + width_text(dp.unwrap()) + "."@, ErrorKind::ParseIdentError(m.wire_ident))))
    } else if !widths.contains_key(wn) {
        Some(Ok(widths.insert(wn, we)))
    } else {
        match max_width(we, widths[wn], e.vars) {
            None => None,
            Some(mx) => Some(Ok(widths.insert(wn, mx))),
        }
    }
}

/// Whether a wire is one of the constants `false`, `true` or the placeholder
/// `none`, which take no width.
pub open spec fn is_pseudo_signal(name: Seq<char>) -> bool {
    lower_text(name) == "false"@ || ascii_lowercase(name) == "true"@ || ascii_lowercase(name) == "none"@
}

/// The effect of one port mapping of a component whose chip is `comp`, with
/// `cvars` the values of the component's generics.
#[verifier::opaque]
pub open spec fn mapping_step(e: InferEnv, comp: ChipHDL, part_name: Identifier, m: PortMappingHDL, cvars: Map<Seq<char>, GenericWidth>, widths: Map<Seq<char>, GenericWidth>) -> WidthOutcome {
    if is_pseudo_signal(m.wire.name@) {
        Some(Ok(widths))
    } else {
        match port_index_from(comp.ports@, m.port.name@, 0) {
            None => Some(Err(("Non-existent port "@ + m.port.name@, ErrorKind::ParseIdentError(part_name)))),
            Some(pi) => match spec_eval_expr(comp.ports@[pi].width, cvars) {
                None => None,
                Some(pw) => match (range_of(m.wire, e.vars), range_of(m.port, e.vars)) {
                    (Some(wr), Some(pr)) => match (wr, pr) {
                        (None, None) => case_none_none(e.hdl_name, comp.name@, m, pw, widths),
                        (None, Some((ps, pe))) => case_none_some(e.hdl_name, comp.name@, m, ps, pe, widths),
                        (Some((ws, we)), None) => case_some_none(e, comp.name@, m, pw, ws, we, widths),
                        (Some((ws, we)), Some((ps, pe))) => case_some_some(e, comp.name@, m, ws, we, ps, pe, widths),
                    },
                    _ => None,
                },
            },
        }
    }
}

/// The effects of the port mappings `ms`, in order.
pub open spec fn mappings_steps(e: InferEnv, comp: ChipHDL, part_name: Identifier, ms: Seq<PortMappingHDL>, cvars: Map<Seq<char>, GenericWidth>, widths: Map<Seq<char>, GenericWidth>) -> WidthOutcome
    decreases ms.len(),
{
    if ms.len() == 0 {
        Some(Ok(widths))
    } else {
        match mappings_steps(e, comp, part_name, ms.drop_last(), cvars, widths) {
            Some(Ok(w1)) => mapping_step(e, comp, part_name, ms.last(), cvars, w1),
            other => other,
        }
    }
}

/// Expressions evaluated: `None` where an evaluation panics.
pub open spec fn eval_all(gs: Seq<GenericWidth>, vars: Map<Seq<char>, GenericWidth>) -> Option<Seq<GenericWidth>>
    decreases gs.len(),
{
    if gs.len() == 0 {
        Some(Seq::empty())
    } else {
        match (eval_all(gs.drop_last(), vars), spec_eval_expr(gs.last(), vars)) {
            (Some(p), Some(v)) => Some(p.push(v)),
            _ => None,
        }
    }
}

/// The first `n` declared generics paired with their values, a later name
/// overriding an earlier one.
pub open spec fn zip_state(decls: Seq<Identifier>, params: Seq<GenericWidth>, n: int) -> Map<Seq<char>, GenericWidth>
    decreases n,
{
    if n <= 0 {
        Map::empty()
    } else {
        zip_state(decls, params, n - 1).insert(decls[n - 1].value@, params[n - 1])
    }
}

/// The smaller of two lengths.
pub open spec fn min_len(a: nat, b: nat) -> int {
    if a < b { a as int } else { b as int }
}

/// The effect of one component.
#[verifier::opaque]
pub open spec fn component_step(e: InferEnv, c: ComponentView, widths: Map<Seq<char>, GenericWidth>) -> WidthOutcome {
    match chip_named(e.lib, c.name.value@) {
        None => Some(Err((missing_chip_msg(c.name.value@), ErrorKind::IOError))),
        Some(comp) => match eval_all(c.generic_params, e.vars) {
            None => None,
            Some(params) => mappings_steps(
                e,
                comp,
                c.name,
                c.mappings,
                zip_state(comp.generic_decls@, params, min_len(comp.generic_decls@.len(), params.len())),
                widths,
            ),
        },
    }
}

/// The effects of the components `cs`, in order: one round.
pub open spec fn components_round(e: InferEnv, cs: Seq<ComponentView>, widths: Map<Seq<char>, GenericWidth>) -> WidthOutcome
    decreases cs.len(),
{
    if cs.len() == 0 {
        Some(Ok(widths))
    } else {
        match components_round(e, cs.drop_last(), widths) {
            Some(Ok(w1)) => component_step(e, cs.last(), w1),
            other => other,
        }
    }
}

/// The identifier that locates an error at the signal `name`: no path, no line.
pub open spec fn signal_ident(name: String) -> Identifier {
    Identifier { value: name, path: None, line: None }
}

/// The effect of one assignment: a side without a width takes the other's;
/// two widths must be the same.
pub open spec fn assign_step(a: AssignmentHDL, widths: Map<Seq<char>, GenericWidth>) -> Result<Map<Seq<char>, GenericWidth>, WidthError> {
    let l = a.left.name@;
    let r = a.right.name@;
    if widths.contains_key(l) && !widths.contains_key(r) {
        Ok(widths.insert(r, widths[l]))
    } else if !widths.contains_key(l) && widths.contains_key(r) {
        Ok(widths.insert(l, widths[r]))
    } else if widths.contains_key(l) && widths.contains_key(r) && !same_width(widths[l], widths[r]) {
        Err(("Signal widths of "@ + l + " and "@ + r + " are not equal."@, ErrorKind::ParseIdentError(signal_ident(a.right.name))))
    } else {
        Ok(widths)
    }
}

/// The effects of the assignments `asgs`, in order: one round.
pub open spec fn assign_round(asgs: Seq<AssignmentHDL>, widths: Map<Seq<char>, GenericWidth>) -> Result<Map<Seq<char>, GenericWidth>, WidthError>
    decreases asgs.len(),
{
    if asgs.len() == 0 {
        Ok(widths)
    } else {
        match assign_round(asgs.drop_last(), widths) {
            Ok(w1) => assign_step(asgs.last(), w1),
            Err(x) => Err(x),
        }
    }
}

/// Rounds of assignments until one changes nothing; `None` where `fuel`
/// rounds do not reach that.
pub open spec fn assign_fix(asgs: Seq<AssignmentHDL>, widths: Map<Seq<char>, GenericWidth>, fuel: nat) -> WidthOutcome
    decreases fuel,
{
    if fuel == 0 {
        None
    } else {
        match assign_round(asgs, widths) {
            Err(x) => Some(Err(x)),
            Ok(w2) => if same_width_maps(w2, widths) {
                Some(Ok(w2))
            } else {
                assign_fix(asgs, w2, (fuel - 1) as nat)
            },
        }
    }
}

/// The error for the first assignment of `asgs` whose sides both have no
/// width, if any.
pub open spec fn unsourced(asgs: Seq<AssignmentHDL>, widths: Map<Seq<char>, GenericWidth>) -> Option<WidthError>
    decreases asgs.len(),
{
    if asgs.len() == 0 {
        None
    } else {
        match unsourced(asgs.drop_last(), widths) {
            Some(x) => Some(x),
            None => {
                let a = asgs.last();
                if !widths.contains_key(a.left.name@) && !widths.contains_key(a.right.name@) {
                    Some(("Signals "@ + a.left.name@ + " and "@ + a.right.name@ + " have no source or destination."@,
                        ErrorKind::ParseIdentError(signal_ident(a.right.name))))
                } else {
                    None
                }
            },
        }
    }
}

/// Rounds over the components until one changes nothing, then rounds over
/// the assignments until one changes nothing, then the check that every
/// assignment has a width; `None` where it panics or `fuel` rounds in all do
/// not reach the end.
pub open spec fn infer_loop(e: InferEnv, widths: Map<Seq<char>, GenericWidth>, fuel: nat) -> WidthOutcome
    decreases fuel,
{
    if fuel == 0 {
        None
    } else {
        match components_round(e, e.comps, widths) {
            None => None,
            Some(Err(x)) => Some(Err(x)),
            Some(Ok(w2)) => if same_width_maps(w2, widths) {
                match assign_fix(e.asgs, w2, (fuel - 1) as nat) {
                    Some(Ok(w3)) => match unsourced(e.asgs, w3) {
                        Some(x) => Some(Err(x)),
                        None => Some(Ok(w3)),
                    },
                    other => other,
                }
            } else {
                infer_loop(e, w2, (fuel - 1) as nat)
            },
        }
    }
}

/// The values of the first `n` generics given, under the declared names.
pub open spec fn generic_vars(decls: Seq<Identifier>, generics: Seq<GenericWidth>, n: int) -> Map<Seq<char>, GenericWidth>
    decreases n,
{
    if n <= 0 {
        Map::empty()
    } else {
        generic_vars(decls, generics, n - 1).insert(decls[n - 1].value@, generics[n - 1])
    }
}

/// The widths of the chip's ports: `None` where evaluating one panics.
pub open spec fn port_widths(ports: Seq<GenericPort>, vars: Map<Seq<char>, GenericWidth>) -> Option<Map<Seq<char>, GenericWidth>>
    decreases ports.len(),
{
    if ports.len() == 0 {
        Some(Map::empty())
    } else {
        match (port_widths(ports.drop_last(), vars), spec_eval_expr(ports.last().width, vars)) {
            (Some(m), Some(w)) => Some(m.insert(ports.last().name.value@, w)),
            _ => None,
        }
    }
}

/// Width inference for a chip, with `fuel` rounds at most.
pub open spec fn infer_spec(
    hdl: ChipHDL,
    lib: Seq<ChipHDL>,
    comps: Seq<ComponentView>,
    asgs: Seq<AssignmentHDL>,
    generics: Seq<GenericWidth>,
    fuel: nat,
) -> WidthOutcome {
    if generics.len() > hdl.generic_decls@.len() {
        Some(Err((generics_count_msg(hdl.name@, hdl.generic_decls@.len(), generics.len()), ErrorKind::SimulationError(hdl.path))))
    } else {
        let vars = generic_vars(hdl.generic_decls@, generics, generics.len() as int);
        match port_widths(hdl.ports@, vars) {
            None => None,
            Some(w0) => infer_loop(InferEnv { hdl_name: hdl.name@, lib, comps, asgs, vars }, w0, fuel),
        }
    }
}

/// Whether both sides of assignment `a` have a width in `w`, the same one.
pub open spec fn sides_agree(a: AssignmentHDL, w: Map<Seq<char>, GenericWidth>) -> bool {
    &&& w.contains_key(a.left.name@)
    &&& w.contains_key(a.right.name@)
    &&& same_width(w[a.left.name@], w[a.right.name@])
}

/// A round of assignments never removes a signal's width.
proof fn lemma_round_grows(asgs: Seq<AssignmentHDL>, w: Map<Seq<char>, GenericWidth>)
    requires
        assign_round(asgs, w) is Ok,
    ensures
        w.dom().subset_of(assign_round(asgs, w)->Ok_0.dom()),
    decreases asgs.len(),
{
    if asgs.len() > 0 {
        lemma_round_grows(asgs.drop_last(), w);
    }
}

/// A round of assignments that adds no signal changes nothing, and every
/// assignment in it has both sides with the same width, or neither side
/// with a width.
proof fn lemma_round_fixed(asgs: Seq<AssignmentHDL>, w: Map<Seq<char>, GenericWidth>)
    requires
        assign_round(asgs, w) is Ok,
        assign_round(asgs, w)->Ok_0.dom() == w.dom(),
    ensures
        assign_round(asgs, w)->Ok_0 == w,
        forall|i: int| 0 <= i < asgs.len() ==> sides_agree(#[trigger] asgs[i], w) || (!w.contains_key(asgs[i].left.name@)
            && !w.contains_key(asgs[i].right.name@)),
    decreases asgs.len(),
{
    if asgs.len() > 0 {
        let init = asgs.drop_last();
        let w1 = assign_round(init, w)->Ok_0;
        lemma_round_grows(init, w);
        let a = asgs.last();
        let w2 = assign_step(a, w1)->Ok_0;
        assert(w1.dom().subset_of(w2.dom()));
        assert(w1.dom() =~= w.dom());
        lemma_round_fixed(init, w);
        if w1.contains_key(a.left.name@) && !w1.contains_key(a.right.name@) {
            assert(w2.contains_key(a.right.name@));
        }
        if !w1.contains_key(a.left.name@) && w1.contains_key(a.right.name@) {
            assert(w2.contains_key(a.left.name@));
        }
        assert forall|i: int| 0 <= i < asgs.len() implies sides_agree(#[trigger] asgs[i], w) || (!w.contains_key(asgs[i].left.name@)
            && !w.contains_key(asgs[i].right.name@)) by {
            if i < asgs.len() - 1 {
                assert(asgs[i] == init[i]);
            }
        }
    }
}

/// Rounds of assignments that come to rest leave every assignment with both
/// sides of the same width, or neither side with a width.
proof fn lemma_fix_rests(asgs: Seq<AssignmentHDL>, w: Map<Seq<char>, GenericWidth>, fuel: nat)
    requires
        assign_fix(asgs, w, fuel) matches Some(Ok(_)),
    ensures
        forall|i: int| 0 <= i < asgs.len() ==> sides_agree(#[trigger] asgs[i], assign_fix(asgs, w, fuel)->Some_0->Ok_0) || (
            !assign_fix(asgs, w, fuel)->Some_0->Ok_0.contains_key(asgs[i].left.name@) && !assign_fix(asgs, w, fuel)->Some_0->Ok_0.contains_key(
            asgs[i].right.name@)),
    decreases fuel,
{
    let w2 = assign_round(asgs, w)->Ok_0;
    if same_width_maps(w2, w) {
        lemma_round_fixed(asgs, w);
    } else {
        lemma_fix_rests(asgs, w2, (fuel - 1) as nat);
    }
}

/// Where no assignment lacks a width on both sides, each has one on a side.
proof fn lemma_no_unsourced(asgs: Seq<AssignmentHDL>, w: Map<Seq<char>, GenericWidth>)
    requires
        unsourced(asgs, w) is None,
    ensures
        forall|i: int| 0 <= i < asgs.len() ==> w.contains_key((#[trigger] asgs[i]).left.name@) || w.contains_key(asgs[i].right.name@),
    decreases asgs.len(),
{
    if asgs.len() > 0 {
        let init = asgs.drop_last();
        lemma_no_unsourced(init, w);
        assert forall|i: int| 0 <= i < asgs.len() implies w.contains_key((#[trigger] asgs[i]).left.name@) || w.contains_key(
            asgs[i].right.name@) by {
            if i < asgs.len() - 1 {
                assert(asgs[i] == init[i]);
            }
        }
    }
}

proof fn lemma_loop_agrees(e: InferEnv, widths: Map<Seq<char>, GenericWidth>, fuel: nat)
    requires
        infer_loop(e, widths, fuel) matches Some(Ok(_)),
    ensures
        forall|i: int| 0 <= i < e.asgs.len() ==> sides_agree(#[trigger] e.asgs[i], infer_loop(e, widths, fuel)->Some_0->Ok_0),
    decreases fuel,
{
    let w2 = components_round(e, e.comps, widths)->Some_0->Ok_0;
    if same_width_maps(w2, widths) {
        let w3 = assign_fix(e.asgs, w2, (fuel - 1) as nat)->Some_0->Ok_0;
        lemma_fix_rests(e.asgs, w2, (fuel - 1) as nat);
        lemma_no_unsourced(e.asgs, w3);
    } else {
        lemma_loop_agrees(e, w2, (fuel - 1) as nat);
    }
}

/// Where width inference succeeds, both sides of every assignment have a
/// width, and it is the same width.
pub proof fn lemma_inferred_assignments_agree(
    hdl: ChipHDL,
    lib: Seq<ChipHDL>,
    comps: Seq<ComponentView>,
    asgs: Seq<AssignmentHDL>,
    generics: Seq<GenericWidth>,
    fuel: nat,
)
    requires
        infer_spec(hdl, lib, comps, asgs, generics, fuel) matches Some(Ok(_)),
    ensures
        forall|i: int| 0 <= i < asgs.len() ==> sides_agree(#[trigger] asgs[i], infer_spec(hdl, lib, comps, asgs, generics, fuel)->Some_0->Ok_0),
{
    let vars = generic_vars(hdl.generic_decls@, generics, generics.len() as int);
    let w0 = port_widths(hdl.ports@, vars)->Some_0;
    lemma_loop_agrees(InferEnv { hdl_name: hdl.name@, lib, comps, asgs, vars }, w0, fuel);
}

/// Evaluates an optional expression.
fn eval_opt_exec(w: &Option<GenericWidth>, vars: &StrMap<GenericWidth>) -> (r: Option<GenericWidth>)
    requires
        eval_opt(*w, vars.map()) is Some,
    ensures
        Some(r) == eval_opt(*w, vars.map()),
{
    match w {
        None => None,
        Some(x) => Some(eval_expr(x, vars)),
    }
}

/// The range of a bus as `[start, end + 1)`, if it has one.
fn eval_range(b: &BusHDL, vars: &StrMap<GenericWidth>) -> (r: Option<(GenericWidth, GenericWidth)>)
    requires
        range_of(*b, vars.map()) is Some,
    ensures
        Some(r) == range_of(*b, vars.map()),
{
    let start = eval_opt_exec(&b.start, vars);
    let end = eval_opt_exec(&b.end, vars);
    match start {
        None => None,
        Some(ws) => {
            let we = end.unwrap();
            let e1 = width_add(&we, &GenericWidth::Terminal(Terminal::Num(1)));
            Some((ws, e1))
        },
    }
}

/// `Chip <hdl> component <comp> inferred width of signal <wire> is <w>`.
fn push_inferred_prefix(s: &mut String, hdl_name: &str, comp_name: &str, wire: &str, w: &GenericWidth)
    ensures
        final(s)@ == old(s)@ + inferred_prefix(hdl_name@, comp_name@, wire@, *w),
{
    let ghost s0 = s@;
    push_str(s, "Chip ");
    push_str(s, hdl_name);
    push_str(s, " component ");
    push_str(s, comp_name);
    push_str(s, " inferred width of signal ");
    push_str(s, wire);
    push_str(s, " is ");
    w.write_to(s);
    assert(s@ =~= s0 + inferred_prefix(hdl_name@, comp_name@, wire@, *w));
}

/// A width-mismatch error: the prefix, then `, not equal to width of port
/// <port><middle><other>.`
fn mismatch_error(hdl_name: &str, comp_name: &str, m: &PortMappingHDL, w: &GenericWidth, middle: &str, other: &GenericWidth) -> (e: N2VError)
    ensures
        e.msg@ == inferred_prefix(hdl_name@, comp_name@, m.wire.name@, *w) + ", not equal to width of port "@ + m.port.name@ + middle@
            + width_text(*other) + "."@,
        e.kind == ErrorKind::ParseIdentError(m.wire_ident),
{
    let mut msg = String::new();
    push_inferred_prefix(&mut msg, hdl_name, comp_name, m.wire.name.as_str(), w);
    let ghost s1 = msg@;
    push_str(&mut msg, ", not equal to width of port ");
    push_str(&mut msg, m.port.name.as_str());
    push_str(&mut msg, middle);
    other.write_to(&mut msg);
    push_str(&mut msg, ".");
    assert(msg@ =~= inferred_prefix(hdl_name@, comp_name@, m.wire.name@, *w) + ", not equal to width of port "@ + m.port.name@ + middle@
        + width_text(*other) + "."@);
    N2VError { msg, kind: ErrorKind::ParseIdentError(m.wire_ident.clone()) }
}

/// The error for a wire range that differs from the port's width, where the
/// wire already has a width.
fn range_error(hdl_name: &str, comp_name: &str, m: &PortMappingHDL, d: &GenericWidth, pw: &GenericWidth) -> (e: N2VError)
    ensures
        e.msg@ == "Chip `"@ + hdl_name@ + "` component `"@ + comp_name@ + "` wire range of signal `"@ + m.wire.name@ + "` is "@
            + width_text(*d) + ", not equal port `"@ + m.port.name@ + "` width, which is "@ + width_text(*pw) + "."@,
        e.kind == ErrorKind::ParseIdentError(m.wire_ident),
{
    let mut msg = String::new();
    push_str(&mut msg, "Chip `");
    push_str(&mut msg, hdl_name);
    push_str(&mut msg, "` component `");
    push_str(&mut msg, comp_name);
    push_str(&mut msg, "` wire range of signal `");
    push_str(&mut msg, m.wire.name.as_str());
    push_str(&mut msg, "` is ");
    d.write_to(&mut msg);
    push_str(&mut msg, ", not equal port `");
    push_str(&mut msg, m.port.name.as_str());
    push_str(&mut msg, "` width, which is ");
    pw.write_to(&mut msg);
    push_str(&mut msg, ".");
    assert(msg@ =~= "Chip `"@ + hdl_name@ + "` component `"@ + comp_name@ + "` wire range of signal `"@ + m.wire.name@ + "` is "@
        + width_text(*d) + ", not equal port `"@ + m.port.name@ + "` width, which is "@ + width_text(*pw) + "."@);
    N2VError { msg, kind: ErrorKind::ParseIdentError(m.wire_ident.clone()) }
}

/// The larger of two widths, evaluated.
fn eval_max_width(a: &GenericWidth, b: &GenericWidth, vars: &StrMap<GenericWidth>) -> (r: GenericWidth)
    requires
        max_width(*a, *b, vars.map()) is Some,
    ensures
        Some(r) == max_width(*a, *b, vars.map()),
{
    let e = GenericWidth::Expr(Op::Max, Box::new(a.clone()), Box::new(b.clone()));
    eval_expr(&e, vars)
}

/// Applies one port mapping of a component to the inferred widths.
#[verifier::spinoff_prover]
fn mapping_widths(
    inferred: &mut StrMap<GenericWidth>,
    m: &PortMappingHDL,
    comp: &ChipHDL,
    part_name: &Identifier,
    cvars: &StrMap<GenericWidth>,
    variables: &StrMap<GenericWidth>,
    hdl_name: &String,
    Ghost(e): Ghost<InferEnv>,
) -> (r: Result<(), N2VError>)
    requires
        e.vars == variables.map(),
        e.hdl_name == hdl_name@,
        mapping_step(e, *comp, *part_name, *m, cvars.map(), old(inferred).map()) is Some,
    ensures
        match mapping_step(e, *comp, *part_name, *m, cvars.map(), old(inferred).map()).unwrap() {
            Ok(w) => r is Ok && final(inferred).map() == w,
            Err((msg, k)) => r matches Err(x) && x.msg@ == msg && x.kind == k,
        },
{
    reveal(mapping_step);
    let lower = to_lowercase(m.wire.name.as_str());
    let ascii = to_ascii_lowercase(m.wire.name.as_str());
    proof {
        reveal_strlit("false");
        reveal_strlit("true");
        reveal_strlit("none");
    }
    if crate::keys::key_eq(lower.as_str(), "false") || crate::keys::key_eq(ascii.as_str(), "true")
        || crate::keys::key_eq(ascii.as_str(), "none") {
        return Ok(());
    }
    proof {
        lemma_port_index_from(comp.ports@, m.port.name@, 0);
    }
    let port_idx = match comp.port_index(m.port.name.as_str()) {
        Some(i) => i,
        None => {
            let mut msg = String::new();
            push_str(&mut msg, "Non-existent port ");
            push_str(&mut msg, m.port.name.as_str());
            return Err(N2VError { msg, kind: ErrorKind::ParseIdentError(part_name.clone()) });
        },
    };
    let port = &comp.ports[port_idx];
    let hdl_port_width = eval_expr(&port.width, cvars);
    let mp_wire_range = eval_range(&m.wire, variables);
    let mp_port_range = eval_range(&m.port, variables);
    let comp_name = comp.name.as_str();
    let wn = m.wire.name.as_str();
    match (mp_wire_range, mp_port_range) {
        (None, None) => {
            match inferred.get(wn) {
                None => {
                    inferred.insert(m.wire.name.clone(), hdl_port_width);
                },
                Some(w) => {
                    if w.is_numeric() && !width_eq(w, &hdl_port_width) {
                        return Err(mismatch_error(hdl_name.as_str(), comp_name, m, w, " which is ", &hdl_port_width));
                    }
                },
            }
        },
        (None, Some((ps, pe))) => {
            match inferred.get(wn) {
                None => {
                    let d = width_sub(&pe, &ps);
                    inferred.insert(m.wire.name.clone(), d);
                },
                Some(w) => {
                    if w.is_numeric() {
                        let d = width_sub(&pe, &ps);
                        if !width_eq(w, &d) {
                            return Err(mismatch_error(hdl_name.as_str(), comp_name, m, w, " range which is ", &d));
                        }
                    }
                },
            }
        },
        (Some((ws, we)), None) => {
            if we.is_numeric() && ws.is_numeric() {
                let d = width_sub(&we, &ws);
                if !width_eq(&d, &hdl_port_width) {
                    if inferred.get(wn).is_none() {
                        return Err(mismatch_error(hdl_name.as_str(), comp_name, m, &d, " width which is ", &hdl_port_width));
                    } else {
                        return Err(range_error(hdl_name.as_str(), comp_name, m, &d, &hdl_port_width));
                    }
                }
            }
            match inferred.get(wn) {
                None => {
                    inferred.insert(m.wire.name.clone(), we);
                },
                Some(w) => {
                    let mx = eval_max_width(&we, w, variables);
                    inferred.insert(m.wire.name.clone(), mx);
                },
            }
        },
        (Some((ws, we)), Some((ps, pe))) => {
            if we.is_numeric() && ws.is_numeric() && pe.is_numeric() && ps.is_numeric() {
                let dw = width_sub(&we, &ws);
                let dp = width_sub(&pe, &ps);
                if !width_eq(&dw, &dp) {
                    return Err(mismatch_error(hdl_name.as_str(), comp_name, m, &dw, " range which is ", &dp));
                }
            }
            match inferred.get(wn) {
                None => {
                    inferred.insert(m.wire.name.clone(), we);
                },
                Some(w) => {
                    let mx = eval_max_width(&we, w, variables);
                    inferred.insert(m.wire.name.clone(), mx);
                },
            }
        },
    }
    Ok(())
}

/// A number of rounds within which width inference ends, where there is one.
pub open spec fn infer_fuel(hdl: ChipHDL, lib: Seq<ChipHDL>, comps: Seq<ComponentView>, asgs: Seq<AssignmentHDL>, generics: Seq<GenericWidth>) -> nat {
    choose|fuel: nat| infer_spec(hdl, lib, comps, asgs, generics, fuel) is Some
}

/// Applies one component's port mappings to the inferred widths.
#[verifier::spinoff_prover]
fn component_widths(
    inferred: &mut StrMap<GenericWidth>,
    part: &Component,
    library: &Vec<ChipHDL>,
    variables: &StrMap<GenericWidth>,
    hdl_name: &String,
    Ghost(e): Ghost<InferEnv>,
) -> (r: Result<(), N2VError>)
    requires
        e.lib == library@,
        e.vars == variables.map(),
        e.hdl_name == hdl_name@,
        component_step(e, part@, old(inferred).map()) is Some,
    ensures
        match component_step(e, part@, old(inferred).map()).unwrap() {
            Ok(w) => r is Ok && final(inferred).map() == w,
            Err((msg, k)) => r matches Err(x) && x.msg@ == msg && x.kind == k,
        },
{
    reveal(component_step);
    let component_hdl = match get_hdl(part.name.value.as_str(), library) {
        Some(c) => c,
        None => return Err(missing_chip(part.name.value.as_str())),
    };
    let mut generic_params: Vec<GenericWidth> = Vec::new();
    let mut i: usize = 0;
    while i < part.generic_params.len()
        invariant
            i <= part.generic_params.len(),
            e.vars == variables.map(),
            eval_all(part.generic_params@, e.vars) is Some,
            eval_all(part.generic_params@.take(i as int), e.vars) == Some(generic_params@),
        decreases part.generic_params.len() - i,
    {
        proof {
            lemma_eval_all_prefix(part.generic_params@, e.vars, i as int + 1);
        }
        assert(part.generic_params@.take(i + 1).drop_last() =~= part.generic_params@.take(i as int));
        let g = eval_expr(&part.generic_params[i], variables);
        generic_params.push(g);
        i = i + 1;
    }
    assert(part.generic_params@.take(part.generic_params.len() as int) =~= part.generic_params@);
    let n = if component_hdl.generic_decls.len() < generic_params.len() {
        component_hdl.generic_decls.len()
    } else {
        generic_params.len()
    };
    let mut component_variables: StrMap<GenericWidth> = StrMap::new();
    let mut k: usize = 0;
    while k < n
        invariant
            k <= n,
            n <= component_hdl.generic_decls.len(),
            n <= generic_params.len(),
            component_variables.map() == zip_state(component_hdl.generic_decls@, generic_params@, k as int),
        decreases n - k,
    {
        component_variables.insert(component_hdl.generic_decls[k].value.clone(), generic_params[k].clone());
        k = k + 1;
    }
    let ghost cvars = component_variables.map();
    assert(n as int == min_len(component_hdl.generic_decls@.len(), generic_params@.len()));
    assert(component_step(e, part@, old(inferred).map()) == mappings_steps(e, *component_hdl, part.name, part.mappings@, cvars, old(inferred).map()));
    let mut j: usize = 0;
    assert(part.mappings@.take(0) =~= Seq::<PortMappingHDL>::empty());
    while j < part.mappings.len()
        invariant
            j <= part.mappings.len(),
            component_step(e, part@, old(inferred).map()) == mappings_steps(e, *component_hdl, part.name, part.mappings@, cvars, old(inferred).map()),
            e.lib == library@,
            e.vars == variables.map(),
            e.hdl_name == hdl_name@,
            cvars == component_variables.map(),
            chip_named(e.lib, part.name.value@) == Some(*component_hdl),
            mappings_steps(e, *component_hdl, part.name, part.mappings@, cvars, old(inferred).map()) is Some,
            mappings_steps(e, *component_hdl, part.name, part.mappings@.take(j as int), cvars, old(inferred).map()) == Some(
                Ok::<Map<Seq<char>, GenericWidth>, WidthError>(inferred.map()),
            ),
        decreases part.mappings.len() - j,
    {
        proof {
            lemma_mappings_prefix(e, *component_hdl, part.name, part.mappings@, cvars, old(inferred).map(), j as int + 1);
        }
        assert(part.mappings@.take(j + 1).drop_last() =~= part.mappings@.take(j as int));
        assert(part.mappings@.take(j + 1).last() == part.mappings@[j as int]);
        match mapping_widths(inferred, &part.mappings[j], component_hdl, &part.name, &component_variables, variables, hdl_name, Ghost(e)) {
            Ok(()) => {},
            Err(x) => {
                proof {
                    lemma_mappings_error_stays(e, *component_hdl, part.name, part.mappings@, cvars, old(inferred).map(), j as int + 1);
                }
                return Err(x);
            },
        }
        j = j + 1;
    }
    assert(part.mappings@.take(part.mappings.len() as int) =~= part.mappings@);
    Ok(())
}

/// A prefix of expressions evaluates where all of them do.
proof fn lemma_eval_all_prefix(gs: Seq<GenericWidth>, vars: Map<Seq<char>, GenericWidth>, q: int)
    requires
        0 <= q <= gs.len(),
        eval_all(gs, vars) is Some,
    ensures
        eval_all(gs.take(q), vars) is Some,
        q > 0 ==> spec_eval_expr(gs[q - 1], vars) is Some,
    decreases gs.len() - q,
{
    if q < gs.len() {
        lemma_eval_all_prefix(gs, vars, q + 1);
        assert(gs.take(q + 1).drop_last() =~= gs.take(q));
        assert(gs.take(q + 1).last() == gs[q]);
    } else {
        assert(gs.take(q) =~= gs);
    }
    if q > 0 {
        assert(gs.take(q).last() == gs[q - 1]);
    }
}

/// A prefix of the mappings does not panic where all of them do not, and an
/// error in it is the error of all of them.
proof fn lemma_mappings_prefix(e: InferEnv, comp: ChipHDL, part_name: Identifier, ms: Seq<PortMappingHDL>, cvars: Map<Seq<char>, GenericWidth>, w: Map<Seq<char>, GenericWidth>, q: int)
    requires
        0 <= q <= ms.len(),
        mappings_steps(e, comp, part_name, ms, cvars, w) is Some,
    ensures
        mappings_steps(e, comp, part_name, ms.take(q), cvars, w) is Some,
        mappings_steps(e, comp, part_name, ms.take(q), cvars, w) matches Some(Err(x)) ==> mappings_steps(e, comp, part_name, ms, cvars, w)
            == Some(Err::<Map<Seq<char>, GenericWidth>, WidthError>(x)),
    decreases ms.len() - q,
{
    if q < ms.len() {
        lemma_mappings_prefix(e, comp, part_name, ms, cvars, w, q + 1);
        assert(ms.take(q + 1).drop_last() =~= ms.take(q));
    } else {
        assert(ms.take(q) =~= ms);
    }
}

/// An error in a prefix of the mappings is the error of all of them.
proof fn lemma_mappings_error_stays(e: InferEnv, comp: ChipHDL, part_name: Identifier, ms: Seq<PortMappingHDL>, cvars: Map<Seq<char>, GenericWidth>, w: Map<Seq<char>, GenericWidth>, q: int)
    requires
        0 <= q <= ms.len(),
        mappings_steps(e, comp, part_name, ms, cvars, w) is Some,
    ensures
        mappings_steps(e, comp, part_name, ms.take(q), cvars, w) matches Some(Err(x)) ==> mappings_steps(e, comp, part_name, ms, cvars, w)
            == Some(Err::<Map<Seq<char>, GenericWidth>, WidthError>(x)),
{
    lemma_mappings_prefix(e, comp, part_name, ms, cvars, w, q);
}

/// A prefix of the components does not panic where all of them do not, and
/// an error in it is the error of all of them.
proof fn lemma_round_prefix(e: InferEnv, cs: Seq<ComponentView>, w: Map<Seq<char>, GenericWidth>, q: int)
    requires
        0 <= q <= cs.len(),
        components_round(e, cs, w) is Some,
    ensures
        components_round(e, cs.take(q), w) is Some,
        components_round(e, cs.take(q), w) matches Some(Err(x)) ==> components_round(e, cs, w) == Some(
            Err::<Map<Seq<char>, GenericWidth>, WidthError>(x),
        ),
    decreases cs.len() - q,
{
    if q < cs.len() {
        lemma_round_prefix(e, cs, w, q + 1);
        assert(cs.take(q + 1).drop_last() =~= cs.take(q));
    } else {
        assert(cs.take(q) =~= cs);
    }
}

/// An error in a prefix of the assignments is the error of all of them.
proof fn lemma_assign_prefix(asgs: Seq<AssignmentHDL>, w: Map<Seq<char>, GenericWidth>, q: int)
    requires
        0 <= q <= asgs.len(),
    ensures
        assign_round(asgs.take(q), w) matches Err(x) ==> assign_round(asgs, w) == Err::<Map<Seq<char>, GenericWidth>, WidthError>(x),
    decreases asgs.len() - q,
{
    if q < asgs.len() {
        lemma_assign_prefix(asgs, w, q + 1);
        assert(asgs.take(q + 1).drop_last() =~= asgs.take(q));
    } else {
        assert(asgs.take(q) =~= asgs);
    }
}

/// A found error in a prefix of the assignments is the first of all of them.
proof fn lemma_unsourced_prefix(asgs: Seq<AssignmentHDL>, w: Map<Seq<char>, GenericWidth>, q: int)
    requires
        0 <= q <= asgs.len(),
    ensures
        unsourced(asgs.take(q), w) matches Some(x) ==> unsourced(asgs, w) == Some(x),
    decreases asgs.len() - q,
{
    if q < asgs.len() {
        lemma_unsourced_prefix(asgs, w, q + 1);
        assert(asgs.take(q + 1).drop_last() =~= asgs.take(q));
    } else {
        assert(asgs.take(q) =~= asgs);
    }
}

/// One round over the assignments.
fn assignment_round(inferred: &mut StrMap<GenericWidth>, assignments: &Vec<AssignmentHDL>) -> (r: Result<(), N2VError>)
    ensures
        match assign_round(assignments@, old(inferred).map()) {
            Ok(w) => r is Ok && final(inferred).map() == w,
            Err((msg, k)) => r matches Err(x) && x.msg@ == msg && x.kind == k,
        },
{
    let mut i: usize = 0;
    while i < assignments.len()
        invariant
            i <= assignments.len(),
            assign_round(assignments@.take(i as int), old(inferred).map()) == Ok::<Map<Seq<char>, GenericWidth>, WidthError>(inferred.map()),
        decreases assignments.len() - i,
    {
        assert(assignments@.take(i + 1).drop_last() =~= assignments@.take(i as int));
        assert(assignments@.take(i + 1).last() == assignments@[i as int]);
        let a = &assignments[i];
        let wl = match inferred.get(a.left.name.as_str()) {
            Some(w) => Some(w.clone()),
            None => None,
        };
        let wr = match inferred.get(a.right.name.as_str()) {
            Some(w) => Some(w.clone()),
            None => None,
        };
        match (wl, wr) {
            (Some(w), None) => {
                inferred.insert(a.right.name.clone(), w);
            },
            (None, Some(w)) => {
                inferred.insert(a.left.name.clone(), w);
            },
            (Some(w1), Some(w2)) => {
                if !width_eq(&w1, &w2) {
                    let mut msg = String::new();
                    push_str(&mut msg, "Signal widths of ");
                    push_str(&mut msg, a.left.name.as_str());
                    push_str(&mut msg, " and ");
                    push_str(&mut msg, a.right.name.as_str());
                    push_str(&mut msg, " are not equal.");
                    proof {
                        lemma_assign_prefix(assignments@, old(inferred).map(), i as int + 1);
                    }
                    return Err(N2VError {
                        msg,
                        kind: ErrorKind::ParseIdentError(Identifier { value: a.right.name.clone(), path: None, line: None }),
                    });
                }
            },
            (None, None) => {},
        }
        i = i + 1;
    }
    assert(assignments@.take(assignments.len() as int) =~= assignments@);
    Ok(())
}

/// The error for the first assignment whose sides both have no width, if any.
fn check_sources(inferred: &StrMap<GenericWidth>, assignments: &Vec<AssignmentHDL>) -> (r: Result<(), N2VError>)
    ensures
        match unsourced(assignments@, inferred.map()) {
            None => r is Ok,
            Some((msg, k)) => r matches Err(x) && x.msg@ == msg && x.kind == k,
        },
{
    let mut i: usize = 0;
    while i < assignments.len()
        invariant
            i <= assignments.len(),
            unsourced(assignments@.take(i as int), inferred.map()) is None,
        decreases assignments.len() - i,
    {
        assert(assignments@.take(i + 1).drop_last() =~= assignments@.take(i as int));
        assert(assignments@.take(i + 1).last() == assignments@[i as int]);
        let a = &assignments[i];
        if inferred.get(a.left.name.as_str()).is_none() && inferred.get(a.right.name.as_str()).is_none() {
            let mut msg = String::new();
            push_str(&mut msg, "Signals ");
            push_str(&mut msg, a.left.name.as_str());
            push_str(&mut msg, " and ");
            push_str(&mut msg, a.right.name.as_str());
            push_str(&mut msg, " have no source or destination.");
            proof {
                lemma_unsourced_prefix(assignments@, inferred.map(), i as int + 1);
            }
            return Err(N2VError {
                msg,
                kind: ErrorKind::ParseIdentError(Identifier { value: a.right.name.clone(), path: None, line: None }),
            });
        }
        i = i + 1;
    }
    assert(assignments@.take(assignments.len() as int) =~= assignments@);
    Ok(())
}

/// Infers the width of every signal of a chip: first from the widths of its
/// ports, then, round after round until a round changes nothing, from the
/// port mappings of its components (a wire takes the width of the port it is
/// mapped to, or of the range it is mapped with), then, round after round
/// until one changes nothing, across its assignments. `Err` where the chip is
/// given more generics than it declares, where a component or port does not
/// exist, where two widths of a signal disagree, or where an assignment joins
/// two signals that nothing gives a width.
///
/// `library` holds the parsed chips of the components; `generics` are the
/// values of the chip's generics. The rounds must come to an end, which the
/// precondition states.
#[verifier::spinoff_prover]
pub fn infer_widths(
    hdl: &ChipHDL,
    assignments: &Vec<AssignmentHDL>,
    components: &Vec<Component>,
    library: &Vec<ChipHDL>,
    generics: &Vec<GenericWidth>,
) -> (r: Result<StrMap<GenericWidth>, N2VError>)
    requires
        exists|fuel: nat| infer_spec(*hdl, library@, components_view(components@), assignments@, generics@, fuel) is Some,
    ensures
        ({
            let fuel = infer_fuel(*hdl, library@, components_view(components@), assignments@, generics@);
            match infer_spec(*hdl, library@, components_view(components@), assignments@, generics@, fuel).unwrap() {
                Ok(w) => r matches Ok(m) && m.map() == w,
                Err((msg, k)) => r matches Err(x) && x.msg@ == msg && x.kind == k,
            }
        }),
{
    let ghost fuel0 = infer_fuel(*hdl, library@, components_view(components@), assignments@, generics@);
    let ghost target = infer_spec(*hdl, library@, components_view(components@), assignments@, generics@, fuel0);
    if generics.len() > hdl.generic_decls.len() {
        let mut msg = String::new();
        push_str(&mut msg, "Chip ");
        push_str(&mut msg, hdl.name.as_str());
        push_str(&mut msg, " declares ");
        push_decimal(&mut msg, hdl.generic_decls.len());
        push_str(&mut msg, " generics but instantiated with ");
        push_decimal(&mut msg, generics.len());
        return Err(N2VError { msg, kind: ErrorKind::SimulationError(clone_opt_string(&hdl.path)) });
    }
    let mut variables: StrMap<GenericWidth> = StrMap::new();
    let mut gv: usize = 0;
    while gv < generics.len()
        invariant
            gv <= generics.len(),
            generics.len() <= hdl.generic_decls.len(),
            variables.map() == generic_vars(hdl.generic_decls@, generics@, gv as int),
        decreases generics.len() - gv,
    {
        variables.insert(hdl.generic_decls[gv].value.clone(), generics[gv].clone());
        gv = gv + 1;
    }
    let ghost vars = variables.map();
    let mut inferred_widths: StrMap<GenericWidth> = StrMap::new();
    let mut p: usize = 0;
    proof {
        lemma_port_widths_prefix(hdl.ports@, vars, hdl.ports@.len() as int);
        assert(hdl.ports@.take(hdl.ports@.len() as int) =~= hdl.ports@);
        assert(hdl.ports@.take(0) =~= Seq::<GenericPort>::empty());
    }
    while p < hdl.ports.len()
        invariant
            p <= hdl.ports.len(),
            vars == variables.map(),
            port_widths(hdl.ports@, vars) is Some,
            port_widths(hdl.ports@.take(p as int), vars) == Some(inferred_widths.map()),
        decreases hdl.ports.len() - p,
    {
        proof {
            lemma_port_widths_prefix(hdl.ports@, vars, p as int + 1);
        }
        assert(hdl.ports@.take(p + 1).drop_last() =~= hdl.ports@.take(p as int));
        assert(hdl.ports@.take(p + 1).last() == hdl.ports@[p as int]);
        let w = eval_expr(&hdl.ports[p].width, &variables);
        inferred_widths.insert(hdl.ports[p].name.value.clone(), w);
        p = p + 1;
    }
    assert(hdl.ports@.take(hdl.ports.len() as int) =~= hdl.ports@);
    let ghost e = InferEnv { hdl_name: hdl.name@, lib: library@, comps: components_view(components@), asgs: assignments@, vars };
    let ghost mut fuel: nat = fuel0;
    loop
        invariant
            e == (InferEnv { hdl_name: hdl.name@, lib: library@, comps: components_view(components@), asgs: assignments@, vars }),
            vars == variables.map(),
            fuel0 == infer_fuel(*hdl, library@, components_view(components@), assignments@, generics@),
            target == infer_spec(*hdl, library@, components_view(components@), assignments@, generics@, fuel0),
            target is Some,
            infer_loop(e, inferred_widths.map(), fuel) == target,
        decreases fuel,
    {
        let last_inferred_widths = copy_widths(&inferred_widths);
        let ghost w_start = inferred_widths.map();
        match components_widths(&mut inferred_widths, components, library, &variables, &hdl.name, Ghost(e)) {
            Ok(()) => {},
            Err(x) => {
                return Err(x);
            },
        }
        if same_widths(&inferred_widths, &last_inferred_widths) {
            match assignments_fixpoint(&mut inferred_widths, assignments, Ghost((fuel - 1) as nat)) {
                Ok(()) => {},
                Err(x) => {
                    return Err(x);
                },
            }
            match check_sources(&inferred_widths, assignments) {
                Ok(()) => {},
                Err(x) => {
                    return Err(x);
                },
            }
            return Ok(inferred_widths);
        }
        proof {
            fuel = (fuel - 1) as nat;
        }
    }
}

/// One round over the components.
fn components_widths(
    inferred: &mut StrMap<GenericWidth>,
    components: &Vec<Component>,
    library: &Vec<ChipHDL>,
    variables: &StrMap<GenericWidth>,
    hdl_name: &String,
    Ghost(e): Ghost<InferEnv>,
) -> (r: Result<(), N2VError>)
    requires
        e.comps == components_view(components@),
        e.lib == library@,
        e.vars == variables.map(),
        e.hdl_name == hdl_name@,
        components_round(e, e.comps, old(inferred).map()) is Some,
    ensures
        match components_round(e, e.comps, old(inferred).map()).unwrap() {
            Ok(w) => r is Ok && final(inferred).map() == w,
            Err((msg, k)) => r matches Err(x) && x.msg@ == msg && x.kind == k,
        },
{
    let ghost w_start = inferred.map();
    let mut c: usize = 0;
    proof {
        lemma_round_prefix(e, e.comps, w_start, 0);
        assert(e.comps.take(0) =~= Seq::<ComponentView>::empty());
    }
    while c < components.len()
        invariant
            c <= components.len(),
            e.comps == components_view(components@),
            e.lib == library@,
            e.vars == variables.map(),
            e.hdl_name == hdl_name@,
            w_start == old(inferred).map(),
            components_round(e, e.comps, w_start) is Some,
            components_round(e, e.comps.take(c as int), w_start) == Some(Ok::<Map<Seq<char>, GenericWidth>, WidthError>(inferred.map())),
        decreases components.len() - c,
    {
        proof {
            lemma_round_prefix(e, e.comps, w_start, c as int + 1);
        }
        assert(e.comps.take(c + 1).drop_last() =~= e.comps.take(c as int));
        assert(e.comps.take(c + 1).last() == components@[c as int]@);
        match component_widths(inferred, &components[c], library, variables, hdl_name, Ghost(e)) {
            Ok(()) => {},
            Err(x) => {
                return Err(x);
            },
        }
        c = c + 1;
    }
    assert(e.comps.take(components.len() as int) =~= e.comps);
    Ok(())
}

/// Rounds over the assignments until one changes nothing.
fn assignments_fixpoint(inferred: &mut StrMap<GenericWidth>, assignments: &Vec<AssignmentHDL>, Ghost(fuel): Ghost<nat>) -> (r: Result<(), N2VError>)
    requires
        assign_fix(assignments@, old(inferred).map(), fuel) is Some,
    ensures
        match assign_fix(assignments@, old(inferred).map(), fuel).unwrap() {
            Ok(w) => r is Ok && final(inferred).map() == w,
            Err((msg, k)) => r matches Err(x) && x.msg@ == msg && x.kind == k,
        },
{
    let ghost target = assign_fix(assignments@, inferred.map(), fuel);
    let ghost mut afuel: nat = fuel;
    loop
        invariant_except_break
            target == assign_fix(assignments@, old(inferred).map(), fuel),
            target == assign_fix(assignments@, inferred.map(), afuel),
            target is Some,
        ensures
            target == assign_fix(assignments@, old(inferred).map(), fuel),
            target == Some(Ok::<Map<Seq<char>, GenericWidth>, WidthError>(inferred.map())),
        decreases afuel,
    {
        let last = copy_widths(&inferred);
        match assignment_round(inferred, assignments) {
            Ok(()) => {},
            Err(x) => {
                return Err(x);
            },
        }
        if same_widths(&inferred, &last) {
            break;
        }
        proof {
            afuel = (afuel - 1) as nat;
        }
    }
    Ok(())
}

/// A prefix of the ports evaluates where all of them do.
proof fn lemma_port_widths_prefix(ports: Seq<GenericPort>, vars: Map<Seq<char>, GenericWidth>, q: int)
    requires
        0 <= q <= ports.len(),
        port_widths(ports, vars) is Some,
    ensures
        port_widths(ports.take(q), vars) is Some,
        q > 0 ==> spec_eval_expr(ports[q - 1].width, vars) is Some,
    decreases ports.len() - q,
{
    if q < ports.len() {
        lemma_port_widths_prefix(ports, vars, q + 1);
        assert(ports.take(q + 1).drop_last() =~= ports.take(q));
        assert(ports.take(q + 1).last() == ports[q]);
    } else {
        assert(ports.take(q) =~= ports);
    }
    if q > 0 {
        assert(ports.take(q).last() == ports[q - 1]);
    }
}

/// A loop from `start` to `end` repeats its body once for each value of its
/// variable: `end - start + 1` times.
pub proof fn lemma_unrolled_len(body: Seq<ComponentView>, it: Seq<char>, start: int, end: int)
    requires
        start <= end + 1,
    ensures
        unrolled(body, it, start, end).len() == (end - start + 1) * body.len(),
    decreases end - start + 1,
{
    if end >= start {
        lemma_unrolled_len(body, it, start, end - 1);
        assert(body.map_values(|c: ComponentView| component_at(c, it, end as usize)).len() == body.len());
        assert((end - 1 - start + 1) * body.len() + body.len() == (end - start + 1) * body.len()) by (nonlinear_arith);
    } else {
        assert(end - start + 1 == 0);
        assert((end - start + 1) * body.len() == 0) by (nonlinear_arith)
            requires
                end - start + 1 == 0,
        ;
    }
}

/// A round over assignments only adds widths: every width known before is
/// kept.
proof fn lemma_assign_round_grows(asgs: Seq<AssignmentHDL>, w: Map<Seq<char>, GenericWidth>)
    requires
        assign_round(asgs, w) is Ok,
    ensures
        w.submap_of(assign_round(asgs, w)->Ok_0),
    decreases asgs.len(),
{
    if asgs.len() > 0 {
        lemma_assign_round_grows(asgs.drop_last(), w);
        let w1 = assign_round(asgs.drop_last(), w)->Ok_0;
        lemma_assign_step_grows(asgs.last(), w1);
        lemma_submap_trans(w, w1, assign_round(asgs, w)->Ok_0);
    }
}

/// One assignment step only adds a width.
proof fn lemma_assign_step_grows(a: AssignmentHDL, w: Map<Seq<char>, GenericWidth>)
    requires
        assign_step(a, w) is Ok,
    ensures
        w.submap_of(assign_step(a, w)->Ok_0),
{
}

proof fn lemma_submap_trans(a: Map<Seq<char>, GenericWidth>, b: Map<Seq<char>, GenericWidth>, c: Map<Seq<char>, GenericWidth>)
    requires
        a.submap_of(b),
        b.submap_of(c),
    ensures
        a.submap_of(c),
{
    assert forall|k: Seq<char>| #[trigger] a.contains_key(k) implies c.contains_key(k) && c[k] == a[k] by {
        assert(b.contains_key(k));
    }
}

/// The widths after the first `k` assignments of a round are kept to the
/// end of the round.
proof fn lemma_assign_round_prefix(asgs: Seq<AssignmentHDL>, w: Map<Seq<char>, GenericWidth>, k: int)
    requires
        0 <= k <= asgs.len(),
        assign_round(asgs, w) is Ok,
    ensures
        assign_round(asgs.take(k), w) is Ok,
        assign_round(asgs.take(k), w)->Ok_0.submap_of(assign_round(asgs, w)->Ok_0),
    decreases asgs.len() - k,
{
    if k == asgs.len() {
        assert(asgs.take(k) =~= asgs);
    } else {
        lemma_assign_round_prefix(asgs, w, k + 1);
        assert(asgs.take(k + 1).drop_last() =~= asgs.take(k));
        assert(asgs.take(k + 1).last() == asgs[k]);
        let wk = assign_round(asgs.take(k), w)->Ok_0;
        lemma_assign_step_grows(asgs[k], wk);
        lemma_submap_trans(wk, assign_round(asgs.take(k + 1), w)->Ok_0, assign_round(asgs, w)->Ok_0);
    }
}

/// Where a round over the assignments changes no width, each assignment
/// has both sides with the same width, or neither side.
proof fn lemma_assign_round_fixed(asgs: Seq<AssignmentHDL>, w: Map<Seq<char>, GenericWidth>, i: int)
    requires
        0 <= i < asgs.len(),
        assign_round(asgs, w) is Ok,
        same_width_maps(assign_round(asgs, w)->Ok_0, w),
    ensures
        ({
            let w2 = assign_round(asgs, w)->Ok_0;
            let l = asgs[i].left.name@;
            let r = asgs[i].right.name@;
            (w2.contains_key(l) && w2.contains_key(r) && same_width(w2[l], w2[r])) || (!w2.contains_key(l)
                && !w2.contains_key(r))
        }),
{
    let w2 = assign_round(asgs, w)->Ok_0;
    lemma_assign_round_grows(asgs, w);
    lemma_assign_round_prefix(asgs, w, i);
    lemma_assign_round_grows(asgs.take(i), w);
    lemma_assign_round_prefix(asgs, w, i + 1);
    assert(asgs.take(i + 1).drop_last() =~= asgs.take(i));
    assert(asgs.take(i + 1).last() == asgs[i]);
    let wi = assign_round(asgs.take(i), w)->Ok_0;
    let l = asgs[i].left.name@;
    let r = asgs[i].right.name@;
    assert(w2.dom() == w.dom());
    let wi1 = assign_round(asgs.take(i + 1), w)->Ok_0;
    assert(assign_round(asgs.take(i + 1), w) == assign_step(asgs[i], wi));
    assert(wi1.submap_of(w2));
    if wi.contains_key(l) && !wi.contains_key(r) {
        assert(wi1.contains_key(r));
        assert(!w.contains_key(r));
        assert(w2.contains_key(r));
    } else if !wi.contains_key(l) && wi.contains_key(r) {
        assert(wi1.contains_key(l));
        assert(!w.contains_key(l));
        assert(w2.contains_key(l));
    } else if !wi.contains_key(l) && !wi.contains_key(r) {
        assert(!w.contains_key(l) && !w.contains_key(r));
        assert(!w2.contains_key(l) && !w2.contains_key(r));
    }
}

/// A fixpoint of the assignment rounds comes from a round that changed no
/// width.
proof fn lemma_assign_fix_ok(asgs: Seq<AssignmentHDL>, w: Map<Seq<char>, GenericWidth>, fuel: nat)
    requires
        assign_fix(asgs, w, fuel) matches Some(Ok(_)),
    ensures
        exists|w0: Map<Seq<char>, GenericWidth>| #[trigger] assign_round(asgs, w0) == Ok::<Map<Seq<char>, GenericWidth>, WidthError>(
            assign_fix(asgs, w, fuel)->Some_0->Ok_0,
        ) && same_width_maps(assign_fix(asgs, w, fuel)->Some_0->Ok_0, w0),
    decreases fuel,
{
    match assign_round(asgs, w) {
        Err(_) => {},
        Ok(w2) => {
            if !same_width_maps(w2, w) {
                lemma_assign_fix_ok(asgs, w2, (fuel - 1) as nat);
            }
        },
    }
}

/// What inference gives comes from a fixpoint of the assignment rounds that
/// leaves no assignment without a width on either side.
proof fn lemma_infer_loop_ok(e: InferEnv, w: Map<Seq<char>, GenericWidth>, fuel: nat)
    requires
        infer_loop(e, w, fuel) matches Some(Ok(_)),
    ensures
        exists|w0: Map<Seq<char>, GenericWidth>| #[trigger] assign_round(e.asgs, w0) == Ok::<Map<Seq<char>, GenericWidth>, WidthError>(
            infer_loop(e, w, fuel)->Some_0->Ok_0,
        ) && same_width_maps(infer_loop(e, w, fuel)->Some_0->Ok_0, w0),
        unsourced(e.asgs, infer_loop(e, w, fuel)->Some_0->Ok_0) is None,
    decreases fuel,
{
    match components_round(e, e.comps, w) {
        Some(Ok(w2)) => {
            if same_width_maps(w2, w) {
                lemma_assign_fix_ok(e.asgs, w2, (fuel - 1) as nat);
            } else {
                lemma_infer_loop_ok(e, w2, (fuel - 1) as nat);
            }
        },
        _ => {},
    }
}

/// Where no assignment is left without a width on both sides, each has a
/// width on one side at least.
proof fn lemma_unsourced_none(asgs: Seq<AssignmentHDL>, w: Map<Seq<char>, GenericWidth>, i: int)
    requires
        0 <= i < asgs.len(),
        unsourced(asgs, w) is None,
    ensures
        w.contains_key(asgs[i].left.name@) || w.contains_key(asgs[i].right.name@),
    decreases asgs.len(),
{
    if i < asgs.len() - 1 {
        assert(asgs.drop_last()[i] == asgs[i]);
        lemma_unsourced_none(asgs.drop_last(), w, i);
    }
}

/// Both sides of every assignment end with the same width: where inference
/// succeeds, the widths it gives hold both names of each assignment, with
/// the same width.
pub proof fn lemma_assignment_sides_equal(
    hdl: ChipHDL,
    lib: Seq<ChipHDL>,
    comps: Seq<ComponentView>,
    asgs: Seq<AssignmentHDL>,
    generics: Seq<GenericWidth>,
    fuel: nat,
    i: int,
)
    requires
        0 <= i < asgs.len(),
        infer_spec(hdl, lib, comps, asgs, generics, fuel) matches Some(Ok(_)),
    ensures
        ({
            let w = infer_spec(hdl, lib, comps, asgs, generics, fuel)->Some_0->Ok_0;
            &&& w.contains_key(asgs[i].left.name@)
            &&& w.contains_key(asgs[i].right.name@)
            &&& same_width(w[asgs[i].left.name@], w[asgs[i].right.name@])
        }),
{
    let vars = generic_vars(hdl.generic_decls@, generics, generics.len() as int);
    let w0 = port_widths(hdl.ports@, vars)->Some_0;
    let e = InferEnv { hdl_name: hdl.name@, lib, comps, asgs, vars };
    lemma_infer_loop_ok(e, w0, fuel);
    let w = infer_loop(e, w0, fuel)->Some_0->Ok_0;
    let wb = choose|wb: Map<Seq<char>, GenericWidth>| #[trigger] assign_round(asgs, wb) == Ok::<Map<Seq<char>, GenericWidth>, WidthError>(w)
        && same_width_maps(w, wb);
    lemma_assign_round_fixed(asgs, wb, i);
    lemma_unsourced_none(asgs, w, i);
}

} // verus!