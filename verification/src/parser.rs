//! The parse tree of HDL chips: identifiers, ports, buses, port mappings,
//! components, for-generate loops and assignments, and a library of parsed chips.
use crate::error::{ErrorKind, N2VError};
use crate::expr::GenericWidth;
use crate::fmt::push_str;
use crate::keys::key_eq;
use vstd::prelude::*;

verus! {

/// A name in HDL source, with the file and line it came from where known.
#[derive(Debug, PartialEq, Eq)]
pub struct Identifier {
    pub value: String,
    /// `None` for chips that are not read from disk, such as Nand and DFF.
    pub path: Option<String>,
    pub line: Option<u32>,
}

pub fn clone_opt_string(s: &Option<String>) -> (r: Option<String>)
    ensures
        r == *s,
{
    match s {
        Some(x) => Some(x.clone()),
        None => None,
    }
}

impl Clone for Identifier {
    fn clone(&self) -> (r: Self)
        ensures
            r == *self,
    {
        Identifier { value: self.value.clone(), path: clone_opt_string(&self.path), line: self.line }
    }
}

impl Identifier {
    /// An identifier with no source location.
    pub fn from(value: &str) -> (r: Identifier)
        ensures
            r.value@ == value@,
            r.path is None,
            r.line is None,
    {
        Identifier { value: String::from_str(value), path: None, line: None }
    }
}

/// Direction of a chip port.
#[derive(Debug, Clone, Copy, PartialEq, Eq, Structural)]
pub enum PortDirection {
    In,
    Out,
}

/// A port declared by a chip: `in[16]`, `out[W]`.
#[derive(Debug)]
pub struct GenericPort {
    pub name: Identifier,
    pub width: GenericWidth,
    pub direction: PortDirection,
}

impl Clone for GenericPort {
    fn clone(&self) -> (r: Self)
        ensures
            r == *self,
    {
        GenericPort { name: self.name.clone(), width: self.width.clone(), direction: self.direction }
    }
}

/// A bus named in HDL: `a`, `a[3]` or `a[0..7]`. `start` and `end` are the
/// inclusive bounds of the range, where there is one.
#[derive(Debug)]
pub struct BusHDL {
    pub name: String,
    pub start: Option<GenericWidth>,
    pub end: Option<GenericWidth>,
}

/// A copy of an optional width.
pub fn clone_opt_width(w: &Option<GenericWidth>) -> (r: Option<GenericWidth>)
    ensures
        r == *w,
{
    match w {
        Some(x) => Some(x.clone()),
        None => None,
    }
}

impl Clone for BusHDL {
    fn clone(&self) -> (r: Self)
        ensures
            r == *self,
    {
        BusHDL { name: self.name.clone(), start: clone_opt_width(&self.start), end: clone_opt_width(&self.end) }
    }
}

/// `port=wire` in a part: the wire's identifier (for error reports), the wire
/// and the port.
#[derive(Debug)]
pub struct PortMappingHDL {
    pub wire_ident: Identifier,
    pub wire: BusHDL,
    pub port: BusHDL,
}

impl Clone for PortMappingHDL {
    fn clone(&self) -> (r: Self)
        ensures
            r == *self,
    {
        PortMappingHDL { wire_ident: self.wire_ident.clone(), wire: self.wire.clone(), port: self.port.clone() }
    }
}

/// `left = right`: the signal on the right drives the one on the left.
#[derive(Debug)]
pub struct AssignmentHDL {
    pub left: BusHDL,
    pub right: BusHDL,
}

impl Clone for AssignmentHDL {
    fn clone(&self) -> (r: Self)
        ensures
            r == *self,
    {
        AssignmentHDL { left: self.left.clone(), right: self.right.clone() }
    }
}

/// A part of a chip that instantiates another chip: `Mux<W>(a=x, b=y, out=z)`.
#[derive(Debug)]
pub struct Component {
    pub name: Identifier,
    pub mappings: Vec<PortMappingHDL>,
    pub generic_params: Vec<GenericWidth>,
}

/// A component as a value.
pub struct ComponentView {
    pub name: Identifier,
    pub mappings: Seq<PortMappingHDL>,
    pub generic_params: Seq<GenericWidth>,
}

impl View for Component {
    type V = ComponentView;

    open spec fn view(&self) -> ComponentView {
        ComponentView { name: self.name, mappings: self.mappings@, generic_params: self.generic_params@ }
    }
}

/// A copy of a list of port mappings.
pub fn clone_mappings(v: &Vec<PortMappingHDL>) -> (r: Vec<PortMappingHDL>)
    ensures
        r@ == v@,
{
    let r = v.clone();
    assert(r@ =~= v@);
    r
}

/// A copy of a list of widths.
pub fn clone_widths(v: &Vec<GenericWidth>) -> (r: Vec<GenericWidth>)
    ensures
        r@ == v@,
{
    let r = v.clone();
    assert(r@ =~= v@);
    r
}

impl Clone for Component {
    fn clone(&self) -> (r: Self)
        ensures
            r@ == self@,
    {
        Component {
            name: self.name.clone(),
            mappings: clone_mappings(&self.mappings),
            generic_params: clone_widths(&self.generic_params),
        }
    }
}

/// Components as values.
pub open spec fn components_view(v: Seq<Component>) -> Seq<ComponentView> {
    v.map_values(|c: Component| c@)
}

/// A copy of a list of components.
pub fn clone_components(v: &Vec<Component>) -> (r: Vec<Component>)
    ensures
        components_view(r@) == components_view(v@),
{
    let r = v.clone();
    assert(components_view(r@) =~= components_view(v@));
    r
}

/// `FOR i IN start TO end GENERATE { body }`.
#[derive(Debug)]
pub struct Loop {
    pub start: GenericWidth,
    pub end: GenericWidth,
    pub iterator: Identifier,
    pub body: Vec<Component>,
}

/// A loop as a value.
pub struct LoopView {
    pub start: GenericWidth,
    pub end: GenericWidth,
    pub iterator: Identifier,
    pub body: Seq<ComponentView>,
}

impl View for Loop {
    type V = LoopView;

    open spec fn view(&self) -> LoopView {
        LoopView { start: self.start, end: self.end, iterator: self.iterator, body: components_view(self.body@) }
    }
}

impl Clone for Loop {
    fn clone(&self) -> (r: Self)
        ensures
            r@ == self@,
    {
        Loop {
            start: self.start.clone(),
            end: self.end.clone(),
            iterator: self.iterator.clone(),
            body: clone_components(&self.body),
        }
    }
}

/// A part of a chip's body.
#[derive(Debug)]
pub enum Part {
    Component(Component),
    Loop(Loop),
    AssignmentHDL(AssignmentHDL),
}

/// A part as a value.
pub enum PartView {
    Component(ComponentView),
    Loop(LoopView),
    AssignmentHDL(AssignmentHDL),
}

impl View for Part {
    type V = PartView;

    open spec fn view(&self) -> PartView {
        match self {
            Part::Component(c) => PartView::Component(c@),
            Part::Loop(l) => PartView::Loop(l@),
            Part::AssignmentHDL(a) => PartView::AssignmentHDL(*a),
        }
    }
}

impl Clone for Part {
    fn clone(&self) -> (r: Self)
        ensures
            r@ == self@,
    {
        match self {
            Part::Component(c) => Part::Component(c.clone()),
            Part::Loop(l) => Part::Loop(l.clone()),
            Part::AssignmentHDL(a) => Part::AssignmentHDL(a.clone()),
        }
    }
}

/// Parts as values.
pub open spec fn parts_view(v: Seq<Part>) -> Seq<PartView> {
    v.map_values(|p: Part| p@)
}

/// A copy of a list of parts.
pub fn clone_parts(v: &Vec<Part>) -> (r: Vec<Part>)
    ensures
        parts_view(r@) == parts_view(v@),
{
    let r = v.clone();
    assert(parts_view(r@) =~= parts_view(v@));
    r
}

/// The parse tree of a chip.
#[derive(Debug)]
pub struct ChipHDL {
    pub name: String,
    pub ports: Vec<GenericPort>,
    pub parts: Vec<Part>,
    /// The file the chip was read from, if any.
    pub path: Option<String>,
    pub generic_decls: Vec<Identifier>,
}

/// A chip as a value.
pub struct ChipView {
    pub name: Seq<char>,
    pub ports: Seq<GenericPort>,
    pub parts: Seq<PartView>,
    pub path: Option<String>,
    pub generic_decls: Seq<Identifier>,
}

impl View for ChipHDL {
    type V = ChipView;

    open spec fn view(&self) -> ChipView {
        ChipView {
            name: self.name@,
            ports: self.ports@,
            parts: parts_view(self.parts@),
            path: self.path,
            generic_decls: self.generic_decls@,
        }
    }
}

impl Clone for ChipHDL {
    fn clone(&self) -> (r: Self)
        ensures
            r@ == self@,
    {
        let ports = self.ports.clone();
        assert(ports@ =~= self.ports@);
        let generic_decls = self.generic_decls.clone();
        assert(generic_decls@ =~= self.generic_decls@);
        ChipHDL {
            name: self.name.clone(),
            ports,
            parts: clone_parts(&self.parts),
            path: clone_opt_string(&self.path),
            generic_decls,
        }
    }
}

/// The index of the first port named `name` from index `i` on.
pub open spec fn port_index_from(ports: Seq<GenericPort>, name: Seq<char>, i: int) -> Option<int>
    decreases ports.len() - i,
{
    if i < 0 || i >= ports.len() {
        None
    } else if ports[i].name.value@ == name {
        Some(i)
    } else {
        port_index_from(ports, name, i + 1)
    }
}

/// Where a lookup from `i` finds something, it lies at or after `i` and names it.
pub proof fn lemma_port_index_from(ports: Seq<GenericPort>, name: Seq<char>, i: int)
    requires
        0 <= i,
    ensures
        port_index_from(ports, name, i) matches Some(k) ==> i <= k < ports.len() && ports[k].name.value@ == name,
        port_index_from(ports, name, i) is None ==> forall|k: int| i <= k < ports.len() ==> ports[k].name.value@ != name,
    decreases ports.len() - i,
{
    if i < ports.len() && ports[i].name.value@ != name {
        lemma_port_index_from(ports, name, i + 1);
    }
}

impl ChipHDL {
    /// The index of the first port named `name`, if any.
    pub fn port_index(&self, name: &str) -> (r: Option<usize>)
        ensures
            match r {
                Some(i) => i < self.ports.len() && port_index_from(self.ports@, name@, 0) == Some(i as int),
                None => port_index_from(self.ports@, name@, 0) is None,
            },
    {
        proof {
            lemma_port_index_from(self.ports@, name@, 0);
        }
        let mut i: usize = 0;
        while i < self.ports.len()
            invariant
                i <= self.ports.len(),
                port_index_from(self.ports@, name@, 0) == port_index_from(self.ports@, name@, i as int),
            decreases self.ports.len() - i,
        {
            if key_eq(self.ports[i].name.value.as_str(), name) {
                return Some(i);
            }
            i = i + 1;
        }
        None
    }

    /// The first port named `name`, if any.
    pub fn get_port(&self, name: &str) -> (r: Option<&GenericPort>)
        ensures
            match port_index_from(self.ports@, name@, 0) {
                Some(k) => r == Some(&self.ports@[k]),
                None => r is None,
            },
    {
        proof {
            lemma_port_index_from(self.ports@, name@, 0);
        }
        let mut i: usize = 0;
        while i < self.ports.len()
            invariant
                i <= self.ports.len(),
                port_index_from(self.ports@, name@, 0) == port_index_from(self.ports@, name@, i as int),
            decreases self.ports.len() - i,
        {
            if key_eq(self.ports[i].name.value.as_str(), name) {
                return Some(&self.ports[i]);
            }
            i = i + 1;
        }
        None
    }
}

/// The index of the first chip named `name` in a library, from index `i` on.
pub open spec fn chip_index_from(lib: Seq<ChipHDL>, name: Seq<char>, i: int) -> Option<int>
    decreases lib.len() - i,
{
    if i < 0 || i >= lib.len() {
        None
    } else if lib[i].name@ == name {
        Some(i)
    } else {
        chip_index_from(lib, name, i + 1)
    }
}

/// The first chip named `name` in a library, if any.
pub open spec fn chip_named(lib: Seq<ChipHDL>, name: Seq<char>) -> Option<ChipHDL> {
    match chip_index_from(lib, name, 0) {
        Some(k) => Some(lib[k]),
        None => None,
    }
}

/// Where a lookup from `i` finds something, it lies at or after `i` and names it.
pub proof fn lemma_chip_index_from(lib: Seq<ChipHDL>, name: Seq<char>, i: int)
    requires
        0 <= i,
    ensures
        chip_index_from(lib, name, i) matches Some(k) ==> i <= k < lib.len() && lib[k].name@ == name,
        chip_index_from(lib, name, i) is None ==> forall|k: int| i <= k < lib.len() ==> lib[k].name@ != name,
    decreases lib.len() - i,
{
    if i < lib.len() && lib[i].name@ != name {
        lemma_chip_index_from(lib, name, i + 1);
    }
}

/// Looks up the parse tree of the chip named `name` in a library of parsed
/// chips: the first one of that name, if any.
pub fn get_hdl<'a>(name: &str, library: &'a Vec<ChipHDL>) -> (r: Option<&'a ChipHDL>)
    ensures
        match chip_named(library@, name@) {
            Some(c) => r == Some(&c),
            None => r is None,
        },
{
    proof {
        lemma_chip_index_from(library@, name@, 0);
    }
    let mut i: usize = 0;
    while i < library.len()
        invariant
            i <= library.len(),
            chip_index_from(library@, name@, 0) == chip_index_from(library@, name@, i as int),
        decreases library.len() - i,
    {
        if key_eq(library[i].name.as_str(), name) {
            return Some(&library[i]);
        }
        i = i + 1;
    }
    None
}

/// The message when a chip is missing from the library.
pub open spec fn missing_chip_msg(name: Seq<char>) -> Seq<char> {
    "Chip "@ + name + " not found"@
}

/// The error for a chip missing from the library.
pub fn missing_chip(name: &str) -> (e: N2VError)
    ensures
        e.msg@ == missing_chip_msg(name@),
        e.kind is IOError,
{
    let mut msg = String::new();
    push_str(&mut msg, "Chip ");
    push_str(&mut msg, name);
    push_str(&mut msg, " not found");
    N2VError { msg, kind: ErrorKind::IOError }
}

} // verus!
