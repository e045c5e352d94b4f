//! Logisim-evolution projects for chips: the libraries, tools, options and
//! toolbar of a fresh project, and a circuit with a component for each part
//! and a pin for each port of the chip.
use crate::chars::{lower_text, lowercase, to_lowercase};
use crate::keys::key_eq;
use crate::parser::PortDirection;
use crate::simulator::{Port, opt_text};
use rand::Rng;
use vstd::prelude::*;

verus! {

/// `name="val"` on an element.
pub struct Attribute {
    pub name: String,
    pub val: String,
}

/// A tool of a library, a mapping or the toolbar.
pub struct Tool {
    pub lib: Option<String>,
    pub map: Option<String>,
    pub name: Option<String>,
    pub attributes: Vec<Attribute>,
}

/// A library that the project loads.
pub struct Library {
    pub name: String,
    pub desc: Option<String>,
    pub tools: Vec<Tool>,
}

/// The circuit that the project opens with.
pub struct Main {
    pub name: String,
}

/// The simulation options.
pub struct Options {
    pub attributes: Vec<Attribute>,
}

/// The mouse mappings.
pub struct Mappings {
    pub tools: Vec<Tool>,
}

/// An entry of the toolbar.
pub enum ToolbarItem {
    Separator,
    Tool(Tool),
}

/// The toolbar.
pub struct Toolbar {
    pub items: Vec<ToolbarItem>,
}

/// A point of the canvas.
pub struct Coordinate {
    pub x: u16,
    pub y: u16,
}

/// A component placed in a circuit.
pub struct Component {
    pub lib: String,
    pub name: String,
    pub location: Coordinate,
    pub attributes: Vec<Attribute>,
}

/// A circuit.
pub struct Circuit {
    pub name: String,
    pub attributes: Vec<Attribute>,
    pub components: Vec<Component>,
}

/// A Logisim project.
pub struct Project {
    pub source: String,
    pub version: String,
    pub lib: Vec<Library>,
    pub main: Main,
    pub options: Options,
    pub mappings: Mappings,
    pub toolbar: Toolbar,
    pub circuit: Circuit,
}

/// An attribute as a pair of texts.
pub open spec fn attr_view(a: Attribute) -> (Seq<char>, Seq<char>) {
    (a.name@, a.val@)
}

/// Attributes as pairs of texts.
pub open spec fn attrs_view(v: Seq<Attribute>) -> Seq<(Seq<char>, Seq<char>)> {
    v.map_values(|a: Attribute| attr_view(a))
}

/// A tool as values.
pub struct ToolView {
    pub lib: Option<Seq<char>>,
    pub map: Option<Seq<char>>,
    pub name: Option<Seq<char>>,
    pub attributes: Seq<(Seq<char>, Seq<char>)>,
}

/// A tool as values.
pub open spec fn tool_view(t: Tool) -> ToolView {
    ToolView { lib: opt_text(t.lib), map: opt_text(t.map), name: opt_text(t.name), attributes: attrs_view(t.attributes@) }
}

/// Tools as values.
pub open spec fn tools_view(v: Seq<Tool>) -> Seq<ToolView> {
    v.map_values(|t: Tool| tool_view(t))
}

/// A library as values.
pub struct LibraryView {
    pub name: Seq<char>,
    pub desc: Option<Seq<char>>,
    pub tools: Seq<ToolView>,
}

/// A library as values.
pub open spec fn library_view(l: Library) -> LibraryView {
    LibraryView { name: l.name@, desc: opt_text(l.desc), tools: tools_view(l.tools@) }
}

/// Libraries as values.
pub open spec fn libraries_view(v: Seq<Library>) -> Seq<LibraryView> {
    v.map_values(|l: Library| library_view(l))
}

/// A toolbar entry as values.
pub enum ItemView {
    Separator,
    Tool(ToolView),
}

/// A toolbar entry as values.
pub open spec fn item_view(i: ToolbarItem) -> ItemView {
    match i {
        ToolbarItem::Separator => ItemView::Separator,
        ToolbarItem::Tool(t) => ItemView::Tool(tool_view(t)),
    }
}

/// Toolbar entries as values.
pub open spec fn items_view(v: Seq<ToolbarItem>) -> Seq<ItemView> {
    v.map_values(|i: ToolbarItem| item_view(i))
}

/// A component as values, but for its location.
pub struct ComponentView {
    pub lib: Seq<char>,
    pub name: Seq<char>,
    pub attributes: Seq<(Seq<char>, Seq<char>)>,
}

/// A component as values, but for its location.
pub open spec fn component_view(c: Component) -> ComponentView {
    ComponentView { lib: c.lib@, name: c.name@, attributes: attrs_view(c.attributes@) }
}

/// A component lies on the part of the canvas where new ones are placed.
pub open spec fn placed(c: Component) -> bool {
    c.location.x < 1000 && c.location.y < 1000
}

/// A tool of library `lib`, with no attributes.
pub open spec fn plain_tool(name: Seq<char>, lib: Seq<char>, map: Option<Seq<char>>) -> ToolView {
    ToolView { lib: Some(lib), map, name: Some(name), attributes: Seq::empty() }
}

/// The pin tool of the wiring library.
pub open spec fn wiring_pin_tool() -> ToolView {
    ToolView { lib: None, map: None, name: Some("Pin"@), attributes: seq![("appearance"@, "classic"@)] }
}

/// A library with no tools.
pub open spec fn bare_library(name: Seq<char>, desc: Seq<char>) -> LibraryView {
    LibraryView { name, desc: Some(desc), tools: Seq::empty() }
}

/// The libraries of a fresh project, in order.
pub open spec fn standard_libraries() -> Seq<LibraryView> {
    seq![
        LibraryView { name: "0"@, desc: Some("#Wiring"@), tools: seq![wiring_pin_tool()] },
        bare_library("1"@, "#Gates"@),
        bare_library("2"@, "#Plexers"@),
        bare_library("3"@, "#Arithmetic"@),
        bare_library("4"@, "#Memory"@),
        bare_library("5"@, "#I/O"@),
        bare_library("6"@, "#TTL"@),
        bare_library("7"@, "#TCL"@),
        bare_library("8"@, "#Base"@),
        bare_library("9"@, "#BFH-Praktika"@),
        bare_library("10"@, "#Input/Output-Extra"@),
        bare_library("11"@, "#Soc"@),
    ]
}

/// The simulation options of a fresh project.
pub open spec fn option_attributes() -> Seq<(Seq<char>, Seq<char>)> {
    seq![("gateUndefined"@, "ignore"@), ("simlimit"@, "1000"@), ("simrand"@, "0"@)]
}

/// The mouse mappings of a fresh project.
pub open spec fn mapping_tools() -> Seq<ToolView> {
    seq![
        plain_tool("Poke Tool"@, "8"@, Some("Button2"@)),
        plain_tool("Menu Tool"@, "8"@, Some("Button3"@)),
        plain_tool("Menu Tool"@, "8"@, Some("Ctrl Button1"@)),
    ]
}

/// The toolbar of a fresh project.
pub open spec fn toolbar_items() -> Seq<ItemView> {
    seq![
        ItemView::Tool(plain_tool("Poke Tool"@, "8"@, Some("Button2"@))),
        ItemView::Tool(plain_tool("Edit Tool"@, "8"@, Some("Button1"@))),
        ItemView::Tool(plain_tool("Wiring Tool"@, "8"@, Some("Button3"@))),
        ItemView::Tool(plain_tool("Text Tool"@, "8"@, Some("Ctrl Button1"@))),
        ItemView::Separator,
        ItemView::Tool(plain_tool("Pin"@, "0"@, None)),
        ItemView::Tool(ToolView {
            lib: Some("0"@),
            map: None,
            name: Some("Pin"@),
            attributes: seq![("facing"@, "west"@), ("output"@, "true"@)],
        }),
        ItemView::Separator,
        ItemView::Tool(plain_tool("NOT Gate"@, "1"@, None)),
        ItemView::Tool(plain_tool("AND Gate"@, "1"@, None)),
        ItemView::Tool(plain_tool("OR Gate"@, "1"@, None)),
        ItemView::Tool(plain_tool("XOR Gate"@, "1"@, None)),
        ItemView::Tool(plain_tool("NAND Gate"@, "1"@, None)),
        ItemView::Tool(plain_tool("NOR Gate"@, "1"@, None)),
        ItemView::Separator,
        ItemView::Tool(plain_tool("D Flip-Flop"@, "4"@, None)),
        ItemView::Tool(plain_tool("Register"@, "4"@, None)),
    ]
}

/// The attributes of the circuit of a fresh project.
pub open spec fn circuit_attributes() -> Seq<(Seq<char>, Seq<char>)> {
    seq![("appearance"@, "logisim_evolution"@), ("facing"@, "west"@), ("output"@, "true"@)]
}

/// The pin for a port: facing west and not an output for an input, facing
/// east and an output for an output.
pub open spec fn pin_view(p: Port) -> ComponentView {
    let (facing, output) = match p.direction {
        PortDirection::In => ("west"@, "false"@),
        PortDirection::Out => ("east"@, "true"@),
    };
    ComponentView {
        lib: "0"@,
        name: "Pin"@,
        attributes: seq![("facing"@, facing), ("output"@, output), ("appearance"@, "NewPins"@)],
    }
}

/// The component for a part: a gate of library 1, the NAND gate where the
/// part names Nand in any case, else the part's own name.
pub open spec fn part_view(c: crate::parser::Component) -> ComponentView {
    ComponentView {
        lib: "1"@,
        name: if lower_text(c.name.value@) == "nand"@ {
            "NAND Gate"@
        } else {
            c.name.value@
        },
        attributes: Seq::empty(),
    }
}

/// Wraps `rand::thread_rng` and `Rng::gen_range` on `0..n`: a random value
/// below `n`. Nothing else is stated of it: the value is drawn by chance.
#[verifier::external_body]
fn random_below(n: u16) -> (r: u16)
    requires
        n > 0,
    ensures
        r < n,
{
    rand::thread_rng().gen_range(0..n)
}

/// A point drawn at random on the part of the canvas where new components
/// are placed.
fn random_location() -> (r: Coordinate)
    ensures
        r.x < 1000,
        r.y < 1000,
{
    let x = random_below(1000);
    let y = random_below(1000);
    Coordinate { x, y }
}

/// A library with no tools.
pub fn create_library(name: &str, desc: &str) -> (r: Library)
    ensures
        library_view(r) == bare_library(name@, desc@),
{
    let r = Library { name: String::from_str(name), tools: Vec::new(), desc: Some(String::from_str(desc)) };
    assert(tools_view(r.tools@) =~= Seq::<ToolView>::empty());
    r
}

/// An attribute.
pub fn create_attribute(name: &str, val: &str) -> (r: Attribute)
    ensures
        attr_view(r) == (name@, val@),
{
    Attribute { name: String::from_str(name), val: String::from_str(val) }
}

/// A tool of library `lib`, with no attributes.
pub fn create_tool(name: &str, lib: &str, map: Option<String>) -> (r: Tool)
    ensures
        tool_view(r) == plain_tool(name@, lib@, opt_text(map)),
{
    let r = Tool { name: Some(String::from_str(name)), lib: Some(String::from_str(lib)), map, attributes: Vec::new() };
    assert(attrs_view(r.attributes@) =~= Seq::<(Seq<char>, Seq<char>)>::empty());
    r
}

/// A tool of library `lib` with a mouse mapping.
fn mapped_tool(name: &str, lib: &str, map: &str) -> (r: Tool)
    ensures
        tool_view(r) == plain_tool(name@, lib@, Some(map@)),
{
    create_tool(name, lib, Some(String::from_str(map)))
}

/// A tool of library `lib` with no mouse mapping.
fn unmapped_tool(name: &str, lib: &str) -> (r: Tool)
    ensures
        tool_view(r) == plain_tool(name@, lib@, None),
{
    create_tool(name, lib, None)
}

/// Attributes from pairs of texts.
fn push_attribute(v: &mut Vec<Attribute>, name: &str, val: &str)
    ensures
        attrs_view(final(v)@) == attrs_view(old(v)@).push((name@, val@)),
{
    let ghost before = attrs_view(v@);
    v.push(create_attribute(name, val));
    assert(attrs_view(v@) =~= before.push((name@, val@)));
}

impl Component {
    /// The pin for a port of the chip, placed at random.
    pub fn from_port(port: &Port) -> (r: Component)
        ensures
            component_view(r) == pin_view(*port),
            placed(r),
    {
        let location = random_location();
        let (facing, output) = match port.direction {
            PortDirection::In => ("west", "false"),
            PortDirection::Out => ("east", "true"),
        };
        let mut attributes: Vec<Attribute> = Vec::new();
        assert(attrs_view(attributes@) =~= Seq::<(Seq<char>, Seq<char>)>::empty());
        push_attribute(&mut attributes, "facing", facing);
        push_attribute(&mut attributes, "output", output);
        push_attribute(&mut attributes, "appearance", "NewPins");
        let r = Component { lib: String::from_str("0"), name: String::from_str("Pin"), location, attributes };
        assert(attrs_view(r.attributes@) =~= pin_view(*port).attributes);
        r
    }

    /// The component for a part of the chip, placed at random.
    pub fn from_part(component: &crate::parser::Component) -> (r: Component)
        ensures
            component_view(r) == part_view(*component),
            placed(r),
    {
        let location = random_location();
        let lower = to_lowercase(component.name.value.as_str());
        proof {
            reveal_strlit("nand");
        }
        let name = if key_eq(lower.as_str(), "nand") {
            String::from_str("NAND Gate")
        } else {
            component.name.value.clone()
        };
        let r = Component { lib: String::from_str("1"), name, location, attributes: Vec::new() };
        assert(attrs_view(r.attributes@) =~= Seq::<(Seq<char>, Seq<char>)>::empty());
        r
    }
}

/// The libraries of a fresh project.
fn standard_library_list() -> (r: Vec<Library>)
    ensures
        libraries_view(r@) == standard_libraries(),
{
    let mut pin_attributes: Vec<Attribute> = Vec::new();
    assert(attrs_view(pin_attributes@) =~= Seq::<(Seq<char>, Seq<char>)>::empty());
    push_attribute(&mut pin_attributes, "appearance", "classic");
    assert(attrs_view(pin_attributes@) =~= seq![("appearance"@, "classic"@)]);
    let mut wiring_tools: Vec<Tool> = Vec::new();
    let pin = Tool { name: Some(String::from_str("Pin")), lib: None, map: None, attributes: pin_attributes };
    assert(tool_view(pin) == wiring_pin_tool());
    wiring_tools.push(pin);
    assert(tools_view(wiring_tools@) =~= seq![wiring_pin_tool()]);
    let wiring = Library { desc: Some(String::from_str("#Wiring")), name: String::from_str("0"), tools: wiring_tools };
    let mut lib: Vec<Library> = Vec::new();
    lib.push(wiring);
    lib.push(create_library("1", "#Gates"));
    lib.push(create_library("2", "#Plexers"));
    lib.push(create_library("3", "#Arithmetic"));
    lib.push(create_library("4", "#Memory"));
    lib.push(create_library("5", "#I/O"));
    lib.push(create_library("6", "#TTL"));
    lib.push(create_library("7", "#TCL"));
    lib.push(create_library("8", "#Base"));
    lib.push(create_library("9", "#BFH-Praktika"));
    lib.push(create_library("10", "#Input/Output-Extra"));
    lib.push(create_library("11", "#Soc"));
    assert(libraries_view(lib@) =~= standard_libraries());
    lib
}

/// The toolbar of a fresh project.
fn standard_toolbar() -> (r: Vec<ToolbarItem>)
    ensures
        items_view(r@) == toolbar_items(),
{
    let mut pin_attributes: Vec<Attribute> = Vec::new();
    assert(attrs_view(pin_attributes@) =~= Seq::<(Seq<char>, Seq<char>)>::empty());
    push_attribute(&mut pin_attributes, "facing", "west");
    push_attribute(&mut pin_attributes, "output", "true");
    assert(attrs_view(pin_attributes@) =~= seq![("facing"@, "west"@), ("output"@, "true"@)]);
    let output_pin = Tool {
        lib: Some(String::from_str("0")),
        map: None,
        name: Some(String::from_str("Pin")),
        attributes: pin_attributes,
    };
    assert(tool_view(output_pin) == ToolView {
        lib: Some("0"@),
        map: None,
        name: Some("Pin"@),
        attributes: seq![("facing"@, "west"@), ("output"@, "true"@)],
    });
    let mut items: Vec<ToolbarItem> = Vec::new();
    items.push(ToolbarItem::Tool(mapped_tool("Poke Tool", "8", "Button2")));
    items.push(ToolbarItem::Tool(mapped_tool("Edit Tool", "8", "Button1")));
    items.push(ToolbarItem::Tool(mapped_tool("Wiring Tool", "8", "Button3")));
    items.push(ToolbarItem::Tool(mapped_tool("Text Tool", "8", "Ctrl Button1")));
    items.push(ToolbarItem::Separator);
    items.push(ToolbarItem::Tool(unmapped_tool("Pin", "0")));
    items.push(ToolbarItem::Tool(output_pin));
    items.push(ToolbarItem::Separator);
    items.push(ToolbarItem::Tool(unmapped_tool("NOT Gate", "1")));
    items.push(ToolbarItem::Tool(unmapped_tool("AND Gate", "1")));
    items.push(ToolbarItem::Tool(unmapped_tool("OR Gate", "1")));
    items.push(ToolbarItem::Tool(unmapped_tool("XOR Gate", "1")));
    items.push(ToolbarItem::Tool(unmapped_tool("NAND Gate", "1")));
    items.push(ToolbarItem::Tool(unmapped_tool("NOR Gate", "1")));
    items.push(ToolbarItem::Separator);
    items.push(ToolbarItem::Tool(unmapped_tool("D Flip-Flop", "4")));
    items.push(ToolbarItem::Tool(unmapped_tool("Register", "4")));
    assert(items_view(items@) =~= toolbar_items());
    items
}

impl Project {
    /// A fresh project whose circuit is the chip `name`: a component for
    /// each of its parts, then a pin for each of its ports, each placed at
    /// random.
    pub fn from_chip(name: &String, components: &Vec<crate::parser::Component>, ports: &Vec<Port>) -> (r: Project)
        ensures
            r.source@ == "3.8.0"@,
            r.version@ == "1.0"@,
            r.main.name@ == "main"@,
            libraries_view(r.lib@) == standard_libraries(),
            attrs_view(r.options.attributes@) == option_attributes(),
            tools_view(r.mappings.tools@) == mapping_tools(),
            items_view(r.toolbar.items@) == toolbar_items(),
            r.circuit.name == *name,
            attrs_view(r.circuit.attributes@) == circuit_attributes(),
            r.circuit.components@.len() == components@.len() + ports@.len(),
            forall|i: int| 0 <= i < components@.len() ==> component_view(#[trigger] r.circuit.components@[i]) == part_view(components@[i]),
            forall|j: int| 0 <= j < ports@.len() ==> component_view(#[trigger] r.circuit.components@[components@.len() + j]) == pin_view(ports@[j]),
            forall|i: int| 0 <= i < r.circuit.components@.len() ==> placed(#[trigger] r.circuit.components@[i]),
    {
        let mut circuit_attrs: Vec<Attribute> = Vec::new();
        assert(attrs_view(circuit_attrs@) =~= Seq::<(Seq<char>, Seq<char>)>::empty());
        push_attribute(&mut circuit_attrs, "appearance", "logisim_evolution");
        push_attribute(&mut circuit_attrs, "facing", "west");
        push_attribute(&mut circuit_attrs, "output", "true");
        let mut placed_components: Vec<Component> = Vec::new();
        let mut i: usize = 0;
        while i < components.len()
            invariant
                i <= components.len(),
                placed_components@.len() == i,
                forall|k: int| 0 <= k < i ==> component_view(#[trigger] placed_components@[k]) == part_view(components@[k]),
                forall|k: int| 0 <= k < placed_components@.len() ==> placed(#[trigger] placed_components@[k]),
            decreases components.len() - i,
        {
            placed_components.push(Component::from_part(&components[i]));
            i = i + 1;
        }
        let mut j: usize = 0;
        while j < ports.len()
            invariant
                j <= ports.len(),
                placed_components@.len() == components@.len() + j,
                forall|k: int| 0 <= k < components@.len() ==> component_view(#[trigger] placed_components@[k]) == part_view(components@[k]),
                forall|k: int| 0 <= k < j ==> component_view(#[trigger] placed_components@[components@.len() + k]) == pin_view(ports@[k]),
                forall|k: int| 0 <= k < placed_components@.len() ==> placed(#[trigger] placed_components@[k]),
            decreases ports.len() - j,
        {
            placed_components.push(Component::from_port(&ports[j]));
            j = j + 1;
        }
        let mut option_attrs: Vec<Attribute> = Vec::new();
        assert(attrs_view(option_attrs@) =~= Seq::<(Seq<char>, Seq<char>)>::empty());
        push_attribute(&mut option_attrs, "gateUndefined", "ignore");
        push_attribute(&mut option_attrs, "simlimit", "1000");
        push_attribute(&mut option_attrs, "simrand", "0");
        let mut mapping_list: Vec<Tool> = Vec::new();
        mapping_list.push(mapped_tool("Poke Tool", "8", "Button2"));
        mapping_list.push(mapped_tool("Menu Tool", "8", "Button3"));
        mapping_list.push(mapped_tool("Menu Tool", "8", "Ctrl Button1"));
        assert(tools_view(mapping_list@) =~= mapping_tools());
        assert(attrs_view(option_attrs@) =~= option_attributes());
        assert(attrs_view(circuit_attrs@) =~= circuit_attributes());
        Project {
            source: String::from_str("3.8.0"),
            version: String::from_str("1.0"),
            circuit: Circuit { name: name.clone(), components: placed_components, attributes: circuit_attrs },
            lib: standard_library_list(),
            main: Main { name: String::from_str("main") },
            options: Options { attributes: option_attrs },
            mappings: Mappings { tools: mapping_list },
            toolbar: Toolbar { items: standard_toolbar() },
        }
    }
}

impl Coordinate {
    /// The point as Logisim writes it: `(x, y)`.
    pub fn to_string(&self) -> (r: String)
        ensures
            r@ == "("@ + crate::fmt::decimal(self.x as nat) + ", "@ + crate::fmt::decimal(self.y as nat) + ")"@,
    {
        let mut s = String::new();
        crate::fmt::push_str(&mut s, "(");
        crate::fmt::push_decimal(&mut s, self.x as usize);
        crate::fmt::push_str(&mut s, ", ");
        crate::fmt::push_decimal(&mut s, self.y as usize);
        crate::fmt::push_str(&mut s, ")");
        s
    }
}

} // verus!
