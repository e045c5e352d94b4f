use whidl::chip::Chip;
use whidl::elaborate::Source;
use whidl::error::ErrorKind;
use whidl::expr::{GenericWidth, Terminal};
use whidl::simulator::Bus;
use whidl::parser::{BusHDL, ChipHDL, Component, GenericPort, Identifier, Part, PortDirection, PortMappingHDL};

fn num(n: usize) -> GenericWidth {
    GenericWidth::Terminal(Terminal::Num(n))
}

fn bus(name: &str) -> BusHDL {
    BusHDL { name: String::from(name), start: None, end: None }
}

fn mapping(port: &str, wire: &str) -> PortMappingHDL {
    PortMappingHDL { wire_ident: Identifier::from(wire), wire: bus(wire), port: bus(port) }
}

fn port(name: &str, width: usize, direction: PortDirection) -> GenericPort {
    GenericPort { name: Identifier::from(name), width: num(width), direction }
}

fn chip(name: &str, ports: Vec<GenericPort>, parts: Vec<Part>) -> ChipHDL {
    ChipHDL { name: String::from(name), ports, parts, path: None, generic_decls: Vec::new() }
}

fn nand_part(a: &str, b: &str, out: &str) -> Part {
    let mut mappings = Vec::new();
    if !a.is_empty() {
        mappings.push(mapping("a", a));
    }
    if !b.is_empty() {
        mappings.push(mapping("b", b));
    }
    mappings.push(mapping("out", out));
    Part::Component(Component { name: Identifier::from("Nand"), mappings, generic_params: Vec::new() })
}

fn nand_hdl() -> ChipHDL {
    chip(
        "Nand",
        vec![port("a", 1, PortDirection::In), port("b", 1, PortDirection::In), port("out", 1, PortDirection::Out)],
        vec![],
    )
}

fn two_input(name: &str, parts: Vec<Part>) -> ChipHDL {
    chip(
        name,
        vec![port("a", 1, PortDirection::In), port("b", 1, PortDirection::In), port("out", 1, PortDirection::Out)],
        parts,
    )
}

#[test]
fn nand_is_built_in() {
    let c = Chip::new(&nand_hdl(), &vec![], false, &vec![]).unwrap();
    assert_eq!(c.name, "nand");
    let names: Vec<String> = c.ports.iter().map(|p| p.name.value.clone()).collect();
    assert_eq!(names, vec!["a", "b", "out"]);
    assert_eq!(c.signals.get_name("out"), vec![None]);
}

#[test]
fn dff_is_built_in_and_starts_at_zero() {
    let hdl = chip("dff", vec![], vec![]);
    let c = Chip::new(&hdl, &vec![], false, &vec![]).unwrap();
    assert_eq!(c.name, "DFF");
    assert_eq!(c.signals.get_name("in"), vec![Some(false)]);
    assert_eq!(c.signals.get_name("out"), vec![Some(false)]);
}

#[test]
fn wrong_number_of_generics_for_a_chip_is_an_error() {
    let err = Chip::new(&two_input("And", vec![]), &vec![], false, &vec![3]).err().unwrap();
    assert_eq!(err.msg, "Chip And declares 0 generics but instantiated with 1");
    assert!(matches!(err.kind, ErrorKind::SimulationError(None)));
}

#[test]
fn ports_and_internal_signals_get_buses() {
    let hdl = two_input("And", vec![nand_part("a", "b", "w"), nand_part("w", "w", "out")]);
    let c = Chip::new(&hdl, &vec![nand_hdl()], false, &vec![]).unwrap();
    assert_eq!(c.name, "And");
    assert_eq!(c.components.len(), 2);
    assert_eq!(c.signals.get_width("a"), Some(1));
    assert_eq!(c.signals.get_width("w"), Some(1));
    assert_eq!(c.signals.get_width("out"), Some(1));
    assert_eq!(c.sources.len(), 0);
}

#[test]
fn elaboration_records_the_source_of_each_bit() {
    let hdl = two_input("And", vec![nand_part("a", "b", "w"), nand_part("w", "w", "out")]);
    let c = Chip::new(&hdl, &vec![nand_hdl()], true, &vec![]).unwrap();
    assert_eq!(c.sources.get("a").unwrap().clone(), vec![Some(Source::Input { port: 0, bit: 0 })]);
    assert_eq!(c.sources.get("w").unwrap().clone(), vec![Some(Source::Part { part: 0, port: 2, bit: 0 })]);
    assert_eq!(c.sources.get("out").unwrap().clone(), vec![Some(Source::Part { part: 1, port: 2, bit: 0 })]);
}

#[test]
fn a_bit_with_two_sources_is_an_error() {
    let hdl = two_input("And", vec![nand_part("a", "b", "out"), nand_part("a", "b", "out")]);
    let err = Chip::new(&hdl, &vec![nand_hdl()], true, &vec![]).err().unwrap();
    assert_eq!(err.msg, "Duplicate source for signal name out.");
    assert!(matches!(err.kind, ErrorKind::ParseIdentError(_)));
}

#[test]
fn an_unconnected_input_bit_is_an_error() {
    let hdl = two_input("And", vec![nand_part("a", "", "out")]);
    let err = Chip::new(&hdl, &vec![nand_hdl()], true, &vec![]).err().unwrap();
    assert_eq!(err.msg, "Component does not provide inputs for all bits of b.");
}

fn gate(with_x: bool) -> ChipHDL {
    let mut ports = vec![port("a", 1, PortDirection::In), port("out", 1, PortDirection::Out)];
    if with_x {
        ports.push(port("x", 1, PortDirection::In));
    }
    chip("Gate", ports, vec![])
}

fn gate_user() -> ChipHDL {
    let mut parts = Vec::new();
    parts.push(Part::Component(Component {
        name: Identifier::from("Gate"),
        mappings: vec![mapping("a", "a"), mapping("x", "b"), mapping("out", "out")],
        generic_params: Vec::new(),
    }));
    two_input("User", parts)
}

#[test]
fn a_missing_part_chip_is_an_error() {
    let c = Chip::new(&gate_user(), &vec![gate(true)], false, &vec![]).unwrap();
    let err = c.elaborate(&vec![]).err().unwrap();
    assert_eq!(err.msg, "Chip Gate not found");
    assert!(matches!(err.kind, ErrorKind::IOError));
}

#[test]
fn a_mapping_to_a_missing_port_is_an_error() {
    let c = Chip::new(&gate_user(), &vec![gate(true)], false, &vec![]).unwrap();
    let err = c.elaborate(&vec![gate(false)]).err().unwrap();
    assert_eq!(err.msg, "Attempt to get non-existent port x.");
    assert!(matches!(err.kind, ErrorKind::ParseIdentError(_)));
}

#[test]
fn every_input_connected_elaborates() {
    let c = Chip::new(&gate_user(), &vec![gate(true)], true, &vec![]).unwrap();
    assert_eq!(c.sources.get("b").unwrap().clone(), vec![Some(Source::Input { port: 1, bit: 0 })]);
    assert_eq!(c.sources.get("out").unwrap().clone(), vec![Some(Source::Part { part: 0, port: 1, bit: 0 })]);
}

fn one(name: &str) -> Bus {
    Bus { name: String::from(name), range: Some(0..1) }
}

#[test]
fn nand_gate_computes_its_output() {
    let mut c = Chip::new(&nand_hdl(), &vec![], false, &vec![]).unwrap();
    c.compute_gate();
    assert_eq!(c.signals.get_name("out"), vec![None]);
    c.signals.insert(one("a"), vec![true]);
    c.signals.insert(one("b"), vec![true]);
    c.compute_gate();
    assert_eq!(c.signals.get_name("out"), vec![Some(false)]);
    c.signals.insert(one("b"), vec![false]);
    c.compute_gate();
    assert_eq!(c.signals.get_name("out"), vec![Some(true)]);
}

#[test]
fn dff_output_changes_on_the_tick() {
    let mut c = Chip::new(&chip("DFF", vec![], vec![]), &vec![], false, &vec![]).unwrap();
    c.signals.insert(one("in"), vec![true]);
    c.compute_gate();
    assert_eq!(c.signals.get_name("out"), vec![Some(false)]);
    c.tick_dff();
    assert_eq!(c.signals.get_name("out"), vec![Some(true)]);
}

#[test]
fn a_part_input_without_a_source_is_an_error() {
    let hdl = two_input("And", vec![nand_part("a", "x", "out")]);
    let err = Chip::new(&hdl, &vec![nand_hdl()], true, &vec![]).err().unwrap();
    assert_eq!(err.msg, "No source for signal name x.");
    assert!(matches!(err.kind, ErrorKind::ParseIdentError(_)));
}

#[test]
fn constants_get_sixteen_sources() {
    let hdl = two_input("And", vec![nand_part("a", "true", "out")]);
    let c = Chip::new(&hdl, &vec![nand_hdl()], true, &vec![]).unwrap();
    let row = c.sources.get("true").unwrap().clone();
    assert_eq!(row.len(), 16);
    assert_eq!(row[3], Some(Source::Literal { value: true, bit: 3 }));
    assert!(c.sources.get("false").is_none());
}
