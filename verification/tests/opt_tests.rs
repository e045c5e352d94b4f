use whidl::expr::{GenericWidth, Terminal};
use whidl::opt::optimization::{OptimizationInfo, OptimizationPass};
use whidl::opt::portmap_dedupe::PortMapDedupe;
use whidl::opt::sequential::{library_is_ordered, SequentialPass};
use whidl::parser::{AssignmentHDL, BusHDL, ChipHDL, Component, GenericPort, Identifier, Loop, Part, PortDirection, PortMappingHDL};

fn num(n: usize) -> GenericWidth {
    GenericWidth::Terminal(Terminal::Num(n))
}

fn bus(name: &str) -> BusHDL {
    BusHDL { name: String::from(name), start: None, end: None }
}

fn mapping(port: &str, wire: &str) -> PortMappingHDL {
    PortMappingHDL { wire_ident: Identifier::from(wire), wire: bus(wire), port: bus(port) }
}

fn port(name: &str, direction: PortDirection) -> GenericPort {
    GenericPort { name: Identifier::from(name), width: num(1), direction }
}

fn chip(name: &str, ports: Vec<GenericPort>, parts: Vec<Part>) -> ChipHDL {
    ChipHDL { name: String::from(name), ports, parts, path: None, generic_decls: Vec::new() }
}

fn component(name: &str, mappings: Vec<PortMappingHDL>) -> Component {
    Component { name: Identifier::from(name), mappings, generic_params: Vec::new() }
}

fn library() -> Vec<ChipHDL> {
    let nand = chip("Nand", vec![port("a", PortDirection::In), port("b", PortDirection::In), port("out", PortDirection::Out)], vec![]);
    let dff = chip("DFF", vec![port("in", PortDirection::In), port("out", PortDirection::Out)], vec![]);
    let not = chip(
        "Not",
        vec![port("in", PortDirection::In), port("out", PortDirection::Out)],
        vec![Part::Component(component("Nand", vec![mapping("a", "in"), mapping("b", "in"), mapping("out", "out")]))],
    );
    let bit = chip(
        "Bit",
        vec![port("in", PortDirection::In), port("out", PortDirection::Out)],
        vec![Part::Component(component("DFF", vec![mapping("in", "in"), mapping("out", "out")]))],
    );
    vec![nand, dff, not, bit]
}

fn flag(info: &OptimizationInfo, name: &str) -> Option<bool> {
    match info {
        OptimizationInfo::SequentialFlagMap(m) => m.get(name).copied(),
        OptimizationInfo::Nothing => None,
    }
}

#[test]
fn chip_with_a_dff_part_is_sequential() {
    let top = chip(
        "Top",
        vec![],
        vec![
            Part::Component(component("Not", vec![mapping("in", "x"), mapping("out", "y")])),
            Part::Loop(Loop {
                start: num(0),
                end: num(1),
                iterator: Identifier::from("i"),
                body: vec![component("Bit", vec![mapping("in", "y"), mapping("out", "z")])],
            }),
        ],
    );
    let mut pass = SequentialPass::new();
    let (same, info) = pass.apply(&top, &library()).ok().unwrap();
    assert_eq!(same.name, "Top");
    assert_eq!(flag(&info, "Top"), Some(true));
    assert_eq!(flag(&info, "Bit"), Some(true));
    assert_eq!(flag(&info, "DFF"), Some(true));
    assert_eq!(flag(&info, "Not"), Some(false));
    assert_eq!(flag(&info, "Nand"), Some(false));
}

#[test]
fn combinational_chip_is_not_sequential() {
    let top = chip("Top", vec![], vec![Part::Component(component("Not", vec![mapping("in", "x"), mapping("out", "y")]))]);
    let mut pass = SequentialPass::new();
    let (_, info) = pass.apply(&top, &library()).ok().unwrap();
    assert_eq!(flag(&info, "Top"), Some(false));
    assert_eq!(flag(&info, "DFF"), None);
}

#[test]
fn missing_chip_is_an_error() {
    let top = chip("Top", vec![], vec![Part::Component(component("Xor", vec![]))]);
    let mut pass = SequentialPass::new();
    let err = pass.apply(&top, &library()).err().unwrap();
    assert_eq!(err.msg, "Chip Xor not found");
}

#[test]
fn output_port_driving_two_wires_is_split() {
    let top = chip(
        "Top",
        vec![],
        vec![Part::Component(component("Not", vec![mapping("in", "x"), mapping("out", "y"), mapping("out", "z")]))],
    );
    let mut pass = PortMapDedupe::new();
    let (new_chip, info) = pass.apply(&top, &library()).ok().unwrap();
    assert!(matches!(info, OptimizationInfo::Nothing));
    assert_eq!(new_chip.parts.len(), 3);
    match &new_chip.parts[0] {
        Part::Component(c) => {
            assert_eq!(c.mappings.len(), 2);
            assert_eq!(c.mappings[0].port.name, "in");
            assert_eq!(c.mappings[0].wire.name, "x");
            assert_eq!(c.mappings[1].port.name, "out");
            assert_eq!(c.mappings[1].wire.name, "out_1");
            assert_eq!(c.mappings[1].wire_ident.value, "out_1");
        }
        _ => panic!("expected a component"),
    }
    match &new_chip.parts[1] {
        Part::AssignmentHDL(a) => {
            assert_eq!(a.left.name, "y");
            assert_eq!(a.right.name, "out_1");
        }
        _ => panic!("expected an assignment"),
    }
    match &new_chip.parts[2] {
        Part::AssignmentHDL(a) => {
            assert_eq!(a.left.name, "z");
            assert_eq!(a.right.name, "out_1");
        }
        _ => panic!("expected an assignment"),
    }
}

#[test]
fn components_are_numbered_in_order() {
    let top = chip(
        "Top",
        vec![],
        vec![
            Part::Component(component("Not", vec![mapping("in", "x"), mapping("out", "y")])),
            Part::Component(component("Not", vec![mapping("in", "y"), mapping("out", "p"), mapping("out", "q")])),
        ],
    );
    let mut pass = PortMapDedupe::new();
    let (new_chip, _) = pass.apply(&top, &library()).ok().unwrap();
    match &new_chip.parts[1] {
        Part::Component(c) => assert_eq!(c.mappings[1].wire.name, "out_2"),
        _ => panic!("expected a component"),
    }
    match &new_chip.parts[0] {
        Part::Component(c) => assert_eq!(c.mappings[1].wire.name, "y"),
        _ => panic!("expected a component"),
    }
}

#[test]
fn unknown_port_is_an_error() {
    let top = chip("Top", vec![], vec![Part::Component(component("Not", vec![mapping("bogus", "x")]))]);
    let mut pass = PortMapDedupe::new();
    let err = pass.apply(&top, &library()).err().unwrap();
    assert_eq!(err.msg, "Non-existent port bogus");
}

#[test]
fn chip_with_a_dff_in_a_loop_of_a_part_is_sequential() {
    let mut lib = library();
    let bits2 = chip(
        "Bits2",
        vec![port("in", PortDirection::In), port("out", PortDirection::Out)],
        vec![Part::Loop(Loop {
            start: num(0),
            end: num(1),
            iterator: Identifier::from("i"),
            body: vec![component("DFF", vec![mapping("in", "in"), mapping("out", "out")])],
        })],
    );
    lib.push(bits2);
    let top = chip("Top", vec![], vec![Part::Component(component("Bits2", vec![mapping("in", "x"), mapping("out", "y")]))]);
    let mut pass = SequentialPass::new();
    let (_, info) = pass.apply(&top, &lib).ok().unwrap();
    assert_eq!(flag(&info, "Bits2"), Some(true));
    assert_eq!(flag(&info, "DFF"), Some(true));
    assert_eq!(flag(&info, "Top"), Some(true));
}

#[test]
fn chip_assignments_are_kept_in_place() {
    let top = chip(
        "Top",
        vec![],
        vec![
            Part::AssignmentHDL(AssignmentHDL { left: bus("a"), right: bus("b") }),
            Part::Component(component("Not", vec![mapping("in", "x"), mapping("out", "y"), mapping("out", "z")])),
        ],
    );
    let mut pass = PortMapDedupe::new();
    let (new_chip, _) = pass.apply(&top, &library()).ok().unwrap();
    assert_eq!(new_chip.parts.len(), 4);
    match &new_chip.parts[0] {
        Part::AssignmentHDL(a) => {
            assert_eq!(a.left.name, "a");
            assert_eq!(a.right.name, "b");
        }
        _ => panic!("expected the chip's own assignment"),
    }
    assert!(matches!(new_chip.parts[1], Part::Component(_)));
    match &new_chip.parts[3] {
        Part::AssignmentHDL(a) => assert_eq!(a.left.name, "z"),
        _ => panic!("expected an assignment"),
    }
}

#[test]
fn chip_in_the_library_using_a_missing_chip_is_an_error() {
    let mut lib = library();
    lib.push(chip("Uses", vec![], vec![Part::Component(component("Gone", vec![]))]));
    let top = chip("Top", vec![], vec![Part::Component(component("Uses", vec![]))]);
    let mut pass = SequentialPass::new();
    let err = pass.apply(&top, &lib).err().unwrap();
    assert_eq!(err.msg, "Chip Gone not found");
}

#[test]
fn library_order_is_checked() {
    let lib = library();
    assert!(library_is_ordered(&lib));
    let mut reversed = lib.clone();
    reversed.reverse();
    assert!(!library_is_ordered(&reversed));
    let mut with_missing = library();
    with_missing.push(chip("Uses", vec![], vec![Part::Component(component("Gone", vec![]))]));
    assert!(library_is_ordered(&with_missing));
}
