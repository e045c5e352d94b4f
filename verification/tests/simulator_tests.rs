use whidl::error::ErrorKind;
use whidl::expr::{GenericWidth, Op, Terminal};
use whidl::parser::{AssignmentHDL, BusHDL, ChipHDL, Component, GenericPort, Identifier, Loop, Part, PortDirection, PortMappingHDL};
use whidl::simulator::{gather_assignments, generate_assignments, generate_components, infer_widths, nand, width_eq};
use whidl::strmap::StrMap;

fn num(n: usize) -> GenericWidth {
    GenericWidth::Terminal(Terminal::Num(n))
}

fn var(name: &str) -> GenericWidth {
    GenericWidth::Terminal(Terminal::Var(Identifier::from(name)))
}

fn bus(name: &str) -> BusHDL {
    BusHDL { name: String::from(name), start: None, end: None }
}

fn ranged(name: &str, start: GenericWidth, end: GenericWidth) -> BusHDL {
    BusHDL { name: String::from(name), start: Some(start), end: Some(end) }
}

fn mapping(port: BusHDL, wire: BusHDL) -> PortMappingHDL {
    PortMappingHDL { wire_ident: Identifier::from(wire.name.as_str()), wire, port }
}

fn port(name: &str, width: GenericWidth, direction: PortDirection) -> GenericPort {
    GenericPort { name: Identifier::from(name), width, direction }
}

fn chip(name: &str, ports: Vec<GenericPort>, parts: Vec<Part>) -> ChipHDL {
    ChipHDL { name: String::from(name), ports, parts, path: None, generic_decls: Vec::new() }
}

fn component(name: &str, mappings: Vec<PortMappingHDL>) -> Component {
    Component { name: Identifier::from(name), mappings, generic_params: Vec::new() }
}

fn not4() -> ChipHDL {
    chip("Not4", vec![port("in", num(4), PortDirection::In), port("out", num(4), PortDirection::Out)], vec![])
}

fn not1() -> ChipHDL {
    chip("Not", vec![port("in", num(1), PortDirection::In), port("out", num(1), PortDirection::Out)], vec![])
}

fn width_of(m: &StrMap<GenericWidth>, name: &str) -> Option<usize> {
    match m.get(name) {
        Some(GenericWidth::Terminal(Terminal::Num(n))) => Some(*n),
        _ => None,
    }
}

#[test]
fn nand_truth_table() {
    assert_eq!(nand(Some(false), Some(false)), Some(true));
    assert_eq!(nand(Some(false), Some(true)), Some(true));
    assert_eq!(nand(Some(true), Some(false)), Some(true));
    assert_eq!(nand(Some(true), Some(true)), Some(false));
    assert_eq!(nand(None, Some(true)), None);
    assert_eq!(nand(Some(false), None), None);
}

#[test]
fn assignments_are_gathered_in_order() {
    let parts = vec![
        Part::AssignmentHDL(AssignmentHDL { left: bus("a"), right: bus("b") }),
        Part::Component(component("Not", vec![])),
        Part::AssignmentHDL(AssignmentHDL { left: bus("c"), right: bus("d") }),
    ];
    let a = gather_assignments(&parts);
    assert_eq!(a.len(), 2);
    assert_eq!(a[0].left.name, "a");
    assert_eq!(a[1].right.name, "d");
}

#[test]
fn loops_are_unrolled() {
    let mut hdl = chip("Foo", vec![], vec![]);
    hdl.generic_decls = vec![Identifier::from("N")];
    hdl.parts = vec![
        Part::Component(component("Not", vec![])),
        Part::Loop(Loop {
            start: num(0),
            end: GenericWidth::Expr(Op::Sub, Box::new(var("N")), Box::new(num(1))),
            iterator: Identifier::from("i"),
            body: vec![component("Not", vec![mapping(ranged("in", var("i"), var("i")), ranged("a", var("i"), var("i")))])],
        }),
    ];
    let comps = generate_components(&hdl, &vec![3]).ok().unwrap();
    assert_eq!(comps.len(), 4);
    for i in 0..3 {
        let m = &comps[i + 1].mappings[0];
        assert!(width_eq(m.wire.start.as_ref().unwrap(), &num(i)));
        assert!(width_eq(m.port.end.as_ref().unwrap(), &num(i)));
    }
}

#[test]
fn wrong_number_of_generics_is_an_error() {
    let mut hdl = chip("Foo", vec![], vec![]);
    hdl.generic_decls = vec![Identifier::from("N")];
    let err = generate_components(&hdl, &vec![]).err().unwrap();
    assert_eq!(err.msg, "Chip Foo declares 1 generics but instantiated with 0");
    assert!(matches!(err.kind, ErrorKind::SimulationError(None)));
}

#[test]
fn non_numeric_loop_bound_is_an_error() {
    let mut hdl = chip("Foo", vec![], vec![]);
    hdl.parts = vec![Part::Loop(Loop { start: num(0), end: var("M"), iterator: Identifier::from("i"), body: vec![] })];
    let err = generate_components(&hdl, &vec![]).err().unwrap();
    assert_eq!(err.msg, "Expression M is non-numeric");
}

#[test]
fn widths_flow_through_components() {
    let hdl = chip(
        "Foo",
        vec![port("in", num(4), PortDirection::In), port("out", num(4), PortDirection::Out)],
        vec![],
    );
    let comps = vec![
        component("Not4", vec![mapping(bus("in"), bus("in")), mapping(bus("out"), bus("w"))]),
        component("Not4", vec![mapping(bus("in"), bus("w")), mapping(bus("out"), bus("out"))]),
    ];
    let widths = infer_widths(&hdl, &vec![], &comps, &vec![not4()], &vec![]).ok().unwrap();
    assert_eq!(widths.len(), 3);
    assert_eq!(width_of(&widths, "w"), Some(4));
    assert_eq!(width_of(&widths, "in"), Some(4));
}

#[test]
fn wire_ranges_give_widths() {
    let hdl = chip("Foo", vec![port("in", num(4), PortDirection::In)], vec![]);
    let comps = vec![component("Not", vec![mapping(bus("in"), ranged("in", num(0), num(0))), mapping(bus("out"), ranged("w", num(2), num(2)))])];
    let widths = infer_widths(&hdl, &vec![], &comps, &vec![not1()], &vec![]).ok().unwrap();
    assert_eq!(width_of(&widths, "w"), Some(3));
}

#[test]
fn assignments_pass_widths_on() {
    let hdl = chip("Foo", vec![port("a", num(2), PortDirection::In)], vec![]);
    let asgs = vec![
        AssignmentHDL { left: bus("c"), right: bus("b") },
        AssignmentHDL { left: bus("b"), right: bus("a") },
    ];
    let widths = infer_widths(&hdl, &asgs, &vec![], &vec![], &vec![]).ok().unwrap();
    assert_eq!(width_of(&widths, "b"), Some(2));
    assert_eq!(width_of(&widths, "c"), Some(2));
    let generated = generate_assignments(&widths, asgs, &StrMap::new()).ok().unwrap();
    assert_eq!(generated.len(), 2);
    assert_eq!(generated[0].width, 2);
    assert_eq!(generated[0].left.range, Some(0..2));
}

#[test]
fn width_mismatch_is_an_error() {
    let hdl = chip("Foo", vec![port("x", num(4), PortDirection::In)], vec![]);
    let comps = vec![component("Not", vec![mapping(bus("in"), bus("x"))])];
    let err = infer_widths(&hdl, &vec![], &comps, &vec![not1()], &vec![]).err().unwrap();
    assert_eq!(
        err.msg,
        "Chip Foo component Not inferred width of signal x is 4, not equal to width of port in which is 1."
    );
}

#[test]
fn unknown_port_in_widths_is_an_error() {
    let hdl = chip("Foo", vec![], vec![]);
    let comps = vec![component("Not", vec![mapping(bus("bogus"), bus("x"))])];
    let err = infer_widths(&hdl, &vec![], &comps, &vec![not1()], &vec![]).err().unwrap();
    assert_eq!(err.msg, "Non-existent port bogus");
}

#[test]
fn unsourced_assignment_is_an_error() {
    let hdl = chip("Foo", vec![], vec![]);
    let asgs = vec![AssignmentHDL { left: bus("x"), right: bus("y") }];
    let err = infer_widths(&hdl, &asgs, &vec![], &vec![], &vec![]).err().unwrap();
    assert_eq!(err.msg, "Signals x and y have no source or destination.");
}

#[test]
fn disagreeing_assignment_is_an_error() {
    let hdl = chip("Foo", vec![port("a", num(2), PortDirection::In), port("b", num(3), PortDirection::In)], vec![]);
    let asgs = vec![AssignmentHDL { left: bus("a"), right: bus("b") }];
    let err = infer_widths(&hdl, &asgs, &vec![], &vec![], &vec![]).err().unwrap();
    assert_eq!(err.msg, "Signal widths of a and b are not equal.");
}

#[test]
fn true_and_false_take_no_width() {
    let hdl = chip("Foo", vec![], vec![]);
    let comps = vec![component("Not", vec![mapping(bus("in"), bus("true")), mapping(bus("out"), bus("y"))])];
    let widths = infer_widths(&hdl, &vec![], &comps, &vec![not1()], &vec![]).ok().unwrap();
    assert!(widths.get("true").is_none());
    assert_eq!(width_of(&widths, "y"), Some(1));
}
