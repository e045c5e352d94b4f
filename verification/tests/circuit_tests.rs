use whidl::busmap::BusMap;
use whidl::circuit::{Circuit, Simulator};
use whidl::table::full_table_internal;
use whidl::expr::{GenericWidth, Terminal};
use whidl::parser::{BusHDL, ChipHDL, Component, GenericPort, Identifier, Part, PortDirection, PortMappingHDL};
use whidl::simulator::Bus;
use whidl::test_parser::{InputValue, Instruction, NumberSystem, Step, TestScript};
use whidl::test_script::run_test;

fn bus(name: &str) -> BusHDL {
    BusHDL { name: String::from(name), start: None, end: None }
}

fn mapping(port: &str, wire: &str) -> PortMappingHDL {
    PortMappingHDL { wire_ident: Identifier::from(wire), wire: bus(wire), port: bus(port) }
}

fn port(name: &str, direction: PortDirection) -> GenericPort {
    GenericPort { name: Identifier::from(name), width: GenericWidth::Terminal(Terminal::Num(1)), direction }
}

fn chip(name: &str, ports: Vec<GenericPort>, parts: Vec<Part>) -> ChipHDL {
    ChipHDL { name: String::from(name), ports, parts, path: None, generic_decls: Vec::new() }
}

fn part(name: &str, mappings: Vec<PortMappingHDL>) -> Part {
    Part::Component(Component { name: Identifier::from(name), mappings, generic_params: Vec::new() })
}

fn library() -> Vec<ChipHDL> {
    let nand = chip(
        "Nand",
        vec![port("a", PortDirection::In), port("b", PortDirection::In), port("out", PortDirection::Out)],
        vec![],
    );
    let dff = chip("DFF", vec![port("in", PortDirection::In), port("out", PortDirection::Out)], vec![]);
    let not = chip(
        "Not",
        vec![port("in", PortDirection::In), port("out", PortDirection::Out)],
        vec![part("Nand", vec![mapping("a", "in"), mapping("b", "in"), mapping("out", "out")])],
    );
    let and = chip(
        "And",
        vec![port("a", PortDirection::In), port("b", PortDirection::In), port("out", PortDirection::Out)],
        vec![
            part("Nand", vec![mapping("a", "a"), mapping("b", "b"), mapping("out", "w")]),
            part("Not", vec![mapping("in", "w"), mapping("out", "out")]),
        ],
    );
    let bit = chip(
        "Delay",
        vec![port("in", PortDirection::In), port("out", PortDirection::Out)],
        vec![part("DFF", vec![mapping("in", "in"), mapping("out", "out")])],
    );
    vec![nand, dff, not, and, bit]
}

fn inputs(values: &[(&str, bool)]) -> BusMap {
    let mut m = BusMap::new();
    for (name, v) in values {
        m.create_bus(name, 1).unwrap();
        m.insert(Bus { name: String::from(*name), range: Some(0..1) }, vec![*v]);
    }
    m
}

#[test]
fn test_nand2tetris_solution_not() {
    let lib = library();
    let mut c = Circuit::build(&lib[2], &lib, &vec![]).unwrap();
    let out = c.compute(&inputs(&[("in", false)])).unwrap();
    assert_eq!(out.get_bus(&Bus::from("out")), vec![Some(true)]);
    let out = c.compute(&inputs(&[("in", true)])).unwrap();
    assert_eq!(out.get_bus(&Bus::from("out")), vec![Some(false)]);
}

#[test]
fn and_gate_of_nand_and_not_has_its_truth_table() {
    let lib = library();
    let mut c = Circuit::build(&lib[3], &lib, &vec![]).unwrap();
    for (a, b) in [(false, false), (false, true), (true, false), (true, true)] {
        let out = c.compute(&inputs(&[("a", a), ("b", b)])).unwrap();
        assert_eq!(out.get_bus(&Bus::from("out")), vec![Some(a && b)]);
        assert_eq!(out.get_bus(&Bus::from("a")), vec![Some(a)]);
    }
}

#[test]
fn missing_inputs_are_an_error() {
    let lib = library();
    let mut c = Circuit::build(&lib[3], &lib, &vec![]).unwrap();
    let err = c.compute(&inputs(&[("a", true)])).err().unwrap();
    assert_eq!(err.msg, "The inputs do not give every bit of every input port");
}

#[test]
fn dff_output_follows_its_input_on_the_tick() {
    let lib = library();
    let mut c = Circuit::build(&lib[4], &lib, &vec![]).unwrap();
    let out = c.compute(&inputs(&[("in", true)])).unwrap();
    assert_eq!(out.get_bus(&Bus::from("out")), vec![Some(false)]);
    c.tick();
    let out = c.compute(&inputs(&[("in", false)])).unwrap();
    assert_eq!(out.get_bus(&Bus::from("out")), vec![Some(true)]);
    c.tick();
    let out = c.compute(&inputs(&[("in", false)])).unwrap();
    assert_eq!(out.get_bus(&Bus::from("out")), vec![Some(false)]);
}

fn set(port: &str, bit: &str) -> Instruction {
    Instruction::SetPort(String::from(port), InputValue { number_system: NumberSystem::Binary, value: String::from(bit) })
}

fn not_script() -> TestScript {
    TestScript {
        path: None,
        hdl_file: String::from("Not.hdl"),
        output_file: String::from("Not.out"),
        compare_file: String::from("Not.cmp"),
        output_list: Vec::new(),
        steps: vec![
            Step { instructions: vec![set("in", "0"), Instruction::Eval, Instruction::Output] },
            Step { instructions: vec![set("in", "1"), Instruction::Eval, Instruction::Output] },
        ],
        generics: Vec::new(),
    }
}

#[test]
fn a_test_script_passes_where_every_output_matches() {
    let lib = library();
    let mut c = Circuit::build(&lib[2], &lib, &vec![]).unwrap();
    let expected = vec![inputs(&[("in", false), ("out", true)]), inputs(&[("in", true), ("out", false)])];
    assert!(run_test(&not_script(), &mut c, &expected).is_ok());
}

#[test]
fn a_test_script_fails_where_an_output_differs() {
    let lib = library();
    let mut c = Circuit::build(&lib[2], &lib, &vec![]).unwrap();
    let expected = vec![inputs(&[("in", false), ("out", true)]), inputs(&[("in", true), ("out", true)])];
    let err = run_test(&not_script(), &mut c, &expected).err().unwrap();
    assert_eq!(err.msg, "Test failed.");
}

#[test]
fn simulator_steps_and_ticks_a_flip_flop() {
    let lib = library();
    let c = Circuit::build(&lib[4], &lib, &vec![]).unwrap();
    let mut sim = Simulator::new(c);
    let out = sim.simulate(&inputs(&[("in", true)])).unwrap();
    assert_eq!(out.get_bus(&Bus::from("out")), vec![Some(false)]);
    assert!(sim.tick().is_ok());
    let out = sim.simulate(&inputs(&[("in", false)])).unwrap();
    assert_eq!(out.get_bus(&Bus::from("out")), vec![Some(true)]);
}

#[test]
fn full_table_of_and_counts_its_inputs_up() {
    let lib = library();
    let mut c = Circuit::build(&lib[3], &lib, &vec![]).unwrap();
    let (cols, rows) = full_table_internal(&mut c).unwrap();
    assert_eq!(cols, vec![String::from("a"), String::from("b"), String::from("out")]);
    assert_eq!(rows.len(), 4);
    // The first input port takes the lowest bit of the row number.
    let expected = [(false, false, false), (true, false, false), (false, true, false), (true, true, true)];
    for (row, (a, b, out)) in rows.iter().zip(expected.iter()) {
        assert_eq!(row, &vec![vec![Some(*a)], vec![Some(*b)], vec![Some(*out)]]);
    }
}

#[test]
fn full_table_refuses_more_than_ten_input_bits() {
    let wide = GenericPort { name: Identifier::from("in"), width: GenericWidth::Terminal(Terminal::Num(11)), direction: PortDirection::In };
    let hdl = chip("Wide", vec![wide, port("out", PortDirection::Out)], vec![]);
    let mut lib = library();
    lib.push(hdl.clone());
    let mut c = Circuit::build(&hdl, &lib, &vec![]).unwrap();
    let e = full_table_internal(&mut c).unwrap_err();
    assert_eq!(e.msg, "Too many rows in truth table to display (max 32).");
}

#[test]
fn a_second_tick_changes_nothing() {
    let lib = library();
    let mut c = Circuit::build(&lib[4], &lib, &vec![]).unwrap();
    c.compute(&inputs(&[("in", true)])).unwrap();
    c.tick();
    c.tick();
    let out = c.compute(&inputs(&[("in", false)])).unwrap();
    assert_eq!(out.get_bus(&Bus::from("out")), vec![Some(true)]);
}
