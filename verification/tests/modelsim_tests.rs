use whidl::expr::{GenericWidth, Terminal};
use whidl::modelsim::{TestBench, TestbenchSignals};
use whidl::opt::optimization::OptimizationInfo;
use whidl::parser::{BusHDL, ChipHDL, Component, GenericPort, Identifier, Part, PortDirection, PortMappingHDL};
use whidl::simulator::Port;
use whidl::strmap::StrMap;
use whidl::test_parser::{InputValue, Instruction, NumberSystem, OutputFormat, Step, TestScript};
use whidl::test_script::read_cmp;
use whidl::vhdl::{SignalRhs, Statement, VhdlEntity, Signal};

fn num(n: usize) -> GenericWidth {
    GenericWidth::Terminal(Terminal::Num(n))
}

fn bus(name: &str) -> BusHDL {
    BusHDL { name: String::from(name), start: None, end: None }
}

fn mapping(port: &str, wire: &str) -> PortMappingHDL {
    PortMappingHDL { wire_ident: Identifier::from(wire), wire: bus(wire), port: bus(port) }
}

fn port(name: &str, width: usize, direction: PortDirection) -> GenericPort {
    GenericPort { name: Identifier::from(name), width: num(width), direction }
}

fn chip(name: &str, ports: Vec<GenericPort>, parts: Vec<Part>) -> ChipHDL {
    ChipHDL { name: String::from(name), ports, parts, path: None, generic_decls: Vec::new() }
}

fn component(name: &str, mappings: Vec<PortMappingHDL>) -> Component {
    Component { name: Identifier::from(name), mappings, generic_params: Vec::new() }
}

fn column(name: &str, number_system: NumberSystem, width: usize) -> OutputFormat {
    OutputFormat { port_name: String::from(name), number_system, space_before: 1, output_columns: width, space_after: 1 }
}

fn set(port: &str, value: &str) -> Instruction {
    Instruction::SetPort(String::from(port), InputValue { number_system: NumberSystem::Binary, value: String::from(value) })
}

fn script(output_list: Vec<OutputFormat>, steps: Vec<Vec<Instruction>>) -> TestScript {
    TestScript {
        path: None,
        hdl_file: String::from("Chip.hdl"),
        output_file: String::from("Chip.out"),
        compare_file: String::from("Chip.cmp"),
        output_list,
        steps: steps.into_iter().map(|instructions| Step { instructions }).collect(),
        generics: vec![],
    }
}

fn ports_of(c: &ChipHDL) -> StrMap<Port> {
    let mut m = StrMap::new();
    for p in &c.ports {
        let width = match &p.width {
            GenericWidth::Terminal(Terminal::Num(n)) => *n,
            _ => panic!("numeric width expected"),
        };
        m.insert(p.name.value.clone(), Port { name: p.name.clone(), width, direction: p.direction });
    }
    m
}

fn nand_chip() -> ChipHDL {
    chip(
        "Nand",
        vec![port("a", 1, PortDirection::In), port("b", 1, PortDirection::In), port("out", 1, PortDirection::Out)],
        vec![],
    )
}

fn not_chip() -> ChipHDL {
    chip(
        "Not",
        vec![port("in", 1, PortDirection::In), port("out", 1, PortDirection::Out)],
        vec![Part::Component(component("Nand", vec![mapping("a", "in"), mapping("b", "in"), mapping("out", "out")]))],
    )
}

fn literal(s: &Statement) -> (String, Vec<bool>) {
    match s {
        Statement::Assignment(a) => match &a.right {
            SignalRhs::Literal(l) => (a.left.name.clone(), l.values.clone()),
            _ => panic!("literal expected"),
        },
        _ => panic!("assignment expected"),
    }
}

#[test]
fn output_column_becomes_a_signal_of_its_width() {
    let s = Signal::from(&column("out", NumberSystem::Binary, 16));
    assert_eq!(s.name, "out");
    assert!(matches!(s.width, GenericWidth::Terminal(Terminal::Num(16))));
}

#[test]
fn testbench_signals_end_with_the_clock() {
    let signals = TestbenchSignals::from(&vec![column("in", NumberSystem::Binary, 1), column("out", NumberSystem::Binary, 1)]);
    let names: Vec<&str> = signals.value.iter().map(|s| s.name.as_str()).collect();
    assert_eq!(names, vec!["in", "out", "clk"]);
    assert!(matches!(signals.value[2].width, GenericWidth::Terminal(Terminal::Num(1))));
}

#[test]
fn not_testbench_sets_waits_and_asserts() {
    let ts = script(
        vec![column("in", NumberSystem::Binary, 1), column("out", NumberSystem::Binary, 1)],
        vec![vec![set("in", "0"), Instruction::Eval, Instruction::Output], vec![set("in", "1"), Instruction::Eval, Instruction::Output]],
    );
    let not = not_chip();
    let expected = read_cmp(
        &vec![String::from("|in |out|"), String::from("| 0 | 1 |"), String::from("| 1 | 0 |")],
        "\"Not.cmp\"",
        &ts,
        &ports_of(&not),
    )
    .ok()
    .unwrap();
    let bench = TestBench::from_script(&ts, not, &expected);
    assert_eq!(bench.chip.parts.len(), 2);
    match &bench.chip.parts[1] {
        Part::Component(c) => {
            assert_eq!(c.name.value, "Not");
            assert!(c.mappings.is_empty());
        }
        _ => panic!("component expected"),
    }
    assert_eq!(bench.instructions.len(), 8);
    assert_eq!(literal(&bench.instructions[0]), (String::from("in"), vec![false]));
    assert!(matches!(bench.instructions[1], Statement::Wait(_)));
    match &bench.instructions[2] {
        Statement::Assert(a) => {
            assert_eq!(a.signal_name, "in");
            assert_eq!(a.signal_value.values, vec![false]);
            assert_eq!(a.report_msg, "Test failure in");
        }
        _ => panic!("assertion expected"),
    }
    match &bench.instructions[3] {
        Statement::Assert(a) => {
            assert_eq!(a.signal_name, "out");
            assert_eq!(a.signal_value.values, vec![true]);
            assert_eq!(a.report_msg, "Test failure out");
        }
        _ => panic!("assertion expected"),
    }
    assert_eq!(literal(&bench.instructions[4]), (String::from("in"), vec![true]));
    match &bench.instructions[7] {
        Statement::Assert(a) => assert_eq!(a.signal_value.values, vec![false]),
        _ => panic!("assertion expected"),
    }

    let library = vec![nand_chip(), not_chip()];
    let entity = VhdlEntity::from_test_bench(bench, &library).ok().unwrap();
    assert_eq!(entity.name, "Not_tst");
    assert!(entity.ports.is_empty());
    assert!(entity.generics.is_empty());
    assert_eq!(entity.signals.len(), 3);
    assert_eq!(entity.statements.len(), 2);
    match &entity.statements[0] {
        Statement::Component(c) => {
            assert_eq!(c.unit, "not_n2v");
            let wires: Vec<&str> = c.port_mappings.iter().map(|m| m.wire_name.as_str()).collect();
            assert_eq!(wires, vec!["in", "out"]);
        }
        _ => panic!("component expected"),
    }
    match &entity.statements[1] {
        Statement::Process(p) => assert_eq!(p.statements.len(), 8),
        _ => panic!("process expected"),
    }
    match &entity.optimization_info {
        Some(OptimizationInfo::SequentialFlagMap(m)) => assert_eq!(m.get("Not"), Some(&false)),
        _ => panic!("flags expected"),
    }
}

#[test]
fn clock_instructions_drive_the_clock() {
    let ts = script(vec![column("out", NumberSystem::Binary, 1)], vec![vec![Instruction::Tick, Instruction::Tock]]);
    let bench = TestBench::from_script(&ts, not_chip(), &vec![]);
    assert_eq!(bench.instructions.len(), 4);
    assert_eq!(literal(&bench.instructions[0]), (String::from("clk"), vec![false]));
    assert!(matches!(bench.instructions[1], Statement::Wait(_)));
    assert_eq!(literal(&bench.instructions[2]), (String::from("clk"), vec![true]));
    assert!(matches!(bench.instructions[3], Statement::Wait(_)));
}

#[test]
fn sequential_chip_under_test_gets_the_clock() {
    let dff = chip("DFF", vec![port("in", 1, PortDirection::In), port("out", 1, PortDirection::Out)], vec![]);
    let bit = chip(
        "Bit",
        vec![port("in", 1, PortDirection::In), port("out", 1, PortDirection::Out)],
        vec![Part::Component(component("DFF", vec![mapping("in", "in"), mapping("out", "out")]))],
    );
    let library = vec![dff, bit.clone()];
    let ts = script(vec![column("in", NumberSystem::Binary, 1)], vec![vec![Instruction::Tick]]);
    let bench = TestBench::from_script(&ts, bit, &vec![]);
    let entity = VhdlEntity::from_test_bench(bench, &library).ok().unwrap();
    match &entity.statements[0] {
        Statement::Component(c) => {
            assert_eq!(c.unit, "Bit");
            let wires: Vec<&str> = c.port_mappings.iter().map(|m| m.wire_name.as_str()).collect();
            assert_eq!(wires, vec!["in", "out", "clk"]);
        }
        _ => panic!("component expected"),
    }
}

#[test]
fn testbench_of_chip_missing_from_library_fails() {
    let ts = script(vec![], vec![]);
    let bench = TestBench::from_script(&ts, not_chip(), &vec![]);
    let e = VhdlEntity::from_test_bench(bench, &vec![nand_chip()]).err().unwrap();
    assert_eq!(e.msg, "Chip Not not found");
}
