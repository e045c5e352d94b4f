use whidl::expr::{GenericWidth, Terminal};
use whidl::opt::optimization::OptimizationInfo;
use whidl::parser::{BusHDL, ChipHDL, Component, GenericPort, Identifier, Part, PortDirection, PortMappingHDL};
use whidl::simulator::generate_components;
use whidl::strmap::StrMap;
use whidl::vhdl::{
    group_port_mappings, keyw, quartus_tcl, QuartusProject, AssertVHDL, AssignmentVHDL, Cage, IdStatement, LiteralVHDL, Pet, PortMappingVHDL, Process,
    Signal, SignalRhs, SliceVHDL, Statement, VhdlComponent, VhdlEntity, VhdlPort, WaitVHDL,
};

fn num(n: usize) -> GenericWidth {
    GenericWidth::Terminal(Terminal::Num(n))
}

fn var(name: &str) -> GenericWidth {
    GenericWidth::Terminal(Terminal::Var(Identifier::from(name)))
}

fn bus(name: &str) -> BusHDL {
    BusHDL { name: String::from(name), start: None, end: None }
}

fn mapping(port: &str, wire: &str) -> PortMappingHDL {
    PortMappingHDL { wire_ident: Identifier::from(wire), wire: bus(wire), port: bus(port) }
}

fn port(name: &str, width: usize, direction: PortDirection) -> GenericPort {
    GenericPort { name: Identifier::from(name), width: num(width), direction }
}

fn chip(name: &str, ports: Vec<GenericPort>, parts: Vec<Part>) -> ChipHDL {
    ChipHDL { name: String::from(name), ports, parts, path: None, generic_decls: Vec::new() }
}

fn component(name: &str, mappings: Vec<PortMappingHDL>) -> Component {
    Component { name: Identifier::from(name), mappings, generic_params: Vec::new() }
}

fn slice(name: &str) -> SliceVHDL {
    SliceVHDL { name: String::from(name), start: None, end: None }
}

fn nand_chip() -> ChipHDL {
    chip(
        "Nand",
        vec![port("a", 1, PortDirection::In), port("b", 1, PortDirection::In), port("out", 1, PortDirection::Out)],
        vec![],
    )
}

fn not_chip() -> ChipHDL {
    chip("Not", vec![port("in", 1, PortDirection::In), port("out", 1, PortDirection::Out)], vec![])
}

fn and_chip() -> ChipHDL {
    chip(
        "And",
        vec![port("a", 1, PortDirection::In), port("b", 1, PortDirection::In), port("out", 1, PortDirection::Out)],
        vec![
            Part::Component(component("Nand", vec![mapping("a", "a"), mapping("b", "b"), mapping("out", "w")])),
            Part::Component(component("Not", vec![mapping("in", "w"), mapping("out", "out")])),
        ],
    )
}

#[test]
fn keyw_renames_vhdl_keywords_in_any_case() {
    assert_eq!(keyw("in"), "in_n2v");
    assert_eq!(keyw("OUT"), "out_n2v");
    assert_eq!(keyw("Or"), "or_n2v");
    assert_eq!(keyw("dff"), "DFF_n2v");
    assert_eq!(keyw("Register"), "register_n2v");
    assert_eq!(keyw("Mux"), "Mux");
    assert_eq!(keyw("input"), "input");
}

#[test]
fn literal_is_written_most_significant_bit_first() {
    let l = LiteralVHDL { values: vec![true, false, false] };
    assert_eq!(l.to_string(), "\"001\"");
    assert_eq!(LiteralVHDL { values: vec![] }.to_string(), "\"\"");
}

#[test]
fn slices() {
    assert_eq!(slice("true").to_string(), "(others => '1')");
    assert_eq!(slice("false").to_string(), "(others => '0')");
    assert_eq!(slice("in").to_string(), "in_n2v");
    let s = SliceVHDL { name: String::from("x"), start: Some(num(0)), end: Some(num(3)) };
    assert_eq!(s.to_string(), "x(3 downto 0)");
}

#[test]
fn signals_and_ports() {
    let s = Signal { name: String::from("out"), width: num(16) };
    assert_eq!(s.to_string(), "out_n2v : std_logic_vector(15 downto 0);");
    let g = Signal { name: String::from("x"), width: var("W") };
    assert_eq!(g.to_string(), "x : std_logic_vector((W - 1) downto 0);");
    let p = VhdlPort { name: String::from("a"), width: num(1), direction: PortDirection::In };
    assert_eq!(p.to_string(), "a : in std_logic_vector(0 downto 0)");
    let q = VhdlPort { name: String::from("out"), width: num(8), direction: PortDirection::Out };
    assert_eq!(q.to_string(), "out_n2v : out std_logic_vector(7 downto 0)");
}

#[test]
fn statements() {
    let a = AssignmentVHDL { left: slice("a"), right: SignalRhs::Literal(LiteralVHDL { values: vec![false] }) };
    assert_eq!(a.to_string(), "a <= \"0\";");
    let t = AssertVHDL {
        signal_name: String::from("out"),
        signal_value: LiteralVHDL { values: vec![true] },
        report_msg: String::from("Test failure out"),
    };
    assert_eq!(t.to_string(), "assert out_n2v = \"1\" report \"Test failure out\";");
    assert_eq!(WaitVHDL {}.to_string(), "wait for 10 ns;");
    let m = PortMappingVHDL { wire_name: String::from("x"), port: slice("a"), wire: SignalRhs::Slice(slice("x")) };
    assert_eq!(m.to_string(), "a => x");
    let c = VhdlComponent {
        unit: String::from("Nand"),
        generic_params: vec![],
        port_mappings: vec![
            PortMappingVHDL { wire_name: String::from("x"), port: slice("a"), wire: SignalRhs::Slice(slice("x")) },
            PortMappingVHDL { wire_name: String::from("y"), port: slice("b"), wire: SignalRhs::Slice(slice("y")) },
        ],
    };
    assert_eq!(c.to_string(), "nand_n2v port map(a => x, b => y);\n");
    let id = IdStatement { id: 3, stmt: Statement::Component(c) };
    assert_eq!(id.to_string(), "cn2v3: nand_n2v port map(a => x, b => y);\n");
    let unlabelled = IdStatement { id: 4, stmt: Statement::Wait(WaitVHDL {}) };
    assert_eq!(unlabelled.to_string(), "wait for 10 ns;");
    let p = Process {
        statements: vec![
            Statement::Assignment(AssignmentVHDL { left: slice("a"), right: SignalRhs::Literal(LiteralVHDL { values: vec![false] }) }),
            Statement::Wait(WaitVHDL {}),
        ],
    };
    assert_eq!(p.to_string(), "process begin\na <= \"0\";\nwait for 10 ns;\nend process;\n");
}

#[test]
fn output_port_mapped_twice_gets_intermediate_signals() {
    let c = component("Foo", vec![mapping("a", "x"), mapping("out", "y"), mapping("out", "z")]);
    let groups = group_port_mappings(&c);
    assert_eq!(groups.len(), 2);
    assert_eq!(groups[0].0, "a");
    assert_eq!(groups[1].0, "out");
    assert_eq!(groups[1].1.len(), 2);
    let vc = VhdlComponent::from(&c);
    assert_eq!(vc.unit, "Foo");
    assert_eq!(vc.to_string(), "Foo port map(a => x, out_n2v => out_0, out_n2v => out_1);\n");
    assert_eq!(vc.port_mappings[1].wire_name, "out_0");
}

#[test]
fn ports_are_found_by_name() {
    let ports = vec![VhdlPort { name: String::from("a"), width: num(1), direction: PortDirection::In }];
    assert!(ports.contains_name("a"));
    assert!(!ports.contains_name("b"));
    assert_eq!(ports[0].name(), "a");
}

#[test]
fn and_chip_synthesizes_to_vhdl() {
    let library = vec![nand_chip(), not_chip()];
    let and = and_chip();
    let components = generate_components(&and, &vec![]).ok().unwrap();
    let entity = VhdlEntity::from_chip(&and, &components, &StrMap::new(), &library).ok().unwrap();
    assert_eq!(entity.signals.len(), 1);
    assert_eq!(entity.signals[0].name, "w");
    let expected = "library ieee;
use ieee.std_logic_1164.all;

entity and_n2v is
port (
a : in std_logic_vector(0 downto 0);
b : in std_logic_vector(0 downto 0);
out_n2v : out std_logic_vector(0 downto 0)
);
end entity and_n2v;

architecture arch of and_n2v is
component nand_n2v is
port (
a : in std_logic_vector(0 downto 0);
b : in std_logic_vector(0 downto 0);
out_n2v : out std_logic_vector(0 downto 0)
);
end component nand_n2v;

component not_n2v is
port (
in_n2v : in std_logic_vector(0 downto 0);
out_n2v : out std_logic_vector(0 downto 0)
);
end component not_n2v;

signal w : std_logic_vector(0 downto 0);
begin
cn2v0: nand_n2v port map(a => a, b => b, out_n2v => w);

cn2v1: not_n2v port map(in_n2v => w, out_n2v => out_n2v);

end arch;
";
    assert_eq!(entity.to_string(&library), expected);
}

#[test]
fn sequential_chip_gets_a_clock() {
    let dff = chip("DFF", vec![port("in", 1, PortDirection::In), port("out", 1, PortDirection::Out)], vec![]);
    let bit = chip(
        "Bit",
        vec![port("in", 1, PortDirection::In), port("out", 1, PortDirection::Out)],
        vec![Part::Component(component("DFF", vec![mapping("in", "in"), mapping("out", "out")]))],
    );
    let library = vec![dff, bit.clone()];
    let components = generate_components(&bit, &vec![]).ok().unwrap();
    let entity = VhdlEntity::from_chip(&bit, &components, &StrMap::new(), &library).ok().unwrap();
    assert_eq!(entity.ports.len(), 3);
    assert_eq!(entity.ports[2].name, "clk");
    match &entity.statements[0] {
        Statement::Component(c) => {
            assert_eq!(c.port_mappings.len(), 3);
            assert_eq!(c.port_mappings[2].wire_name, "clk");
        }
        _ => panic!("expected a component"),
    }
    let text = entity.to_string(&library);
    assert!(text.contains("component DFF_n2v is\nport (\nclk : in std_logic_vector(0 downto 0);\n"));
    assert!(text.contains("cn2v0: DFF_n2v port map(in_n2v => in_n2v, out_n2v => out_n2v, clk => clk);\n"));
}

#[test]
fn entity_without_ports_has_no_port_clause() {
    let e = VhdlEntity {
        name: String::from("T_tst"),
        generics: vec![],
        ports: vec![],
        signals: vec![],
        statements: vec![Statement::Wait(WaitVHDL {})],
        optimization_info: Some(OptimizationInfo::SequentialFlagMap(StrMap::new())),
        chip_hdl: chip("T", vec![], vec![]),
    };
    assert_eq!(
        e.to_string(&vec![]),
        "library ieee;\nuse ieee.std_logic_1164.all;\n\nentity T_tst is\nend entity T_tst;\n\narchitecture arch of T_tst is\nbegin\nwait for 10 ns;\nend arch;\n"
    );
}

#[test]
fn quartus_script_lists_the_chips_of_the_design() {
    let not = chip(
        "Not",
        vec![port("in", 1, PortDirection::In), port("out", 1, PortDirection::Out)],
        vec![Part::Component(component("Nand", vec![mapping("a", "in"), mapping("b", "in"), mapping("out", "out")]))],
    );
    let entity = VhdlEntity {
        name: String::from("Not"),
        generics: vec![],
        ports: vec![],
        signals: vec![],
        statements: vec![],
        optimization_info: None,
        chip_hdl: not.clone(),
    };
    let library = vec![nand_chip(), not.clone()];
    let project = QuartusProject::new(not, entity, String::from("out"));
    let block = "set_global_assignment -name TOP_LEVEL_ENTITY not_n2v\n\
                 set_global_assignment -name VHDL_FILE NAND.vhdl\n\
                 set_global_assignment -name VHDL_FILE Not.vhdl\n\
                 set_global_assignment -name VHDL_FILE Nand.vhdl\n\
                 set_global_assignment -name VHDL_FILE Not.vhdl\n";
    let expected = format!("project_new Not -overwrite{}{}{}project_close", block, block, block);
    assert_eq!(quartus_tcl(&project, &library).ok().unwrap(), expected);
}

#[test]
fn quartus_script_needs_every_chip() {
    let not = chip(
        "Not",
        vec![port("in", 1, PortDirection::In), port("out", 1, PortDirection::Out)],
        vec![Part::Component(component("Nand", vec![mapping("a", "in"), mapping("b", "in"), mapping("out", "out")]))],
    );
    let entity = VhdlEntity {
        name: String::from("Not"),
        generics: vec![],
        ports: vec![],
        signals: vec![],
        statements: vec![],
        optimization_info: None,
        chip_hdl: not.clone(),
    };
    let project = QuartusProject::new(not, entity, String::from("out"));
    let e = quartus_tcl(&project, &vec![]).err().unwrap();
    assert_eq!(e.msg, "Chip Nand not found");
}

#[test]
fn chip_ports_are_looked_up_by_name() {
    let nand = nand_chip();
    assert_eq!(nand.get_port("b").map(|p| p.name.value.clone()), Some(String::from("b")));
    assert!(nand.get_port("c").is_none());
}
