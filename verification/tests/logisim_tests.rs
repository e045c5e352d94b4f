use whidl::logisim::{create_attribute, create_library, create_tool, Component, Coordinate, Project, ToolbarItem};
use whidl::parser::{Identifier, PortDirection};
use whidl::simulator::Port;

fn port(name: &str, direction: PortDirection) -> Port {
    Port { name: Identifier::from(name), width: 1, direction }
}

fn part(name: &str) -> whidl::parser::Component {
    whidl::parser::Component { name: Identifier::from(name), mappings: vec![], generic_params: vec![] }
}

fn attributes(c: &Component) -> Vec<(String, String)> {
    c.attributes.iter().map(|a| (a.name.clone(), a.val.clone())).collect()
}

fn pair(a: &str, b: &str) -> (String, String) {
    (String::from(a), String::from(b))
}

#[test]
fn library_attribute_and_tool_builders() {
    let l = create_library("1", "#Gates");
    assert_eq!(l.name, "1");
    assert_eq!(l.desc, Some(String::from("#Gates")));
    assert!(l.tools.is_empty());
    let a = create_attribute("facing", "west");
    assert_eq!((a.name, a.val), pair("facing", "west"));
    let t = create_tool("Poke Tool", "8", Some(String::from("Button2")));
    assert_eq!(t.name, Some(String::from("Poke Tool")));
    assert_eq!(t.lib, Some(String::from("8")));
    assert_eq!(t.map, Some(String::from("Button2")));
    assert!(t.attributes.is_empty());
}

#[test]
fn ports_become_pins() {
    for _ in 0..50 {
        let input = Component::from_port(&port("a", PortDirection::In));
        assert_eq!(input.lib, "0");
        assert_eq!(input.name, "Pin");
        assert_eq!(
            attributes(&input),
            vec![pair("facing", "west"), pair("output", "false"), pair("appearance", "NewPins")]
        );
        assert!(input.location.x < 1000 && input.location.y < 1000);
    }
    let output = Component::from_port(&port("out", PortDirection::Out));
    assert_eq!(attributes(&output), vec![pair("facing", "east"), pair("output", "true"), pair("appearance", "NewPins")]);
}

#[test]
fn nand_parts_become_nand_gates() {
    assert_eq!(Component::from_part(&part("Nand")).name, "NAND Gate");
    assert_eq!(Component::from_part(&part("NAND")).name, "NAND Gate");
    let and = Component::from_part(&part("And"));
    assert_eq!(and.name, "And");
    assert_eq!(and.lib, "1");
    assert!(and.attributes.is_empty());
}

#[test]
fn project_holds_parts_then_pins() {
    let p = Project::from_chip(
        &String::from("Not"),
        &vec![part("Nand")],
        &vec![port("in", PortDirection::In), port("out", PortDirection::Out)],
    );
    assert_eq!(p.source, "3.8.0");
    assert_eq!(p.version, "1.0");
    assert_eq!(p.main.name, "main");
    let libs: Vec<&str> = p.lib.iter().map(|l| l.name.as_str()).collect();
    assert_eq!(libs, vec!["0", "1", "2", "3", "4", "5", "6", "7", "8", "9", "10", "11"]);
    assert_eq!(p.lib[0].tools.len(), 1);
    assert_eq!(p.lib[11].desc, Some(String::from("#Soc")));
    assert_eq!(p.options.attributes.len(), 3);
    assert_eq!(p.mappings.tools.len(), 3);
    assert_eq!(p.toolbar.items.len(), 17);
    assert!(matches!(p.toolbar.items[4], ToolbarItem::Separator));
    assert_eq!(p.circuit.name, "Not");
    let names: Vec<&str> = p.circuit.components.iter().map(|c| c.name.as_str()).collect();
    assert_eq!(names, vec!["NAND Gate", "Pin", "Pin"]);
}

#[test]
fn coordinates_are_written_as_pairs() {
    assert_eq!(Coordinate { x: 3, y: 140 }.to_string(), "(3, 140)");
}
