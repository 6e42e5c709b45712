use std::collections::BTreeMap;

use etch::circuit::{CircuitDesign, Component, KicadLink};
use etch::kicad::{component_prefix, ensure_links};

fn component(kind: &str, ports: Vec<(&str, u64)>, section: Option<&str>, kicad: Option<KicadLink>) -> Component {
    Component {
        kind: kind.into(),
        label: None,
        value: None,
        ports: ports.into_iter().map(|(name, node)| (name.to_string(), node)).collect(),
        section: section.map(str::to_string),
        svg: None,
        kicad,
    }
}

#[test]
fn registers_connected_and_labelled_nodes() {
    let mut design = CircuitDesign::default();
    design.connect(1, 2);
    design.add_net_label("signal".into(), 2);
    design.add_net_label("signal".into(), 3);
    assert_eq!(
        design.electrical_roots(),
        BTreeMap::from([(1, 1), (2, 1), (3, 1)])
    );
}

#[test]
fn derives_unique_sections_from_components() {
    let mut design = CircuitDesign::default();
    for section in [None, Some("Circuit".to_string()), Some("Other".to_string())] {
        design.add_component(Component {
            kind: "test".into(),
            label: None,
            value: None,
            ports: vec![("pin".into(), 7)],
            section,
            svg: None,
            kicad: None,
        });
    }
    assert_eq!(design.section_names(), vec!["Circuit", "Other"]);
    assert!(design.nodes.contains(&7));
}

#[test]
fn roots_are_the_smallest_connected_node() {
    let mut design = CircuitDesign::new();
    design.connect(9, 4);
    design.connect(4, 7);
    design.connect(20, 12);
    design.add_node(3);
    assert_eq!(
        design.electrical_roots(),
        BTreeMap::from([(3, 3), (4, 4), (7, 4), (9, 4), (12, 12), (20, 12)])
    );
}

#[test]
fn wires_are_recorded_at_both_ends() {
    let mut design = CircuitDesign::new();
    design.connect(5, 6);
    assert!(design.connections[&5].contains(&6));
    assert!(design.connections[&6].contains(&5));
    design.connect(5, 5);
    assert!(design.connections[&5].contains(&5));
    assert_eq!(design.nodes.len(), 2);
}

#[test]
fn net_labels_return_the_first_registered_node() {
    let mut design = CircuitDesign::new();
    assert_eq!(design.add_net_label("vcc".into(), 10), None);
    assert_eq!(design.add_net_label("vcc".into(), 11), Some(10));
    assert_eq!(design.add_net_label("vcc".into(), 11), Some(10));
    assert_eq!(design.add_net_label("gnd".into(), 1), None);
    assert_eq!(design.net_labels.len(), 2);
    assert_eq!(design.net_labels[0], ("gnd".to_string(), vec![1]));
    assert_eq!(design.net_labels[1], ("vcc".to_string(), vec![10, 11]));
    assert!(design.connections[&10].contains(&11));
}

#[test]
fn nets_are_named_by_their_greatest_label_or_their_root() {
    let mut design = CircuitDesign::new();
    design.connect(2, 3);
    design.add_net_label("beta".into(), 3);
    design.add_net_label("alpha".into(), 2);
    design.add_node(8);
    design.add_net_label("zeta".into(), 40);
    let names = design.net_names();
    assert_eq!(
        names,
        BTreeMap::from([
            (2, "beta".to_string()),
            (8, "Net-8".to_string()),
            (40, "zeta".to_string()),
        ])
    );
}

#[test]
fn a_net_with_two_labels_takes_the_one_that_sorts_last() {
    let mut design = CircuitDesign::new();
    design.add_net_label("b".into(), 1);
    design.add_net_label("a".into(), 1);
    assert_eq!(design.net_names(), BTreeMap::from([(1, "b".to_string())]));
    let names: Vec<&str> = design.net_labels.iter().map(|(n, _)| n.as_str()).collect();
    assert_eq!(names, vec!["a", "b"]);
    let mut other = CircuitDesign::new();
    other.add_net_label("a".into(), 1);
    other.add_net_label("b".into(), 1);
    assert_eq!(other.net_names(), BTreeMap::from([(1, "b".to_string())]));
    other.add_net_label("ab".into(), 2);
    other.add_net_label("a".into(), 3);
    let names: Vec<&str> = other.net_labels.iter().map(|(n, _)| n.as_str()).collect();
    assert_eq!(names, vec!["a", "ab", "b"]);
    assert_eq!(other.net_labels[0].1, vec![1, 3]);
}

#[test]
fn a_design_without_components_has_the_default_section() {
    let mut design = CircuitDesign::new();
    assert_eq!(design.section_names(), vec!["Circuit"]);
    design.add_section("Power".into());
    design.add_section("Power".into());
    assert_eq!(design.sections, vec!["Power"]);
    assert_eq!(design.section_names(), vec!["Power"]);
    design.add_component(component("r", vec![], None, None));
    assert_eq!(design.section_names(), vec!["Circuit", "Power"]);
}

fn link(symbol: &str, pins: Vec<(&str, &str)>) -> Option<KicadLink> {
    Some(KicadLink {
        symbol: symbol.into(),
        footprint: String::new(),
        pins: pins.into_iter().map(|(a, b)| (a.to_string(), b.to_string())).collect(),
    })
}

#[test]
fn exported_components_need_complete_kicad_links() {
    let mut design = CircuitDesign::new();
    design.add_component(component("resistor", vec![("a", 1), ("b", 2)], None, link("Device:R", vec![("a", "1"), ("b", "2")])));
    assert_eq!(ensure_links(&design), Ok(()));

    let mut missing = CircuitDesign::new();
    missing.add_component(component("resistor", vec![("a", 1)], None, link("Device:R", vec![])));
    assert_eq!(
        ensure_links(&missing),
        Err("component `resistor` has no KiCad pin mapping for port `a`".to_string())
    );

    let mut unlinked = CircuitDesign::new();
    unlinked.add_component(component("diode", vec![], None, None));
    assert_eq!(
        ensure_links(&unlinked),
        Err("component kind `diode` has no KiCad link; add kicad: { symbol, footprint, pins } to use_symbol".to_string())
    );

    let mut invalid = CircuitDesign::new();
    invalid.add_component(component("led", vec![], None, link("LED", vec![])));
    assert_eq!(ensure_links(&invalid), Err("invalid KiCad symbol identifier `LED`".to_string()));
    let mut empty_name = CircuitDesign::new();
    empty_name.add_component(component("led", vec![], None, link("Lib:", vec![])));
    assert_eq!(ensure_links(&empty_name), Err("invalid KiCad symbol identifier `Lib:`".to_string()));

    let mut repeated = CircuitDesign::new();
    repeated.add_component(component("pair", vec![("a", 1), ("b", 2)], None, link("L:P", vec![("a", "1"), ("b", "1")])));
    assert_eq!(
        ensure_links(&repeated),
        Err("component `pair` has an empty or repeated KiCad pin number".to_string())
    );
}

#[test]
fn reference_prefixes_prefer_the_library_definition() {
    assert_eq!(component_prefix("Device:R", None), Ok("R".to_string()));
    assert_eq!(
        component_prefix("Lib:Part", Some(r#"(symbol "Lib:Part" (property "Reference" "Q"))"#)),
        Ok("Q".to_string())
    );
    assert_eq!(component_prefix("Lib:Cap", Some(r#"(symbol "Lib:Cap")"#)), Ok("C".to_string()));
    assert!(component_prefix("Lib:Cap", Some("(broken")).is_err());
}
