use std::collections::BTreeMap;

use etch::circuit::Component;
use etch::layering::{components_share_net, graph_layers, is_generic_component, prefix, symbol_id};

fn component(kind: &str, ports: &[(&str, u64)]) -> Component {
    Component {
        kind: kind.into(),
        label: None,
        value: None,
        ports: ports.iter().map(|(name, node)| (name.to_string(), *node)).collect(),
        section: None,
        svg: None,
        kicad: None,
    }
}

#[test]
fn no_components_have_no_layers() {
    assert!(graph_layers(&Vec::new(), &BTreeMap::new()).is_empty());
}

#[test]
fn a_chain_steps_one_column_per_component() {
    let parts = vec![
        component("voltage-source", &[("p", 1), ("n", 0)]),
        component("resistor", &[("a", 1), ("b", 2)]),
        component("resistor", &[("a", 2), ("b", 3)]),
        component("ground", &[("gnd", 0)]),
    ];
    let roots = BTreeMap::from([(0, 0), (1, 1), (2, 2), (3, 3)]);
    // node 0 is a rail (a ground touches it), so the ground links to nothing
    assert_eq!(graph_layers(&parts, &roots), vec![0, 1, 2, 0]);
}

#[test]
fn nets_joined_by_wires_link_through_their_roots() {
    let parts = vec![
        component("resistor", &[("a", 5), ("b", 6)]),
        component("capacitor", &[("a", 7), ("b", 8)]),
    ];
    let unlinked = BTreeMap::new();
    assert_eq!(graph_layers(&parts, &unlinked), vec![0, 0]);
    let wired = BTreeMap::from([(5, 5), (6, 6), (7, 6), (8, 8)]);
    assert_eq!(graph_layers(&parts, &wired), vec![0, 1]);
}

#[test]
fn busy_nets_are_rails() {
    let parts = vec![
        component("resistor", &[("a", 1), ("b", 9)]),
        component("resistor", &[("a", 2), ("b", 9)]),
        component("resistor", &[("a", 3), ("b", 9)]),
    ];
    assert_eq!(graph_layers(&parts, &BTreeMap::new()), vec![0, 0, 0]);
    let pair = vec![
        component("resistor", &[("a", 1), ("b", 9)]),
        component("resistor", &[("a", 2), ("b", 9)]),
    ];
    assert_eq!(graph_layers(&pair, &BTreeMap::new()), vec![0, 1]);
}

#[test]
fn a_component_follows_its_furthest_neighbour() {
    let parts = vec![
        component("resistor", &[("a", 1), ("b", 2)]),
        component("resistor", &[("a", 2), ("b", 3)]),
        component("resistor", &[("a", 3), ("b", 4)]),
        component("resistor", &[("a", 1), ("b", 4)]),
        component("ground", &[("g", 4), ("h", 5)]),
    ];
    // node 4 is a rail: the ground touches it
    // the fourth resistor touches nets 1 (first resistor) and 4 (rail)
    let layers = graph_layers(&parts, &BTreeMap::new());
    assert_eq!(layers, vec![0, 1, 2, 1, 0]);
}

#[test]
fn grounds_touch_only_rails_and_stay_in_the_first_column() {
    let parts = vec![
        component("resistor", &[("a", 1), ("b", 2)]),
        component("ground", &[("g", 2), ("h", 3)]),
        component("ground", &[("g", 6), ("h", 7)]),
        component("ground", &[("g", 7), ("h", 8)]),
    ];
    assert_eq!(graph_layers(&parts, &BTreeMap::new()), vec![0, 0, 0, 0]);
}

#[test]
fn kinds_map_to_symbols_and_designators() {
    assert_eq!(symbol_id("resistor"), "symbol-resistor");
    assert_eq!(symbol_id("d-flip-flop"), "symbol-d-flip-flop");
    assert_eq!(symbol_id("mystery"), "symbol-generic");
    assert_eq!(prefix("led"), "D");
    assert_eq!(prefix("current-source"), "V");
    assert_eq!(prefix("ground"), "GND");
    assert_eq!(prefix("op-amp"), "U");
    assert_eq!(prefix("thing"), "U");
}

#[test]
fn generic_components_have_no_drawing_and_no_symbol() {
    let mut chip = component("mcu", &[("a", 1)]);
    assert!(is_generic_component(&chip));
    chip.svg = Some("<g/>".into());
    assert!(!is_generic_component(&chip));
    assert!(!is_generic_component(&component("resistor", &[("a", 1)])));
}

#[test]
fn components_share_a_net_through_roots() {
    let a = component("resistor", &[("a", 1), ("b", 2)]);
    let b = component("resistor", &[("a", 3)]);
    assert!(!components_share_net(&a, &b, &BTreeMap::new()));
    assert!(components_share_net(&a, &b, &BTreeMap::from([(3, 2)])));
    assert!(components_share_net(&a, &a, &BTreeMap::new()));
}
