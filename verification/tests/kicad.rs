use std::collections::BTreeMap;

use etch::kicad::{
    balanced_expression, copper_layer_name, esc, expression_depth, field_string, field_values,
    find_definition, merge_inherited, number_references, opening_name, pin_candidates,
    reference_prefix, reference_property, rename_definition, resolve_definition, unit_one_units,
    uuid,
};

/// The pins of the unit-one, normal-style units of a definition, with their
/// coordinates read as numbers; a later unit's pin replaces an earlier one
/// and, inside one unit, the first pin with a number wins.
fn unit_one_pins(definition: &str) -> Result<BTreeMap<String, (f64, f64)>, String> {
    let mut pins = BTreeMap::new();
    for unit in unit_one_units(definition)? {
        let mut unit_pins = BTreeMap::new();
        for (number, x, y) in pin_candidates(&unit) {
            if let (Ok(x), Ok(y)) = (x.parse::<f64>(), y.parse::<f64>()) {
                unit_pins.entry(number).or_insert((x, y));
            }
        }
        pins.extend(unit_pins);
    }
    Ok(pins)
}

fn extract_pins(definition: &str) -> BTreeMap<String, (f64, f64)> {
    let mut pins = BTreeMap::new();
    for (number, x, y) in pin_candidates(definition) {
        if let (Ok(x), Ok(y)) = (x.parse::<f64>(), y.parse::<f64>()) {
            pins.entry(number).or_insert((x, y));
        }
    }
    pins
}

#[test]
fn maps_configured_copper_stack_to_kicad_layers() {
    assert_eq!(copper_layer_name(0, 4), "F.Cu");
    assert_eq!(copper_layer_name(1, 4), "In1.Cu");
    assert_eq!(copper_layer_name(2, 4), "In2.Cu");
    assert_eq!(copper_layer_name(3, 4), "B.Cu");
}

#[test]
fn single_and_double_sided_boards_use_outer_layers() {
    assert_eq!(copper_layer_name(0, 1), "F.Cu");
    assert_eq!(copper_layer_name(5, 1), "F.Cu");
    assert_eq!(copper_layer_name(1, 2), "B.Cu");
    assert_eq!(copper_layer_name(14, 16), "In14.Cu");
}

#[test]
fn extracts_and_renames_symbol_definitions() {
    let source = r#"(kicad_symbol_lib
          (symbol "Base"
            (symbol "Base_1_1"
              (pin passive line (at -5.08 2.54 0) (number "1"))))
          (symbol "Part" (extends "Base")))"#;
    let definition = resolve_definition(source, "Part", &mut Vec::new())
        .unwrap()
        .unwrap();
    let definition = rename_definition(&definition, "Part", "Library:Part");
    assert!(definition.starts_with("(symbol \"Library:Part\""));
    assert!(definition.contains("(symbol \"Part_1_1\""));
    let pins = extract_pins(&definition);
    assert_eq!(pins["1"].0, -5.08);
    assert_eq!(pins["1"].1, 2.54);
}

#[test]
fn derived_symbol_properties_override_the_base() {
    let source = r#"(kicad_symbol_lib
            (symbol "Base" (property "Reference" "U") (property "Value" "Base") (property "Footprint" "Old:Part")
                (symbol "Base_1_1" (pin passive line (at 1 2 0) (number "1"))))
            (symbol "Child" (extends "Base") (property "Value" "Child") (property "Footprint" "New:Part")))"#;
    let definition = resolve_definition(source, "Child", &mut Vec::new())
        .unwrap()
        .unwrap();
    assert!(definition.contains(r#"(property "Reference" "U")"#));
    assert!(definition.contains(r#"(property "Footprint" "New:Part")"#));
    assert!(!definition.contains("Old:Part"));
    assert_eq!(unit_one_pins(&definition).unwrap().len(), 1);
}

#[test]
fn later_units_and_alternate_styles_are_not_exported_as_unit_one() {
    let source = r#"(symbol "Dual" (symbol "Dual_0_1" (pin passive line (at 0 0 0) (number "8")))
          (symbol "Dual_1_1" (pin passive line (at 1 0 0) (number "1")))
          (symbol "Dual_2_1" (pin passive line (at 2 0 0) (number "2")))
          (symbol "Dual_1_2" (pin passive line (at 3 0 0) (number "3"))))"#;
    let pins = unit_one_pins(source).unwrap();
    assert_eq!(pins.keys().cloned().collect::<Vec<_>>(), vec!["1", "8"]);
}

#[test]
fn cyclic_inheritance_is_reported() {
    let source = r#"(kicad_symbol_lib (symbol "A" (extends "B")) (symbol "B" (extends "A")))"#;
    let error = resolve_definition(source, "A", &mut Vec::new()).unwrap_err();
    assert_eq!(error, "cyclic KiCad symbol inheritance involving `A`");
}

#[test]
fn missing_base_symbols_are_reported() {
    let source = r#"(kicad_symbol_lib (symbol "A" (extends "Gone")))"#;
    let error = resolve_definition(source, "A", &mut Vec::new()).unwrap_err();
    assert_eq!(error, "base KiCad symbol `Gone` for `A` was not found");
    assert_eq!(resolve_definition(source, "Absent", &mut Vec::new()), Ok(None));
}

#[test]
fn finds_only_top_level_definitions() {
    let source = r#"(lib (symbol "X" (symbol "Y" (pin))) (symbol "Y" (a ")")))"#;
    assert_eq!(
        find_definition(source, "Y").as_deref(),
        Some(r#"(symbol "Y" (a ")"))"#)
    );
    assert_eq!(find_definition(source, "Z"), None);
}

#[test]
fn balanced_expressions_skip_quoted_parentheses() {
    assert_eq!(
        balanced_expression(r#"x (a "(\")" (b)) y"#, 2).as_deref(),
        Some(r#"(a "(\")" (b))"#)
    );
    assert_eq!(balanced_expression("(open", 0), None);
    assert_eq!(expression_depth(r#"(a (b ")" "#), 2);
    assert_eq!(expression_depth("))"), -2);
}

#[test]
fn names_fields_and_values_are_read_from_definitions() {
    let definition = r#"(symbol "Lib:Part" (extends "Base") (at 1.5 -2 90))"#;
    assert_eq!(opening_name(definition).as_deref(), Some("Lib:Part"));
    assert_eq!(opening_name("(other)"), None);
    assert_eq!(field_string(definition, "extends").as_deref(), Some("Base"));
    assert_eq!(field_string(definition, "missing"), None);
    assert_eq!(
        field_values(definition, "at"),
        Some(vec!["1.5".to_string(), "-2".to_string(), "90".to_string()])
    );
}

#[test]
fn renaming_keeps_unit_names_on_the_entry_name() {
    let renamed = rename_definition(
        r#"(symbol "R" (symbol "R_0_1") (symbol "R_1_1"))"#,
        "R",
        "Device:R",
    );
    assert_eq!(renamed, r#"(symbol "Device:R" (symbol "R_0_1") (symbol "R_1_1"))"#);
}

#[test]
fn merging_replaces_fields_of_the_same_tag() {
    let merged = merge_inherited(
        r#"(symbol "B" (property "Value" "B") (in_bom yes) (property "Reference" "U"))"#,
        r#"(symbol "C" (extends "B") (in_bom no) (property "Value" "C"))"#,
    )
    .unwrap();
    assert_eq!(
        merged,
        r#"(symbol "B" (property "Reference" "U") (in_bom no) (property "Value" "C"))"#
    );
    assert!(merge_inherited("(a", "(b)").is_err());
}

#[test]
fn a_base_that_is_not_a_list_is_printed_unchanged_when_nothing_is_merged() {
    assert_eq!(
        merge_inherited("base", r#"(symbol "C" (extends "base"))"#).unwrap(),
        "base"
    );
    assert_eq!(merge_inherited("base", "(symbol)").unwrap(), "base");
}

#[test]
fn reference_prefixes_follow_the_entry_name() {
    assert_eq!(reference_prefix("Device:R"), "R");
    assert_eq!(reference_prefix("Device:capacitor"), "C");
    assert_eq!(reference_prefix("Amplifier_Operational:LM358"), "L");
    assert_eq!(reference_prefix("Lib:Xtal"), "U");
    assert_eq!(reference_prefix(""), "U");
    assert_eq!(reference_prefix("Lib:"), "U");
}

#[test]
fn identifiers_are_zero_padded_hexadecimal() {
    assert_eq!(uuid(0, 0), "00000000-0000-4000-8000-000000000000");
    assert_eq!(uuid(26, 255), "00000000-0000-4000-8000-00001a0000ff");
    assert_eq!(uuid(0x1234567, 1), "00000000-0000-4000-8000-1234567000001");
}

#[test]
fn escaping_protects_quotes_backslashes_and_newlines() {
    assert_eq!(esc("a\"b\\c\nd"), "a\\\"b\\\\c d");
    assert_eq!(esc(""), "");
}

#[test]
fn references_count_per_prefix() {
    let prefixes = vec!["R".to_string(), "C".to_string(), "R".to_string(), "U".to_string(), "R".to_string()];
    assert_eq!(number_references(&prefixes), vec!["R1", "C1", "R2", "U1", "R3"]);
}

#[test]
fn reference_property_reads_the_declared_prefix() {
    assert_eq!(
        reference_property(r#"(symbol "X" (property "Value" "X") (property "Reference" "Q"))"#),
        Ok(Some("Q".to_string()))
    );
    assert_eq!(reference_property(r#"(symbol "X")"#), Ok(None));
    assert!(reference_property("(unclosed").is_err());
}
