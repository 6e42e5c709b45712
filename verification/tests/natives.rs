use etch::natives::{assert_outcome, check_pin_mapping, check_placement, ensure_new_name, ensure_no_args, expect_argument, NativeFunctionKind, ValueKind};

#[test]
fn hooks_need_a_function_and_render_the_top_level() {
    assert_eq!(
        check_placement(NativeFunctionKind::Hook, 0),
        Err("hooks can only be called inside a function".to_string())
    );
    assert_eq!(
        check_placement(NativeFunctionKind::UseState, 0),
        Err("hooks can only be called inside a function".to_string())
    );
    assert_eq!(check_placement(NativeFunctionKind::UseNode, 1), Ok(()));
    assert_eq!(check_placement(NativeFunctionKind::Render, 0), Ok(()));
    assert_eq!(
        check_placement(NativeFunctionKind::Render, 2),
        Err("render can only be called at the top level".to_string())
    );
    assert_eq!(check_placement(NativeFunctionKind::Voltage, 0), Ok(()));
    assert_eq!(check_placement(NativeFunctionKind::StateGet(3), 0), Ok(()));
}

#[test]
fn leftover_arguments_are_reported_by_their_first_name() {
    assert_eq!(ensure_no_args(&Vec::new()), Ok(()));
    assert_eq!(
        ensure_no_args(&vec!["typo".to_string()]),
        Err("unexpected argument `typo`".to_string())
    );
    assert_eq!(
        ensure_no_args(&vec!["zeta".to_string(), "beta".to_string(), "gamma".to_string()]),
        Err("unexpected argument `beta`".to_string())
    );
    assert_eq!(
        ensure_no_args(&vec!["b".to_string(), "B".to_string(), "ba".to_string()]),
        Err("unexpected argument `B`".to_string())
    );
}

#[test]
fn a_test_or_display_name_is_taken_once() {
    let taken = vec!["first".to_string(), "duplicate".to_string()];
    assert_eq!(ensure_new_name(&taken, "fresh", "test"), Ok(()));
    assert_eq!(
        ensure_new_name(&taken, "duplicate", "test"),
        Err("duplicate test name `duplicate`".to_string())
    );
    assert_eq!(
        ensure_new_name(&taken, "first", "display"),
        Err("duplicate display name `first`".to_string())
    );
    assert_eq!(ensure_new_name(&Vec::new(), "x", "test"), Ok(()));
}

#[test]
fn arguments_of_the_wrong_kind_or_missing_are_reported() {
    assert_eq!(expect_argument("", "a", Some(ValueKind::Node), ValueKind::Node), Ok(()));
    assert_eq!(expect_argument("", "r", Some(ValueKind::Quantity), ValueKind::Number), Ok(()));
    assert_eq!(
        expect_argument("", "r", Some(ValueKind::String), ValueKind::Number),
        Err("argument `r` must be a number".to_string())
    );
    assert_eq!(
        expect_argument("use_symbol ", "kind", Some(ValueKind::Number), ValueKind::String),
        Err("use_symbol argument `kind` must be a string".to_string())
    );
    assert_eq!(
        expect_argument("use_symbol ", "ports", Some(ValueKind::Array), ValueKind::Object),
        Err("use_symbol argument `ports` must be an object".to_string())
    );
    assert_eq!(
        expect_argument("use_symbol ", "kind", None, ValueKind::String),
        Err("missing argument `kind`".to_string())
    );
}

fn names(v: &[&str]) -> Vec<String> {
    v.iter().map(|s| s.to_string()).collect()
}

fn pins(v: &[(&str, Option<&str>)]) -> Vec<(String, Option<String>)> {
    v.iter().map(|(p, n)| (p.to_string(), n.map(|n| n.to_string()))).collect()
}

#[test]
fn pin_mappings_cover_exactly_the_symbol_ports() {
    let ports = names(&["a", "b"]);
    assert_eq!(
        check_pin_mapping(&ports, &pins(&[("a", Some("1")), ("b", Some("2"))])),
        Ok(vec![("a".to_string(), "1".to_string()), ("b".to_string(), "2".to_string())])
    );
    assert_eq!(
        check_pin_mapping(&ports, &pins(&[("a", Some("1"))])),
        Err("kicad.pins must map every symbol port".to_string())
    );
    assert_eq!(
        check_pin_mapping(&ports, &pins(&[("a", Some("1")), ("c", Some("3"))])),
        Err("kicad pin mapping references unknown port `c`".to_string())
    );
    assert_eq!(
        check_pin_mapping(&ports, &pins(&[("a", None), ("c", Some("3"))])),
        Err("kicad pin mapping `a` must be a string".to_string())
    );
    assert_eq!(check_pin_mapping(&Vec::new(), &Vec::new()), Ok(Vec::new()));
}

#[test]
fn a_failed_assert_gives_the_callers_message_or_a_default() {
    assert_eq!(assert_outcome(true, Some("never".to_string())), Ok(()));
    assert_eq!(assert_outcome(false, Some("too hot".to_string())), Err("too hot".to_string()));
    assert_eq!(assert_outcome(false, None), Err("assertion failed".to_string()));
}
