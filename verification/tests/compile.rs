use etch::compile::{import_cycle, import_step, resolve_source, CompileDiagnostic, ImportStep};
use etch::lexer::lex;
use etch::parser::parse;
use etch::scoping::resolve_program;

fn reports(source: &str) -> Vec<(String, String, std::ops::Range<usize>)> {
    match resolve_source(source) {
        Ok(_) => Vec::new(),
        Err(d) => d
            .into_iter()
            .map(|CompileDiagnostic { stage, message, span }| (stage.to_string(), message, span))
            .collect(),
    }
}

fn undefined(name: &str, span: std::ops::Range<usize>) -> (String, String, std::ops::Range<usize>) {
    ("symbol resolver".to_string(), format!("undefined name `{name}`"), span)
}

#[test]
fn resolves_a_single_number() {
    assert_eq!(resolve_source("1").unwrap().len(), 1);
}

#[test]
fn reports_undefined_names() {
    assert_eq!(reports("missing"), vec![undefined("missing", 0..7)]);
}

#[test]
fn builtin_names_are_declared() {
    assert!(resolve_source("sim; time; delta_time").is_ok());
    let program = "test(name: \"t\", body: () -> { simulate(steps: 1, delta_time: 0.001); assert_close(actual: voltage(node: ground), expected: 0, tolerance: 1) }); render(component: { ground })";
    assert!(resolve_source(program).is_ok());
    assert!(resolve_source("use_symbol; section; net; display; pcb_config; assert; use_node; use_state; use_equation").is_ok());
}

#[test]
fn shadowing_initializers_resolve_the_previous_binding() {
    assert!(resolve_source("let x = 1; let x = x + 1; x").is_ok());
    assert_eq!(reports("let x = x + 1"), vec![undefined("x", 8..9)]);
}

#[test]
fn direct_recursive_lambdas_see_their_own_name() {
    assert!(resolve_source("let count = (n: Number) -> count(n: n - 1); count(n: 3)").is_ok());
    assert_eq!(reports("let g = 1 + g"), vec![undefined("g", 12..13)]);
}

#[test]
fn function_type_parameters_do_not_leak_into_values() {
    assert_eq!(
        reports("type Callback = (argument: Number) -> Number; argument"),
        vec![undefined("argument", 46..54)]
    );
}

#[test]
fn numeric_aliases_obey_block_scope() {
    let source = "{ type Hidden = Number; 0 }; let f = (x: Hidden) -> x";
    assert_eq!(reports(source), vec![undefined("Hidden", 41..47)]);
    assert!(resolve_source("type Shown = Number; let f = (x: Shown) -> x").is_ok());
}

#[test]
fn parameters_and_arm_bindings_stay_in_their_scope() {
    assert!(resolve_source("let f = (x: Number) -> x; f(x: 2)").is_ok());
    assert_eq!(reports("let f = (x: Number) -> x; x"), vec![undefined("x", 26..27)]);
    assert_eq!(reports("match 1 { let y if y > 0 -> y }; y"), vec![undefined("y", 33..34)]);
}

#[test]
fn patterns_bind_every_name_they_hold() {
    assert!(resolve_source("let { a, b: [c, d] } = 1; a + c + d").is_ok());
    assert_eq!(reports("let { a, b: [c] } = 1; b"), vec![undefined("b", 23..24)]);
    assert!(resolve_source(r#"from "parts.etch" import { resistor }; resistor"#).is_ok());
}

#[test]
fn reports_come_in_source_order() {
    assert_eq!(reports("a + b"), vec![undefined("a", 0..1), undefined("b", 4..5)]);
}

#[test]
fn parser_failures_report_the_token_where_parsing_stopped() {
    assert_eq!(
        reports("let = 1"),
        vec![("parser".to_string(), "unexpected token".to_string(), 0..3)]
    );
    assert_eq!(
        reports("1 +"),
        vec![("parser".to_string(), "unexpected token".to_string(), 2..3)]
    );
}

#[test]
fn lexer_failures_come_first() {
    let found = reports(r#""bad\q""#);
    assert!(!found.is_empty());
    assert_eq!(found[0].0, "lexer");
    assert_eq!(found[0].1, "unexpected character");
}

#[test]
fn resolving_a_parsed_program_directly() {
    let (tokens, errors) = lex("let y = 2; z");
    assert!(errors.is_empty());
    let items = parse(&tokens.unwrap()).unwrap();
    let found = resolve_program(&items);
    assert_eq!(found.len(), 1);
    assert_eq!(found[0].message, "undefined name `z`");
    assert_eq!(found[0].span, 11..12);
}

#[test]
fn import_cycles_run_from_the_first_load() {
    let loading: Vec<String> = vec!["main.etch".into(), "a.etch".into(), "b.etch".into()];
    assert_eq!(
        import_cycle(&loading, "a.etch"),
        Some(vec!["a.etch".to_string(), "b.etch".to_string(), "a.etch".to_string()])
    );
    assert_eq!(import_cycle(&loading, "c.etch"), None);
    let twice: Vec<String> = vec!["x".into(), "y".into(), "x".into()];
    assert_eq!(
        import_cycle(&twice, "x"),
        Some(vec!["x".to_string(), "y".to_string(), "x".to_string(), "x".to_string()])
    );
    assert_eq!(import_cycle(&Vec::new(), "x"), None);
}

#[test]
fn type_names_are_not_values() {
    assert_eq!(
        reports("type Foo = Number; Foo"),
        vec![("symbol resolver".to_string(), "type `Foo` used as a value".to_string(), 19..22)]
    );
    assert!(resolve_source("type Foo = Number; let f = (x: Foo) -> x").is_ok());
    assert!(resolve_source("type Foo = Number; let Foo = 1; Foo").is_ok());
}

#[test]
fn reports_invalid_operations() {
    assert!(resolve_source("true + 1").is_err());
    assert_eq!(
        reports("true + 1"),
        vec![("type checking".to_string(), "invalid operands for binary operator".to_string(), 0..8)]
    );
    assert_eq!(
        reports("-\"a\""),
        vec![("type checking".to_string(), "invalid operand for unary operator".to_string(), 0..4)]
    );
}

#[test]
fn parses_and_checks_comparisons() {
    assert!(resolve_source("1 < 2; 2 >= 1; true == false").is_ok());
    assert!(resolve_source("true < false").is_err());
}

#[test]
fn checks_user_defined_numeric_units() {
    let valid = r#"
        type Voltage = Number(symbol: "V");
        type Resistance = Number(symbol: "Ω");
        let supply = (value: Voltage) -> value;
        let resistor = (value: Resistance) -> value;
        supply(value: 5);
        resistor(value: 1000)
    "#;
    assert!(resolve_source(valid).is_ok());

    let invalid = r#"
        type Voltage = Number(symbol: "V");
        type Resistance = Number(symbol: "Ω");
        let supply = (value: Voltage) -> value;
        let resistor = (value: Resistance) -> value;
        supply(value: resistor(value: 1000))
    "#;
    assert!(resolve_source(invalid).is_err());
}

#[test]
fn checks_match_bindings_and_early_return_types() {
    assert!(resolve_source("match 1 { let x -> x + true }").is_err());
    assert!(resolve_source("let f = () -> { return 1; true }; f() + 1").is_ok());
}

#[test]
fn aliases_cover_structural_optional_union_and_function_types() {
    for source in [
        "type Item = { a: Number }; let f = (x: Item) -> x.a; f(x: { a: 2, extra: true })",
        "type Choice = Number | Bool; let f = (x: Choice) -> x; f(x: true)",
        "type Maybe = Number?; let f = (x: Maybe) -> x; f(x: 2)",
        "type Items = [Number]; let f = (x: Items) -> x; f(x: [1,2])",
        "type Callback = (a: Number) -> Number; let f = (x: Callback) -> x(a: 2); f(x: (a: Number) -> a + 1)",
    ] {
        assert!(resolve_source(source).is_ok(), "{source}");
    }
    assert!(
        resolve_source("type Item = { a: Number }; let f = (x: Item) -> x; f(x: { a: true })").is_err()
    );
    assert!(resolve_source("1V + 1A").is_err());
    assert!(resolve_source(r#""bad\q""#).is_err());
}

#[test]
fn tuple_array_and_optional_assignability_is_structural() {
    assert!(resolve_source("type Pair = (Number, Bool); let f = (x: Pair) -> x; f(x: [1,true])").is_ok());
    assert!(resolve_source("type Pair = (Number, Bool); let f = (x: Pair) -> x; f(x: [true,1])").is_err());
    assert!(resolve_source("let f = (x: [Number]) -> x; f(x: [1,true])").is_err());
    assert!(resolve_source("let f = (x: [Number]) -> x; f(x: [])").is_ok());
    assert!(resolve_source("let f = (x: Number?) -> x; f(x: { let n = 1 })").is_ok());
    assert!(resolve_source("type Foo = Number; Foo").is_err());
}

#[test]
fn type_errors_are_reported_with_their_spans_in_source_order() {
    assert_eq!(
        reports("let f = (a: Number) -> a; f(a: true); f(b: 1); true.x; 2()"),
        vec![
            ("type checking".to_string(), "argument `a` has the wrong type".to_string(), 26..36),
            ("type checking".to_string(), "missing argument `a`".to_string(), 38..45),
            ("type checking".to_string(), "unexpected argument `b`".to_string(), 38..45),
            ("type checking".to_string(), "field access requires an object".to_string(), 47..53),
            ("type checking".to_string(), "only lambdas can be called".to_string(), 55..58),
        ]
    );
    assert_eq!(
        reports("match 1 { let y if 2 -> y }"),
        vec![("type checking".to_string(), "match guard must be boolean".to_string(), 0..27)]
    );
}

#[test]
fn units_follow_sums_and_products() {
    assert!(resolve_source("2mV + 3mV").is_ok());
    assert!(resolve_source("let v = 2V * 3; let f = (x: Number(symbol: \"V\")) -> x; f(x: v)").is_ok());
    assert!(resolve_source("let f = (x: Number(symbol: \"V\")) -> x; f(x: 1A)").is_err());
    assert!(resolve_source("1V < 2V; -1V").is_ok());
    assert!(resolve_source("1V < 2A").is_err());
}

#[test]
fn objects_are_compared_by_their_fields_not_their_order() {
    assert!(resolve_source("let same = { a: 1, b: true } == { b: true, a: 2 }").is_ok());
    assert!(resolve_source("let p = { y: 1, x: 2 }; p.x + p.y").is_ok());
    assert!(resolve_source("let p = { x: 1 }; p.z").is_err());
}

#[test]
fn imports_are_checked_once_and_bundled_ones_are_passed_over() {
    let loading = vec!["main.etch".to_string(), "a.etch".to_string()];
    let checked = vec!["main.etch".to_string(), "a.etch".to_string(), "b.etch".to_string()];
    match import_step(&loading, &checked, "main.etch") {
        ImportStep::Cycle(c) => assert_eq!(c, vec!["main.etch", "a.etch", "main.etch"]),
        other => panic!("expected a cycle, got {other:?}"),
    }
    assert!(matches!(import_step(&loading, &checked, "std/passive.etch"), ImportStep::Skip));
    assert!(matches!(import_step(&loading, &checked, "b.etch"), ImportStep::Skip));
    assert!(matches!(import_step(&loading, &checked, "c.etch"), ImportStep::Check));
    assert!(matches!(import_step(&loading, &checked, "std"), ImportStep::Check));
}
