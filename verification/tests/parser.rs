use etch::ast::{BinaryOperator, UnaryOperator};
use etch::compile::resolve_source;
use etch::lexer::{lex, Prefix, Spanned};
use etch::parser::{
    expression_parse, parse, pattern_parse, primative_parse, program_parse, statements_parse, type_parse,
    SyntaxKind, SyntaxNode,
};

fn tokens(source: &str) -> Vec<Spanned> {
    let (tokens, errors) = lex(source);
    assert!(errors.is_empty(), "unexpected lexer errors {errors:?}");
    tokens.expect("the source lexes")
}

fn program(source: &str) -> Result<Vec<SyntaxNode>, usize> {
    parse(&tokens(source))
}

fn kinds(nodes: &[SyntaxNode]) -> Vec<SyntaxKind> {
    nodes.iter().map(|n| n.kind).collect()
}

#[test]
fn parses_example_program() {
    let items = program("1").unwrap();
    assert_eq!(items.len(), 1);
    assert_eq!(items[0].kind, SyntaxKind::Number);
    assert_eq!(items[0].text, "1");
    assert_eq!(kinds(&items[0].children), vec![SyntaxKind::Empty, SyntaxKind::Empty]);
    assert_eq!(items[0].span, 0..1);
}

#[test]
fn parses_exported_top_level_bindings() {
    assert!(resolve_source("export let component = (value: Number) -> value").is_ok());
    let items = program("export let component = (value: Number) -> value").unwrap();
    assert_eq!(items.len(), 1);
    assert_eq!(items[0].kind, SyntaxKind::Export);
    let pattern = &items[0].children[0];
    assert_eq!(pattern.kind, SyntaxKind::Binding);
    assert_eq!(pattern.text, "component");
    let lambda = &items[0].children[1];
    assert_eq!(lambda.kind, SyntaxKind::Lambda);
    assert_eq!(kinds(&lambda.children), vec![SyntaxKind::Param, SyntaxKind::Ident]);
    assert_eq!(lambda.children[0].text, "value");
    assert_eq!(lambda.children[0].children[0].kind, SyntaxKind::NumberType);
    assert_eq!(items[0].span, 0..47);
}

#[test]
fn keeps_keywords_inside_identifiers() {
    assert!(resolve_source("let returnValue = 1").is_ok());
    let items = program("let returnValue = 1").unwrap();
    assert_eq!(items[0].kind, SyntaxKind::Definition);
    assert_eq!(items[0].children[0].text, "returnValue");
}

#[test]
fn rejects_duplicate_named_fields() {
    assert!(program("f(value: 1, value: 2)").is_err());
    assert!(program("f(value: 1, other: 2)").is_ok());
    assert!(program("{ a: 1, a: 2 }").is_err());
}

#[test]
fn parses_all_supported_type_forms() {
    assert!(resolve_source("type Callback = (value: Number) -> String; type Value = Number? | String; type Item = { value: Number }").is_ok());
    let input = "type Callback = (value: Number) -> String; type Value = Number? | String; type Item = { value: Number }";
    let items = program(input).unwrap();
    assert_eq!(kinds(&items), vec![SyntaxKind::TypeDefinition; 3]);
    assert_eq!(items[0].text, "Callback");
    let callback = &items[0].children[0];
    assert_eq!(callback.kind, SyntaxKind::LambdaType);
    assert_eq!(kinds(&callback.children), vec![SyntaxKind::Param, SyntaxKind::StringType]);
    let value = &items[1].children[0];
    assert_eq!(value.kind, SyntaxKind::UnionType);
    assert_eq!(kinds(&value.children), vec![SyntaxKind::OptionalType, SyntaxKind::StringType]);
    assert_eq!(value.children[0].children[0].kind, SyntaxKind::NumberType);
    let item = &items[2].children[0];
    assert_eq!(item.kind, SyntaxKind::ObjectType);
    assert_eq!(item.children[0].text, "value");
}

#[test]
fn rejects_match_arms_without_a_pattern_or_guard() {
    assert_eq!(program("match value { => 1 }").err(), Some(0));
}

#[test]
fn parses_match_arms_with_patterns_and_guards() {
    let items = program("match x { 1 -> a, let y if y > 2 -> b, if c -> d }").unwrap();
    let m = &items[0];
    assert_eq!(m.kind, SyntaxKind::Match);
    assert_eq!(kinds(&m.children), vec![SyntaxKind::Ident, SyntaxKind::Arm, SyntaxKind::Arm, SyntaxKind::Arm]);
    assert_eq!(kinds(&m.children[1].children), vec![SyntaxKind::Number, SyntaxKind::Empty, SyntaxKind::Ident]);
    assert_eq!(kinds(&m.children[2].children), vec![SyntaxKind::Binding, SyntaxKind::Binary(BinaryOperator::GreaterThan), SyntaxKind::Ident]);
    assert_eq!(kinds(&m.children[3].children), vec![SyntaxKind::Empty, SyntaxKind::Ident, SyntaxKind::Ident]);
}

#[test]
fn parses_comparisons() {
    let items = program("1 < 2; 2 >= 1; true == false").unwrap();
    assert_eq!(
        kinds(&items),
        vec![
            SyntaxKind::Binary(BinaryOperator::LessThan),
            SyntaxKind::Binary(BinaryOperator::GreaterThanOrEqual),
            SyntaxKind::Binary(BinaryOperator::Equal),
        ]
    );
    assert_eq!(kinds(&items[2].children), vec![SyntaxKind::Bool(true), SyntaxKind::Bool(false)]);
}

#[test]
fn operators_bind_by_precedence_and_fold_left() {
    let items = program("1 + 2 * 3 - 4").unwrap();
    let sub = &items[0];
    assert_eq!(sub.kind, SyntaxKind::Binary(BinaryOperator::Sub));
    let add = &sub.children[0];
    assert_eq!(add.kind, SyntaxKind::Binary(BinaryOperator::Add));
    assert_eq!(add.children[1].kind, SyntaxKind::Binary(BinaryOperator::Mul));
    assert_eq!(sub.children[1].text, "4");
    let wire = &program("a <- b | c").unwrap()[0];
    assert_eq!(wire.kind, SyntaxKind::Binary(BinaryOperator::Union));
    assert_eq!(wire.children[0].kind, SyntaxKind::Binary(BinaryOperator::Wire));
    let unary = &program("-!x").unwrap()[0];
    assert_eq!(unary.kind, SyntaxKind::Unary(UnaryOperator::Negate));
    assert_eq!(unary.children[0].kind, SyntaxKind::Unary(UnaryOperator::Flip));
}

#[test]
fn supports_object_and_pattern_shorthand() {
    assert!(resolve_source("let value = 1; let { value } = { value }").is_ok());
    let items = program("let value = 1; let { value } = { value }").unwrap();
    let pattern = &items[1].children[0];
    assert_eq!(pattern.kind, SyntaxKind::ObjectPattern);
    assert_eq!(pattern.children[0].kind, SyntaxKind::Field);
    assert_eq!(pattern.children[0].children[0].kind, SyntaxKind::Binding);
    let object = &items[1].children[1];
    assert_eq!(object.kind, SyntaxKind::Object);
    assert_eq!(object.children[0].children[0].kind, SyntaxKind::Ident);
    assert_eq!(object.children[0].children[0].text, "value");
}

#[test]
fn supports_interleaved_calls_and_field_access() {
    assert!(resolve_source("let make = () -> { value: () -> { answer: 42 } }; make().value().answer").is_ok());
    let items = program("let make = () -> { value: () -> { answer: 42 } }; make().value().answer").unwrap();
    let access = &items[1];
    assert_eq!(access.kind, SyntaxKind::Access);
    assert_eq!(access.text, "answer");
    let call = &access.children[0];
    assert_eq!(call.kind, SyntaxKind::Call);
    assert_eq!(call.children.len(), 1);
    let inner = &call.children[0];
    assert_eq!(inner.kind, SyntaxKind::Access);
    assert_eq!(inner.text, "value");
    assert_eq!(inner.children[0].kind, SyntaxKind::Call);
    assert_eq!(inner.children[0].children[0].text, "make");
}

#[test]
fn blocks_hold_statements() {
    let items = program("let f = () -> { return 1; true }; f()").unwrap();
    let block = &items[0].children[1].children[0];
    assert_eq!(block.kind, SyntaxKind::Block);
    assert_eq!(kinds(&block.children), vec![SyntaxKind::Return, SyntaxKind::Bool(true)]);
}

#[test]
fn numbers_keep_prefix_and_unit() {
    let items = program("1kOhm").unwrap();
    assert_eq!(items[0].children[0].kind, SyntaxKind::Prefix(Prefix::Kilo));
    assert_eq!(items[0].children[1].kind, SyntaxKind::Unit);
    assert_eq!(items[0].children[1].text, "Ohm");
}

#[test]
fn number_types_take_a_unit_symbol() {
    let items = program(r#"type Voltage = Number(symbol: "V")"#).unwrap();
    let ty = &items[0].children[0];
    assert_eq!(ty.kind, SyntaxKind::NumberType);
    assert_eq!(ty.children[0].kind, SyntaxKind::Str);
    assert_eq!(ty.children[0].text, "V");
}

#[test]
fn unions_extend_and_tuples_need_two_items() {
    let ts = tokens("A | B | C");
    let (ty, end) = type_parse(&ts, 0).unwrap();
    assert_eq!(end, 5);
    assert_eq!(ty.kind, SyntaxKind::UnionType);
    assert_eq!(kinds(&ty.children), vec![SyntaxKind::NamedType; 3]);
    let ts = tokens("(Number, Bool)");
    let (ty, _) = type_parse(&ts, 0).unwrap();
    assert_eq!(ty.kind, SyntaxKind::TupleType);
    let ts = tokens("(Number)");
    let (ty, end) = type_parse(&ts, 0).unwrap();
    assert_eq!(ty.kind, SyntaxKind::NumberType);
    assert_eq!(end, 3);
    let ts = tokens("[Node]??");
    let (ty, _) = type_parse(&ts, 0).unwrap();
    assert_eq!(ty.kind, SyntaxKind::OptionalType);
    assert_eq!(ty.children[0].kind, SyntaxKind::OptionalType);
}

#[test]
fn patterns_destructure_arrays() {
    let ts = tokens("[a, let b, 1]");
    let (p, end) = pattern_parse(&ts, 0).unwrap();
    assert_eq!(end, ts.len());
    assert_eq!(p.kind, SyntaxKind::ArrayPattern);
    assert_eq!(kinds(&p.children), vec![SyntaxKind::Binding, SyntaxKind::Binding, SyntaxKind::Number]);
    assert_eq!(p.children[1].text, "b");
}

#[test]
fn expressions_stop_where_the_grammar_does() {
    let ts = tokens("a + b )");
    let (e, end) = expression_parse(&ts, 0).unwrap();
    assert_eq!(e.kind, SyntaxKind::Binary(BinaryOperator::Add));
    assert_eq!(end, 3);
    assert!(expression_parse(&ts, 3).is_none());
}

#[test]
fn reports_the_first_token_not_read() {
    assert_eq!(program("let = 1").err(), Some(0));
    assert_eq!(program("1; 2 3").err(), Some(3));
    assert_eq!(program("1;").unwrap().len(), 1);
    assert_eq!(program("").unwrap().len(), 0);
}

#[test]
fn imports_take_a_path_and_a_pattern() {
    let items = program(r#"from "lib.etch" import { resistor }"#).unwrap();
    assert_eq!(items[0].kind, SyntaxKind::Import);
    assert_eq!(items[0].text, "lib.etch");
    assert_eq!(items[0].children[0].kind, SyntaxKind::ObjectPattern);
}

#[test]
fn item_and_statement_lists_stop_where_they_end() {
    let ts = tokens("let a = 1; b; }");
    let (items, end) = program_parse(&ts, 0);
    assert_eq!(kinds(&items), vec![SyntaxKind::Definition, SyntaxKind::Ident]);
    assert_eq!(end, 7);
    let ts = tokens(r#"from "x" import y; return 2"#);
    let (statements, end) = statements_parse(&ts, 0);
    assert!(statements.is_empty());
    assert_eq!(end, 0);
    let (items, end) = program_parse(&ts, 0);
    assert_eq!(kinds(&items), vec![SyntaxKind::Import, SyntaxKind::Return]);
    assert_eq!(end, ts.len());
}

#[test]
fn primitives_are_numbers_booleans_and_strings() {
    let ts = tokens(r#"true "s" x"#);
    assert_eq!(primative_parse(&ts, 0).unwrap().0.kind, SyntaxKind::Bool(true));
    let (s, end) = primative_parse(&ts, 1).unwrap();
    assert_eq!((s.kind, s.text.as_str(), end), (SyntaxKind::Str, "s", 2));
    assert!(primative_parse(&ts, 2).is_none());
    assert!(primative_parse(&ts, 3).is_none());
}
