use etch::sexpr::SExpr;

#[test]
fn parses_atoms_strings_and_nested_lists() {
    let parsed = SExpr::parse(" (footprint \"R_0603\" (layer F.Cu) (at 1 -2)) ").unwrap();
    let SExpr::List(items) = &parsed else {
        panic!("expected a list");
    };
    assert_eq!(items.len(), 4);
    assert!(matches!(&items[0], SExpr::Atom(text) if text == "footprint"));
    assert!(matches!(&items[1], SExpr::String(text) if text == "R_0603"));
    assert!(matches!(&items[2], SExpr::List(inner) if inner.len() == 2));
    assert_eq!(parsed.to_string(), "(footprint \"R_0603\" (layer F.Cu) (at 1 -2))");
    assert_eq!(parsed.tag(), Some("footprint"));
    assert_eq!(parsed.value(1), Some("R_0603"));
    assert_eq!(parsed.value(9), None);
    assert_eq!(parsed.field("at").and_then(|at| at.value(2)), Some("-2"));
    assert!(parsed.field("missing").is_none());
}

#[test]
fn string_escapes_are_decoded_and_printed_back() {
    let parsed = SExpr::parse(r#""a\"b\\c\nd\te\rf\x""#).unwrap();
    assert!(matches!(&parsed, SExpr::String(text) if text == "a\"b\\c\nd\te\rfx"));
    assert_eq!(parsed.to_string(), r#""a\"b\\c\nd\te\rfx""#);
    assert_eq!(SExpr::parse(&parsed.to_string()).unwrap().to_string(), parsed.to_string());
}

#[test]
fn malformed_input_is_reported() {
    assert_eq!(SExpr::parse("").unwrap_err(), "unexpected end of S-expression");
    assert_eq!(SExpr::parse("(a").unwrap_err(), "unexpected end of S-expression");
    assert_eq!(SExpr::parse(")").unwrap_err(), "unexpected closing parenthesis");
    assert_eq!(SExpr::parse("\"open").unwrap_err(), "unterminated string");
    assert_eq!(SExpr::parse("\"open\\").unwrap_err(), "unterminated escape");
    assert_eq!(SExpr::parse("(a) b").unwrap_err(), "trailing S-expression data");
}

#[test]
fn printing_then_parsing_gives_the_value_back() {
    let value = SExpr::list(
        "property",
        vec![SExpr::string("Reference"), SExpr::string("R\n\"1\""), SExpr::atom("x")],
    );
    assert_eq!(value.to_string(), r#"(property "Reference" "R\n\"1\"" x)"#);
    let reread = SExpr::parse(&value.to_string()).unwrap();
    assert_eq!(reread.to_string(), value.to_string());
    assert!(matches!(&reread, SExpr::List(items) if items.len() == 4));
}

#[test]
fn set_replaces_fields_with_the_same_tag_and_appends() {
    let mut footprint = SExpr::parse("(footprint (at 0 0) (layer F.Cu) (at 1 1))").unwrap();
    footprint.set(SExpr::list("at", vec![SExpr::atom("5"), SExpr::atom("6")]));
    assert_eq!(footprint.to_string(), "(footprint (layer F.Cu) (at 5 6))");
    assert_eq!(footprint.field("at").unwrap().value(1), Some("5"));
}

#[test]
fn remove_and_remove_recursive_drop_tagged_lists() {
    let mut board = SExpr::parse("(kicad_pcb (uuid a) (net 1 (uuid b)) (uuid c))").unwrap();
    let mut shallow = board.clone();
    shallow.remove("uuid");
    assert_eq!(shallow.to_string(), "(kicad_pcb (net 1 (uuid b)))");
    assert!(shallow.field("uuid").is_none());
    board.remove_recursive("uuid");
    assert_eq!(board.to_string(), "(kicad_pcb (net 1))");
}

#[test]
fn atoms_and_strings_have_text_and_no_items() {
    assert_eq!(SExpr::atom("x").text(), Some("x"));
    assert_eq!(SExpr::string("y").text(), Some("y"));
    assert_eq!(SExpr::list("z", vec![]).text(), None);
    assert!(SExpr::atom("x").items().is_empty());
    assert_eq!(SExpr::atom("x").tag(), None);
    let mut list = SExpr::list("z", vec![]);
    list.items_mut().push(SExpr::atom("w"));
    assert_eq!(list.to_string(), "(z w)");
}
