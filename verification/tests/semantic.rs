use etch::ast::{BinaryOperator, UnaryOperator};
use etch::compile::resolve_source;
use etch::resolver::Symbol;
use etch::semantic::{
    array_type, binary_type, call_type, compatible, field_binding_type, field_type, guard_errors,
    item_binding_type, unary_type, unify, TypeResolver, ValueType,
};

fn object(fields: Vec<(&str, ValueType)>) -> ValueType {
    ValueType::Object(fields.into_iter().map(|(k, v)| (k.to_string(), v)).collect())
}

#[test]
fn types_compare_structurally() {
    let a = object(vec![("a", ValueType::Number), ("b", ValueType::Array(Box::new(ValueType::Boolean)))]);
    let b = object(vec![("a", ValueType::Number), ("b", ValueType::Array(Box::new(ValueType::Boolean)))]);
    let c = object(vec![("a", ValueType::Number)]);
    assert!(a.same(&b));
    assert!(!a.same(&c));
    assert!(a.clone().same(&a));
    assert!(compatible(&ValueType::Unknown, &a));
    assert!(!compatible(&ValueType::Number, &ValueType::String));
}

#[test]
fn unions_keep_distinct_types_in_order() {
    assert!(matches!(unify(vec![]), ValueType::Nil));
    assert!(matches!(unify(vec![ValueType::Number, ValueType::Number]), ValueType::Number));
    match unify(vec![ValueType::Number, ValueType::Boolean, ValueType::Number]) {
        ValueType::Union(options) => {
            assert_eq!(options.len(), 2);
            assert!(matches!(options[0], ValueType::Number));
            assert!(matches!(options[1], ValueType::Boolean));
        }
        other => panic!("expected a union, got {other:?}"),
    }
}

#[test]
fn binary_operations_follow_the_operator_rules() {
    let (ty, errors) = binary_type(BinaryOperator::Add, &ValueType::Number, &ValueType::Number).into_parts();
    assert!(matches!(ty, ValueType::Number) && errors.is_empty());
    let (ty, errors) = binary_type(BinaryOperator::Add, &ValueType::Boolean, &ValueType::Number).into_parts();
    assert!(matches!(ty, ValueType::Unknown));
    assert_eq!(errors, vec!["invalid operands for binary operator".to_string()]);
    let (ty, errors) = binary_type(BinaryOperator::LessThan, &ValueType::Unknown, &ValueType::Number).into_parts();
    assert!(matches!(ty, ValueType::Boolean) && errors.is_empty());
    let (ty, errors) = binary_type(BinaryOperator::Wire, &ValueType::Node, &ValueType::Node).into_parts();
    assert!(matches!(ty, ValueType::Node) && errors.is_empty());
    let (ty, errors) = binary_type(BinaryOperator::Equal, &ValueType::String, &ValueType::Number).into_parts();
    assert!(matches!(ty, ValueType::Unknown) && errors.len() == 1);
    let (ty, errors) = binary_type(BinaryOperator::Union, &ValueType::Number, &ValueType::Number).into_parts();
    assert!(matches!(ty, ValueType::Unknown));
    assert_eq!(errors, vec!["invalid operands for binary operator".to_string()]);
    let (ty, errors) = binary_type(BinaryOperator::Sub, &ValueType::Unknown, &ValueType::String).into_parts();
    assert!(matches!(ty, ValueType::Unknown) && errors.is_empty());
}

#[test]
fn unary_operations_follow_the_operator_rules() {
    let (ty, errors) = unary_type(UnaryOperator::Flip, &ValueType::Boolean).into_parts();
    assert!(matches!(ty, ValueType::Boolean) && errors.is_empty());
    let (ty, errors) = unary_type(UnaryOperator::Negate, &ValueType::Boolean).into_parts();
    assert!(matches!(ty, ValueType::Unknown));
    assert_eq!(errors, vec!["invalid operand for unary operator".to_string()]);
}

#[test]
fn calls_check_every_argument() {
    let lambda = ValueType::Lambda {
        params: vec![("a".into(), ValueType::Number), ("b".into(), ValueType::Boolean)],
        rtn: Box::new(ValueType::String),
    };
    let args = vec![("b".to_string(), ValueType::Number), ("c".to_string(), ValueType::Number)];
    let (ty, errors) = call_type(&lambda, &args).into_parts();
    assert!(matches!(ty, ValueType::String));
    assert_eq!(
        errors,
        vec![
            "missing argument `a`".to_string(),
            "argument `b` has the wrong type".to_string(),
            "unexpected argument `c`".to_string(),
        ]
    );
    let (ty, errors) = call_type(&ValueType::Number, &vec![]).into_parts();
    assert!(matches!(ty, ValueType::Unknown));
    assert_eq!(errors, vec!["only lambdas can be called".to_string()]);
    let (_, errors) = call_type(&ValueType::Unknown, &args).into_parts();
    assert!(errors.is_empty());
}

#[test]
fn field_access_needs_an_object_with_the_field() {
    let point = object(vec![("x", ValueType::Number)]);
    let (ty, errors) = field_type(&point, "x").into_parts();
    assert!(matches!(ty, ValueType::Number) && errors.is_empty());
    let (ty, errors) = field_type(&point, "y").into_parts();
    assert!(matches!(ty, ValueType::Unknown));
    assert_eq!(errors, vec!["object has no field `y`".to_string()]);
    let (_, errors) = field_type(&ValueType::Number, "x").into_parts();
    assert_eq!(errors, vec!["field access requires an object".to_string()]);
}

#[test]
fn arrays_take_the_type_of_their_first_item() {
    let (ty, errors) = array_type(&vec![ValueType::Number, ValueType::Number]).into_parts();
    assert!(matches!(ty, ValueType::Array(ref t) if matches!(**t, ValueType::Number)));
    assert!(errors.is_empty());
    let (_, errors) = array_type(&vec![ValueType::Number, ValueType::Boolean]).into_parts();
    assert_eq!(errors, vec!["array items must have the same type".to_string()]);
    let (ty, _) = array_type(&vec![]).into_parts();
    assert!(matches!(ty, ValueType::Array(ref t) if matches!(**t, ValueType::Unknown)));
}

#[test]
fn guards_must_be_boolean() {
    assert!(guard_errors(&ValueType::Boolean).is_empty());
    assert_eq!(guard_errors(&ValueType::Number), vec!["match guard must be boolean".to_string()]);
}

#[test]
fn symbols_keep_the_type_last_bound() {
    let mut types = TypeResolver::new();
    let x = Symbol { id: 12, name: "x".into() };
    assert!(matches!(types.type_of(&Some(x.clone())), ValueType::Unknown));
    types.bind_symbol(x.clone(), ValueType::Number);
    types.bind_symbol(Symbol { id: 13, name: "y".into() }, ValueType::Boolean);
    assert!(matches!(types.type_of(&Some(x.clone())), ValueType::Number));
    types.bind_symbol(x.clone(), ValueType::String);
    assert!(matches!(types.type_of(&Some(x)), ValueType::String));
    assert!(matches!(types.type_of(&None), ValueType::Unknown));
}

#[test]
fn destructuring_takes_field_and_item_types() {
    let point = object(vec![("x", ValueType::Number)]);
    assert!(matches!(field_binding_type(&point, "x"), ValueType::Number));
    assert!(matches!(field_binding_type(&point, "z"), ValueType::Unknown));
    assert!(matches!(item_binding_type(&ValueType::Array(Box::new(ValueType::Node))), ValueType::Node));
    assert!(matches!(item_binding_type(&point), ValueType::Unknown));
}

#[test]
fn object_merges_have_merged_field_types() {
    let left = object(vec![("a", ValueType::Number), ("c", ValueType::Number)]);
    let right = object(vec![("b", ValueType::Boolean), ("c", ValueType::String)]);
    let (ty, errors) = binary_type(BinaryOperator::Union, &left, &right).into_parts();
    assert!(errors.is_empty());
    let expected = object(vec![("a", ValueType::Number), ("b", ValueType::Boolean), ("c", ValueType::String)]);
    assert!(ty.same(&expected));
    let (field, errors) = field_type(&ty, "a").into_parts();
    assert!(matches!(field, ValueType::Number) && errors.is_empty());
    assert!(resolve_source("let merged = { a: 1 } | { b: true }; merged.a + 1").is_ok());
    assert!(resolve_source("1 | 2").is_err());
}
