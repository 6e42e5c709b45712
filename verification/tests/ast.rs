use etch::ast::{BinaryOperator, NumberType, UnaryOperator};

#[test]
fn expression_operators_print_their_symbols() {
    assert_eq!(BinaryOperator::Equal.to_string(), "==");
    assert_eq!(BinaryOperator::LessThanOrEqual.to_string(), "<=");
    assert_eq!(BinaryOperator::Union.to_string(), "|");
    assert_eq!(BinaryOperator::Wire.to_string(), "<-");
    assert_eq!(UnaryOperator::Negate.to_string(), "-");
    assert_eq!(UnaryOperator::Flip.to_string(), "!");
}

#[test]
fn the_scalar_number_type_has_no_unit() {
    assert_eq!(NumberType::scalar().symbol, None);
}
