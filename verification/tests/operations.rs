use etch::operations::{BinaryOperator, UnaryOperator};

#[test]
fn binary_symbols_round_trip() {
    for symbol in ["==", "<", ">", "<=", ">=", "+", "-", "/", "*", "<-"] {
        assert_eq!(BinaryOperator::from_symbol(symbol).to_string(), symbol);
    }
    assert_eq!(BinaryOperator::from_symbol("<-"), BinaryOperator::Override);
    assert_eq!(BinaryOperator::from_symbol("<="), BinaryOperator::Le);
}

#[test]
fn unary_symbols_round_trip() {
    for symbol in ["!", "-"] {
        assert_eq!(UnaryOperator::from_symbol(symbol).to_string(), symbol);
    }
}
