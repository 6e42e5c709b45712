//! Small vocabulary types of the syntax tree: operators, destructuring names
//! and the leaf type forms.
use vstd::prelude::*;

verus! {

/// The binary operators of the language.
#[derive(Clone, Copy, Debug, PartialEq, Eq, Structural)]
pub enum BinaryOperator {
    Equal,
    LessThan,
    GreaterThan,
    LessThanOrEqual,
    GreaterThanOrEqual,
    Add,
    Sub,
    Mul,
    Div,
    Union,
    Wire,
}

/// How a binary operator is written.
pub open spec fn binary_symbol(op: BinaryOperator) -> Seq<char> {
    match op {
        BinaryOperator::Equal => seq!['=', '='],
        BinaryOperator::LessThan => seq!['<'],
        BinaryOperator::GreaterThan => seq!['>'],
        BinaryOperator::LessThanOrEqual => seq!['<', '='],
        BinaryOperator::GreaterThanOrEqual => seq!['>', '='],
        BinaryOperator::Add => seq!['+'],
        BinaryOperator::Sub => seq!['-'],
        BinaryOperator::Mul => seq!['*'],
        BinaryOperator::Div => seq!['/'],
        BinaryOperator::Union => seq!['|'],
        BinaryOperator::Wire => seq!['<', '-'],
    }
}

impl BinaryOperator {
    /// The symbol of the operator, as the source writes it.
    pub fn to_string(&self) -> (r: String)
        ensures
            r@ == binary_symbol(*self),
    {
        let s: &str = match self {
            BinaryOperator::Equal => "==",
            BinaryOperator::LessThan => "<",
            BinaryOperator::GreaterThan => ">",
            BinaryOperator::LessThanOrEqual => "<=",
            BinaryOperator::GreaterThanOrEqual => ">=",
            BinaryOperator::Add => "+",
            BinaryOperator::Sub => "-",
            BinaryOperator::Mul => "*",
            BinaryOperator::Div => "/",
            BinaryOperator::Union => "|",
            BinaryOperator::Wire => "<-",
        };
        proof {
            reveal_strlit("==");
            reveal_strlit("<");
            reveal_strlit(">");
            reveal_strlit("<=");
            reveal_strlit(">=");
            reveal_strlit("+");
            reveal_strlit("-");
            reveal_strlit("*");
            reveal_strlit("/");
            reveal_strlit("|");
            reveal_strlit("<-");
        }
        let r = s.to_owned();
        assert(r@ =~= binary_symbol(*self));
        r
    }
}

/// The unary operators of the language.
#[derive(Clone, Copy, Debug, PartialEq, Eq, Structural)]
pub enum UnaryOperator {
    Negate,
    Flip,
}

/// How a unary operator is written.
pub open spec fn unary_symbol(op: UnaryOperator) -> Seq<char> {
    match op {
        UnaryOperator::Negate => seq!['-'],
        UnaryOperator::Flip => seq!['!'],
    }
}

impl UnaryOperator {
    /// The symbol of the operator, as the source writes it.
    pub fn to_string(&self) -> (r: String)
        ensures
            r@ == unary_symbol(*self),
    {
        let s: &str = match self {
            UnaryOperator::Negate => "-",
            UnaryOperator::Flip => "!",
        };
        proof {
            reveal_strlit("-");
            reveal_strlit("!");
        }
        let r = s.to_owned();
        assert(r@ =~= unary_symbol(*self));
        r
    }
}

/// A pattern that matches an enumeration case by name.
#[derive(Debug)]
pub struct EnumDestructure {
    pub name: String,
}

/// The type of circuit nodes.
#[derive(Clone, Copy, Debug, PartialEq, Eq, Structural)]
pub struct NodeType;

/// The type of strings.
#[derive(Clone, Copy, Debug, PartialEq, Eq, Structural)]
pub struct StringType;

/// The type of numbers, optionally with a unit symbol (for example `V`).
#[derive(Debug)]
pub struct NumberType {
    /// Display symbol for a concrete numeric unit (for example `V` or `Ω`).
    pub symbol: Option<String>,
}

impl NumberType {
    /// The unitless number type.
    pub fn scalar() -> (r: Self)
        ensures
            r.symbol is None,
    {
        NumberType { symbol: None }
    }
}

/// The type of booleans.
#[derive(Clone, Copy, Debug, PartialEq, Eq, Structural)]
pub struct BooleanType;

/// The type of the absent value.
#[derive(Clone, Copy, Debug, PartialEq, Eq, Structural)]
pub struct NoneType;

/// The type with no values.
#[derive(Clone, Copy, Debug, PartialEq, Eq, Structural)]
pub struct NeverType;

/// A reference to a type alias by name.
#[derive(Debug)]
pub struct NamedType {
    pub name: String,
}

} // verus!
