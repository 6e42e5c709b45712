//! Operator symbols as the tokenizer reads them.
use vstd::prelude::*;
use crate::text::chars_of;

verus! {

/// The binary operators of the token-level grammar.
#[derive(Clone, Copy, Debug, PartialEq, Eq, Structural)]
pub enum BinaryOperator {
    Add,
    Subtract,
    Multiply,
    Divide,
    Equals,
    Lt,
    Gt,
    Ge,
    Le,
    Override,
}

/// How a binary operator is written.
pub open spec fn binary_symbol(op: BinaryOperator) -> Seq<char> {
    match op {
        BinaryOperator::Equals => seq!['=', '='],
        BinaryOperator::Lt => seq!['<'],
        BinaryOperator::Gt => seq!['>'],
        BinaryOperator::Le => seq!['<', '='],
        BinaryOperator::Ge => seq!['>', '='],
        BinaryOperator::Add => seq!['+'],
        BinaryOperator::Subtract => seq!['-'],
        BinaryOperator::Divide => seq!['/'],
        BinaryOperator::Multiply => seq!['*'],
        BinaryOperator::Override => seq!['<', '-'],
    }
}

/// Whether `s` is the symbol of a binary operator.
pub open spec fn is_binary_symbol(s: Seq<char>) -> bool {
    exists|op: BinaryOperator| binary_symbol(op) == s
}

impl BinaryOperator {
    /// The operator written `value`; `value` must be one of the operator
    /// symbols.
    pub fn from_symbol(value: &str) -> (r: Self)
        requires
            is_binary_symbol(value@),
        ensures
            binary_symbol(r) == value@,
    {
        let v = chars_of(value);
        proof {
            let op = choose|op: BinaryOperator| binary_symbol(op) == value@;
            assert(binary_symbol(op) == v@);
            assert(v@.len() == 1 || v@.len() == 2);
        }
        let r = if v.len() == 2 {
            let (a, b) = (v[0], v[1]);
            if a == '=' {
                BinaryOperator::Equals
            } else if a == '<' && b == '=' {
                BinaryOperator::Le
            } else if a == '>' {
                BinaryOperator::Ge
            } else {
                BinaryOperator::Override
            }
        } else {
            let a = v[0];
            if a == '<' {
                BinaryOperator::Lt
            } else if a == '>' {
                BinaryOperator::Gt
            } else if a == '+' {
                BinaryOperator::Add
            } else if a == '-' {
                BinaryOperator::Subtract
            } else if a == '/' {
                BinaryOperator::Divide
            } else {
                BinaryOperator::Multiply
            }
        };
        proof {
            let op = choose|op: BinaryOperator| binary_symbol(op) == value@;
            assert(binary_symbol(op) == v@);
            assert(v@ =~= binary_symbol(r));
        }
        r
    }

    /// The symbol of the operator.
    pub fn to_string(&self) -> (r: String)
        ensures
            r@ == binary_symbol(*self),
    {
        let s: &str = match self {
            BinaryOperator::Equals => "==",
            BinaryOperator::Lt => "<",
            BinaryOperator::Gt => ">",
            BinaryOperator::Le => "<=",
            BinaryOperator::Ge => ">=",
            BinaryOperator::Add => "+",
            BinaryOperator::Subtract => "-",
            BinaryOperator::Divide => "/",
            BinaryOperator::Multiply => "*",
            BinaryOperator::Override => "<-",
        };
        proof {
            reveal_strlit("==");
            reveal_strlit("<");
            reveal_strlit(">");
            reveal_strlit("<=");
            reveal_strlit(">=");
            reveal_strlit("+");
            reveal_strlit("-");
            reveal_strlit("*");
            reveal_strlit("/");
            reveal_strlit("<-");
        }
        let r = s.to_owned();
        assert(r@ =~= binary_symbol(*self));
        r
    }
}

/// The unary operators of the token-level grammar.
#[derive(Clone, Copy, Debug, PartialEq, Eq, Structural)]
pub enum UnaryOperator {
    Invert,
    Negate,
}

/// How a unary operator is written.
pub open spec fn unary_symbol(op: UnaryOperator) -> Seq<char> {
    match op {
        UnaryOperator::Invert => seq!['!'],
        UnaryOperator::Negate => seq!['-'],
    }
}

impl UnaryOperator {
    /// The operator written `value`, which must be `!` or `-`.
    pub fn from_symbol(value: &str) -> (r: Self)
        requires
            value@ == seq!['!'] || value@ == seq!['-'],
        ensures
            unary_symbol(r) == value@,
    {
        let v = chars_of(value);
        let r = if v[0] == '!' {
            UnaryOperator::Invert
        } else {
            UnaryOperator::Negate
        };
        assert(v@ =~= unary_symbol(r));
        r
    }

    /// The symbol of the operator.
    pub fn to_string(&self) -> (r: String)
        ensures
            r@ == unary_symbol(*self),
    {
        let s: &str = match self {
            UnaryOperator::Invert => "!",
            UnaryOperator::Negate => "-",
        };
        proof {
            reveal_strlit("-");
            reveal_strlit("!");
        }
        let r = s.to_owned();
        assert(r@ =~= unary_symbol(*self));
        r
    }
}

/// Reading the symbol of an operator gives the operator back.
pub proof fn lemma_binary_symbol_roundtrip(op: BinaryOperator, other: BinaryOperator)
    ensures
        binary_symbol(op) == binary_symbol(other) ==> op == other,
{
    if binary_symbol(op) == binary_symbol(other) {
        assert(binary_symbol(op).len() == binary_symbol(other).len());
        assert(binary_symbol(op)[0] == binary_symbol(other)[0]);
        if binary_symbol(op).len() == 2 {
            assert(binary_symbol(op)[1] == binary_symbol(other)[1]);
        }
    }
}

} // verus!
