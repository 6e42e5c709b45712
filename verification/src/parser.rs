//! The parser of the Etch language: from the tokens of the lexer to a
//! syntax tree of programs, statements, expressions, patterns and types.
//!
//! The tree is uniform: every node has a kind, a text (a name, a literal, a
//! path), the byte range of the source it covers and its children, whose
//! meaning the kind fixes (see [`SyntaxKind`]).
use vstd::prelude::*;
use std::ops::Range;
use crate::ast::{BinaryOperator, UnaryOperator};
use crate::lexer::{Keyword, Prefix, Spanned, Symbols, Token, TokenView};
use crate::text::{str_eq, string_of};

verus! {

/// The kinds of syntax nodes. The children of each kind are listed; `Empty`
/// stands for an absent optional part.
#[derive(Clone, Copy, Debug, PartialEq, Eq, Structural)]
pub enum SyntaxKind {
    /// `from "path" import pattern`: text is the path; children `[pattern]`.
    Import,
    /// `export let pattern = value`: children `[pattern, value]`.
    Export,
    /// `let pattern = value`: children `[pattern, value]`.
    Definition,
    /// `type Name = type`: text is the name; children `[type]`.
    TypeDefinition,
    /// `return value`: children `[value]`.
    Return,
    /// `match on { arms }`: children `[on, arm...]`.
    Match,
    /// `pattern if condition -> result`: children `[pattern or Empty,
    /// condition or Empty, result]`.
    Arm,
    /// A name used as a value: text is the name.
    Ident,
    /// A number: text is its digits; children `[prefix or Empty, unit or
    /// Empty]`.
    Number,
    /// An SI prefix of a number.
    Prefix(Prefix),
    /// A unit of a number: text is the unit.
    Unit,
    /// A string literal: text is its (unescaped) contents.
    Str,
    /// `true` or `false`.
    Bool(bool),
    /// `@`, a new circuit node.
    NodeLiteral,
    /// `[items]`: children are the items.
    Array,
    /// `{ fields }`: children are `Field`s.
    Object,
    /// `name: value` (or `name` alone, whose value is the name): text is the
    /// name; children `[value]`.
    Field,
    /// `(params) -> body`: children `[Param..., body]`.
    Lambda,
    /// `name: type`: text is the name; children `[type]`.
    Param,
    /// A prefix operator: children `[arg]`.
    Unary(UnaryOperator),
    /// A binary operator: children `[lhs, rhs]`.
    Binary(BinaryOperator),
    /// `callee(args)`: children `[callee, Field...]`.
    Call,
    /// `object.field`: text is the field; children `[object]`.
    Access,
    /// `{ statements }`: children are the statements.
    Block,
    /// `{ fields }` in a pattern: children are `Field`s holding patterns.
    ObjectPattern,
    /// `[patterns]`.
    ArrayPattern,
    /// A name bound by a pattern (`name` or `let name`): text is the name.
    Binding,
    /// The type `Node`.
    NodeType,
    /// `Number` or `Number(symbol: "V")`: children `[]` or `[Str]`.
    NumberType,
    /// The type `String`.
    StringType,
    /// The type `Bool`.
    BoolType,
    /// The type `None`.
    NoneType,
    /// The type `Never`.
    NeverType,
    /// A type alias used as a type: text is its name.
    NamedType,
    /// `{ name: type, ... }`: children are `Param`s.
    ObjectType,
    /// `[type]`: children `[item]`.
    ArrayType,
    /// `type?`: children `[inner]`.
    OptionalType,
    /// `(params) -> type`: children `[Param..., result]`.
    LambdaType,
    /// `a | b | ...`: children are the options.
    UnionType,
    /// `(a, b, ...)`: children are the items (at least two).
    TupleType,
    /// An absent optional part.
    Empty,
}

/// A node of the syntax tree.
#[derive(Debug)]
pub struct SyntaxNode {
    pub kind: SyntaxKind,
    pub text: String,
    pub span: Range<usize>,
    pub children: Vec<SyntaxNode>,
}

/// The mathematical value of a [`SyntaxNode`].
pub struct SyntaxView {
    pub kind: SyntaxKind,
    pub text: Seq<char>,
    pub span: (int, int),
    pub children: Seq<SyntaxView>,
}

impl SyntaxNode {
    pub open spec fn view(&self) -> SyntaxView
        decreases self,
    {
        SyntaxView {
            kind: self.kind,
            text: self.text@,
            span: (self.span.start as int, self.span.end as int),
            children: nodes_view(self.children@),
        }
    }
}

/// The values of a sequence of nodes.
pub open spec fn nodes_view(nodes: Seq<SyntaxNode>) -> Seq<SyntaxView>
    decreases nodes,
{
    if nodes.len() == 0 {
        Seq::empty()
    } else {
        nodes_view(nodes.drop_last()).push(nodes.last().view())
    }
}

pub proof fn lemma_nodes_view(nodes: Seq<SyntaxNode>)
    ensures
        nodes_view(nodes).len() == nodes.len(),
        forall|i: int| 0 <= i < nodes.len() ==> #[trigger] nodes_view(nodes)[i] == nodes[i].view(),
    decreases nodes.len(),
{
    if nodes.len() > 0 {
        lemma_nodes_view(nodes.drop_last());
        assert forall|i: int| 0 <= i < nodes.len() implies #[trigger] nodes_view(nodes)[i]
            == nodes[i].view() by {
            if i < nodes.len() - 1 {
                assert(nodes.drop_last()[i] == nodes[i]);
            }
        }
    }
}

/// The tokens as the parser sees them: each with its byte range.
pub open spec fn tokens_view(ts: Seq<Spanned>) -> Seq<(TokenView, int, int)> {
    Seq::new(ts.len(), |i: int| (ts[i].token.view(), ts[i].span.start as int, ts[i].span.end as int))
}

// ---------------------------------------------------------------------------
// The grammar
// ---------------------------------------------------------------------------

/// Token `i` is the symbol `s`.
pub open spec fn sym_at(ts: Seq<(TokenView, int, int)>, i: int, s: Symbols) -> bool {
    0 <= i < ts.len() && ts[i].0 == TokenView::Symbol(s)
}

/// Token `i` is the keyword `k`.
pub open spec fn kw_at(ts: Seq<(TokenView, int, int)>, i: int, k: Keyword) -> bool {
    0 <= i < ts.len() && ts[i].0 == TokenView::Keyword(k)
}

/// The name token `i` holds.
pub open spec fn ident_at(ts: Seq<(TokenView, int, int)>, i: int) -> Option<Seq<char>> {
    if 0 <= i < ts.len() {
        match ts[i].0 {
            TokenView::Identifier(n) => Some(n),
            _ => None,
        }
    } else {
        None
    }
}

/// A node covering tokens `start..end`.
pub open spec fn mk(
    ts: Seq<(TokenView, int, int)>,
    kind: SyntaxKind,
    text: Seq<char>,
    start: int,
    end: int,
    children: Seq<SyntaxView>,
) -> SyntaxView {
    SyntaxView { kind, text, span: (ts[start].1, ts[end - 1].2), children }
}

/// A placeholder for an absent optional part.
pub open spec fn empty_node() -> SyntaxView {
    SyntaxView { kind: SyntaxKind::Empty, text: Seq::empty(), span: (0, 0), children: Seq::empty() }
}

/// The literal at token `i`: a number, a boolean or a string.
pub open spec fn primitive(ts: Seq<(TokenView, int, int)>, i: int) -> Option<(SyntaxView, int)> {
    if 0 <= i < ts.len() {
        match ts[i].0 {
            TokenView::Number { digits, prefix, unit } => {
                let p = match prefix {
                    Some(x) => SyntaxView {
                        kind: SyntaxKind::Prefix(x),
                        text: Seq::empty(),
                        span: (ts[i].1, ts[i].2),
                        children: Seq::empty(),
                    },
                    None => empty_node(),
                };
                let u = match unit {
                    Some(x) => SyntaxView {
                        kind: SyntaxKind::Unit,
                        text: x,
                        span: (ts[i].1, ts[i].2),
                        children: Seq::empty(),
                    },
                    None => empty_node(),
                };
                Some((mk(ts, SyntaxKind::Number, digits, i, i + 1, seq![p, u]), i + 1))
            },
            TokenView::Bool(b) => Some(
                (mk(ts, SyntaxKind::Bool(b), Seq::empty(), i, i + 1, Seq::empty()), i + 1),
            ),
            TokenView::Str(t) => Some(
                (mk(ts, SyntaxKind::Str, t, i, i + 1, Seq::empty()), i + 1),
            ),
            _ => None,
        }
    } else {
        None
    }
}

/// The parts of the language that come in separated lists.
#[derive(Clone, Copy, Debug, PartialEq, Eq, Structural)]
pub enum Part {
    /// Top-level items, separated by `;`.
    Item,
    /// Statements of a block, separated by `;`.
    Statement,
    /// Match arms.
    Arm,
    /// Object fields `name` or `name: value`.
    Field,
    /// Array items.
    Value,
    /// Call arguments `name: value`.
    Argument,
    /// Lambda parameters `name: type`.
    Param,
    /// Object pattern fields `name` or `name: pattern`.
    PatternField,
    /// Array pattern items.
    Pattern,
    /// Tuple type items.
    Type,
}

/// The separator of a list of parts.
pub open spec fn separator(part: Part) -> Symbols {
    match part {
        Part::Item | Part::Statement => Symbols::Semicolon,
        _ => Symbols::Comma,
    }
}

/// The fields of a list have different names.
pub open spec fn unique_names(fields: Seq<SyntaxView>) -> bool {
    forall|a: int, b: int|
        0 <= a < b < fields.len() ==> #[trigger] fields[a].text != #[trigger] fields[b].text
}

/// The binary operators of a precedence level (1: `/ *`; 2: `+ -`;
/// 3: comparisons; 4: `| <-`) at token `i`.
pub open spec fn level_op(ts: Seq<(TokenView, int, int)>, level: int, i: int) -> Option<BinaryOperator> {
    if level == 1 {
        if sym_at(ts, i, Symbols::Slash) {
            Some(BinaryOperator::Div)
        } else if sym_at(ts, i, Symbols::Star) {
            Some(BinaryOperator::Mul)
        } else {
            None
        }
    } else if level == 2 {
        if sym_at(ts, i, Symbols::Plus) {
            Some(BinaryOperator::Add)
        } else if sym_at(ts, i, Symbols::Minus) {
            Some(BinaryOperator::Sub)
        } else {
            None
        }
    } else if level == 3 {
        if sym_at(ts, i, Symbols::DoubleEquals) {
            Some(BinaryOperator::Equal)
        } else if sym_at(ts, i, Symbols::Le) {
            Some(BinaryOperator::LessThanOrEqual)
        } else if sym_at(ts, i, Symbols::Ge) {
            Some(BinaryOperator::GreaterThanOrEqual)
        } else if sym_at(ts, i, Symbols::Lt) {
            Some(BinaryOperator::LessThan)
        } else if sym_at(ts, i, Symbols::Gt) {
            Some(BinaryOperator::GreaterThan)
        } else {
            None
        }
    } else {
        if sym_at(ts, i, Symbols::Pipe) {
            Some(BinaryOperator::Union)
        } else if sym_at(ts, i, Symbols::BackArrow) {
            Some(BinaryOperator::Wire)
        } else {
            None
        }
    }
}

/// The built-in type a name denotes, if any.
pub open spec fn base_type(name: Seq<char>) -> Option<SyntaxKind> {
    if name == "Node"@ {
        Some(SyntaxKind::NodeType)
    } else if name == "Number"@ {
        Some(SyntaxKind::NumberType)
    } else if name == "String"@ {
        Some(SyntaxKind::StringType)
    } else if name == "Bool"@ {
        Some(SyntaxKind::BoolType)
    } else if name == "None"@ {
        Some(SyntaxKind::NoneType)
    } else if name == "Never"@ {
        Some(SyntaxKind::NeverType)
    } else {
        None
    }
}


/// A separated list of parts from token `i`, possibly empty, with an
/// optional trailing separator, and the position after it.
pub open spec fn list(ts: Seq<(TokenView, int, int)>, part: Part, i: int) -> (Seq<SyntaxView>, int)
    decreases ts.len() - i, 50int,
{
    if !(0 <= i <= ts.len()) {
        (Seq::empty(), i)
    } else {
        match element(ts, part, i) {
            Some((v, e)) => if i < e <= ts.len() {
                let rest = list_rest(ts, part, e);
                (seq![v] + rest.0, rest.1)
            } else {
                (Seq::empty(), i)
            },
            None => (Seq::empty(), i),
        }
    }
}

/// The rest of a list after an element ending at `e`.
pub open spec fn list_rest(ts: Seq<(TokenView, int, int)>, part: Part, e: int) -> (
    Seq<SyntaxView>,
    int,
)
    decreases ts.len() - e, 50int,
{
    if 0 <= e && sym_at(ts, e, separator(part)) {
        match element(ts, part, e + 1) {
            Some((v, f)) => if e + 1 < f <= ts.len() {
                let rest = list_rest(ts, part, f);
                (seq![v] + rest.0, rest.1)
            } else {
                (Seq::empty(), e + 1)
            },
            None => (Seq::empty(), e + 1),
        }
    } else {
        (Seq::empty(), e)
    }
}

/// One part at token `i`.
pub open spec fn element(ts: Seq<(TokenView, int, int)>, part: Part, i: int) -> Option<
    (SyntaxView, int),
>
    decreases ts.len() - i, 49int,
{
    match part {
        Part::Item => item(ts, i),
        Part::Statement => statement(ts, i),
        Part::Arm => arm(ts, i),
        Part::Field => field(ts, i),
        Part::Value => expression(ts, i),
        Part::Argument => argument(ts, i),
        Part::Param => param(ts, i),
        Part::PatternField => pattern_field(ts, i),
        Part::Pattern => pattern(ts, i),
        Part::Type => type_expr(ts, i),
    }
}

/// A top-level item: an import, an export or a statement.
pub open spec fn item(ts: Seq<(TokenView, int, int)>, i: int) -> Option<(SyntaxView, int)>
    decreases ts.len() - i, 48int,
{
    match import(ts, i) {
        Some(r) => Some(r),
        None => match export(ts, i) {
            Some(r) => Some(r),
            None => statement(ts, i),
        },
    }
}

/// `from "path" import pattern`.
pub open spec fn import(ts: Seq<(TokenView, int, int)>, i: int) -> Option<(SyntaxView, int)>
    decreases ts.len() - i, 47int,
{
    if 0 <= i && kw_at(ts, i, Keyword::From) && i + 1 < ts.len() && ts[i + 1].0 is Str && kw_at(
        ts,
        i + 2,
        Keyword::Import,
    ) {
        match pattern(ts, i + 3) {
            Some((p, e)) => if i + 3 < e <= ts.len() {
                Some((mk(ts, SyntaxKind::Import, ts[i + 1].0->Str_0, i, e, seq![p]), e))
            } else {
                None
            },
            None => None,
        }
    } else {
        None
    }
}

/// `export let pattern = value`.
pub open spec fn export(ts: Seq<(TokenView, int, int)>, i: int) -> Option<(SyntaxView, int)>
    decreases ts.len() - i, 47int,
{
    if 0 <= i && kw_at(ts, i, Keyword::Export) && kw_at(ts, i + 1, Keyword::Let) {
        match pattern(ts, i + 2) {
            Some((p, e)) => if i + 2 < e && sym_at(ts, e, Symbols::Equals) {
                match expression(ts, e + 1) {
                    Some((v, f)) => if e + 1 < f <= ts.len() {
                        Some((mk(ts, SyntaxKind::Export, Seq::empty(), i, f, seq![p, v]), f))
                    } else {
                        None
                    },
                    None => None,
                }
            } else {
                None
            },
            None => None,
        }
    } else {
        None
    }
}

/// A statement: a definition, a type definition, a return or an
/// expression.
pub open spec fn statement(ts: Seq<(TokenView, int, int)>, i: int) -> Option<(SyntaxView, int)>
    decreases ts.len() - i, 46int,
{
    match definition(ts, i) {
        Some(r) => Some(r),
        None => match type_definition(ts, i) {
            Some(r) => Some(r),
            None => match return_statement(ts, i) {
                Some(r) => Some(r),
                None => expression(ts, i),
            },
        },
    }
}

/// `let pattern = value`.
pub open spec fn definition(ts: Seq<(TokenView, int, int)>, i: int) -> Option<(SyntaxView, int)>
    decreases ts.len() - i, 45int,
{
    if 0 <= i && kw_at(ts, i, Keyword::Let) {
        match pattern(ts, i + 1) {
            Some((p, e)) => if i + 1 < e && sym_at(ts, e, Symbols::Equals) {
                match expression(ts, e + 1) {
                    Some((v, f)) => if e + 1 < f <= ts.len() {
                        Some((mk(ts, SyntaxKind::Definition, Seq::empty(), i, f, seq![p, v]), f))
                    } else {
                        None
                    },
                    None => None,
                }
            } else {
                None
            },
            None => None,
        }
    } else {
        None
    }
}

/// `type Name = type`.
pub open spec fn type_definition(ts: Seq<(TokenView, int, int)>, i: int) -> Option<
    (SyntaxView, int),
>
    decreases ts.len() - i, 45int,
{
    if 0 <= i && kw_at(ts, i, Keyword::Type) && ident_at(ts, i + 1) is Some && sym_at(
        ts,
        i + 2,
        Symbols::Equals,
    ) {
        match type_expr(ts, i + 3) {
            Some((t, e)) => if i + 3 < e <= ts.len() {
                Some(
                    (
                        mk(ts, SyntaxKind::TypeDefinition, ident_at(ts, i + 1)->0, i, e, seq![t]),
                        e,
                    ),
                )
            } else {
                None
            },
            None => None,
        }
    } else {
        None
    }
}

/// `return value`.
pub open spec fn return_statement(ts: Seq<(TokenView, int, int)>, i: int) -> Option<
    (SyntaxView, int),
>
    decreases ts.len() - i, 45int,
{
    if 0 <= i && kw_at(ts, i, Keyword::Return) {
        match expression(ts, i + 1) {
            Some((v, e)) => if i + 1 < e <= ts.len() {
                Some((mk(ts, SyntaxKind::Return, Seq::empty(), i, e, seq![v]), e))
            } else {
                None
            },
            None => None,
        }
    } else {
        None
    }
}

/// A match arm: a pattern with an optional guard, or a guard alone, then
/// `->` and the result.
pub open spec fn arm(ts: Seq<(TokenView, int, int)>, i: int) -> Option<(SyntaxView, int)>
    decreases ts.len() - i, 44int,
{
    let head: Option<(SyntaxView, SyntaxView, int)> = match pattern(ts, i) {
        Some((p, e)) => if i < e <= ts.len() {
            if kw_at(ts, e, Keyword::If) {
                match expression(ts, e + 1) {
                    Some((c, f)) => if e + 1 < f <= ts.len() {
                        Some((p, c, f))
                    } else {
                        Some((p, empty_node(), e))
                    },
                    None => Some((p, empty_node(), e)),
                }
            } else {
                Some((p, empty_node(), e))
            }
        } else {
            None
        },
        None => if 0 <= i && kw_at(ts, i, Keyword::If) {
            match expression(ts, i + 1) {
                Some((c, f)) => if i + 1 < f <= ts.len() {
                    Some((empty_node(), c, f))
                } else {
                    None
                },
                None => None,
            }
        } else {
            None
        },
    };
    match head {
        Some((p, c, g)) => if i < g && sym_at(ts, g, Symbols::Arrow) {
            match expression(ts, g + 1) {
                Some((r, h)) => if g + 1 < h <= ts.len() {
                    Some((mk(ts, SyntaxKind::Arm, Seq::empty(), i, h, seq![p, c, r]), h))
                } else {
                    None
                },
                None => None,
            }
        } else {
            None
        },
        None => None,
    }
}

/// An object field: `name: value`, or `name` standing for its own value.
pub open spec fn field(ts: Seq<(TokenView, int, int)>, i: int) -> Option<(SyntaxView, int)>
    decreases ts.len() - i, 43int,
{
    match ident_at(ts, i) {
        Some(name) => {
            let short = (
                mk(
                    ts,
                    SyntaxKind::Field,
                    name,
                    i,
                    i + 1,
                    seq![mk(ts, SyntaxKind::Ident, name, i, i + 1, Seq::empty())],
                ),
                i + 1,
            );
            if 0 <= i && sym_at(ts, i + 1, Symbols::Colon) {
                match expression(ts, i + 2) {
                    Some((v, e)) => if i + 2 < e <= ts.len() {
                        Some((mk(ts, SyntaxKind::Field, name, i, e, seq![v]), e))
                    } else {
                        Some(short)
                    },
                    None => Some(short),
                }
            } else {
                Some(short)
            }
        },
        None => None,
    }
}

/// A call argument `name: value`.
pub open spec fn argument(ts: Seq<(TokenView, int, int)>, i: int) -> Option<(SyntaxView, int)>
    decreases ts.len() - i, 43int,
{
    match ident_at(ts, i) {
        Some(name) => if 0 <= i && sym_at(ts, i + 1, Symbols::Colon) {
            match expression(ts, i + 2) {
                Some((v, e)) => if i + 2 < e <= ts.len() {
                    Some((mk(ts, SyntaxKind::Field, name, i, e, seq![v]), e))
                } else {
                    None
                },
                None => None,
            }
        } else {
            None
        },
        None => None,
    }
}

/// A parameter `name: type`.
pub open spec fn param(ts: Seq<(TokenView, int, int)>, i: int) -> Option<(SyntaxView, int)>
    decreases ts.len() - i, 43int,
{
    match ident_at(ts, i) {
        Some(name) => if 0 <= i && sym_at(ts, i + 1, Symbols::Colon) {
            match type_expr(ts, i + 2) {
                Some((t, e)) => if i + 2 < e <= ts.len() {
                    Some((mk(ts, SyntaxKind::Param, name, i, e, seq![t]), e))
                } else {
                    None
                },
                None => None,
            }
        } else {
            None
        },
        None => None,
    }
}

/// A field of an object pattern: `name: pattern`, or `name` binding itself.
pub open spec fn pattern_field(ts: Seq<(TokenView, int, int)>, i: int) -> Option<(SyntaxView, int)>
    decreases ts.len() - i, 43int,
{
    match ident_at(ts, i) {
        Some(name) => {
            let short = (
                mk(
                    ts,
                    SyntaxKind::Field,
                    name,
                    i,
                    i + 1,
                    seq![mk(ts, SyntaxKind::Binding, name, i, i + 1, Seq::empty())],
                ),
                i + 1,
            );
            if 0 <= i && sym_at(ts, i + 1, Symbols::Colon) {
                match pattern(ts, i + 2) {
                    Some((p, e)) => if i + 2 < e <= ts.len() {
                        Some((mk(ts, SyntaxKind::Field, name, i, e, seq![p]), e))
                    } else {
                        Some(short)
                    },
                    None => Some(short),
                }
            } else {
                Some(short)
            }
        },
        None => None,
    }
}

/// An expression: a match, or operators over operands.
pub open spec fn expression(ts: Seq<(TokenView, int, int)>, i: int) -> Option<(SyntaxView, int)>
    decreases ts.len() - i, 40int,
{
    match match_expression(ts, i) {
        Some(r) => Some(r),
        None => binary(ts, 4, i),
    }
}

/// `match on { arms }`.
pub open spec fn match_expression(ts: Seq<(TokenView, int, int)>, i: int) -> Option<
    (SyntaxView, int),
>
    decreases ts.len() - i, 39int,
{
    if 0 <= i && kw_at(ts, i, Keyword::Match) {
        match expression(ts, i + 1) {
            Some((on, e)) => if i + 1 < e <= ts.len() && sym_at(ts, e, Symbols::OpenCurly) {
                let arms = list(ts, Part::Arm, e + 1);
                if sym_at(ts, arms.1, Symbols::ClosedCurly) {
                    Some(
                        (
                            mk(ts, SyntaxKind::Match, Seq::empty(), i, arms.1 + 1, seq![on] + arms.0),
                            arms.1 + 1,
                        ),
                    )
                } else {
                    None
                }
            } else {
                None
            },
            None => None,
        }
    } else {
        None
    }
}

/// The operators of precedence `level` and above over their operands
/// (`level` 0 is a unary operand).
pub open spec fn binary(ts: Seq<(TokenView, int, int)>, level: int, i: int) -> Option<
    (SyntaxView, int),
>
    decreases ts.len() - i, 30 + level,
{
    if level < 0 {
        None
    } else if level == 0 {
        unary(ts, i)
    } else {
        match binary(ts, level - 1, i) {
            Some((lhs, e)) => if 0 <= i < e <= ts.len() {
                Some(binary_rest(ts, level, i, lhs, e))
            } else {
                None
            },
            None => None,
        }
    }
}

/// `lhs`, which starts at `start` and ends at `j`, followed by operators of
/// precedence `level` and their right operands, folded to the left.
pub open spec fn binary_rest(
    ts: Seq<(TokenView, int, int)>,
    level: int,
    start: int,
    lhs: SyntaxView,
    j: int,
) -> (SyntaxView, int)
    decreases ts.len() - j, 30 + level,
{
    if 0 <= start < j && level > 0 && level_op(ts, level, j) is Some {
        match binary(ts, level - 1, j + 1) {
            Some((rhs, e)) => if j + 1 < e <= ts.len() {
                let node = mk(
                    ts,
                    SyntaxKind::Binary(level_op(ts, level, j)->0),
                    Seq::empty(),
                    start,
                    e,
                    seq![lhs, rhs],
                );
                binary_rest(ts, level, start, node, e)
            } else {
                (lhs, j)
            },
            None => (lhs, j),
        }
    } else {
        (lhs, j)
    }
}

/// Prefix operators `!` and `-` over an operand with postfix accesses and
/// calls.
pub open spec fn unary(ts: Seq<(TokenView, int, int)>, i: int) -> Option<(SyntaxView, int)>
    decreases ts.len() - i, 29int,
{
    let op = if sym_at(ts, i, Symbols::Bang) {
        Some(UnaryOperator::Flip)
    } else if sym_at(ts, i, Symbols::Minus) {
        Some(UnaryOperator::Negate)
    } else {
        None
    };
    match op {
        Some(o) => if 0 <= i {
            match unary(ts, i + 1) {
                Some((arg, e)) => if i + 1 < e <= ts.len() {
                    Some((mk(ts, SyntaxKind::Unary(o), Seq::empty(), i, e, seq![arg]), e))
                } else {
                    None
                },
                None => None,
            }
        } else {
            None
        },
        None => postfix(ts, i),
    }
}

/// An operand followed by `.field` accesses and `(name: value, ...)` calls.
pub open spec fn postfix(ts: Seq<(TokenView, int, int)>, i: int) -> Option<(SyntaxView, int)>
    decreases ts.len() - i, 28int,
{
    match tree(ts, i) {
        Some((x, e)) => if 0 <= i < e <= ts.len() {
            Some(postfix_rest(ts, i, x, e))
        } else {
            None
        },
        None => None,
    }
}

/// `x`, from `start` to `j`, followed by accesses and calls.
pub open spec fn postfix_rest(ts: Seq<(TokenView, int, int)>, start: int, x: SyntaxView, j: int) -> (
    SyntaxView,
    int,
)
    decreases ts.len() - j, 28int,
{
    if !(0 <= start < j <= ts.len()) {
        (x, j)
    } else if sym_at(ts, j, Symbols::Dot) && ident_at(ts, j + 1) is Some {
        let node = mk(ts, SyntaxKind::Access, ident_at(ts, j + 1)->0, start, j + 2, seq![x]);
        postfix_rest(ts, start, node, j + 2)
    } else if sym_at(ts, j, Symbols::OpenParenthesis) {
        let args = list(ts, Part::Argument, j + 1);
        if unique_names(args.0) && sym_at(ts, args.1, Symbols::ClosedParenthesis) && j < args.1 {
            let node = mk(ts, SyntaxKind::Call, Seq::empty(), start, args.1 + 1, seq![x] + args.0);
            postfix_rest(ts, start, node, args.1 + 1)
        } else {
            (x, j)
        }
    } else {
        (x, j)
    }
}

/// An atom, or an expression in parentheses.
pub open spec fn tree(ts: Seq<(TokenView, int, int)>, i: int) -> Option<(SyntaxView, int)>
    decreases ts.len() - i, 27int,
{
    match atom(ts, i) {
        Some(r) => Some(r),
        None => if 0 <= i && sym_at(ts, i, Symbols::OpenParenthesis) {
            match expression(ts, i + 1) {
                Some((x, e)) => if i + 1 < e <= ts.len() && sym_at(ts, e, Symbols::ClosedParenthesis) {
                    Some((x, e + 1))
                } else {
                    None
                },
                None => None,
            }
        } else {
            None
        },
    }
}

/// A literal, `@`, an object, an array, a lambda, a block or a name, tried
/// in that order.
pub open spec fn atom(ts: Seq<(TokenView, int, int)>, i: int) -> Option<(SyntaxView, int)>
    decreases ts.len() - i, 26int,
{
    if !(0 <= i < ts.len()) {
        None
    } else if primitive(ts, i) is Some {
        primitive(ts, i)
    } else if sym_at(ts, i, Symbols::At) {
        Some((mk(ts, SyntaxKind::NodeLiteral, Seq::empty(), i, i + 1, Seq::empty()), i + 1))
    } else {
        let object = if sym_at(ts, i, Symbols::OpenCurly) {
            let fields = list(ts, Part::Field, i + 1);
            if unique_names(fields.0) && sym_at(ts, fields.1, Symbols::ClosedCurly) {
                Some((mk(ts, SyntaxKind::Object, Seq::empty(), i, fields.1 + 1, fields.0), fields.1 + 1))
            } else {
                None
            }
        } else {
            None
        };
        let array = if sym_at(ts, i, Symbols::OpenSquare) {
            let items = list(ts, Part::Value, i + 1);
            if sym_at(ts, items.1, Symbols::ClosedSquare) {
                Some((mk(ts, SyntaxKind::Array, Seq::empty(), i, items.1 + 1, items.0), items.1 + 1))
            } else {
                None
            }
        } else {
            None
        };
        let lambda = if sym_at(ts, i, Symbols::OpenParenthesis) {
            let params = list(ts, Part::Param, i + 1);
            if unique_names(params.0) && i < params.1 && sym_at(ts, params.1, Symbols::ClosedParenthesis)
                && sym_at(ts, params.1 + 1, Symbols::Arrow) {
                match expression(ts, params.1 + 2) {
                    Some((body, e)) => if params.1 + 2 < e <= ts.len() {
                        Some((mk(ts, SyntaxKind::Lambda, Seq::empty(), i, e, params.0.push(body)), e))
                    } else {
                        None
                    },
                    None => None,
                }
            } else {
                None
            }
        } else {
            None
        };
        let block = if sym_at(ts, i, Symbols::OpenCurly) {
            let body = list(ts, Part::Statement, i + 1);
            if sym_at(ts, body.1, Symbols::ClosedCurly) {
                Some((mk(ts, SyntaxKind::Block, Seq::empty(), i, body.1 + 1, body.0), body.1 + 1))
            } else {
                None
            }
        } else {
            None
        };
        if object is Some {
            object
        } else if array is Some {
            array
        } else if lambda is Some {
            lambda
        } else if block is Some {
            block
        } else {
            match ident_at(ts, i) {
                Some(name) => Some((mk(ts, SyntaxKind::Ident, name, i, i + 1, Seq::empty()), i + 1)),
                None => None,
            }
        }
    }
}

/// A pattern: a literal, an object or array destructuring, or a binding.
pub open spec fn pattern(ts: Seq<(TokenView, int, int)>, i: int) -> Option<(SyntaxView, int)>
    decreases ts.len() - i, 13int,
{
    if !(0 <= i < ts.len()) {
        None
    } else if primitive(ts, i) is Some {
        primitive(ts, i)
    } else {
        let object = if sym_at(ts, i, Symbols::OpenCurly) {
            let fields = list(ts, Part::PatternField, i + 1);
            if unique_names(fields.0) && sym_at(ts, fields.1, Symbols::ClosedCurly) {
                Some(
                    (
                        mk(ts, SyntaxKind::ObjectPattern, Seq::empty(), i, fields.1 + 1, fields.0),
                        fields.1 + 1,
                    ),
                )
            } else {
                None
            }
        } else {
            None
        };
        let array = if sym_at(ts, i, Symbols::OpenSquare) {
            let items = list(ts, Part::Pattern, i + 1);
            if sym_at(ts, items.1, Symbols::ClosedSquare) {
                Some(
                    (
                        mk(ts, SyntaxKind::ArrayPattern, Seq::empty(), i, items.1 + 1, items.0),
                        items.1 + 1,
                    ),
                )
            } else {
                None
            }
        } else {
            None
        };
        if object is Some {
            object
        } else if array is Some {
            array
        } else if kw_at(ts, i, Keyword::Let) && ident_at(ts, i + 1) is Some {
            Some(
                (
                    mk(ts, SyntaxKind::Binding, ident_at(ts, i + 1)->0, i, i + 2, Seq::empty()),
                    i + 2,
                ),
            )
        } else {
            match ident_at(ts, i) {
                Some(name) => Some((mk(ts, SyntaxKind::Binding, name, i, i + 1, Seq::empty()), i + 1)),
                None => None,
            }
        }
    }
}

/// A type: optional types joined by `|`.
pub open spec fn type_expr(ts: Seq<(TokenView, int, int)>, i: int) -> Option<(SyntaxView, int)>
    decreases ts.len() - i, 12int,
{
    match optional_type(ts, i) {
        Some((t, e)) => if 0 <= i < e <= ts.len() {
            Some(type_rest(ts, i, t, e))
        } else {
            None
        },
        None => None,
    }
}

/// `t`, from `start` to `j`, joined with further options by `|`: the
/// options of a union on the left are extended.
pub open spec fn type_rest(ts: Seq<(TokenView, int, int)>, start: int, t: SyntaxView, j: int) -> (
    SyntaxView,
    int,
)
    decreases ts.len() - j, 12int,
{
    if 0 <= start < j && sym_at(ts, j, Symbols::Pipe) {
        match optional_type(ts, j + 1) {
            Some((r, e)) => if j + 1 < e <= ts.len() {
                let options = if t.kind == SyntaxKind::UnionType {
                    t.children.push(r)
                } else {
                    seq![t, r]
                };
                let node = mk(ts, SyntaxKind::UnionType, Seq::empty(), start, e, options);
                type_rest(ts, start, node, e)
            } else {
                (t, j)
            },
            None => (t, j),
        }
    } else {
        (t, j)
    }
}

/// A type atom followed by any number of `?`.
pub open spec fn optional_type(ts: Seq<(TokenView, int, int)>, i: int) -> Option<(SyntaxView, int)>
    decreases ts.len() - i, 11int,
{
    match type_atom(ts, i) {
        Some((t, e)) => if 0 <= i < e <= ts.len() {
            Some(optional_rest(ts, i, t, e))
        } else {
            None
        },
        None => None,
    }
}

/// `t`, from `start` to `j`, wrapped once per following `?`.
pub open spec fn optional_rest(ts: Seq<(TokenView, int, int)>, start: int, t: SyntaxView, j: int) -> (
    SyntaxView,
    int,
)
    decreases ts.len() - j, 11int,
{
    if 0 <= start < j && sym_at(ts, j, Symbols::Question) {
        optional_rest(
            ts,
            start,
            mk(ts, SyntaxKind::OptionalType, Seq::empty(), start, j + 1, seq![t]),
            j + 1,
        )
    } else {
        (t, j)
    }
}

/// A type atom: an object, array, function or tuple type, a named type, or
/// a type in parentheses, tried in that order.
pub open spec fn type_atom(ts: Seq<(TokenView, int, int)>, i: int) -> Option<(SyntaxView, int)>
    decreases ts.len() - i, 10int,
{
    if !(0 <= i < ts.len()) {
        None
    } else {
        let object = if sym_at(ts, i, Symbols::OpenCurly) {
            let fields = list(ts, Part::Param, i + 1);
            if unique_names(fields.0) && sym_at(ts, fields.1, Symbols::ClosedCurly) {
                Some(
                    (
                        mk(ts, SyntaxKind::ObjectType, Seq::empty(), i, fields.1 + 1, fields.0),
                        fields.1 + 1,
                    ),
                )
            } else {
                None
            }
        } else {
            None
        };
        let array = if sym_at(ts, i, Symbols::OpenSquare) {
            match type_expr(ts, i + 1) {
                Some((t, e)) => if i + 1 < e <= ts.len() && sym_at(ts, e, Symbols::ClosedSquare) {
                    Some((mk(ts, SyntaxKind::ArrayType, Seq::empty(), i, e + 1, seq![t]), e + 1))
                } else {
                    None
                },
                None => None,
            }
        } else {
            None
        };
        let lambda = if sym_at(ts, i, Symbols::OpenParenthesis) {
            let params = list(ts, Part::Param, i + 1);
            if unique_names(params.0) && i < params.1 && sym_at(ts, params.1, Symbols::ClosedParenthesis)
                && sym_at(ts, params.1 + 1, Symbols::Arrow) {
                match type_expr(ts, params.1 + 2) {
                    Some((r, e)) => if params.1 + 2 < e <= ts.len() {
                        Some(
                            (mk(ts, SyntaxKind::LambdaType, Seq::empty(), i, e, params.0.push(r)), e),
                        )
                    } else {
                        None
                    },
                    None => None,
                }
            } else {
                None
            }
        } else {
            None
        };
        let tuple = if sym_at(ts, i, Symbols::OpenParenthesis) {
            let items = list(ts, Part::Type, i + 1);
            if items.0.len() >= 2 && sym_at(ts, items.1, Symbols::ClosedParenthesis) {
                Some((mk(ts, SyntaxKind::TupleType, Seq::empty(), i, items.1 + 1, items.0), items.1 + 1))
            } else {
                None
            }
        } else {
            None
        };
        let paren = if sym_at(ts, i, Symbols::OpenParenthesis) {
            match type_expr(ts, i + 1) {
                Some((t, e)) => if i + 1 < e <= ts.len() && sym_at(ts, e, Symbols::ClosedParenthesis) {
                    Some((t, e + 1))
                } else {
                    None
                },
                None => None,
            }
        } else {
            None
        };
        if object is Some {
            object
        } else if array is Some {
            array
        } else if lambda is Some {
            lambda
        } else if tuple is Some {
            tuple
        } else if ident_at(ts, i) is Some {
            Some(named_type(ts, i))
        } else {
            paren
        }
    }
}

/// The type a name denotes at token `i`: a built-in type (`Number` with an
/// optional `(symbol: "unit")`) or a named type.
pub open spec fn named_type(ts: Seq<(TokenView, int, int)>, i: int) -> (SyntaxView, int) {
    let name = ident_at(ts, i)->0;
    match base_type(name) {
        Some(SyntaxKind::NumberType) => if sym_at(ts, i + 1, Symbols::OpenParenthesis) && ident_at(
            ts,
            i + 2,
        ) == Some("symbol"@) && sym_at(ts, i + 3, Symbols::Colon) && i + 4 < ts.len()
            && ts[i + 4].0 is Str && sym_at(ts, i + 5, Symbols::ClosedParenthesis) {
            let unit = mk(ts, SyntaxKind::Str, ts[i + 4].0->Str_0, i + 4, i + 5, Seq::empty());
            (mk(ts, SyntaxKind::NumberType, Seq::empty(), i, i + 6, seq![unit]), i + 6)
        } else {
            (mk(ts, SyntaxKind::NumberType, Seq::empty(), i, i + 1, Seq::empty()), i + 1)
        },
        Some(k) => (mk(ts, k, Seq::empty(), i, i + 1, Seq::empty()), i + 1),
        None => (mk(ts, SyntaxKind::NamedType, name, i, i + 1, Seq::empty()), i + 1),
    }
}


/// A program: top-level items separated by `;`, which must take all the
/// tokens; otherwise the index of the first token not read.
pub open spec fn program(ts: Seq<(TokenView, int, int)>) -> Result<Seq<SyntaxView>, int> {
    let items = list(ts, Part::Item, 0);
    if items.1 == ts.len() {
        Ok(items.0)
    } else {
        Err(items.1)
    }
}

// ---------------------------------------------------------------------------
// Reading tokens
// ---------------------------------------------------------------------------

/// The token sequence is short enough for positions a few tokens ahead to
/// be counted.
pub open spec fn fits(ts: Seq<Spanned>) -> bool {
    ts.len() + 8 < usize::MAX
}

pub proof fn lemma_nodes_view_push(nodes: Seq<SyntaxNode>, x: SyntaxNode)
    ensures
        nodes_view(nodes.push(x)) == nodes_view(nodes).push(x.view()),
{
    assert(nodes.push(x).drop_last() =~= nodes);
}

pub proof fn lemma_nodes_view_concat(a: Seq<SyntaxNode>, b: Seq<SyntaxNode>)
    ensures
        nodes_view(a + b) == nodes_view(a) + nodes_view(b),
    decreases b.len(),
{
    if b.len() == 0 {
        assert(a + b =~= a);
        assert(nodes_view(a) + nodes_view(b) =~= nodes_view(a));
    } else {
        lemma_nodes_view_concat(a, b.drop_last());
        assert((a + b).drop_last() =~= a + b.drop_last());
        assert(nodes_view(a) + nodes_view(b) =~= (nodes_view(a) + nodes_view(b.drop_last())).push(
            b.last().view(),
        ));
    }
}

fn sym(ts: &Vec<Spanned>, i: usize, s: Symbols) -> (r: bool)
    ensures
        r == sym_at(tokens_view(ts@), i as int, s),
{
    if i < ts.len() {
        match &ts[i].token {
            Token::Symbol(x) => *x == s,
            _ => false,
        }
    } else {
        false
    }
}

fn kw(ts: &Vec<Spanned>, i: usize, k: Keyword) -> (r: bool)
    ensures
        r == kw_at(tokens_view(ts@), i as int, k),
{
    if i < ts.len() {
        match &ts[i].token {
            Token::Keyword(x) => *x == k,
            _ => false,
        }
    } else {
        false
    }
}

fn ident(ts: &Vec<Spanned>, i: usize) -> (r: Option<String>)
    ensures
        match r {
            Some(n) => ident_at(tokens_view(ts@), i as int) == Some(n@),
            None => ident_at(tokens_view(ts@), i as int) is None,
        },
{
    if i < ts.len() {
        match &ts[i].token {
            Token::Identifier(n) => Some(n.clone()),
            _ => None,
        }
    } else {
        None
    }
}

fn string_at(ts: &Vec<Spanned>, i: usize) -> (r: Option<String>)
    ensures
        match r {
            Some(t) => 0 <= i < ts@.len() && tokens_view(ts@)[i as int].0 == TokenView::Str(t@),
            None => !(0 <= i < ts@.len() && tokens_view(ts@)[i as int].0 is Str),
        },
{
    if i < ts.len() {
        match &ts[i].token {
            Token::Str(t) => Some(t.clone()),
            _ => None,
        }
    } else {
        None
    }
}

fn node(
    ts: &Vec<Spanned>,
    kind: SyntaxKind,
    text: String,
    start: usize,
    end: usize,
    children: Vec<SyntaxNode>,
) -> (r: SyntaxNode)
    requires
        start < end <= ts@.len(),
    ensures
        r.view() == mk(tokens_view(ts@), kind, text@, start as int, end as int, nodes_view(children@)),
{
    SyntaxNode {
        kind,
        text,
        span: Range { start: ts[start].span.start, end: ts[end - 1].span.end },
        children,
    }
}

fn no_children() -> (r: Vec<SyntaxNode>)
    ensures
        nodes_view(r@) == Seq::<SyntaxView>::empty(),
{
    let r: Vec<SyntaxNode> = Vec::new();
    assert(nodes_view(r@) =~= Seq::<SyntaxView>::empty());
    r
}

fn one(a: SyntaxNode) -> (r: Vec<SyntaxNode>)
    ensures
        nodes_view(r@) == seq![a.view()],
{
    let mut r = no_children();
    let ghost before = r@;
    r.push(a);
    proof {
        lemma_nodes_view_push(before, a);
        assert(nodes_view(r@) =~= seq![a.view()]);
    }
    r
}

fn two(a: SyntaxNode, b: SyntaxNode) -> (r: Vec<SyntaxNode>)
    ensures
        nodes_view(r@) == seq![a.view(), b.view()],
{
    let mut r = one(a);
    let ghost before = r@;
    r.push(b);
    proof {
        lemma_nodes_view_push(before, b);
        assert(nodes_view(r@) =~= seq![a.view(), b.view()]);
    }
    r
}

fn three(a: SyntaxNode, b: SyntaxNode, c: SyntaxNode) -> (r: Vec<SyntaxNode>)
    ensures
        nodes_view(r@) == seq![a.view(), b.view(), c.view()],
{
    let mut r = two(a, b);
    let ghost before = r@;
    r.push(c);
    proof {
        lemma_nodes_view_push(before, c);
        assert(nodes_view(r@) =~= seq![a.view(), b.view(), c.view()]);
    }
    r
}

fn empty() -> (r: SyntaxNode)
    ensures
        r.view() == empty_node(),
{
    let r = SyntaxNode {
        kind: SyntaxKind::Empty,
        text: String::new(),
        span: Range { start: 0, end: 0 },
        children: no_children(),
    };
    assert(r.text@ =~= Seq::<char>::empty());
    r
}

/// The literal at token `i`: a number, a boolean or a string.
pub fn primative_parse(ts: &Vec<Spanned>, i: usize) -> (r: Option<(SyntaxNode, usize)>)
    requires
        fits(ts@),
    ensures
        parsed_as(r, primitive(tokens_view(ts@), i as int)),
{
    if i >= ts.len() {
        return None;
    }
    let start = ts[i].span.start;
    let end = ts[i].span.end;
    match &ts[i].token {
        Token::Number { digits, prefix, unit } => {
            let p = match prefix {
                Some(x) => {
                    let t = String::new();
                    assert(t@ =~= Seq::<char>::empty());
                    SyntaxNode {
                        kind: SyntaxKind::Prefix(*x),
                        text: t,
                        span: Range { start, end },
                        children: no_children(),
                    }
                },
                None => empty(),
            };
            let u = match unit {
                Some(x) => SyntaxNode {
                    kind: SyntaxKind::Unit,
                    text: x.clone(),
                    span: Range { start, end },
                    children: no_children(),
                },
                None => empty(),
            };
            Some((node(ts, SyntaxKind::Number, digits.clone(), i, i + 1, two(p, u)), i + 1))
        },
        Token::Bool(b) => {
            let t = String::new();
            assert(t@ =~= Seq::<char>::empty());
            Some((node(ts, SyntaxKind::Bool(*b), t, i, i + 1, no_children()), i + 1))
        },
        Token::Str(t) => Some((node(ts, SyntaxKind::Str, t.clone(), i, i + 1, no_children()), i + 1)),
        _ => None,
    }
}


/// `r` is what the grammar gives: the same node and end position, or
/// nothing where the grammar gives nothing.
pub open spec fn parsed_as(r: Option<(SyntaxNode, usize)>, s: Option<(SyntaxView, int)>) -> bool {
    match s {
        Some(p) => r matches Some(x) && x.0.view() == p.0 && x.1 == p.1,
        None => r is None,
    }
}

fn no_text() -> (r: String)
    ensures
        r@ == Seq::<char>::empty(),
{
    let r = String::new();
    assert(r@ =~= Seq::<char>::empty());
    r
}

fn join(a: Vec<SyntaxNode>, b: Vec<SyntaxNode>) -> (r: Vec<SyntaxNode>)
    ensures
        nodes_view(r@) == nodes_view(a@) + nodes_view(b@),
{
    let mut a = a;
    let mut b = b;
    let ghost a0 = a@;
    let ghost b0 = b@;
    a.append(&mut b);
    proof {
        lemma_nodes_view_concat(a0, b0);
    }
    a
}

fn push_node(a: Vec<SyntaxNode>, x: SyntaxNode) -> (r: Vec<SyntaxNode>)
    ensures
        nodes_view(r@) == nodes_view(a@).push(x.view()),
{
    let mut a = a;
    let ghost a0 = a@;
    let ghost xv = x;
    a.push(x);
    proof {
        lemma_nodes_view_push(a0, xv);
    }
    a
}

fn separator_of(part: Part) -> (r: Symbols)
    ensures
        r == separator(part),
{
    match part {
        Part::Item | Part::Statement => Symbols::Semicolon,
        _ => Symbols::Comma,
    }
}

/// Whether the fields of a list have different names.
fn names_unique(fields: &Vec<SyntaxNode>) -> (r: bool)
    ensures
        r == unique_names(nodes_view(fields@)),
{
    proof {
        lemma_nodes_view(fields@);
    }
    let ghost v = nodes_view(fields@);
    let n = fields.len();
    let mut b: usize = 0;
    while b < n
        invariant
            n == fields@.len(),
            b <= n,
            v == nodes_view(fields@),
            v.len() == n,
            forall|k: int| 0 <= k < n ==> #[trigger] v[k] == fields@[k].view(),
            forall|x: int, y: int| 0 <= x < y < b ==> #[trigger] v[x].text != #[trigger] v[y].text,
        decreases n - b,
    {
        let mut a: usize = 0;
        while a < b
            invariant
                n == fields@.len(),
                a <= b < n,
                v == nodes_view(fields@),
                v.len() == n,
                forall|k: int| 0 <= k < n ==> #[trigger] v[k] == fields@[k].view(),
                forall|x: int, y: int| 0 <= x < y < b ==> #[trigger] v[x].text != #[trigger] v[y].text,
                forall|x: int| 0 <= x < a ==> #[trigger] v[x].text != v[b as int].text,
            decreases b - a,
        {
            if str_eq(fields[a].text.as_str(), fields[b].text.as_str()) {
                assert(v[a as int].text == v[b as int].text);
                return false;
            }
            a += 1;
        }
        b += 1;
    }
    true
}

/// A separated list of parts from token `i`.
fn parse_list(ts: &Vec<Spanned>, part: Part, i: usize) -> (r: (Vec<SyntaxNode>, usize))
    requires
        fits(ts@),
        i <= ts@.len(),
    ensures
        nodes_view(r.0@) == list(tokens_view(ts@), part, i as int).0,
        r.1 == list(tokens_view(ts@), part, i as int).1,
        i <= r.1 <= ts@.len(),
    decreases ts@.len() - i, 50int,
{
    let ghost tv = tokens_view(ts@);
    match parse_element(ts, part, i) {
        Some((v, e)) => {
            if i < e && e <= ts.len() {
                let sep = separator_of(part);
                let mut acc = one(v);
                let mut j = e;
                loop
                    invariant
                        fits(ts@),
                        tv == tokens_view(ts@),
                        sep == separator(part),
                        i < j <= ts@.len(),
                        nodes_view(acc@) + list_rest(tv, part, j as int).0 == list(tv, part, i as int).0,
                        list_rest(tv, part, j as int).1 == list(tv, part, i as int).1,
                    decreases ts@.len() - j,
                {
                    if sym(ts, j, sep) {
                        match parse_element(ts, part, j + 1) {
                            Some((w, f)) => {
                                if j + 1 < f && f <= ts.len() {
                                    let ghost before = nodes_view(acc@);
                                    acc = push_node(acc, w);
                                    proof {
                                        assert(nodes_view(acc@) + list_rest(tv, part, f as int).0
                                            =~= before + list_rest(tv, part, j as int).0);
                                    }
                                    j = f;
                                } else {
                                    assert(nodes_view(acc@) + Seq::<SyntaxView>::empty() =~= nodes_view(acc@));
                                    return (acc, j + 1);
                                }
                            },
                            None => {
                                assert(nodes_view(acc@) + Seq::<SyntaxView>::empty() =~= nodes_view(acc@));
                                return (acc, j + 1);
                            },
                        }
                    } else {
                        assert(nodes_view(acc@) + Seq::<SyntaxView>::empty() =~= nodes_view(acc@));
                        return (acc, j);
                    }
                }
            } else {
                (no_children(), i)
            }
        },
        None => (no_children(), i),
    }
}

/// One part at token `i`.
fn parse_element(ts: &Vec<Spanned>, part: Part, i: usize) -> (r: Option<(SyntaxNode, usize)>)
    requires
        fits(ts@),
        i <= ts@.len(),
    ensures
        parsed_as(r, element(tokens_view(ts@), part, i as int)),
    decreases ts@.len() - i, 49int,
{
    match part {
        Part::Item => parse_item(ts, i),
        Part::Statement => parse_statement(ts, i),
        Part::Arm => parse_arm(ts, i),
        Part::Field => parse_field(ts, i),
        Part::Value => expression_parse(ts, i),
        Part::Argument => parse_argument(ts, i),
        Part::Param => parse_param(ts, i),
        Part::PatternField => parse_pattern_field(ts, i),
        Part::Pattern => pattern_parse(ts, i),
        Part::Type => type_parse(ts, i),
    }
}

fn parse_item(ts: &Vec<Spanned>, i: usize) -> (r: Option<(SyntaxNode, usize)>)
    requires
        fits(ts@),
        i <= ts@.len(),
    ensures
        parsed_as(r, item(tokens_view(ts@), i as int)),
    decreases ts@.len() - i, 48int,
{
    match parse_import(ts, i) {
        Some(x) => Some(x),
        None => match parse_export(ts, i) {
            Some(x) => Some(x),
            None => parse_statement(ts, i),
        },
    }
}

fn parse_import(ts: &Vec<Spanned>, i: usize) -> (r: Option<(SyntaxNode, usize)>)
    requires
        fits(ts@),
        i <= ts@.len(),
    ensures
        parsed_as(r, import(tokens_view(ts@), i as int)),
    decreases ts@.len() - i, 47int,
{
    if !kw(ts, i, Keyword::From) {
        return None;
    }
    match string_at(ts, i + 1) {
        Some(path) => {
            if kw(ts, i + 2, Keyword::Import) {
                match pattern_parse(ts, i + 3) {
                    Some((p, e)) => {
                        if i + 3 < e && e <= ts.len() {
                            Some((node(ts, SyntaxKind::Import, path, i, e, one(p)), e))
                        } else {
                            None
                        }
                    },
                    None => None,
                }
            } else {
                None
            }
        },
        None => None,
    }
}

fn parse_export(ts: &Vec<Spanned>, i: usize) -> (r: Option<(SyntaxNode, usize)>)
    requires
        fits(ts@),
        i <= ts@.len(),
    ensures
        parsed_as(r, export(tokens_view(ts@), i as int)),
    decreases ts@.len() - i, 47int,
{
    if !(kw(ts, i, Keyword::Export) && kw(ts, i + 1, Keyword::Let)) {
        return None;
    }
    match pattern_parse(ts, i + 2) {
        Some((p, e)) => {
            if i + 2 < e && sym(ts, e, Symbols::Equals) {
                match expression_parse(ts, e + 1) {
                    Some((v, f)) => {
                        if e + 1 < f && f <= ts.len() {
                            Some((node(ts, SyntaxKind::Export, no_text(), i, f, two(p, v)), f))
                        } else {
                            None
                        }
                    },
                    None => None,
                }
            } else {
                None
            }
        },
        None => None,
    }
}

fn parse_statement(ts: &Vec<Spanned>, i: usize) -> (r: Option<(SyntaxNode, usize)>)
    requires
        fits(ts@),
        i <= ts@.len(),
    ensures
        parsed_as(r, statement(tokens_view(ts@), i as int)),
    decreases ts@.len() - i, 46int,
{
    match parse_definition(ts, i) {
        Some(x) => Some(x),
        None => match parse_type_definition(ts, i) {
            Some(x) => Some(x),
            None => match parse_return(ts, i) {
                Some(x) => Some(x),
                None => expression_parse(ts, i),
            },
        },
    }
}

fn parse_definition(ts: &Vec<Spanned>, i: usize) -> (r: Option<(SyntaxNode, usize)>)
    requires
        fits(ts@),
        i <= ts@.len(),
    ensures
        parsed_as(r, definition(tokens_view(ts@), i as int)),
    decreases ts@.len() - i, 45int,
{
    if !kw(ts, i, Keyword::Let) {
        return None;
    }
    match pattern_parse(ts, i + 1) {
        Some((p, e)) => {
            if i + 1 < e && sym(ts, e, Symbols::Equals) {
                match expression_parse(ts, e + 1) {
                    Some((v, f)) => {
                        if e + 1 < f && f <= ts.len() {
                            Some((node(ts, SyntaxKind::Definition, no_text(), i, f, two(p, v)), f))
                        } else {
                            None
                        }
                    },
                    None => None,
                }
            } else {
                None
            }
        },
        None => None,
    }
}

fn parse_type_definition(ts: &Vec<Spanned>, i: usize) -> (r: Option<(SyntaxNode, usize)>)
    requires
        fits(ts@),
        i <= ts@.len(),
    ensures
        parsed_as(r, type_definition(tokens_view(ts@), i as int)),
    decreases ts@.len() - i, 45int,
{
    if !kw(ts, i, Keyword::Type) {
        return None;
    }
    match ident(ts, i + 1) {
        Some(name) => {
            if sym(ts, i + 2, Symbols::Equals) {
                match type_parse(ts, i + 3) {
                    Some((t, e)) => {
                        if i + 3 < e && e <= ts.len() {
                            Some((node(ts, SyntaxKind::TypeDefinition, name, i, e, one(t)), e))
                        } else {
                            None
                        }
                    },
                    None => None,
                }
            } else {
                None
            }
        },
        None => None,
    }
}

fn parse_return(ts: &Vec<Spanned>, i: usize) -> (r: Option<(SyntaxNode, usize)>)
    requires
        fits(ts@),
        i <= ts@.len(),
    ensures
        parsed_as(r, return_statement(tokens_view(ts@), i as int)),
    decreases ts@.len() - i, 45int,
{
    if !kw(ts, i, Keyword::Return) {
        return None;
    }
    match expression_parse(ts, i + 1) {
        Some((v, e)) => {
            if i + 1 < e && e <= ts.len() {
                Some((node(ts, SyntaxKind::Return, no_text(), i, e, one(v)), e))
            } else {
                None
            }
        },
        None => None,
    }
}

fn parse_arm(ts: &Vec<Spanned>, i: usize) -> (r: Option<(SyntaxNode, usize)>)
    requires
        fits(ts@),
        i <= ts@.len(),
    ensures
        parsed_as(r, arm(tokens_view(ts@), i as int)),
    decreases ts@.len() - i, 44int,
{
    let ghost tv = tokens_view(ts@);
    let head: Option<(SyntaxNode, SyntaxNode, usize)> = match pattern_parse(ts, i) {
        Some((p, e)) => {
            if i < e && e <= ts.len() {
                if kw(ts, e, Keyword::If) {
                    match expression_parse(ts, e + 1) {
                        Some((c, f)) => {
                            if e + 1 < f && f <= ts.len() {
                                Some((p, c, f))
                            } else {
                                Some((p, empty(), e))
                            }
                        },
                        None => Some((p, empty(), e)),
                    }
                } else {
                    Some((p, empty(), e))
                }
            } else {
                None
            }
        },
        None => {
            if kw(ts, i, Keyword::If) {
                match expression_parse(ts, i + 1) {
                    Some((c, f)) => {
                        if i + 1 < f && f <= ts.len() {
                            Some((empty(), c, f))
                        } else {
                            None
                        }
                    },
                    None => None,
                }
            } else {
                None
            }
        },
    };
    match head {
        Some((p, c, g)) => {
            if i < g && sym(ts, g, Symbols::Arrow) {
                match expression_parse(ts, g + 1) {
                    Some((x, h)) => {
                        if g + 1 < h && h <= ts.len() {
                            Some((node(ts, SyntaxKind::Arm, no_text(), i, h, three(p, c, x)), h))
                        } else {
                            None
                        }
                    },
                    None => None,
                }
            } else {
                None
            }
        },
        None => None,
    }
}

fn parse_field(ts: &Vec<Spanned>, i: usize) -> (r: Option<(SyntaxNode, usize)>)
    requires
        fits(ts@),
        i <= ts@.len(),
    ensures
        parsed_as(r, field(tokens_view(ts@), i as int)),
    decreases ts@.len() - i, 43int,
{
    match ident(ts, i) {
        Some(name) => {
            if sym(ts, i + 1, Symbols::Colon) {
                match expression_parse(ts, i + 2) {
                    Some((v, e)) => {
                        if i + 2 < e && e <= ts.len() {
                            return Some((node(ts, SyntaxKind::Field, name, i, e, one(v)), e));
                        }
                    },
                    None => {},
                }
            }
            let id = node(ts, SyntaxKind::Ident, name.clone(), i, i + 1, no_children());
            Some((node(ts, SyntaxKind::Field, name, i, i + 1, one(id)), i + 1))
        },
        None => None,
    }
}

fn parse_argument(ts: &Vec<Spanned>, i: usize) -> (r: Option<(SyntaxNode, usize)>)
    requires
        fits(ts@),
        i <= ts@.len(),
    ensures
        parsed_as(r, argument(tokens_view(ts@), i as int)),
    decreases ts@.len() - i, 43int,
{
    match ident(ts, i) {
        Some(name) => {
            if sym(ts, i + 1, Symbols::Colon) {
                match expression_parse(ts, i + 2) {
                    Some((v, e)) => {
                        if i + 2 < e && e <= ts.len() {
                            Some((node(ts, SyntaxKind::Field, name, i, e, one(v)), e))
                        } else {
                            None
                        }
                    },
                    None => None,
                }
            } else {
                None
            }
        },
        None => None,
    }
}

fn parse_param(ts: &Vec<Spanned>, i: usize) -> (r: Option<(SyntaxNode, usize)>)
    requires
        fits(ts@),
        i <= ts@.len(),
    ensures
        parsed_as(r, param(tokens_view(ts@), i as int)),
    decreases ts@.len() - i, 43int,
{
    match ident(ts, i) {
        Some(name) => {
            if sym(ts, i + 1, Symbols::Colon) {
                match type_parse(ts, i + 2) {
                    Some((t, e)) => {
                        if i + 2 < e && e <= ts.len() {
                            Some((node(ts, SyntaxKind::Param, name, i, e, one(t)), e))
                        } else {
                            None
                        }
                    },
                    None => None,
                }
            } else {
                None
            }
        },
        None => None,
    }
}

fn parse_pattern_field(ts: &Vec<Spanned>, i: usize) -> (r: Option<(SyntaxNode, usize)>)
    requires
        fits(ts@),
        i <= ts@.len(),
    ensures
        parsed_as(r, pattern_field(tokens_view(ts@), i as int)),
    decreases ts@.len() - i, 43int,
{
    match ident(ts, i) {
        Some(name) => {
            if sym(ts, i + 1, Symbols::Colon) {
                match pattern_parse(ts, i + 2) {
                    Some((p, e)) => {
                        if i + 2 < e && e <= ts.len() {
                            return Some((node(ts, SyntaxKind::Field, name, i, e, one(p)), e));
                        }
                    },
                    None => {},
                }
            }
            let b = node(ts, SyntaxKind::Binding, name.clone(), i, i + 1, no_children());
            Some((node(ts, SyntaxKind::Field, name, i, i + 1, one(b)), i + 1))
        },
        None => None,
    }
}

/// An expression at token `i`: a match, or operators over operands.
pub fn expression_parse(ts: &Vec<Spanned>, i: usize) -> (r: Option<(SyntaxNode, usize)>)
    requires
        fits(ts@),
        i <= ts@.len(),
    ensures
        parsed_as(r, expression(tokens_view(ts@), i as int)),
    decreases ts@.len() - i, 40int,
{
    match parse_match(ts, i) {
        Some(x) => Some(x),
        None => parse_binary(ts, 4, i),
    }
}

fn parse_match(ts: &Vec<Spanned>, i: usize) -> (r: Option<(SyntaxNode, usize)>)
    requires
        fits(ts@),
        i <= ts@.len(),
    ensures
        parsed_as(r, match_expression(tokens_view(ts@), i as int)),
    decreases ts@.len() - i, 39int,
{
    if !kw(ts, i, Keyword::Match) {
        return None;
    }
    match expression_parse(ts, i + 1) {
        Some((on, e)) => {
            if i + 1 < e && e <= ts.len() && sym(ts, e, Symbols::OpenCurly) {
                let (arms, k) = parse_list(ts, Part::Arm, e + 1);
                if sym(ts, k, Symbols::ClosedCurly) {
                    Some((node(ts, SyntaxKind::Match, no_text(), i, k + 1, join(one(on), arms)), k + 1))
                } else {
                    None
                }
            } else {
                None
            }
        },
        None => None,
    }
}

fn level_operator(ts: &Vec<Spanned>, level: u8, j: usize) -> (r: Option<BinaryOperator>)
    requires
        1 <= level <= 4,
    ensures
        r == level_op(tokens_view(ts@), level as int, j as int),
{
    if level == 1 {
        if sym(ts, j, Symbols::Slash) {
            Some(BinaryOperator::Div)
        } else if sym(ts, j, Symbols::Star) {
            Some(BinaryOperator::Mul)
        } else {
            None
        }
    } else if level == 2 {
        if sym(ts, j, Symbols::Plus) {
            Some(BinaryOperator::Add)
        } else if sym(ts, j, Symbols::Minus) {
            Some(BinaryOperator::Sub)
        } else {
            None
        }
    } else if level == 3 {
        if sym(ts, j, Symbols::DoubleEquals) {
            Some(BinaryOperator::Equal)
        } else if sym(ts, j, Symbols::Le) {
            Some(BinaryOperator::LessThanOrEqual)
        } else if sym(ts, j, Symbols::Ge) {
            Some(BinaryOperator::GreaterThanOrEqual)
        } else if sym(ts, j, Symbols::Lt) {
            Some(BinaryOperator::LessThan)
        } else if sym(ts, j, Symbols::Gt) {
            Some(BinaryOperator::GreaterThan)
        } else {
            None
        }
    } else {
        if sym(ts, j, Symbols::Pipe) {
            Some(BinaryOperator::Union)
        } else if sym(ts, j, Symbols::BackArrow) {
            Some(BinaryOperator::Wire)
        } else {
            None
        }
    }
}

fn parse_binary(ts: &Vec<Spanned>, level: u8, i: usize) -> (r: Option<(SyntaxNode, usize)>)
    requires
        fits(ts@),
        i <= ts@.len(),
        level <= 4,
    ensures
        parsed_as(r, binary(tokens_view(ts@), level as int, i as int)),
    decreases ts@.len() - i, 30 + level,
{
    if level == 0 {
        parse_unary(ts, i)
    } else {
        match parse_binary(ts, level - 1, i) {
            Some((lhs, e)) => {
                if i < e && e <= ts.len() {
                    Some(parse_binary_rest(ts, level, i, lhs, e))
                } else {
                    None
                }
            },
            None => None,
        }
    }
}

fn parse_binary_rest(ts: &Vec<Spanned>, level: u8, start: usize, lhs: SyntaxNode, j: usize) -> (r: (
    SyntaxNode,
    usize,
))
    requires
        fits(ts@),
        start < j <= ts@.len(),
        1 <= level <= 4,
    ensures
        r.0.view() == binary_rest(tokens_view(ts@), level as int, start as int, lhs.view(), j as int).0,
        r.1 == binary_rest(tokens_view(ts@), level as int, start as int, lhs.view(), j as int).1,
    decreases ts@.len() - j, 30 + level,
{
    match level_operator(ts, level, j) {
        Some(op) => match parse_binary(ts, level - 1, j + 1) {
            Some((rhs, e)) => {
                if j + 1 < e && e <= ts.len() {
                    let n = node(ts, SyntaxKind::Binary(op), no_text(), start, e, two(lhs, rhs));
                    parse_binary_rest(ts, level, start, n, e)
                } else {
                    (lhs, j)
                }
            },
            None => (lhs, j),
        },
        None => (lhs, j),
    }
}

fn parse_unary(ts: &Vec<Spanned>, i: usize) -> (r: Option<(SyntaxNode, usize)>)
    requires
        fits(ts@),
        i <= ts@.len(),
    ensures
        parsed_as(r, unary(tokens_view(ts@), i as int)),
    decreases ts@.len() - i, 29int,
{
    let op = if sym(ts, i, Symbols::Bang) {
        Some(UnaryOperator::Flip)
    } else if sym(ts, i, Symbols::Minus) {
        Some(UnaryOperator::Negate)
    } else {
        None
    };
    match op {
        Some(o) => match parse_unary(ts, i + 1) {
            Some((arg, e)) => {
                if i + 1 < e && e <= ts.len() {
                    Some((node(ts, SyntaxKind::Unary(o), no_text(), i, e, one(arg)), e))
                } else {
                    None
                }
            },
            None => None,
        },
        None => parse_postfix(ts, i),
    }
}

fn parse_postfix(ts: &Vec<Spanned>, i: usize) -> (r: Option<(SyntaxNode, usize)>)
    requires
        fits(ts@),
        i <= ts@.len(),
    ensures
        parsed_as(r, postfix(tokens_view(ts@), i as int)),
    decreases ts@.len() - i, 28int,
{
    match parse_tree(ts, i) {
        Some((x, e)) => {
            if i < e && e <= ts.len() {
                Some(parse_postfix_rest(ts, i, x, e))
            } else {
                None
            }
        },
        None => None,
    }
}

fn parse_postfix_rest(ts: &Vec<Spanned>, start: usize, x: SyntaxNode, j: usize) -> (r: (
    SyntaxNode,
    usize,
))
    requires
        fits(ts@),
        start < j <= ts@.len(),
    ensures
        r.0.view() == postfix_rest(tokens_view(ts@), start as int, x.view(), j as int).0,
        r.1 == postfix_rest(tokens_view(ts@), start as int, x.view(), j as int).1,
    decreases ts@.len() - j, 28int,
{
    if sym(ts, j, Symbols::Dot) {
        match ident(ts, j + 1) {
            Some(name) => {
                let n = node(ts, SyntaxKind::Access, name, start, j + 2, one(x));
                parse_postfix_rest(ts, start, n, j + 2)
            },
            None => (x, j),
        }
    } else if sym(ts, j, Symbols::OpenParenthesis) {
        let (args, k) = parse_list(ts, Part::Argument, j + 1);
        if names_unique(&args) && sym(ts, k, Symbols::ClosedParenthesis) && j < k {
            let n = node(ts, SyntaxKind::Call, no_text(), start, k + 1, join(one(x), args));
            parse_postfix_rest(ts, start, n, k + 1)
        } else {
            (x, j)
        }
    } else {
        (x, j)
    }
}

fn parse_tree(ts: &Vec<Spanned>, i: usize) -> (r: Option<(SyntaxNode, usize)>)
    requires
        fits(ts@),
        i <= ts@.len(),
    ensures
        parsed_as(r, tree(tokens_view(ts@), i as int)),
    decreases ts@.len() - i, 27int,
{
    match parse_atom(ts, i) {
        Some(x) => Some(x),
        None => {
            if sym(ts, i, Symbols::OpenParenthesis) {
                match expression_parse(ts, i + 1) {
                    Some((x, e)) => {
                        if i + 1 < e && e <= ts.len() && sym(ts, e, Symbols::ClosedParenthesis) {
                            Some((x, e + 1))
                        } else {
                            None
                        }
                    },
                    None => None,
                }
            } else {
                None
            }
        },
    }
}

fn parse_atom(ts: &Vec<Spanned>, i: usize) -> (r: Option<(SyntaxNode, usize)>)
    requires
        fits(ts@),
        i <= ts@.len(),
    ensures
        parsed_as(r, atom(tokens_view(ts@), i as int)),
    decreases ts@.len() - i, 26int,
{
    if i >= ts.len() {
        return None;
    }
    match primative_parse(ts, i) {
        Some(x) => {
            return Some(x);
        },
        None => {},
    }
    if sym(ts, i, Symbols::At) {
        return Some((node(ts, SyntaxKind::NodeLiteral, no_text(), i, i + 1, no_children()), i + 1));
    }
    if sym(ts, i, Symbols::OpenCurly) {
        let (fields, k) = parse_list(ts, Part::Field, i + 1);
        if names_unique(&fields) && sym(ts, k, Symbols::ClosedCurly) {
            return Some((node(ts, SyntaxKind::Object, no_text(), i, k + 1, fields), k + 1));
        }
        let (body, k2) = parse_list(ts, Part::Statement, i + 1);
        if sym(ts, k2, Symbols::ClosedCurly) {
            Some((node(ts, SyntaxKind::Block, no_text(), i, k2 + 1, body), k2 + 1))
        } else {
            None
        }
    } else if sym(ts, i, Symbols::OpenSquare) {
        let (items, k) = parse_list(ts, Part::Value, i + 1);
        if sym(ts, k, Symbols::ClosedSquare) {
            Some((node(ts, SyntaxKind::Array, no_text(), i, k + 1, items), k + 1))
        } else {
            None
        }
    } else if sym(ts, i, Symbols::OpenParenthesis) {
        let (params, k) = parse_list(ts, Part::Param, i + 1);
        if names_unique(&params) && i < k && sym(ts, k, Symbols::ClosedParenthesis) && sym(
            ts,
            k + 1,
            Symbols::Arrow,
        ) {
            match expression_parse(ts, k + 2) {
                Some((body, e)) => {
                    if k + 2 < e && e <= ts.len() {
                        Some((node(ts, SyntaxKind::Lambda, no_text(), i, e, push_node(params, body)), e))
                    } else {
                        None
                    }
                },
                None => None,
            }
        } else {
            None
        }
    } else {
        match ident(ts, i) {
            Some(name) => Some((node(ts, SyntaxKind::Ident, name, i, i + 1, no_children()), i + 1)),
            None => None,
        }
    }
}

/// A pattern at token `i`: a literal, an object or array destructuring, or
/// a binding.
pub fn pattern_parse(ts: &Vec<Spanned>, i: usize) -> (r: Option<(SyntaxNode, usize)>)
    requires
        fits(ts@),
        i <= ts@.len(),
    ensures
        parsed_as(r, pattern(tokens_view(ts@), i as int)),
    decreases ts@.len() - i, 13int,
{
    if i >= ts.len() {
        return None;
    }
    match primative_parse(ts, i) {
        Some(x) => {
            return Some(x);
        },
        None => {},
    }
    if sym(ts, i, Symbols::OpenCurly) {
        let (fields, k) = parse_list(ts, Part::PatternField, i + 1);
        if names_unique(&fields) && sym(ts, k, Symbols::ClosedCurly) {
            Some((node(ts, SyntaxKind::ObjectPattern, no_text(), i, k + 1, fields), k + 1))
        } else {
            None
        }
    } else if sym(ts, i, Symbols::OpenSquare) {
        let (items, k) = parse_list(ts, Part::Pattern, i + 1);
        if sym(ts, k, Symbols::ClosedSquare) {
            Some((node(ts, SyntaxKind::ArrayPattern, no_text(), i, k + 1, items), k + 1))
        } else {
            None
        }
    } else if kw(ts, i, Keyword::Let) {
        match ident(ts, i + 1) {
            Some(name) => Some((node(ts, SyntaxKind::Binding, name, i, i + 2, no_children()), i + 2)),
            None => None,
        }
    } else {
        match ident(ts, i) {
            Some(name) => Some((node(ts, SyntaxKind::Binding, name, i, i + 1, no_children()), i + 1)),
            None => None,
        }
    }
}

/// A type at token `i`: optional types joined by `|`.
pub fn type_parse(ts: &Vec<Spanned>, i: usize) -> (r: Option<(SyntaxNode, usize)>)
    requires
        fits(ts@),
        i <= ts@.len(),
    ensures
        parsed_as(r, type_expr(tokens_view(ts@), i as int)),
    decreases ts@.len() - i, 12int,
{
    match parse_optional_type(ts, i) {
        Some((t, e)) => {
            if i < e && e <= ts.len() {
                Some(parse_type_rest(ts, i, t, e))
            } else {
                None
            }
        },
        None => None,
    }
}

fn parse_type_rest(ts: &Vec<Spanned>, start: usize, t: SyntaxNode, j: usize) -> (r: (
    SyntaxNode,
    usize,
))
    requires
        fits(ts@),
        start < j <= ts@.len(),
    ensures
        r.0.view() == type_rest(tokens_view(ts@), start as int, t.view(), j as int).0,
        r.1 == type_rest(tokens_view(ts@), start as int, t.view(), j as int).1,
    decreases ts@.len() - j, 12int,
{
    if !sym(ts, j, Symbols::Pipe) {
        return (t, j);
    }
    match parse_optional_type(ts, j + 1) {
        Some((x, e)) => {
            if j + 1 < e && e <= ts.len() {
                let options = if t.kind == SyntaxKind::UnionType {
                    push_node(t.children, x)
                } else {
                    two(t, x)
                };
                let n = node(ts, SyntaxKind::UnionType, no_text(), start, e, options);
                parse_type_rest(ts, start, n, e)
            } else {
                (t, j)
            }
        },
        None => (t, j),
    }
}

fn parse_optional_type(ts: &Vec<Spanned>, i: usize) -> (r: Option<(SyntaxNode, usize)>)
    requires
        fits(ts@),
        i <= ts@.len(),
    ensures
        parsed_as(r, optional_type(tokens_view(ts@), i as int)),
    decreases ts@.len() - i, 11int,
{
    match parse_type_atom(ts, i) {
        Some((t, e)) => {
            if i < e && e <= ts.len() {
                Some(parse_optional_rest(ts, i, t, e))
            } else {
                None
            }
        },
        None => None,
    }
}

fn parse_optional_rest(ts: &Vec<Spanned>, start: usize, t: SyntaxNode, j: usize) -> (r: (
    SyntaxNode,
    usize,
))
    requires
        fits(ts@),
        start < j <= ts@.len(),
    ensures
        r.0.view() == optional_rest(tokens_view(ts@), start as int, t.view(), j as int).0,
        r.1 == optional_rest(tokens_view(ts@), start as int, t.view(), j as int).1,
    decreases ts@.len() - j, 11int,
{
    if sym(ts, j, Symbols::Question) {
        let n = node(ts, SyntaxKind::OptionalType, no_text(), start, j + 1, one(t));
        parse_optional_rest(ts, start, n, j + 1)
    } else {
        (t, j)
    }
}

fn parse_type_atom(ts: &Vec<Spanned>, i: usize) -> (r: Option<(SyntaxNode, usize)>)
    requires
        fits(ts@),
        i <= ts@.len(),
    ensures
        parsed_as(r, type_atom(tokens_view(ts@), i as int)),
    decreases ts@.len() - i, 10int,
{
    if i >= ts.len() {
        return None;
    }
    if sym(ts, i, Symbols::OpenCurly) {
        let (fields, k) = parse_list(ts, Part::Param, i + 1);
        if names_unique(&fields) && sym(ts, k, Symbols::ClosedCurly) {
            Some((node(ts, SyntaxKind::ObjectType, no_text(), i, k + 1, fields), k + 1))
        } else {
            None
        }
    } else if sym(ts, i, Symbols::OpenSquare) {
        match type_parse(ts, i + 1) {
            Some((t, e)) => {
                if i + 1 < e && e <= ts.len() && sym(ts, e, Symbols::ClosedSquare) {
                    Some((node(ts, SyntaxKind::ArrayType, no_text(), i, e + 1, one(t)), e + 1))
                } else {
                    None
                }
            },
            None => None,
        }
    } else if sym(ts, i, Symbols::OpenParenthesis) {
        let (params, k) = parse_list(ts, Part::Param, i + 1);
        if names_unique(&params) && i < k && sym(ts, k, Symbols::ClosedParenthesis) && sym(
            ts,
            k + 1,
            Symbols::Arrow,
        ) {
            match type_parse(ts, k + 2) {
                Some((x, e)) => {
                    if k + 2 < e && e <= ts.len() {
                        return Some(
                            (node(ts, SyntaxKind::LambdaType, no_text(), i, e, push_node(params, x)), e),
                        );
                    }
                },
                None => {},
            }
        }
        let (items, k2) = parse_list(ts, Part::Type, i + 1);
        proof {
            lemma_nodes_view(items@);
        }
        if items.len() >= 2 && sym(ts, k2, Symbols::ClosedParenthesis) {
            return Some((node(ts, SyntaxKind::TupleType, no_text(), i, k2 + 1, items), k2 + 1));
        }
        match type_parse(ts, i + 1) {
            Some((t, e)) => {
                if i + 1 < e && e <= ts.len() && sym(ts, e, Symbols::ClosedParenthesis) {
                    Some((t, e + 1))
                } else {
                    None
                }
            },
            None => None,
        }
    } else {
        match ident(ts, i) {
            Some(_) => Some(parse_named_type(ts, i)),
            None => None,
        }
    }
}

fn parse_named_type(ts: &Vec<Spanned>, i: usize) -> (r: (SyntaxNode, usize))
    requires
        fits(ts@),
        ident_at(tokens_view(ts@), i as int) is Some,
    ensures
        r.0.view() == named_type(tokens_view(ts@), i as int).0,
        r.1 == named_type(tokens_view(ts@), i as int).1,
{
    proof {
        reveal_strlit("Node");
        reveal_strlit("Number");
    }
    let name = match ident(ts, i) {
        Some(n) => n,
        None => no_text(),
    };
    if str_eq(name.as_str(), "Number") {
        assert("Number"@.len() != "Node"@.len());
        if sym(ts, i + 1, Symbols::OpenParenthesis) {
            match ident(ts, i + 2) {
                Some(s) => {
                    if str_eq(s.as_str(), "symbol") && sym(ts, i + 3, Symbols::Colon) {
                        match string_at(ts, i + 4) {
                            Some(u) => {
                                if sym(ts, i + 5, Symbols::ClosedParenthesis) {
                                    let unit = node(ts, SyntaxKind::Str, u, i + 4, i + 5, no_children());
                                    return (
                                        node(ts, SyntaxKind::NumberType, no_text(), i, i + 6, one(unit)),
                                        i + 6,
                                    );
                                }
                            },
                            None => {},
                        }
                    }
                },
                None => {},
            }
        }
        (node(ts, SyntaxKind::NumberType, no_text(), i, i + 1, no_children()), i + 1)
    } else {
        let kind = if str_eq(name.as_str(), "Node") {
            Some(SyntaxKind::NodeType)
        } else if str_eq(name.as_str(), "String") {
            Some(SyntaxKind::StringType)
        } else if str_eq(name.as_str(), "Bool") {
            Some(SyntaxKind::BoolType)
        } else if str_eq(name.as_str(), "None") {
            Some(SyntaxKind::NoneType)
        } else if str_eq(name.as_str(), "Never") {
            Some(SyntaxKind::NeverType)
        } else {
            None
        };
        match kind {
            Some(k) => (node(ts, k, no_text(), i, i + 1, no_children()), i + 1),
            None => (node(ts, SyntaxKind::NamedType, name, i, i + 1, no_children()), i + 1),
        }
    }
}

/// The top-level items from token `i`, and the position after them.
pub fn program_parse(ts: &Vec<Spanned>, i: usize) -> (r: (Vec<SyntaxNode>, usize))
    requires
        fits(ts@),
        i <= ts@.len(),
    ensures
        nodes_view(r.0@) == list(tokens_view(ts@), Part::Item, i as int).0,
        r.1 == list(tokens_view(ts@), Part::Item, i as int).1,
{
    parse_list(ts, Part::Item, i)
}

/// The statements of a block from token `i`, and the position after them.
pub fn statements_parse(ts: &Vec<Spanned>, i: usize) -> (r: (Vec<SyntaxNode>, usize))
    requires
        fits(ts@),
        i <= ts@.len(),
    ensures
        nodes_view(r.0@) == list(tokens_view(ts@), Part::Statement, i as int).0,
        r.1 == list(tokens_view(ts@), Part::Statement, i as int).1,
{
    parse_list(ts, Part::Statement, i)
}

/// Parses a whole program: the items, or the index of the first token that
/// could not be read.
pub fn parse(ts: &Vec<Spanned>) -> (r: Result<Vec<SyntaxNode>, usize>)
    requires
        fits(ts@),
    ensures
        match program(tokens_view(ts@)) {
            Ok(items) => r matches Ok(v) && nodes_view(v@) == items,
            Err(p) => r matches Err(q) && q == p && q < ts@.len(),
        },
{
    let (items, k) = parse_list(ts, Part::Item, 0);
    if k == ts.len() {
        Ok(items)
    } else {
        Err(k)
    }
}

} // verus!
