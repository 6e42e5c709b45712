//! The type-checking stage over a resolved program.
//!
//! The stage walks the program in the order of the source with the scopes
//! that name resolution uses, each name bound to a type: a definition
//! binds its pattern to the type of its value (a lambda defined directly is
//! bound after its body, which sees its own name with no known type), a
//! match arm binds its pattern to the type of the value matched, a lambda
//! binds each parameter to its annotated type, a type definition binds its
//! name to the type it stands for, and an imported name has no known type.
//! Each expression gets its type by the rules of [`crate::semantic`], which
//! report what does not fit: a number with a unit is a number of that unit,
//! an argument must fit its parameter (see [`crate::semantic::assignable`]),
//! and an array literal whose items do not all fit the first is a tuple of
//! their types. The fields of an object type, the parameters of a function
//! type and the arguments of a call are held in order of name, as maps hold
//! them. A block has the type of its first `return`, else that of its last
//! statement.
use vstd::prelude::*;
use std::ops::Range;
use crate::compile::CompileDiagnostic;
use crate::parser::{lemma_nodes_view, nodes_view, SyntaxKind, SyntaxNode, SyntaxView};
use crate::scoping::{diags, DiagView};
use crate::semantic::{
    array_errors_spec, array_item_spec, array_type_rule, binary_type_rule, binary_type_spec, call_type_rule,
    call_type_spec, compatible_spec, field_binding_type_rule, field_get, field_type_rule,
    field_type_spec, fields_view, guard_errors_rule, guard_message, item_binding_type,
    lemma_fields_view, lemma_types_view, operand_message, operands_message,
    types_view, unary_type_rule, unary_type_spec, unify_rule, unify_spec, TypeView, ValueType,
};
use crate::text::{str_eq, str_less, strings_view, text_less};

verus! {

/// Scopes of named types, innermost last; in a scope a later entry for a
/// name hides an earlier one.
pub type TypeScopes = Seq<Seq<(Seq<char>, TypeView)>>;

/// The type of the last entry for `name` in a scope.
pub open spec fn last_entry(scope: Seq<(Seq<char>, TypeView)>, name: Seq<char>) -> Option<TypeView>
    decreases scope.len(),
{
    if scope.len() == 0 {
        None
    } else if scope.last().0 == name {
        Some(scope.last().1)
    } else {
        last_entry(scope.drop_last(), name)
    }
}

/// The type of a name: that of its innermost entry, unknown for a name
/// with none (a builtin).
pub open spec fn type_of_name(sc: TypeScopes, name: Seq<char>) -> TypeView
    decreases sc.len(),
{
    if sc.len() == 0 {
        TypeView::Unknown
    } else {
        match last_entry(sc.last(), name) {
            Some(t) => t,
            None => type_of_name(sc.drop_last(), name),
        }
    }
}

/// `name` bound to `t` in the innermost scope.
pub open spec fn bound(sc: TypeScopes, name: Seq<char>, t: TypeView) -> TypeScopes {
    sc.update(sc.len() - 1, sc.last().push((name, t)))
}

/// The type of field `name` of a value of type `t`, unknown when there is
/// none.
pub open spec fn field_of(t: TypeView, name: Seq<char>) -> TypeView {
    match t {
        TypeView::Object(fs) => match field_get(fs, name) {
            Some(f) => f,
            None => TypeView::Unknown,
        },
        _ => TypeView::Unknown,
    }
}

/// The type of the items of a value of type `t`.
pub open spec fn item_of(t: TypeView) -> TypeView {
    match t {
        TypeView::Array(i) => *i,
        _ => TypeView::Unknown,
    }
}

/// The names of a pattern bound, in turn, to the parts of a value of type
/// `t`.
pub open spec fn bind_pattern(p: SyntaxView, t: TypeView, sc: TypeScopes) -> TypeScopes
    decreases p,
{
    match p.kind {
        SyntaxKind::Binding => bound(sc, p.text, t),
        SyntaxKind::ObjectPattern => bind_fields(p.children, t, sc),
        SyntaxKind::ArrayPattern => bind_items(p.children, item_of(t), sc),
        SyntaxKind::Field => bind_items(p.children, t, sc),
        _ => sc,
    }
}

/// The fields of an object pattern bound to the fields of type `t`.
pub open spec fn bind_fields(ps: Seq<SyntaxView>, t: TypeView, sc: TypeScopes) -> TypeScopes
    decreases ps,
{
    if ps.len() == 0 {
        sc
    } else {
        bind_pattern(ps.last(), field_of(t, ps.last().text), bind_fields(ps.drop_last(), t, sc))
    }
}

/// Each pattern bound to a value of type `t`.
pub open spec fn bind_items(ps: Seq<SyntaxView>, t: TypeView, sc: TypeScopes) -> TypeScopes
    decreases ps,
{
    if ps.len() == 0 {
        sc
    } else {
        bind_pattern(ps.last(), t, bind_items(ps.drop_last(), t, sc))
    }
}

/// A named type placed among named types held in order of name.
pub open spec fn insert_named(fs: Seq<(Seq<char>, TypeView)>, f: (Seq<char>, TypeView)) -> Seq<
    (Seq<char>, TypeView),
>
    decreases fs.len(),
{
    if fs.len() == 0 || text_less(fs.last().0, f.0) {
        fs.push(f)
    } else {
        insert_named(fs.drop_last(), f).push(fs.last())
    }
}

/// Named types put in order of name.
pub open spec fn by_name(fs: Seq<(Seq<char>, TypeView)>) -> Seq<(Seq<char>, TypeView)>
    decreases fs.len(),
{
    if fs.len() == 0 {
        fs
    } else {
        insert_named(by_name(fs.drop_last()), fs.last())
    }
}

/// The type that a type annotation denotes in the scopes `sc`: a named
/// type denotes the type its alias was defined as.
pub open spec fn annotation(t: SyntaxView, sc: TypeScopes) -> TypeView
    decreases t,
{
    match t.kind {
        SyntaxKind::NodeType => TypeView::Node,
        SyntaxKind::NumberType => if t.children.len() == 1 && t.children[0].kind == SyntaxKind::Str {
            TypeView::Quantity(t.children[0].text)
        } else {
            TypeView::Number
        },
        SyntaxKind::StringType => TypeView::Str,
        SyntaxKind::BoolType => TypeView::Boolean,
        SyntaxKind::NoneType => TypeView::Nil,
        SyntaxKind::NeverType => TypeView::Never,
        SyntaxKind::ArrayType => if t.children.len() == 1 {
            TypeView::Array(Box::new(annotation(t.children[0], sc)))
        } else {
            TypeView::Unknown
        },
        SyntaxKind::OptionalType => if t.children.len() == 1 {
            TypeView::Optional(Box::new(annotation(t.children[0], sc)))
        } else {
            TypeView::Unknown
        },
        SyntaxKind::ObjectType => TypeView::Object(by_name(annotated_params(t.children, sc))),
        SyntaxKind::LambdaType => TypeView::Lambda(
            by_name(annotated_params(t.children, sc)),
            Box::new(annotated_result(t.children, sc)),
        ),
        SyntaxKind::UnionType => TypeView::Union(annotations(t.children, sc)),
        SyntaxKind::TupleType => TypeView::Tuple(annotations(t.children, sc)),
        SyntaxKind::NamedType => type_of_name(sc, t.text),
        _ => TypeView::Unknown,
    }
}

/// The types of a sequence of annotations.
pub open spec fn annotations(ts: Seq<SyntaxView>, sc: TypeScopes) -> Seq<TypeView>
    decreases ts,
{
    if ts.len() == 0 {
        Seq::empty()
    } else {
        annotations(ts.drop_last(), sc).push(annotation(ts.last(), sc))
    }
}

/// The type of a parameter: that of its annotation.
pub open spec fn param_type(p: SyntaxView, sc: TypeScopes) -> TypeView
    decreases p,
{
    if p.children.len() == 1 {
        annotation(p.children[0], sc)
    } else {
        TypeView::Unknown
    }
}

/// The named types of the parameters among `ts`, in order.
pub open spec fn annotated_params(ts: Seq<SyntaxView>, sc: TypeScopes) -> Seq<(Seq<char>, TypeView)>
    decreases ts,
{
    if ts.len() == 0 {
        Seq::empty()
    } else if ts.last().kind == SyntaxKind::Param {
        annotated_params(ts.drop_last(), sc).push((ts.last().text, param_type(ts.last(), sc)))
    } else {
        annotated_params(ts.drop_last(), sc)
    }
}

/// The result type of a function type: its last part when that is not a
/// parameter.
pub open spec fn annotated_result(ts: Seq<SyntaxView>, sc: TypeScopes) -> TypeView
    decreases ts,
{
    if ts.len() > 0 && ts.last().kind != SyntaxKind::Param {
        annotation(ts.last(), sc)
    } else {
        TypeView::Unknown
    }
}

/// A report of the type checker at the span of `n`.
pub open spec fn report(n: SyntaxView, message: Seq<char>) -> DiagView {
    ("type checking"@, message, n.span.0, n.span.1)
}

/// Reports at the span of `n`, one for each message.
pub open spec fn reports(n: SyntaxView, messages: Seq<Seq<char>>) -> Seq<DiagView> {
    Seq::new(messages.len(), |i: int| report(n, messages[i]))
}

/// What typing a tree gives: the scopes after it, its type, and the
/// reports, in order.
pub type Typed = (TypeScopes, TypeView, Seq<DiagView>);

/// Typing of a tree in the scopes `sc`.
pub open spec fn type_node(n: SyntaxView, sc: TypeScopes) -> Typed
    decreases n,
{
    let cs = n.children;
    match n.kind {
        SyntaxKind::Import => if cs.len() == 1 {
            (bind_pattern(cs[0], TypeView::Unknown, sc), TypeView::Nil, Seq::empty())
        } else {
            let r = type_list(cs, sc);
            (r.0, TypeView::Unknown, r.2)
        },
        SyntaxKind::Export | SyntaxKind::Definition => if cs.len() == 2 {
            if cs[1].kind == SyntaxKind::Lambda {
                let r = type_node(cs[1], bind_pattern(cs[0], TypeView::Unknown, sc));
                (bind_pattern(cs[0], r.1, r.0), r.1, r.2)
            } else {
                let r = type_node(cs[1], sc);
                (bind_pattern(cs[0], r.1, r.0), r.1, r.2)
            }
        } else {
            let r = type_list(cs, sc);
            (r.0, TypeView::Unknown, r.2)
        },
        SyntaxKind::TypeDefinition => if cs.len() == 1 {
            (bound(sc, n.text, annotation(cs[0], sc)), TypeView::Nil, Seq::empty())
        } else {
            (bound(sc, n.text, TypeView::Unknown), TypeView::Nil, Seq::empty())
        },
        SyntaxKind::Return => {
            let r = type_list(cs, sc);
            (r.0, TypeView::Never, r.2)
        },
        SyntaxKind::Field => {
            let r = type_list(cs, sc);
            (r.0, if cs.len() == 1 { r.1[0] } else { TypeView::Unknown }, r.2)
        },
        SyntaxKind::Ident => (sc, type_of_name(sc, n.text), Seq::empty()),
        SyntaxKind::Number => (sc, if cs.len() == 2 && cs[1].kind == SyntaxKind::Unit {
            TypeView::Quantity(cs[1].text)
        } else {
            TypeView::Number
        }, Seq::empty()),
        SyntaxKind::Str => (sc, TypeView::Str, Seq::empty()),
        SyntaxKind::Bool(_) => (sc, TypeView::Boolean, Seq::empty()),
        SyntaxKind::NodeLiteral => (sc, TypeView::Node, Seq::empty()),
        SyntaxKind::Unary(op) => if cs.len() == 1 {
            let r = type_node(cs[0], sc);
            let t = unary_type_spec(op, r.1);
            (r.0, t, if t is Unknown && !(r.1 is Unknown) {
                r.2.push(report(n, operand_message()))
            } else {
                r.2
            })
        } else {
            let r = type_list(cs, sc);
            (r.0, TypeView::Unknown, r.2)
        },
        SyntaxKind::Binary(op) => if cs.len() == 2 {
            let a = type_node(cs[0], sc);
            let b = type_node(cs[1], a.0);
            let t = binary_type_spec(op, a.1, b.1);
            (b.0, t, if t is Unknown && !(a.1 is Unknown) && !(b.1 is Unknown) {
                (a.2 + b.2).push(report(n, operands_message()))
            } else {
                a.2 + b.2
            })
        } else {
            let r = type_list(cs, sc);
            (r.0, TypeView::Unknown, r.2)
        },
        SyntaxKind::Array => {
            let r = type_list(cs, sc);
            (r.0, if array_errors_spec(r.1).len() == 0 {
                TypeView::Array(Box::new(array_item_spec(r.1)))
            } else {
                TypeView::Tuple(r.1)
            }, r.2)
        },
        SyntaxKind::Object => {
            let r = type_fields(cs, sc);
            (r.0, TypeView::Object(by_name(r.1)), r.2)
        },
        SyntaxKind::Call => if cs.len() >= 1 {
            let f = type_node(cs[0], sc);
            let a = type_fields(cs, f.0);
            let c = call_type_spec(f.1, by_name(a.1));
            (a.0, c.0, f.2 + a.2 + reports(n, c.1))
        } else {
            (sc, TypeView::Unknown, Seq::empty())
        },
        SyntaxKind::Access => {
            let r = type_list(cs, sc);
            let o = if cs.len() == 1 { r.1[0] } else { TypeView::Unknown };
            let f = field_type_spec(o, n.text);
            (r.0, f.0, r.2 + reports(n, f.1))
        },
        SyntaxKind::Block => {
            let r = type_block(cs, sc.push(Seq::empty()));
            (r.0.drop_last(), block_type(r.1, r.2, cs.len() as int), r.3)
        },
        SyntaxKind::Lambda => {
            let r = type_lambda(cs, sc.push(Seq::empty()));
            (r.0.drop_last(), TypeView::Lambda(by_name(r.1), Box::new(r.2)), r.3)
        },
        SyntaxKind::Match => if cs.len() >= 1 {
            let o = type_node(cs[0], sc);
            let a = type_arms(cs, o.1, n, o.0);
            (a.0, unify_spec(a.1), o.2 + a.2)
        } else {
            (sc, TypeView::Unknown, Seq::empty())
        },
        _ => {
            let r = type_list(cs, sc);
            (r.0, TypeView::Unknown, r.2)
        },
    }
}

/// Typing of a sequence of trees, first to last: the scopes after them,
/// their types and the reports.
pub open spec fn type_list(ns: Seq<SyntaxView>, sc: TypeScopes) -> (TypeScopes, Seq<TypeView>, Seq<
    DiagView,
>)
    decreases ns,
{
    if ns.len() == 0 {
        (sc, Seq::empty(), Seq::empty())
    } else {
        let a = type_list(ns.drop_last(), sc);
        let b = type_node(ns.last(), a.0);
        (b.0, a.1.push(b.1), a.2 + b.2)
    }
}

/// Typing of the fields among `ns`, first to last, with their names; the
/// other trees are passed over.
pub open spec fn type_fields(ns: Seq<SyntaxView>, sc: TypeScopes) -> (TypeScopes, Seq<
    (Seq<char>, TypeView),
>, Seq<DiagView>)
    decreases ns,
{
    if ns.len() == 0 {
        (sc, Seq::empty(), Seq::empty())
    } else {
        let a = type_fields(ns.drop_last(), sc);
        if ns.last().kind == SyntaxKind::Field {
            let b = type_node(ns.last(), a.0);
            (b.0, a.1.push((ns.last().text, b.1)), a.2 + b.2)
        } else {
            a
        }
    }
}

/// The type of a block: that of its first `return`, else that of its last
/// statement, none for no statement.
pub open spec fn block_type(returned: Option<TypeView>, last: TypeView, count: int) -> TypeView {
    match returned {
        Some(t) => t,
        None => if count == 0 {
            TypeView::Nil
        } else {
            last
        },
    }
}

/// Typing of the statements of a block, first to last: the scopes after
/// them, the type returned by the first `return`, the type of the last
/// statement, and the reports.
pub open spec fn type_block(ns: Seq<SyntaxView>, sc: TypeScopes) -> (TypeScopes, Option<TypeView>, TypeView, Seq<
    DiagView,
>)
    decreases ns,
{
    if ns.len() == 0 {
        (sc, None, TypeView::Nil, Seq::empty())
    } else {
        let a = type_block(ns.drop_last(), sc);
        let c = ns.last();
        if c.kind == SyntaxKind::Return && c.children.len() == 1 {
            let b = type_node(c.children[0], a.0);
            (b.0, if a.1 is Some { a.1 } else { Some(b.1) }, TypeView::Never, a.3 + b.2)
        } else {
            let b = type_node(c, a.0);
            (b.0, a.1, b.1, a.3 + b.2)
        }
    }
}

/// Typing of the parts of a lambda, first to last: each parameter is bound
/// to its annotated type; the scopes after them, the named parameter types,
/// the type of the body (its last part) and the reports.
pub open spec fn type_lambda(ns: Seq<SyntaxView>, sc: TypeScopes) -> (TypeScopes, Seq<
    (Seq<char>, TypeView),
>, TypeView, Seq<DiagView>)
    decreases ns,
{
    if ns.len() == 0 {
        (sc, Seq::empty(), TypeView::Unknown, Seq::empty())
    } else {
        let a = type_lambda(ns.drop_last(), sc);
        let c = ns.last();
        if c.kind == SyntaxKind::Param {
            let t = param_type(c, a.0);
            (bound(a.0, c.text, t), a.1.push((c.text, t)), TypeView::Unknown, a.3)
        } else {
            let b = type_node(c, a.0);
            (b.0, a.1, b.1, a.3 + b.2)
        }
    }
}

/// Typing of the arms among `ns` of a match `m` on a value of type `on`,
/// first to last: each arm binds its pattern to `on` in a scope of its own;
/// a guard that is not boolean is reported at the match. The scopes after
/// them, the types of their results and the reports; other trees are
/// passed over.
pub open spec fn type_arms(ns: Seq<SyntaxView>, on: TypeView, m: SyntaxView, sc: TypeScopes) -> (
    TypeScopes,
    Seq<TypeView>,
    Seq<DiagView>,
)
    decreases ns,
{
    if ns.len() == 0 {
        (sc, Seq::empty(), Seq::empty())
    } else {
        let a = type_arms(ns.drop_last(), on, m, sc);
        let c = ns.last();
        if c.kind == SyntaxKind::Arm && c.children.len() == 3 {
            let s = bind_pattern(c.children[0], on, a.0.push(Seq::empty()));
            let g = type_node(c.children[1], s);
            let x = type_node(c.children[2], g.0);
            let ge = if compatible_spec(TypeView::Boolean, g.1) {
                Seq::empty()
            } else {
                seq![report(m, guard_message())]
            };
            (x.0.drop_last(), a.1.push(x.1), a.2 + g.2 + ge + x.2)
        } else {
            a
        }
    }
}

/// The scopes before anything is checked: one, empty.
pub open spec fn start_type_scopes() -> TypeScopes {
    seq![Seq::empty()]
}

// ---------------------------------------------------------------------------
// Scopes of types
// ---------------------------------------------------------------------------

/// The value of the scopes of types.
pub open spec fn scopes_view(v: Seq<Vec<(String, ValueType)>>) -> TypeScopes {
    Seq::new(v.len(), |i: int| fields_view(v[i]@))
}

/// Binds `name` to `t` in the innermost scope.
fn bind_name(sc: &mut Vec<Vec<(String, ValueType)>>, name: String, t: ValueType)
    requires
        old(sc)@.len() >= 1,
    ensures
        scopes_view(final(sc)@) == bound(scopes_view(old(sc)@), name@, t.view()),
        final(sc)@.len() == old(sc)@.len(),
{
    let ghost before = scopes_view(sc@);
    let mut last = sc.pop().unwrap();
    let ghost lv = last@;
    let ghost entry = (name@, t.view());
    last.push((name, t));
    assert(last@.drop_last() =~= lv);
    assert(fields_view(last@) == fields_view(lv).push(entry));
    sc.push(last);
    assert(scopes_view(sc@) =~= bound(before, entry.0, entry.1));
}

/// The type of `name` in the scopes.
fn type_of(sc: &Vec<Vec<(String, ValueType)>>, name: &str) -> (r: ValueType)
    ensures
        r.view() == type_of_name(scopes_view(sc@), name@),
{
    let ghost all = scopes_view(sc@);
    let mut k = sc.len();
    proof {
        assert(all.take(k as int) =~= all);
    }
    while k > 0
        invariant
            all == scopes_view(sc@),
            k <= sc@.len(),
            type_of_name(all, name@) == type_of_name(all.take(k as int), name@),
        decreases k,
    {
        let scope = &sc[k - 1];
        let ghost fv = fields_view(scope@);
        proof {
            lemma_fields_view(scope@);
            assert(all.take(k as int).last() == fv);
            assert(all.take(k as int).drop_last() =~= all.take(k - 1));
            assert(fv.take(fv.len() as int) =~= fv);
        }
        let mut j = scope.len();
        while j > 0
            invariant
                all == scopes_view(sc@),
                0 < k <= sc@.len(),
                type_of_name(all, name@) == type_of_name(all.take(k as int), name@),
                all.take(k as int).last() == fv,
                all.take(k as int).drop_last() == all.take(k - 1),
                fv == fields_view(scope@),
                fv.len() == scope@.len(),
                forall|i: int| 0 <= i < scope@.len() ==> #[trigger] fv[i] == (scope@[i].0@, scope@[i].1.view()),
                j <= scope@.len(),
                last_entry(fv, name@) == last_entry(fv.take(j as int), name@),
            decreases j,
        {
            proof {
                assert(fv.take(j as int).last() == fv[j - 1]);
                assert(fv.take(j as int).drop_last() =~= fv.take(j - 1));
            }
            if str_eq(scope[j - 1].0.as_str(), name) {
                return scope[j - 1].1.duplicate();
            }
            j = j - 1;
        }
        proof {
            assert(fv.take(0) =~= Seq::<(Seq<char>, TypeView)>::empty());
        }
        k = k - 1;
    }
    proof {
        assert(all.take(0) =~= Seq::<Seq<(Seq<char>, TypeView)>>::empty());
    }
    ValueType::Unknown
}

proof fn lemma_nodes(cs: Seq<SyntaxNode>)
    ensures
        nodes_view(cs).len() == cs.len(),
        forall|k: int| 0 <= k < cs.len() ==> #[trigger] nodes_view(cs)[k] == cs[k].view(),
{
    lemma_nodes_view(cs);
}

proof fn lemma_take_last<T>(s: Seq<T>, i: int)
    requires
        0 <= i < s.len(),
    ensures
        s.take(i + 1).drop_last() == s.take(i),
        s.take(i + 1).last() == s[i],
{
    assert(s.take(i + 1).drop_last() =~= s.take(i));
}

/// Binds the names of a pattern to the parts of a value of type `t`.
fn bind_pattern_exec(sc: &mut Vec<Vec<(String, ValueType)>>, p: &SyntaxNode, t: &ValueType)
    requires
        old(sc)@.len() >= 1,
    ensures
        scopes_view(final(sc)@) == bind_pattern(p.view(), t.view(), scopes_view(old(sc)@)),
        final(sc)@.len() == old(sc)@.len(),
    decreases p,
{
    proof {
        lemma_nodes(p.children@);
    }
    match p.kind {
        SyntaxKind::Binding => {
            bind_name(sc, p.text.clone(), t.duplicate());
        },
        SyntaxKind::ObjectPattern => {
            bind_fields_exec(sc, &p.children, t);
        },
        SyntaxKind::ArrayPattern => {
            let item = item_binding_type(t);
            bind_items_exec(sc, &p.children, &item);
        },
        SyntaxKind::Field => {
            bind_items_exec(sc, &p.children, t);
        },
        _ => {},
    }
}

fn bind_fields_exec(sc: &mut Vec<Vec<(String, ValueType)>>, ps: &Vec<SyntaxNode>, t: &ValueType)
    requires
        old(sc)@.len() >= 1,
    ensures
        scopes_view(final(sc)@) == bind_fields(nodes_view(ps@), t.view(), scopes_view(old(sc)@)),
        final(sc)@.len() == old(sc)@.len(),
    decreases ps,
{
    let ghost vs = nodes_view(ps@);
    let ghost s0 = scopes_view(sc@);
    proof {
        lemma_nodes(ps@);
    }
    let mut i: usize = 0;
    while i < ps.len()
        invariant
            vs == nodes_view(ps@),
            vs.len() == ps@.len(),
            forall|k: int| 0 <= k < vs.len() ==> #[trigger] vs[k] == ps@[k].view(),
            i <= vs.len(),
            sc@.len() == old(sc)@.len(),
            sc@.len() >= 1,
            s0 == scopes_view(old(sc)@),
            scopes_view(sc@) == bind_fields(vs.take(i as int), t.view(), s0),
        decreases vs.len() - i,
    {
        proof {
            lemma_take_last(vs, i as int);
        }
        let ft = field_binding_type_rule(t, ps[i].text.as_str());
        bind_pattern_exec(sc, &ps[i], &ft);
        i = i + 1;
    }
    proof {
        assert(vs.take(vs.len() as int) =~= vs);
    }
}

fn bind_items_exec(sc: &mut Vec<Vec<(String, ValueType)>>, ps: &Vec<SyntaxNode>, t: &ValueType)
    requires
        old(sc)@.len() >= 1,
    ensures
        scopes_view(final(sc)@) == bind_items(nodes_view(ps@), t.view(), scopes_view(old(sc)@)),
        final(sc)@.len() == old(sc)@.len(),
    decreases ps,
{
    let ghost vs = nodes_view(ps@);
    let ghost s0 = scopes_view(sc@);
    proof {
        lemma_nodes(ps@);
    }
    let mut i: usize = 0;
    while i < ps.len()
        invariant
            vs == nodes_view(ps@),
            vs.len() == ps@.len(),
            forall|k: int| 0 <= k < vs.len() ==> #[trigger] vs[k] == ps@[k].view(),
            i <= vs.len(),
            sc@.len() == old(sc)@.len(),
            sc@.len() >= 1,
            s0 == scopes_view(old(sc)@),
            scopes_view(sc@) == bind_items(vs.take(i as int), t.view(), s0),
        decreases vs.len() - i,
    {
        proof {
            lemma_take_last(vs, i as int);
        }
        bind_pattern_exec(sc, &ps[i], t);
        i = i + 1;
    }
    proof {
        assert(vs.take(vs.len() as int) =~= vs);
    }
}

// ---------------------------------------------------------------------------
// Named types in order of name
// ---------------------------------------------------------------------------

proof fn lemma_insert_at(fs: Seq<(Seq<char>, TypeView)>, f: (Seq<char>, TypeView), p: int)
    requires
        0 <= p <= fs.len(),
        forall|j: int| p <= j < fs.len() ==> !text_less(#[trigger] fs[j].0, f.0),
        p == 0 || text_less(fs[p - 1].0, f.0),
    ensures
        insert_named(fs, f) == fs.take(p).push(f) + fs.skip(p),
    decreases fs.len(),
{
    if p == fs.len() {
        assert(fs.take(p) =~= fs);
        assert(fs.skip(p) =~= Seq::<(Seq<char>, TypeView)>::empty());
        assert(fs.take(p).push(f) + fs.skip(p) =~= fs.push(f));
    } else {
        let d = fs.drop_last();
        assert(!text_less(fs[fs.len() - 1].0, f.0));
        assert forall|j: int| p <= j < d.len() implies !text_less(#[trigger] d[j].0, f.0) by {
            assert(d[j] == fs[j]);
        }
        if p > 0 {
            assert(d[p - 1] == fs[p - 1]);
        }
        lemma_insert_at(d, f, p);
        assert((d.take(p).push(f) + d.skip(p)).push(fs.last()) =~= fs.take(p).push(f) + fs.skip(p));
    }
}

/// Places a named type among named types held in order of name.
fn insert_by_name(out: &mut Vec<(String, ValueType)>, name: String, t: ValueType)
    ensures
        fields_view(final(out)@) == insert_named(fields_view(old(out)@), (name@, t.view())),
{
    let ghost fv = fields_view(out@);
    let ghost f = (name@, t.view());
    proof {
        lemma_fields_view(out@);
    }
    let mut p = out.len();
    while p > 0 && !str_less(out[p - 1].0.as_str(), name.as_str())
        invariant
            fv == fields_view(out@),
            fv.len() == out@.len(),
            forall|i: int| 0 <= i < out@.len() ==> #[trigger] fv[i] == (out@[i].0@, out@[i].1.view()),
            p <= out@.len(),
            f == (name@, t.view()),
            forall|j: int| p <= j < fv.len() ==> !text_less(#[trigger] fv[j].0, f.0),
        decreases p,
    {
        p = p - 1;
    }
    proof {
        lemma_insert_at(fv, f, p as int);
    }
    let ghost before = out@;
    out.insert(p, (name, t));
    proof {
        lemma_fields_view(out@);
        assert(fields_view(out@) =~= fv.take(p as int).push(f) + fv.skip(p as int));
    }
}

/// Named types put in order of name.
fn by_name_exec(v: &Vec<(String, ValueType)>) -> (r: Vec<(String, ValueType)>)
    ensures
        fields_view(r@) == by_name(fields_view(v@)),
{
    let ghost fv = fields_view(v@);
    proof {
        lemma_fields_view(v@);
        assert(fv.take(0) =~= Seq::<(Seq<char>, TypeView)>::empty());
    }
    let mut out: Vec<(String, ValueType)> = Vec::new();
    let mut i: usize = 0;
    while i < v.len()
        invariant
            fv == fields_view(v@),
            fv.len() == v@.len(),
            forall|k: int| 0 <= k < v@.len() ==> #[trigger] fv[k] == (v@[k].0@, v@[k].1.view()),
            i <= v@.len(),
            fields_view(out@) == by_name(fv.take(i as int)),
        decreases v@.len() - i,
    {
        proof {
            lemma_take_last(fv, i as int);
        }
        insert_by_name(&mut out, v[i].0.clone(), v[i].1.duplicate());
        i = i + 1;
    }
    proof {
        assert(fv.take(fv.len() as int) =~= fv);
    }
    out
}

// ---------------------------------------------------------------------------
// Type annotations
// ---------------------------------------------------------------------------

proof fn lemma_types_push(v: Seq<ValueType>, x: ValueType)
    ensures
        types_view(v.push(x)) == types_view(v).push(x.view()),
{
    assert(v.push(x).drop_last() =~= v);
}

proof fn lemma_fields_push(v: Seq<(String, ValueType)>, x: (String, ValueType))
    ensures
        fields_view(v.push(x)) == fields_view(v).push((x.0@, x.1.view())),
{
    assert(v.push(x).drop_last() =~= v);
}

/// The type that an annotation denotes.
fn annotation_exec(sc: &Vec<Vec<(String, ValueType)>>, t: &SyntaxNode) -> (r: ValueType)
    ensures
        r.view() == annotation(t.view(), scopes_view(sc@)),
    decreases t,
{
    proof {
        lemma_nodes(t.children@);
    }
    match t.kind {
        SyntaxKind::NodeType => ValueType::Node,
        SyntaxKind::NumberType => if t.children.len() == 1 && t.children[0].kind == SyntaxKind::Str {
            ValueType::Quantity(t.children[0].text.clone())
        } else {
            ValueType::Number
        },
        SyntaxKind::StringType => ValueType::String,
        SyntaxKind::BoolType => ValueType::Boolean,
        SyntaxKind::NoneType => ValueType::Nil,
        SyntaxKind::NeverType => ValueType::Never,
        SyntaxKind::ArrayType => if t.children.len() == 1 {
            ValueType::Array(Box::new(annotation_exec(sc, &t.children[0])))
        } else {
            ValueType::Unknown
        },
        SyntaxKind::OptionalType => if t.children.len() == 1 {
            ValueType::Optional(Box::new(annotation_exec(sc, &t.children[0])))
        } else {
            ValueType::Unknown
        },
        SyntaxKind::ObjectType => {
            let ps = annotated_params_exec(sc, &t.children);
            ValueType::Object(by_name_exec(&ps))
        },
        SyntaxKind::LambdaType => {
            let ps = annotated_params_exec(sc, &t.children);
            let rtn = annotated_result_exec(sc, &t.children);
            ValueType::Lambda { params: by_name_exec(&ps), rtn: Box::new(rtn) }
        },
        SyntaxKind::UnionType => ValueType::Union(annotations_exec(sc, &t.children)),
        SyntaxKind::TupleType => ValueType::Tuple(annotations_exec(sc, &t.children)),
        SyntaxKind::NamedType => type_of(sc, t.text.as_str()),
        _ => ValueType::Unknown,
    }
}

fn annotations_exec(sc: &Vec<Vec<(String, ValueType)>>, ts: &Vec<SyntaxNode>) -> (r: Vec<ValueType>)
    ensures
        types_view(r@) == annotations(nodes_view(ts@), scopes_view(sc@)),
    decreases ts,
{
    let ghost vs = nodes_view(ts@);
    proof {
        lemma_nodes(ts@);
        assert(vs.take(0) =~= Seq::<SyntaxView>::empty());
    }
    let mut out: Vec<ValueType> = Vec::new();
    let mut i: usize = 0;
    while i < ts.len()
        invariant
            vs == nodes_view(ts@),
            vs.len() == ts@.len(),
            forall|k: int| 0 <= k < vs.len() ==> #[trigger] vs[k] == ts@[k].view(),
            i <= vs.len(),
            types_view(out@) == annotations(vs.take(i as int), scopes_view(sc@)),
        decreases vs.len() - i,
    {
        proof {
            lemma_take_last(vs, i as int);
        }
        let t = annotation_exec(sc, &ts[i]);
        proof {
            lemma_types_push(out@, t);
        }
        out.push(t);
        i = i + 1;
    }
    proof {
        assert(vs.take(vs.len() as int) =~= vs);
    }
    out
}

fn param_type_exec(sc: &Vec<Vec<(String, ValueType)>>, p: &SyntaxNode) -> (r: ValueType)
    ensures
        r.view() == param_type(p.view(), scopes_view(sc@)),
    decreases p,
{
    proof {
        lemma_nodes(p.children@);
    }
    if p.children.len() == 1 {
        annotation_exec(sc, &p.children[0])
    } else {
        ValueType::Unknown
    }
}

fn annotated_params_exec(sc: &Vec<Vec<(String, ValueType)>>, ts: &Vec<SyntaxNode>) -> (r: Vec<(String, ValueType)>)
    ensures
        fields_view(r@) == annotated_params(nodes_view(ts@), scopes_view(sc@)),
    decreases ts,
{
    let ghost vs = nodes_view(ts@);
    proof {
        lemma_nodes(ts@);
        assert(vs.take(0) =~= Seq::<SyntaxView>::empty());
    }
    let mut out: Vec<(String, ValueType)> = Vec::new();
    let mut i: usize = 0;
    while i < ts.len()
        invariant
            vs == nodes_view(ts@),
            vs.len() == ts@.len(),
            forall|k: int| 0 <= k < vs.len() ==> #[trigger] vs[k] == ts@[k].view(),
            i <= vs.len(),
            fields_view(out@) == annotated_params(vs.take(i as int), scopes_view(sc@)),
        decreases vs.len() - i,
    {
        proof {
            lemma_take_last(vs, i as int);
        }
        if ts[i].kind == SyntaxKind::Param {
            let t = param_type_exec(sc, &ts[i]);
            let entry = (ts[i].text.clone(), t);
            proof {
                lemma_fields_push(out@, entry);
            }
            out.push(entry);
        }
        i = i + 1;
    }
    proof {
        assert(vs.take(vs.len() as int) =~= vs);
    }
    out
}

fn annotated_result_exec(sc: &Vec<Vec<(String, ValueType)>>, ts: &Vec<SyntaxNode>) -> (r: ValueType)
    ensures
        r.view() == annotated_result(nodes_view(ts@), scopes_view(sc@)),
    decreases ts,
{
    proof {
        lemma_nodes(ts@);
    }
    let n = ts.len();
    if n > 0 && ts[n - 1].kind != SyntaxKind::Param {
        annotation_exec(sc, &ts[n - 1])
    } else {
        ValueType::Unknown
    }
}

// ---------------------------------------------------------------------------
// The walk
// ---------------------------------------------------------------------------

/// Reports `message` at the span of `n`.
fn push_report(errs: &mut Vec<CompileDiagnostic>, n: &SyntaxNode, message: String)
    ensures
        diags(final(errs)@) == diags(old(errs)@).push(report(n.view(), message@)),
{
    let ghost before = errs@;
    errs.push(
        CompileDiagnostic {
            stage: "type checking",
            message,
            span: Range { start: n.span.start, end: n.span.end },
        },
    );
    assert(diags(errs@) =~= diags(before).push(report(n.view(), diags(errs@).last().1)));
}

/// Reports each of `messages` at the span of `n`.
fn push_reports(errs: &mut Vec<CompileDiagnostic>, n: &SyntaxNode, messages: Vec<String>)
    ensures
        diags(final(errs)@) == diags(old(errs)@) + reports(n.view(), strings_view(messages@)),
{
    let ghost e0 = diags(errs@);
    let ghost ms = strings_view(messages@);
    let mut k: usize = 0;
    proof {
        assert(reports(n.view(), ms.take(0)) =~= Seq::<DiagView>::empty());
        assert(e0 + Seq::<DiagView>::empty() =~= e0);
    }
    while k < messages.len()
        invariant
            ms == strings_view(messages@),
            k <= messages@.len(),
            diags(errs@) == e0 + reports(n.view(), ms.take(k as int)),
        decreases messages@.len() - k,
    {
        push_report(errs, n, messages[k].clone());
        proof {
            assert(ms[k as int] == messages@[k as int]@);
            assert(reports(n.view(), ms.take(k + 1)) =~= reports(n.view(), ms.take(k as int)).push(
                report(n.view(), ms[k as int]),
            ));
        }
        k = k + 1;
    }
    proof {
        assert(ms.take(ms.len() as int) =~= ms);
    }
}

proof fn lemma_scopes_push(v: Seq<Vec<(String, ValueType)>>, e: Vec<(String, ValueType)>)
    requires
        e@.len() == 0,
    ensures
        scopes_view(v.push(e)) == scopes_view(v).push(Seq::empty()),
{
    assert(fields_view(e@) =~= Seq::<(Seq<char>, TypeView)>::empty());
    assert(scopes_view(v.push(e)) =~= scopes_view(v).push(Seq::empty()));
}

proof fn lemma_scopes_pop(v: Seq<Vec<(String, ValueType)>>)
    requires
        v.len() >= 1,
    ensures
        scopes_view(v.drop_last()) == scopes_view(v).drop_last(),
{
    assert(scopes_view(v.drop_last()) =~= scopes_view(v).drop_last());
}

/// Types a tree.
#[verifier::spinoff_prover]
#[verifier::rlimit(60)]
fn type_node_exec(
    sc: &mut Vec<Vec<(String, ValueType)>>,
    n: &SyntaxNode,
    errs: &mut Vec<CompileDiagnostic>,
) -> (r: ValueType)
    requires
        old(sc)@.len() >= 1,
    ensures
        ({
            let x = type_node(n.view(), scopes_view(old(sc)@));
            &&& scopes_view(final(sc)@) == x.0
            &&& r.view() == x.1
            &&& diags(final(errs)@) == diags(old(errs)@) + x.2
        }),
        final(sc)@.len() == old(sc)@.len(),
    decreases n,
{
    let ghost v = n.view();
    let ghost cs = nodes_view(n.children@);
    let ghost s0 = scopes_view(sc@);
    let ghost e0 = diags(errs@);
    proof {
        lemma_nodes(n.children@);
    }
    let len = n.children.len();
    match n.kind {
        SyntaxKind::Import => {
            if len == 1 {
                bind_pattern_exec(sc, &n.children[0], &ValueType::Unknown);
                assert(diags(errs@) =~= e0 + Seq::<DiagView>::empty());
                ValueType::Nil
            } else {
                let _ = type_list_exec(sc, &n.children, errs);
                ValueType::Unknown
            }
        },
        SyntaxKind::Export | SyntaxKind::Definition => {
            if len == 2 {
                if n.children[1].kind == SyntaxKind::Lambda {
                    bind_pattern_exec(sc, &n.children[0], &ValueType::Unknown);
                    let t = type_node_exec(sc, &n.children[1], errs);
                    bind_pattern_exec(sc, &n.children[0], &t);
                    t
                } else {
                    let t = type_node_exec(sc, &n.children[1], errs);
                    bind_pattern_exec(sc, &n.children[0], &t);
                    t
                }
            } else {
                let _ = type_list_exec(sc, &n.children, errs);
                ValueType::Unknown
            }
        },
        SyntaxKind::TypeDefinition => {
            let t = if len == 1 {
                annotation_exec(sc, &n.children[0])
            } else {
                ValueType::Unknown
            };
            bind_name(sc, n.text.clone(), t);
            assert(diags(errs@) =~= e0 + Seq::<DiagView>::empty());
            ValueType::Nil
        },
        SyntaxKind::Return => {
            let _ = type_list_exec(sc, &n.children, errs);
            ValueType::Never
        },
        SyntaxKind::Field => {
            let ts = type_list_exec(sc, &n.children, errs);
            proof {
                lemma_types_view(ts@);
            }
            if len == 1 {
                ts[0].duplicate()
            } else {
                ValueType::Unknown
            }
        },
        SyntaxKind::Ident => {
            assert(diags(errs@) =~= e0 + Seq::<DiagView>::empty());
            type_of(sc, n.text.as_str())
        },
        SyntaxKind::Number => {
            assert(diags(errs@) =~= e0 + Seq::<DiagView>::empty());
            if len == 2 && n.children[1].kind == SyntaxKind::Unit {
                ValueType::Quantity(n.children[1].text.clone())
            } else {
                ValueType::Number
            }
        },
        SyntaxKind::Str => {
            assert(diags(errs@) =~= e0 + Seq::<DiagView>::empty());
            ValueType::String
        },
        SyntaxKind::Bool(_) => {
            assert(diags(errs@) =~= e0 + Seq::<DiagView>::empty());
            ValueType::Boolean
        },
        SyntaxKind::NodeLiteral => {
            assert(diags(errs@) =~= e0 + Seq::<DiagView>::empty());
            ValueType::Node
        },
        SyntaxKind::Unary(op) => {
            if len == 1 {
                let a = type_node_exec(sc, &n.children[0], errs);
                let ghost e1 = diags(errs@);
                let (t, msgs) = unary_type_rule(op, &a).into_parts();
                push_reports(errs, n, msgs);
                proof {
                    if t.view() is Unknown && !(a.view() is Unknown) {
                        assert(reports(v, strings_view(msgs@)) =~= seq![report(v, operand_message())]);
                    } else {
                        assert(reports(v, strings_view(msgs@)) =~= Seq::<DiagView>::empty());
                    }
                    assert(diags(errs@) =~= e0 + type_node(v, s0).2);
                }
                t
            } else {
                let _ = type_list_exec(sc, &n.children, errs);
                ValueType::Unknown
            }
        },
        SyntaxKind::Binary(op) => {
            if len == 2 {
                let a = type_node_exec(sc, &n.children[0], errs);
                let b = type_node_exec(sc, &n.children[1], errs);
                let (t, msgs) = binary_type_rule(op, &a, &b).into_parts();
                push_reports(errs, n, msgs);
                proof {
                    if t.view() is Unknown && !(a.view() is Unknown) && !(b.view() is Unknown) {
                        assert(reports(v, strings_view(msgs@)) =~= seq![report(v, operands_message())]);
                    } else {
                        assert(reports(v, strings_view(msgs@)) =~= Seq::<DiagView>::empty());
                    }
                    assert(diags(errs@) =~= e0 + type_node(v, s0).2);
                }
                t
            } else {
                let _ = type_list_exec(sc, &n.children, errs);
                ValueType::Unknown
            }
        },
        SyntaxKind::Array => {
            let ts = type_list_exec(sc, &n.children, errs);
            let (t, msgs) = array_type_rule(&ts).into_parts();
            if msgs.len() == 0 {
                t
            } else {
                ValueType::Tuple(ts)
            }
        },
        SyntaxKind::Object => {
            let fs = type_fields_exec(sc, &n.children, errs);
            ValueType::Object(by_name_exec(&fs))
        },
        SyntaxKind::Call => {
            if len >= 1 {
                let f = type_node_exec(sc, &n.children[0], errs);
                let fs = type_fields_exec(sc, &n.children, errs);
                let sorted = by_name_exec(&fs);
                let (t, msgs) = call_type_rule(&f, &sorted).into_parts();
                push_reports(errs, n, msgs);
                proof {
                    assert(diags(errs@) =~= e0 + type_node(v, s0).2);
                }
                t
            } else {
                assert(diags(errs@) =~= e0 + Seq::<DiagView>::empty());
                ValueType::Unknown
            }
        },
        SyntaxKind::Access => {
            let ts = type_list_exec(sc, &n.children, errs);
            proof {
                lemma_types_view(ts@);
            }
            let o = if len == 1 {
                ts[0].duplicate()
            } else {
                ValueType::Unknown
            };
            let (t, msgs) = field_type_rule(&o, n.text.as_str()).into_parts();
            push_reports(errs, n, msgs);
            proof {
                assert(diags(errs@) =~= e0 + type_node(v, s0).2);
            }
            t
        },
        SyntaxKind::Block => {
            let fresh: Vec<(String, ValueType)> = Vec::new();
            proof {
                lemma_scopes_push(sc@, fresh);
            }
            sc.push(fresh);
            let (returned, last) = type_block_exec(sc, &n.children, errs);
            proof {
                lemma_scopes_pop(sc@);
            }
            sc.pop();
            match returned {
                Some(t) => t,
                None => if len == 0 {
                    ValueType::Nil
                } else {
                    last
                },
            }
        },
        SyntaxKind::Lambda => {
            let fresh: Vec<(String, ValueType)> = Vec::new();
            proof {
                lemma_scopes_push(sc@, fresh);
            }
            sc.push(fresh);
            let (params, body) = type_lambda_exec(sc, &n.children, errs);
            proof {
                lemma_scopes_pop(sc@);
            }
            sc.pop();
            ValueType::Lambda { params: by_name_exec(&params), rtn: Box::new(body) }
        },
        SyntaxKind::Match => {
            if len >= 1 {
                let o = type_node_exec(sc, &n.children[0], errs);
                let ts = type_arms_exec(sc, &n.children, &o, n, errs);
                proof {
                    assert(diags(errs@) =~= e0 + type_node(v, s0).2);
                }
                unify_rule(ts)
            } else {
                assert(diags(errs@) =~= e0 + Seq::<DiagView>::empty());
                ValueType::Unknown
            }
        },
        _ => {
            let _ = type_list_exec(sc, &n.children, errs);
            ValueType::Unknown
        },
    }
}

/// Types a sequence of trees, first to last.
fn type_list_exec(
    sc: &mut Vec<Vec<(String, ValueType)>>,
    cs: &Vec<SyntaxNode>,
    errs: &mut Vec<CompileDiagnostic>,
) -> (r: Vec<ValueType>)
    requires
        old(sc)@.len() >= 1,
    ensures
        ({
            let x = type_list(nodes_view(cs@), scopes_view(old(sc)@));
            &&& scopes_view(final(sc)@) == x.0
            &&& types_view(r@) == x.1
            &&& diags(final(errs)@) == diags(old(errs)@) + x.2
        }),
        final(sc)@.len() == old(sc)@.len(),
    decreases cs,
{
    let ghost vs = nodes_view(cs@);
    let ghost s0 = scopes_view(sc@);
    let ghost e0 = diags(errs@);
    proof {
        lemma_nodes(cs@);
        assert(vs.take(0) =~= Seq::<SyntaxView>::empty());
        assert(e0 + Seq::<DiagView>::empty() =~= e0);
    }
    let mut out: Vec<ValueType> = Vec::new();
    let mut i: usize = 0;
    while i < cs.len()
        invariant
            vs == nodes_view(cs@),
            vs.len() == cs@.len(),
            forall|k: int| 0 <= k < vs.len() ==> #[trigger] vs[k] == cs@[k].view(),
            i <= vs.len(),
            sc@.len() == old(sc)@.len(),
            sc@.len() >= 1,
            scopes_view(sc@) == type_list(vs.take(i as int), s0).0,
            types_view(out@) == type_list(vs.take(i as int), s0).1,
            diags(errs@) == e0 + type_list(vs.take(i as int), s0).2,
        decreases vs.len() - i,
    {
        proof {
            lemma_take_last(vs, i as int);
        }
        let t = type_node_exec(sc, &cs[i], errs);
        proof {
            lemma_types_push(out@, t);
            assert(diags(errs@) =~= e0 + type_list(vs.take(i + 1), s0).2);
        }
        out.push(t);
        i = i + 1;
    }
    proof {
        assert(vs.take(vs.len() as int) =~= vs);
    }
    out
}

/// Types the fields among a sequence of trees, first to last.
fn type_fields_exec(
    sc: &mut Vec<Vec<(String, ValueType)>>,
    cs: &Vec<SyntaxNode>,
    errs: &mut Vec<CompileDiagnostic>,
) -> (r: Vec<(String, ValueType)>)
    requires
        old(sc)@.len() >= 1,
    ensures
        ({
            let x = type_fields(nodes_view(cs@), scopes_view(old(sc)@));
            &&& scopes_view(final(sc)@) == x.0
            &&& fields_view(r@) == x.1
            &&& diags(final(errs)@) == diags(old(errs)@) + x.2
        }),
        final(sc)@.len() == old(sc)@.len(),
    decreases cs,
{
    let ghost vs = nodes_view(cs@);
    let ghost s0 = scopes_view(sc@);
    let ghost e0 = diags(errs@);
    proof {
        lemma_nodes(cs@);
        assert(vs.take(0) =~= Seq::<SyntaxView>::empty());
        assert(e0 + Seq::<DiagView>::empty() =~= e0);
    }
    let mut out: Vec<(String, ValueType)> = Vec::new();
    let mut i: usize = 0;
    while i < cs.len()
        invariant
            vs == nodes_view(cs@),
            vs.len() == cs@.len(),
            forall|k: int| 0 <= k < vs.len() ==> #[trigger] vs[k] == cs@[k].view(),
            i <= vs.len(),
            sc@.len() == old(sc)@.len(),
            sc@.len() >= 1,
            scopes_view(sc@) == type_fields(vs.take(i as int), s0).0,
            fields_view(out@) == type_fields(vs.take(i as int), s0).1,
            diags(errs@) == e0 + type_fields(vs.take(i as int), s0).2,
        decreases vs.len() - i,
    {
        proof {
            lemma_take_last(vs, i as int);
        }
        if cs[i].kind == SyntaxKind::Field {
            let t = type_node_exec(sc, &cs[i], errs);
            let entry = (cs[i].text.clone(), t);
            proof {
                lemma_fields_push(out@, entry);
                assert(diags(errs@) =~= e0 + type_fields(vs.take(i + 1), s0).2);
            }
            out.push(entry);
        }
        i = i + 1;
    }
    proof {
        assert(vs.take(vs.len() as int) =~= vs);
    }
    out
}

/// Types the statements of a block, first to last: the type returned by
/// the first `return`, if any, and the type of the last statement.
fn type_block_exec(
    sc: &mut Vec<Vec<(String, ValueType)>>,
    cs: &Vec<SyntaxNode>,
    errs: &mut Vec<CompileDiagnostic>,
) -> (r: (Option<ValueType>, ValueType))
    requires
        old(sc)@.len() >= 1,
    ensures
        ({
            let x = type_block(nodes_view(cs@), scopes_view(old(sc)@));
            &&& scopes_view(final(sc)@) == x.0
            &&& match r.0 {
                Some(t) => x.1 == Some(t.view()),
                None => x.1 is None,
            }
            &&& r.1.view() == x.2
            &&& diags(final(errs)@) == diags(old(errs)@) + x.3
        }),
        final(sc)@.len() == old(sc)@.len(),
    decreases cs,
{
    let ghost vs = nodes_view(cs@);
    let ghost s0 = scopes_view(sc@);
    let ghost e0 = diags(errs@);
    proof {
        lemma_nodes(cs@);
        assert(vs.take(0) =~= Seq::<SyntaxView>::empty());
        assert(e0 + Seq::<DiagView>::empty() =~= e0);
    }
    let mut returned: Option<ValueType> = None;
    let mut last = ValueType::Nil;
    let mut i: usize = 0;
    while i < cs.len()
        invariant
            vs == nodes_view(cs@),
            vs.len() == cs@.len(),
            forall|k: int| 0 <= k < vs.len() ==> #[trigger] vs[k] == cs@[k].view(),
            i <= vs.len(),
            sc@.len() == old(sc)@.len(),
            sc@.len() >= 1,
            scopes_view(sc@) == type_block(vs.take(i as int), s0).0,
            match returned {
                Some(t) => type_block(vs.take(i as int), s0).1 == Some(t.view()),
                None => type_block(vs.take(i as int), s0).1 is None,
            },
            last.view() == type_block(vs.take(i as int), s0).2,
            diags(errs@) == e0 + type_block(vs.take(i as int), s0).3,
        decreases vs.len() - i,
    {
        proof {
            lemma_take_last(vs, i as int);
            lemma_nodes(cs@[i as int].children@);
        }
        let c = &cs[i];
        if c.kind == SyntaxKind::Return && c.children.len() == 1 {
            let t = type_node_exec(sc, &c.children[0], errs);
            if returned.is_none() {
                returned = Some(t);
            }
            last = ValueType::Never;
        } else {
            last = type_node_exec(sc, c, errs);
        }
        proof {
            assert(diags(errs@) =~= e0 + type_block(vs.take(i + 1), s0).3);
        }
        i = i + 1;
    }
    proof {
        assert(vs.take(vs.len() as int) =~= vs);
    }
    (returned, last)
}

/// Types the parts of a lambda, first to last: the named parameter types
/// and the type of the body.
fn type_lambda_exec(
    sc: &mut Vec<Vec<(String, ValueType)>>,
    cs: &Vec<SyntaxNode>,
    errs: &mut Vec<CompileDiagnostic>,
) -> (r: (Vec<(String, ValueType)>, ValueType))
    requires
        old(sc)@.len() >= 1,
    ensures
        ({
            let x = type_lambda(nodes_view(cs@), scopes_view(old(sc)@));
            &&& scopes_view(final(sc)@) == x.0
            &&& fields_view(r.0@) == x.1
            &&& r.1.view() == x.2
            &&& diags(final(errs)@) == diags(old(errs)@) + x.3
        }),
        final(sc)@.len() == old(sc)@.len(),
    decreases cs,
{
    let ghost vs = nodes_view(cs@);
    let ghost s0 = scopes_view(sc@);
    let ghost e0 = diags(errs@);
    proof {
        lemma_nodes(cs@);
        assert(vs.take(0) =~= Seq::<SyntaxView>::empty());
        assert(e0 + Seq::<DiagView>::empty() =~= e0);
    }
    let mut params: Vec<(String, ValueType)> = Vec::new();
    let mut body = ValueType::Unknown;
    let mut i: usize = 0;
    while i < cs.len()
        invariant
            vs == nodes_view(cs@),
            vs.len() == cs@.len(),
            forall|k: int| 0 <= k < vs.len() ==> #[trigger] vs[k] == cs@[k].view(),
            i <= vs.len(),
            sc@.len() == old(sc)@.len(),
            sc@.len() >= 1,
            scopes_view(sc@) == type_lambda(vs.take(i as int), s0).0,
            fields_view(params@) == type_lambda(vs.take(i as int), s0).1,
            body.view() == type_lambda(vs.take(i as int), s0).2,
            diags(errs@) == e0 + type_lambda(vs.take(i as int), s0).3,
        decreases vs.len() - i,
    {
        proof {
            lemma_take_last(vs, i as int);
        }
        let c = &cs[i];
        if c.kind == SyntaxKind::Param {
            let t = param_type_exec(sc, c);
            bind_name(sc, c.text.clone(), t.duplicate());
            let entry = (c.text.clone(), t);
            proof {
                lemma_fields_push(params@, entry);
            }
            params.push(entry);
            body = ValueType::Unknown;
        } else {
            body = type_node_exec(sc, c, errs);
            proof {
                assert(diags(errs@) =~= e0 + type_lambda(vs.take(i + 1), s0).3);
            }
        }
        i = i + 1;
    }
    proof {
        assert(vs.take(vs.len() as int) =~= vs);
    }
    (params, body)
}

/// Types the arms among the parts of a match `m` on a value of type `on`,
/// first to last: the types of their results.
fn type_arms_exec(
    sc: &mut Vec<Vec<(String, ValueType)>>,
    cs: &Vec<SyntaxNode>,
    on: &ValueType,
    m: &SyntaxNode,
    errs: &mut Vec<CompileDiagnostic>,
) -> (r: Vec<ValueType>)
    requires
        old(sc)@.len() >= 1,
    ensures
        ({
            let x = type_arms(nodes_view(cs@), on.view(), m.view(), scopes_view(old(sc)@));
            &&& scopes_view(final(sc)@) == x.0
            &&& types_view(r@) == x.1
            &&& diags(final(errs)@) == diags(old(errs)@) + x.2
        }),
        final(sc)@.len() == old(sc)@.len(),
    decreases cs,
{
    let ghost vs = nodes_view(cs@);
    let ghost s0 = scopes_view(sc@);
    let ghost e0 = diags(errs@);
    proof {
        lemma_nodes(cs@);
        assert(vs.take(0) =~= Seq::<SyntaxView>::empty());
        assert(e0 + Seq::<DiagView>::empty() =~= e0);
    }
    let mut out: Vec<ValueType> = Vec::new();
    let mut i: usize = 0;
    while i < cs.len()
        invariant
            vs == nodes_view(cs@),
            vs.len() == cs@.len(),
            forall|k: int| 0 <= k < vs.len() ==> #[trigger] vs[k] == cs@[k].view(),
            i <= vs.len(),
            sc@.len() == old(sc)@.len(),
            sc@.len() >= 1,
            scopes_view(sc@) == type_arms(vs.take(i as int), on.view(), m.view(), s0).0,
            types_view(out@) == type_arms(vs.take(i as int), on.view(), m.view(), s0).1,
            diags(errs@) == e0 + type_arms(vs.take(i as int), on.view(), m.view(), s0).2,
        decreases vs.len() - i,
    {
        proof {
            lemma_take_last(vs, i as int);
            lemma_nodes(cs@[i as int].children@);
        }
        let c = &cs[i];
        if c.kind == SyntaxKind::Arm && c.children.len() == 3 {
            let ghost e1 = diags(errs@);
            let fresh: Vec<(String, ValueType)> = Vec::new();
            proof {
                lemma_scopes_push(sc@, fresh);
            }
            sc.push(fresh);
            bind_pattern_exec(sc, &c.children[0], on);
            let g = type_node_exec(sc, &c.children[1], errs);
            let guard = guard_errors_rule(&g);
            push_reports(errs, m, guard);
            let x = type_node_exec(sc, &c.children[2], errs);
            proof {
                lemma_scopes_pop(sc@);
            }
            sc.pop();
            proof {
                lemma_types_push(out@, x);
                if compatible_spec(TypeView::Boolean, g.view()) {
                    assert(reports(m.view(), strings_view(guard@)) =~= Seq::<DiagView>::empty());
                } else {
                    assert(reports(m.view(), strings_view(guard@)) =~= seq![report(m.view(), guard_message())]);
                }
                assert(diags(errs@) =~= e0 + type_arms(vs.take(i + 1), on.view(), m.view(), s0).2);
            }
            out.push(x);
        }
        i = i + 1;
    }
    proof {
        assert(vs.take(vs.len() as int) =~= vs);
    }
    out
}

/// Type-checks a resolved program, from scopes that hold no type, and
/// returns what it reports, in the order of the source.
pub fn check_types(items: &Vec<SyntaxNode>) -> (r: Vec<CompileDiagnostic>)
    ensures
        diags(r@) == type_list(nodes_view(items@), start_type_scopes()).2,
{
    let mut sc: Vec<Vec<(String, ValueType)>> = Vec::new();
    let fresh: Vec<(String, ValueType)> = Vec::new();
    proof {
        lemma_scopes_push(sc@, fresh);
    }
    sc.push(fresh);
    proof {
        assert(scopes_view(Seq::<Vec<(String, ValueType)>>::empty()) =~= Seq::<Seq<(Seq<char>, TypeView)>>::empty());
        assert(scopes_view(sc@) =~= start_type_scopes());
    }
    let mut errs: Vec<CompileDiagnostic> = Vec::new();
    assert(diags(errs@) =~= Seq::<DiagView>::empty());
    let _ = type_list_exec(&mut sc, items, &mut errs);
    assert(diags(errs@) =~= type_list(nodes_view(items@), start_type_scopes()).2);
    errs
}

} // verus!
