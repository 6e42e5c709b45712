//! The name-resolution stage over a parsed program.
//!
//! Every binding gets a fresh symbol in the innermost scope; blocks, lambdas
//! and match arms open scopes of their own. A definition's value is resolved
//! before its pattern is bound, so an initializer sees the previous binding
//! of a name, except that a lambda defined directly sees its own name and
//! can call itself; the parameters of a function type bind nothing. Each
//! use of a name (as a value or as a named type) that no scope declares is
//! reported, and so is each use of a type name as a value.
use vstd::prelude::*;
use std::ops::Range;
use crate::compile::CompileDiagnostic;
use crate::text::{chars_of, push_all, string_of};
use crate::parser::{lemma_nodes_view, nodes_view, SyntaxKind, SyntaxNode, SyntaxView};
use crate::resolver::{builtin_scope, scope_with, stack_get, SymbolResolver, SymbolView};

verus! {

/// The state of resolution: the scopes, innermost last, the number of the
/// last symbol handed out, and the numbers of the symbols that name types.
pub struct ScopeState {
    pub scopes: Seq<Seq<(Seq<char>, SymbolView)>>,
    pub last: int,
    pub types: Seq<u32>,
}

/// A diagnostic as a value: stage, message, start and end of its span.
pub type DiagView = (Seq<char>, Seq<char>, int, int);

/// The values of a sequence of diagnostics.
pub open spec fn diags(d: Seq<CompileDiagnostic>) -> Seq<DiagView> {
    Seq::new(d.len(), |i: int| (d[i].stage@, d[i].message@, d[i].span.start as int, d[i].span.end as int))
}

/// A resolver together with the numbers of the symbols that name types.
struct Resolution {
    names: SymbolResolver,
    types: Vec<u32>,
}

/// The state of a resolution.
spec fn state_of(r: Resolution) -> ScopeState {
    ScopeState { scopes: r.names.scopes(), last: r.names.last_id() as int, types: r.types@ }
}

/// The state before anything is resolved: the builtin names only.
pub open spec fn start_state() -> ScopeState {
    ScopeState { scopes: seq![builtin_scope()], last: 22, types: Seq::empty() }
}

/// `name` bound to a fresh symbol in the innermost scope.
pub open spec fn declared(st: ScopeState, name: Seq<char>) -> ScopeState {
    ScopeState {
        scopes: st.scopes.update(
            st.scopes.len() - 1,
            scope_with(st.scopes.last(), name, SymbolView { id: (st.last + 1) as u32, name }),
        ),
        last: st.last + 1,
        types: st.types,
    }
}

/// The last symbol handed out recorded as naming a type.
pub open spec fn typed(st: ScopeState) -> ScopeState {
    ScopeState { scopes: st.scopes, last: st.last, types: st.types.push(st.last as u32) }
}

/// A new innermost scope opened.
pub open spec fn entered(st: ScopeState) -> ScopeState {
    ScopeState { scopes: st.scopes.push(Seq::empty()), last: st.last, types: st.types }
}

/// The innermost scope closed.
pub open spec fn left(st: ScopeState) -> ScopeState {
    ScopeState { scopes: st.scopes.drop_last(), last: st.last, types: st.types }
}

/// The message for a name no scope declares.
pub open spec fn undefined_message(name: Seq<char>) -> Seq<char> {
    "undefined name `"@ + name + "`"@
}

/// The message for a type name used as a value.
pub open spec fn type_as_value_message(name: Seq<char>) -> Seq<char> {
    "type `"@ + name + "` used as a value"@
}

/// The report of a use of a name as a type: nothing when a scope declares
/// it.
pub open spec fn type_use(n: SyntaxView, st: ScopeState) -> Seq<DiagView> {
    if stack_get(st.scopes, n.text) is Some {
        Seq::empty()
    } else {
        seq![("symbol resolver"@, undefined_message(n.text), n.span.0, n.span.1)]
    }
}

/// The report of a use of a name as a value: nothing when a scope declares
/// it as a value.
pub open spec fn value_use(n: SyntaxView, st: ScopeState) -> Seq<DiagView> {
    match stack_get(st.scopes, n.text) {
        None => seq![("symbol resolver"@, undefined_message(n.text), n.span.0, n.span.1)],
        Some(sym) => if st.types.contains(sym.id) {
            seq![("symbol resolver"@, type_as_value_message(n.text), n.span.0, n.span.1)]
        } else {
            Seq::empty()
        },
    }
}

/// The number of nodes of a tree.
pub open spec fn size(n: SyntaxView) -> nat
    decreases n,
{
    1 + sizes(n.children)
}

/// The number of nodes of a sequence of trees.
pub open spec fn sizes(ns: Seq<SyntaxView>) -> nat
    decreases ns,
{
    if ns.len() == 0 {
        0
    } else {
        sizes(ns.drop_last()) + size(ns.last())
    }
}

/// The bindings of a pattern declared in turn.
pub open spec fn declare_pattern(p: SyntaxView, st: ScopeState) -> ScopeState
    decreases p,
{
    match p.kind {
        SyntaxKind::Binding => declared(st, p.text),
        SyntaxKind::ObjectPattern | SyntaxKind::ArrayPattern | SyntaxKind::Field => declare_patterns(
            p.children,
            st,
        ),
        _ => st,
    }
}

/// The bindings of a sequence of patterns, first to last.
pub open spec fn declare_patterns(ps: Seq<SyntaxView>, st: ScopeState) -> ScopeState
    decreases ps,
{
    if ps.len() == 0 {
        st
    } else {
        declare_pattern(ps.last(), declare_patterns(ps.drop_last(), st))
    }
}

/// Resolution of a tree: the state after it and the reports, in order.
pub open spec fn resolve(n: SyntaxView, st: ScopeState) -> (ScopeState, Seq<DiagView>)
    decreases n,
{
    match n.kind {
        SyntaxKind::Import => if n.children.len() == 1 {
            (declare_pattern(n.children[0], st), Seq::empty())
        } else {
            resolve_all(n.children, st)
        },
        SyntaxKind::Export | SyntaxKind::Definition => if n.children.len() == 2 {
            if n.children[1].kind == SyntaxKind::Lambda {
                resolve(n.children[1], declare_pattern(n.children[0], st))
            } else {
                let r = resolve(n.children[1], st);
                (declare_pattern(n.children[0], r.0), r.1)
            }
        } else {
            resolve_all(n.children, st)
        },
        SyntaxKind::TypeDefinition => resolve_all(n.children, typed(declared(st, n.text))),
        SyntaxKind::Ident => (st, value_use(n, st)),
        SyntaxKind::NamedType => (st, type_use(n, st)),
        SyntaxKind::Block => {
            let r = resolve_all(n.children, entered(st));
            (left(r.0), r.1)
        },
        SyntaxKind::Lambda => {
            let r = resolve_lambda(n.children, entered(st));
            (left(r.0), r.1)
        },
        SyntaxKind::Arm => if n.children.len() == 3 {
            let s = declare_pattern(n.children[0], entered(st));
            let c = resolve(n.children[1], s);
            let x = resolve(n.children[2], c.0);
            (left(x.0), c.1 + x.1)
        } else {
            resolve_all(n.children, st)
        },
        _ => resolve_all(n.children, st),
    }
}

/// Resolution of a sequence of trees, first to last.
pub open spec fn resolve_all(ns: Seq<SyntaxView>, st: ScopeState) -> (ScopeState, Seq<DiagView>)
    decreases ns,
{
    if ns.len() == 0 {
        (st, Seq::empty())
    } else {
        let a = resolve_all(ns.drop_last(), st);
        let b = resolve(ns.last(), a.0);
        (b.0, a.1 + b.1)
    }
}

/// Resolution of the parts of a lambda: each parameter is bound, then its
/// type resolved; the body is resolved last.
pub open spec fn resolve_lambda(ns: Seq<SyntaxView>, st: ScopeState) -> (ScopeState, Seq<DiagView>)
    decreases ns,
{
    if ns.len() == 0 {
        (st, Seq::empty())
    } else {
        let a = resolve_lambda(ns.drop_last(), st);
        let c = ns.last();
        let b = if c.kind == SyntaxKind::Param {
            resolve_all(c.children, declared(a.0, c.text))
        } else {
            resolve(c, a.0)
        };
        (b.0, a.1 + b.1)
    }
}

/// `b` has the scopes of `a` but for the innermost one, and has handed out
/// no fewer symbols.
pub open spec fn keeps_outer(a: ScopeState, b: ScopeState) -> bool {
    &&& b.scopes.len() == a.scopes.len()
    &&& forall|i: int| 0 <= i < a.scopes.len() - 1 ==> #[trigger] b.scopes[i] == a.scopes[i]
    &&& a.last <= b.last
}

proof fn lemma_keeps_outer_trans(a: ScopeState, b: ScopeState, c: ScopeState)
    requires
        keeps_outer(a, b),
        keeps_outer(b, c),
    ensures
        keeps_outer(a, c),
{
    assert forall|i: int| 0 <= i < a.scopes.len() - 1 implies #[trigger] c.scopes[i] == a.scopes[i] by {
        assert(c.scopes[i] == b.scopes[i]);
    }
}

proof fn lemma_scope_closed(st: ScopeState, inner: ScopeState)
    requires
        st.scopes.len() >= 1,
        keeps_outer(entered(st), inner),
    ensures
        keeps_outer(st, left(inner)),
        left(inner).scopes == st.scopes,
{
    assert(left(inner).scopes =~= st.scopes) by {
        assert forall|i: int| 0 <= i < st.scopes.len() implies #[trigger] left(inner).scopes[i] == st.scopes[i] by {
            assert(inner.scopes[i] == entered(st).scopes[i]);
        }
    }
}

proof fn lemma_declare_pattern_keeps(p: SyntaxView, st: ScopeState)
    requires
        st.scopes.len() >= 1,
    ensures
        keeps_outer(st, declare_pattern(p, st)),
    decreases p,
{
    match p.kind {
        SyntaxKind::Binding => {},
        SyntaxKind::ObjectPattern | SyntaxKind::ArrayPattern | SyntaxKind::Field => {
            lemma_declare_patterns_keeps(p.children, st);
        },
        _ => {},
    }
}

proof fn lemma_declare_patterns_keeps(ps: Seq<SyntaxView>, st: ScopeState)
    requires
        st.scopes.len() >= 1,
    ensures
        keeps_outer(st, declare_patterns(ps, st)),
    decreases ps,
{
    if ps.len() > 0 {
        let mid = declare_patterns(ps.drop_last(), st);
        lemma_declare_patterns_keeps(ps.drop_last(), st);
        lemma_declare_pattern_keeps(ps.last(), mid);
        lemma_keeps_outer_trans(st, mid, declare_pattern(ps.last(), mid));
    }
}

/// Resolving a tree changes only the innermost scope: every scope it opens
/// (for a block, a lambda or a match arm) it closes again.
pub proof fn lemma_resolve_keeps_outer(n: SyntaxView, st: ScopeState)
    requires
        st.scopes.len() >= 1,
    ensures
        keeps_outer(st, resolve(n, st).0),
    decreases n,
{
    match n.kind {
        SyntaxKind::Import => if n.children.len() == 1 {
            lemma_declare_pattern_keeps(n.children[0], st);
        } else {
            lemma_resolve_all_keeps_outer(n.children, st);
        },
        SyntaxKind::Export | SyntaxKind::Definition => if n.children.len() == 2 {
            if n.children[1].kind == SyntaxKind::Lambda {
                let s = declare_pattern(n.children[0], st);
                lemma_declare_pattern_keeps(n.children[0], st);
                lemma_resolve_keeps_outer(n.children[1], s);
                lemma_keeps_outer_trans(st, s, resolve(n.children[1], s).0);
            } else {
                let r = resolve(n.children[1], st);
                lemma_resolve_keeps_outer(n.children[1], st);
                lemma_declare_pattern_keeps(n.children[0], r.0);
                lemma_keeps_outer_trans(st, r.0, declare_pattern(n.children[0], r.0));
            }
        } else {
            lemma_resolve_all_keeps_outer(n.children, st);
        },
        SyntaxKind::TypeDefinition => {
            lemma_resolve_all_keeps_outer(n.children, typed(declared(st, n.text)));
            lemma_keeps_outer_trans(st, typed(declared(st, n.text)), resolve(n, st).0);
        },
        SyntaxKind::Ident | SyntaxKind::NamedType => {},
        SyntaxKind::Block => {
            lemma_resolve_all_keeps_outer(n.children, entered(st));
            lemma_scope_closed(st, resolve_all(n.children, entered(st)).0);
        },
        SyntaxKind::Lambda => {
            lemma_resolve_lambda_keeps_outer(n.children, entered(st));
            lemma_scope_closed(st, resolve_lambda(n.children, entered(st)).0);
        },
        SyntaxKind::Arm => if n.children.len() == 3 {
            let s = declare_pattern(n.children[0], entered(st));
            let c = resolve(n.children[1], s);
            let x = resolve(n.children[2], c.0);
            lemma_declare_pattern_keeps(n.children[0], entered(st));
            lemma_resolve_keeps_outer(n.children[1], s);
            lemma_resolve_keeps_outer(n.children[2], c.0);
            lemma_keeps_outer_trans(entered(st), s, c.0);
            lemma_keeps_outer_trans(entered(st), c.0, x.0);
            lemma_scope_closed(st, x.0);
        } else {
            lemma_resolve_all_keeps_outer(n.children, st);
        },
        _ => {
            lemma_resolve_all_keeps_outer(n.children, st);
        },
    }
}

proof fn lemma_resolve_all_keeps_outer(ns: Seq<SyntaxView>, st: ScopeState)
    requires
        st.scopes.len() >= 1,
    ensures
        keeps_outer(st, resolve_all(ns, st).0),
    decreases ns,
{
    if ns.len() > 0 {
        let a = resolve_all(ns.drop_last(), st);
        lemma_resolve_all_keeps_outer(ns.drop_last(), st);
        lemma_resolve_keeps_outer(ns.last(), a.0);
        lemma_keeps_outer_trans(st, a.0, resolve(ns.last(), a.0).0);
    }
}

proof fn lemma_resolve_lambda_keeps_outer(ns: Seq<SyntaxView>, st: ScopeState)
    requires
        st.scopes.len() >= 1,
    ensures
        keeps_outer(st, resolve_lambda(ns, st).0),
    decreases ns,
{
    if ns.len() > 0 {
        let a = resolve_lambda(ns.drop_last(), st);
        lemma_resolve_lambda_keeps_outer(ns.drop_last(), st);
        let c = ns.last();
        if c.kind == SyntaxKind::Param {
            lemma_resolve_all_keeps_outer(c.children, declared(a.0, c.text));
            lemma_keeps_outer_trans(a.0, declared(a.0, c.text), resolve_all(c.children, declared(a.0, c.text)).0);
            lemma_keeps_outer_trans(st, a.0, resolve_lambda(ns, st).0);
        } else {
            lemma_resolve_keeps_outer(c, a.0);
            lemma_keeps_outer_trans(st, a.0, resolve(c, a.0).0);
        }
    }
}

/// What a block, a lambda or a match arm declares stays inside it: after
/// it, every name refers to what it referred to before.
pub proof fn lemma_inner_declarations_do_not_leak(n: SyntaxView, st: ScopeState, name: Seq<char>)
    requires
        st.scopes.len() >= 1,
        n.kind == SyntaxKind::Block || n.kind == SyntaxKind::Lambda || (n.kind == SyntaxKind::Arm
            && n.children.len() == 3),
    ensures
        resolve(n, st).0.scopes == st.scopes,
        stack_get(resolve(n, st).0.scopes, name) == stack_get(st.scopes, name),
{
    lemma_resolve_keeps_outer(n, st);
    if n.kind == SyntaxKind::Block {
        lemma_resolve_all_keeps_outer(n.children, entered(st));
        lemma_scope_closed(st, resolve_all(n.children, entered(st)).0);
    } else if n.kind == SyntaxKind::Lambda {
        lemma_resolve_lambda_keeps_outer(n.children, entered(st));
        lemma_scope_closed(st, resolve_lambda(n.children, entered(st)).0);
    } else {
        let s = declare_pattern(n.children[0], entered(st));
        let c = resolve(n.children[1], s);
        let x = resolve(n.children[2], c.0);
        lemma_declare_pattern_keeps(n.children[0], entered(st));
        lemma_resolve_keeps_outer(n.children[1], s);
        lemma_resolve_keeps_outer(n.children[2], c.0);
        lemma_keeps_outer_trans(entered(st), s, c.0);
        lemma_keeps_outer_trans(entered(st), c.0, x.0);
        lemma_scope_closed(st, x.0);
    }
}

proof fn lemma_sizes_step(ns: Seq<SyntaxView>, i: int)
    requires
        0 <= i < ns.len(),
    ensures
        sizes(ns.take(i + 1)) == sizes(ns.take(i)) + size(ns[i]),
        sizes(ns.take(i + 1)) <= sizes(ns),
{
    assert(ns.take(i + 1).drop_last() =~= ns.take(i));
    lemma_sizes_prefix(ns, i + 1);
}

proof fn lemma_sizes_prefix(ns: Seq<SyntaxView>, k: int)
    requires
        0 <= k <= ns.len(),
    ensures
        sizes(ns.take(k)) <= sizes(ns),
    decreases ns.len(),
{
    if k < ns.len() {
        assert(ns.drop_last().take(k) =~= ns.take(k));
        lemma_sizes_prefix(ns.drop_last(), k);
    } else {
        assert(ns.take(k) =~= ns);
    }
}

proof fn lemma_sizes_parts(ns: Seq<SyntaxView>)
    ensures
        ns.len() >= 1 ==> sizes(ns) >= size(ns[0]),
        ns.len() >= 2 ==> sizes(ns) >= size(ns[0]) + size(ns[1]),
        ns.len() >= 3 ==> sizes(ns) >= size(ns[0]) + size(ns[1]) + size(ns[2]),
{
    assert(ns.take(0) =~= Seq::<SyntaxView>::empty());
    if ns.len() >= 1 {
        lemma_sizes_step(ns, 0);
    }
    if ns.len() >= 2 {
        lemma_sizes_step(ns, 1);
    }
    if ns.len() >= 3 {
        lemma_sizes_step(ns, 2);
    }
}

proof fn lemma_take_all(ns: Seq<SyntaxView>)
    ensures
        ns.take(ns.len() as int) == ns,
{
    assert(ns.take(ns.len() as int) =~= ns);
}

fn report_type_use(res: &Resolution, n: &SyntaxNode, errs: &mut Vec<CompileDiagnostic>)
    ensures
        diags(final(errs)@) == diags(old(errs)@) + type_use(n.view(), state_of(*res)),
{
    let (_, mut messages) = res.names.resolve_name(n.text.as_str()).into_parts();
    let ghost before = old(errs)@;
    if messages.len() > 0 {
        let message = messages.remove(0);
        errs.push(
            CompileDiagnostic {
                stage: "symbol resolver",
                message,
                span: Range { start: n.span.start, end: n.span.end },
            },
        );
    }
    assert(diags(errs@) =~= diags(before) + type_use(n.view(), state_of(*res)));
}

fn names_type(types: &Vec<u32>, id: u32) -> (r: bool)
    ensures
        r == types@.contains(id),
{
    let mut i: usize = 0;
    while i < types.len()
        invariant
            i <= types@.len(),
            forall|j: int| 0 <= j < i ==> types@[j] != id,
        decreases types@.len() - i,
    {
        if types[i] == id {
            assert(types@[i as int] == id);
            return true;
        }
        i = i + 1;
    }
    false
}

fn report_value_use(res: &Resolution, n: &SyntaxNode, errs: &mut Vec<CompileDiagnostic>)
    ensures
        diags(final(errs)@) == diags(old(errs)@) + value_use(n.view(), state_of(*res)),
{
    let (symbol, mut messages) = res.names.resolve_name(n.text.as_str()).into_parts();
    let ghost before = old(errs)@;
    match symbol {
        Some(sym) => {
            if names_type(&res.types, sym.id) {
                let mut out = chars_of("type `");
                let name = chars_of(n.text.as_str());
                push_all(&mut out, name.as_slice());
                let tail = chars_of("` used as a value");
                push_all(&mut out, tail.as_slice());
                errs.push(
                    CompileDiagnostic {
                        stage: "symbol resolver",
                        message: string_of(out.as_slice()),
                        span: Range { start: n.span.start, end: n.span.end },
                    },
                );
            }
        },
        None => {
            let message = messages.remove(0);
            errs.push(
                CompileDiagnostic {
                    stage: "symbol resolver",
                    message,
                    span: Range { start: n.span.start, end: n.span.end },
                },
            );
        },
    }
    assert(diags(errs@) =~= diags(before) + value_use(n.view(), state_of(*res)));
}

fn declare_pattern_exec(res: &mut Resolution, p: &SyntaxNode)
    requires
        old(res).names.wf(),
        old(res).names.last_id() + size(p.view()) < u32::MAX,
    ensures
        final(res).names.wf(),
        state_of(*final(res)) == declare_pattern(p.view(), state_of(*old(res))),
        final(res).names.last_id() <= old(res).names.last_id() + size(p.view()),
        final(res).names.scopes().len() == old(res).names.scopes().len(),
    decreases p,
{
    proof {
        res.names.lemma_has_scope();
    }
    match p.kind {
        SyntaxKind::Binding => {
            res.names.declare(p.text.clone());
        },
        SyntaxKind::ObjectPattern | SyntaxKind::ArrayPattern | SyntaxKind::Field => {
            let ghost cs = nodes_view(p.children@);
            let ghost st0 = state_of(*res);
            let ghost last0 = res.names.last_id() as int;
            proof {
                lemma_nodes_view(p.children@);
            }
            let mut i: usize = 0;
            while i < p.children.len()
                invariant
                    cs == nodes_view(p.children@),
                    cs.len() == p.children@.len(),
                    forall|k: int| 0 <= k < cs.len() ==> #[trigger] cs[k] == p.children@[k].view(),
                    i <= cs.len(),
                    res.names.wf(),
                    state_of(*res) == declare_patterns(cs.take(i as int), st0),
                    res.names.last_id() <= last0 + sizes(cs.take(i as int)),
                    last0 + sizes(cs) < u32::MAX,
                    res.names.scopes().len() == st0.scopes.len(),
                decreases cs.len() - i,
            {
                proof {
                    lemma_sizes_step(cs, i as int);
                    assert(cs.take(i + 1).drop_last() =~= cs.take(i as int));
                }
                declare_pattern_exec(res, &p.children[i]);
                i = i + 1;
            }
            proof {
                lemma_take_all(cs);
            }
        },
        _ => {},
    }
}

fn resolve_children(res: &mut Resolution, cs: &Vec<SyntaxNode>, errs: &mut Vec<CompileDiagnostic>)
    requires
        old(res).names.wf(),
        old(res).names.last_id() + sizes(nodes_view(cs@)) < u32::MAX,
    ensures
        final(res).names.wf(),
        state_of(*final(res)) == resolve_all(nodes_view(cs@), state_of(*old(res))).0,
        diags(final(errs)@) == diags(old(errs)@) + resolve_all(nodes_view(cs@), state_of(*old(res))).1,
        final(res).names.last_id() <= old(res).names.last_id() + sizes(nodes_view(cs@)),
        final(res).names.scopes().len() == old(res).names.scopes().len(),
    decreases cs,
{
    let ghost vs = nodes_view(cs@);
    let ghost st0 = state_of(*res);
    let ghost last0 = res.names.last_id() as int;
    let ghost e0 = diags(errs@);
    proof {
        lemma_nodes_view(cs@);
    }
    let mut i: usize = 0;
    while i < cs.len()
        invariant
            vs == nodes_view(cs@),
            vs.len() == cs@.len(),
            forall|k: int| 0 <= k < vs.len() ==> #[trigger] vs[k] == cs@[k].view(),
            i <= vs.len(),
            res.names.wf(),
            state_of(*res) == resolve_all(vs.take(i as int), st0).0,
            diags(errs@) == e0 + resolve_all(vs.take(i as int), st0).1,
            res.names.last_id() <= last0 + sizes(vs.take(i as int)),
            last0 + sizes(vs) < u32::MAX,
            res.names.scopes().len() == st0.scopes.len(),
        decreases vs.len() - i,
    {
        proof {
            lemma_sizes_step(vs, i as int);
            assert(vs.take(i + 1).drop_last() =~= vs.take(i as int));
        }
        resolve_node(res, &cs[i], errs);
        proof {
            assert(diags(errs@) =~= e0 + resolve_all(vs.take(i + 1), st0).1);
        }
        i = i + 1;
    }
    proof {
        lemma_take_all(vs);
    }
}

fn resolve_lambda_parts(res: &mut Resolution, cs: &Vec<SyntaxNode>, errs: &mut Vec<CompileDiagnostic>)
    requires
        old(res).names.wf(),
        old(res).names.last_id() + sizes(nodes_view(cs@)) < u32::MAX,
    ensures
        final(res).names.wf(),
        state_of(*final(res)) == resolve_lambda(nodes_view(cs@), state_of(*old(res))).0,
        diags(final(errs)@) == diags(old(errs)@) + resolve_lambda(nodes_view(cs@), state_of(*old(res))).1,
        final(res).names.last_id() <= old(res).names.last_id() + sizes(nodes_view(cs@)),
        final(res).names.scopes().len() == old(res).names.scopes().len(),
    decreases cs,
{
    let ghost vs = nodes_view(cs@);
    let ghost st0 = state_of(*res);
    let ghost last0 = res.names.last_id() as int;
    let ghost e0 = diags(errs@);
    proof {
        lemma_nodes_view(cs@);
    }
    let mut i: usize = 0;
    while i < cs.len()
        invariant
            vs == nodes_view(cs@),
            vs.len() == cs@.len(),
            forall|k: int| 0 <= k < vs.len() ==> #[trigger] vs[k] == cs@[k].view(),
            i <= vs.len(),
            res.names.wf(),
            state_of(*res) == resolve_lambda(vs.take(i as int), st0).0,
            diags(errs@) == e0 + resolve_lambda(vs.take(i as int), st0).1,
            res.names.last_id() <= last0 + sizes(vs.take(i as int)),
            last0 + sizes(vs) < u32::MAX,
            res.names.scopes().len() == st0.scopes.len(),
        decreases vs.len() - i,
    {
        proof {
            lemma_sizes_step(vs, i as int);
            assert(vs.take(i + 1).drop_last() =~= vs.take(i as int));
        }
        let c = &cs[i];
        proof {
            res.names.lemma_has_scope();
        }
        if c.kind == SyntaxKind::Param {
            res.names.declare(c.text.clone());
            resolve_children(res, &c.children, errs);
        } else {
            resolve_node(res, c, errs);
        }
        proof {
            assert(diags(errs@) =~= e0 + resolve_lambda(vs.take(i + 1), st0).1);
        }
        i = i + 1;
    }
    proof {
        lemma_take_all(vs);
    }
}

fn resolve_node(res: &mut Resolution, n: &SyntaxNode, errs: &mut Vec<CompileDiagnostic>)
    requires
        old(res).names.wf(),
        old(res).names.last_id() + size(n.view()) < u32::MAX,
    ensures
        final(res).names.wf(),
        state_of(*final(res)) == resolve(n.view(), state_of(*old(res))).0,
        diags(final(errs)@) == diags(old(errs)@) + resolve(n.view(), state_of(*old(res))).1,
        final(res).names.last_id() <= old(res).names.last_id() + size(n.view()),
        final(res).names.scopes().len() == old(res).names.scopes().len(),
    decreases n,
{
    let ghost v = n.view();
    let ghost cs = nodes_view(n.children@);
    proof {
        lemma_nodes_view(n.children@);
        res.names.lemma_has_scope();
    }
    let len = n.children.len();
    let k = n.kind;
    if k == SyntaxKind::Import && len == 1 {
        proof {
            lemma_sizes_parts(cs);
        }
        declare_pattern_exec(res, &n.children[0]);
        assert(diags(errs@) =~= diags(old(errs)@) + Seq::<DiagView>::empty());
    } else if (k == SyntaxKind::Export || k == SyntaxKind::Definition) && len == 2 {
        proof {
            lemma_sizes_parts(cs);
        }
        if n.children[1].kind == SyntaxKind::Lambda {
            declare_pattern_exec(res, &n.children[0]);
            resolve_node(res, &n.children[1], errs);
        } else {
            resolve_node(res, &n.children[1], errs);
            declare_pattern_exec(res, &n.children[0]);
        }
    } else if k == SyntaxKind::TypeDefinition {
        let symbol = res.names.declare(n.text.clone());
        res.types.push(symbol.id);
        resolve_children(res, &n.children, errs);
    } else if k == SyntaxKind::Ident {
        report_value_use(res, n, errs);
    } else if k == SyntaxKind::NamedType {
        report_type_use(res, n, errs);
    } else if k == SyntaxKind::Block {
        res.names.enter_scope();
        resolve_children(res, &n.children, errs);
        res.names.leave_scope();
    } else if k == SyntaxKind::Lambda {
        res.names.enter_scope();
        resolve_lambda_parts(res, &n.children, errs);
        res.names.leave_scope();
    } else if k == SyntaxKind::Arm && len == 3 {
        proof {
            lemma_sizes_parts(cs);
        }
        let ghost e0 = diags(errs@);
        res.names.enter_scope();
        declare_pattern_exec(res, &n.children[0]);
        resolve_node(res, &n.children[1], errs);
        resolve_node(res, &n.children[2], errs);
        res.names.leave_scope();
        proof {
            assert(diags(errs@) =~= e0 + (resolve(v, state_of(*old(res))).1));
        }
    } else {
        resolve_children(res, &n.children, errs);
    }
}

/// Resolves the names of a parsed program, from the builtin names, and
/// returns what it reports, in the order of the source: each use of a name
/// that no scope declares, and each use of a type name as a value.
pub fn resolve_program(items: &Vec<SyntaxNode>) -> (r: Vec<CompileDiagnostic>)
    requires
        22 + sizes(nodes_view(items@)) < u32::MAX,
    ensures
        diags(r@) == resolve_all(nodes_view(items@), start_state()).1,
{
    let mut res = Resolution { names: SymbolResolver::new(), types: Vec::new() };
    let mut errs: Vec<CompileDiagnostic> = Vec::new();
    assert(diags(errs@) =~= Seq::<DiagView>::empty());
    resolve_children(&mut res, items, &mut errs);
    assert(diags(errs@) =~= resolve_all(nodes_view(items@), start_state()).1);
    errs
}

} // verus!
