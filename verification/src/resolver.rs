//! Name resolution scopes: every binding gets a fresh symbol, and a name
//! refers to the binding of the innermost scope that declares it.
use vstd::prelude::*;
use crate::results::Results;
use crate::text::{chars_of, push_all, str_eq, string_of};

verus! {

/// A declared name with its unique number.
#[derive(Debug)]
pub struct Symbol {
    pub id: u32,
    pub name: String,
}

/// The marker of syntax trees whose names have been resolved to symbols.
#[derive(Debug)]
pub struct SymbolNode;

/// The mathematical value of a [`Symbol`].
pub struct SymbolView {
    pub id: u32,
    pub name: Seq<char>,
}

impl Symbol {
    pub open spec fn view(&self) -> SymbolView {
        SymbolView { id: self.id, name: self.name@ }
    }

    /// A copy of the symbol.
    pub fn duplicate(&self) -> (r: Symbol)
        ensures
            r.view() == self.view(),
    {
        Symbol { id: self.id, name: self.name.clone() }
    }
}

impl Clone for Symbol {
    fn clone(&self) -> (r: Self)
        ensures
            r.view() == self.view(),
    {
        self.duplicate()
    }
}

/// One scope: the symbol of each name declared in it.
pub open spec fn scope_view(scope: Seq<(String, Symbol)>) -> Seq<(Seq<char>, SymbolView)> {
    Seq::new(scope.len(), |i: int| (scope[i].0@, scope[i].1.view()))
}

/// The symbol a scope gives to `name`: that of its first entry for it.
pub open spec fn scope_get(scope: Seq<(Seq<char>, SymbolView)>, name: Seq<char>) -> Option<SymbolView>
    decreases scope.len(),
{
    if scope.len() == 0 {
        None
    } else {
        match scope_get(scope.drop_last(), name) {
            Some(s) => Some(s),
            None => if scope.last().0 == name {
                Some(scope.last().1)
            } else {
                None
            },
        }
    }
}

/// The symbol `name` refers to in a stack of scopes: that of the innermost
/// scope declaring it.
pub open spec fn stack_get(scopes: Seq<Seq<(Seq<char>, SymbolView)>>, name: Seq<char>) -> Option<
    SymbolView,
>
    decreases scopes.len(),
{
    if scopes.len() == 0 {
        None
    } else {
        match scope_get(scopes.last(), name) {
            Some(s) => Some(s),
            None => stack_get(scopes.drop_last(), name),
        }
    }
}

/// A scope after binding `name` to `symbol`: the entry for `name` is
/// replaced, or a new entry added at the end.
pub open spec fn scope_with(scope: Seq<(Seq<char>, SymbolView)>, name: Seq<char>, symbol: SymbolView) -> Seq<
    (Seq<char>, SymbolView),
> {
    match scope_index(scope, name) {
        Some(i) => scope.update(i, (name, symbol)),
        None => scope.push((name, symbol)),
    }
}

/// The index of the first entry of a scope for `name`.
pub open spec fn scope_index(scope: Seq<(Seq<char>, SymbolView)>, name: Seq<char>) -> Option<int>
    decreases scope.len(),
{
    if scope.len() == 0 {
        None
    } else {
        match scope_index(scope.drop_last(), name) {
            Some(i) => Some(i),
            None => if scope.last().0 == name {
                Some(scope.len() - 1)
            } else {
                None
            },
        }
    }
}

pub proof fn lemma_scope_index(scope: Seq<(Seq<char>, SymbolView)>, name: Seq<char>)
    ensures
        match scope_index(scope, name) {
            Some(i) => 0 <= i < scope.len() && scope[i].0 == name && scope_get(scope, name) == Some(
                scope[i].1,
            ) && forall|j: int| 0 <= j < i ==> scope[j].0 != name,
            None => scope_get(scope, name) is None && forall|j: int|
                0 <= j < scope.len() ==> scope[j].0 != name,
        },
    decreases scope.len(),
{
    if scope.len() > 0 {
        lemma_scope_index(scope.drop_last(), name);
        match scope_index(scope.drop_last(), name) {
            Some(i) => {
                assert(scope.drop_last()[i] == scope[i]);
                assert forall|j: int| 0 <= j < i implies scope[j].0 != name by {
                    assert(scope.drop_last()[j] == scope[j]);
                }
            },
            None => {
                assert forall|j: int| 0 <= j < scope.len() - 1 implies scope[j].0 != name by {
                    assert(scope.drop_last()[j] == scope[j]);
                }
            },
        }
    }
}

/// The first entry for a name decides what the scope gives to it.
proof fn lemma_scope_get_first(scope: Seq<(Seq<char>, SymbolView)>, name: Seq<char>, i: int)
    requires
        0 <= i < scope.len(),
        scope[i].0 == name,
        forall|j: int| 0 <= j < i ==> scope[j].0 != name,
    ensures
        scope_get(scope, name) == Some(scope[i].1),
{
    lemma_scope_index(scope, name);
    match scope_index(scope, name) {
        Some(k) => {
            if k < i {
                assert(scope[k].0 != name);
            }
            if k > i {
                assert(scope[i].0 != name);
            }
        },
        None => {
            assert(scope[i].0 != name);
        },
    }
}

/// Binding `name` in a scope makes the scope give `symbol` to `name` and
/// leaves what it gives to every other name unchanged.
pub proof fn lemma_scope_with(
    scope: Seq<(Seq<char>, SymbolView)>,
    name: Seq<char>,
    symbol: SymbolView,
    other: Seq<char>,
)
    ensures
        scope_get(scope_with(scope, name, symbol), name) == Some(symbol),
        other != name ==> scope_get(scope_with(scope, name, symbol), other) == scope_get(
            scope,
            other,
        ),
{
    lemma_scope_index(scope, name);
    lemma_scope_index(scope, other);
    let s2 = scope_with(scope, name, symbol);
    match scope_index(scope, name) {
        Some(i) => {
            lemma_scope_get_first(s2, name, i);
        },
        None => {
            lemma_scope_get_first(s2, name, scope.len() as int);
        },
    }
    if other != name {
        lemma_scope_index(s2, other);
        match scope_index(scope, other) {
            Some(k) => {
                lemma_scope_get_first(s2, other, k);
            },
            None => {
                assert forall|j: int| 0 <= j < s2.len() implies s2[j].0 != other by {
                    if j < scope.len() {
                        if Some(j) != scope_index(scope, name) {
                            assert(s2[j] == scope[j]);
                        }
                    }
                }
                match scope_index(s2, other) {
                    Some(k) => {
                        assert(s2[k].0 != other);
                    },
                    None => {},
                }
            },
        }
    }
}

/// A stack of scopes with a fresh-symbol counter.
pub struct SymbolResolver {
    scopes: Vec<Vec<(String, Symbol)>>,
    next_symbol: u32,
}

/// The builtin names, whose symbols are numbered from zero in this order.
pub open spec fn builtin_names() -> Seq<Seq<char>> {
    seq![
        "hook"@,
        "sim"@,
        "use_node"@,
        "use_state"@,
        "use_equation"@,
        "voltage"@,
        "conductance"@,
        "current"@,
        "fix_voltage"@,
        "drive_voltage"@,
        "time"@,
        "delta_time"@,
        "test"@,
        "assert"@,
        "assert_close"@,
        "simulate"@,
        "use_symbol"@,
        "section"@,
        "net"@,
        "display"@,
        "pcb_config"@,
        "ground"@,
        "render"@,
    ]
}

/// The scope of the builtin names, each bound to its number.
pub open spec fn builtin_scope() -> Seq<(Seq<char>, SymbolView)> {
    Seq::new(23, |k: int| (builtin_names()[k], SymbolView { id: k as u32, name: builtin_names()[k] }))
}

/// The builtin names differ from each other.
pub proof fn lemma_builtin_names_distinct(j: int, k: int)
    requires
        0 <= j < 23,
        0 <= k < 23,
        j != k,
    ensures
        builtin_names()[j] != builtin_names()[k],
{
    reveal_strlit("hook");
    reveal_strlit("sim");
    reveal_strlit("use_node");
    reveal_strlit("use_state");
    reveal_strlit("use_equation");
    reveal_strlit("voltage");
    reveal_strlit("conductance");
    reveal_strlit("current");
    reveal_strlit("fix_voltage");
    reveal_strlit("drive_voltage");
    reveal_strlit("time");
    reveal_strlit("delta_time");
    reveal_strlit("test");
    reveal_strlit("assert");
    reveal_strlit("assert_close");
    reveal_strlit("simulate");
    reveal_strlit("use_symbol");
    reveal_strlit("section");
    reveal_strlit("net");
    reveal_strlit("display");
    reveal_strlit("pcb_config");
    reveal_strlit("ground");
    reveal_strlit("render");
    let a = builtin_names()[j];
    let b = builtin_names()[k];
    if a == b {
        assert(a.len() == b.len());
        assert(a[0] == b[0]);
        assert(a[1] == b[1]);
    }
}

impl SymbolResolver {
    /// The scopes, outermost first.
    pub closed spec fn scopes(&self) -> Seq<Seq<(Seq<char>, SymbolView)>> {
        Seq::new(self.scopes@.len(), |i: int| scope_view(self.scopes@[i]@))
    }

    /// The number of the last symbol handed out.
    pub closed spec fn last_id(&self) -> u32 {
        self.next_symbol
    }

    /// There is a scope, and every symbol's number is at most the last one
    /// handed out.
    pub closed spec fn wf(&self) -> bool {
        &&& self.scopes@.len() > 0
        &&& forall|i: int, j: int|
            0 <= i < self.scopes@.len() && 0 <= j < self.scopes@[i]@.len() ==> #[trigger] self.scopes@[i]@[j].1.id
                <= self.next_symbol
    }

    /// The symbol `name` refers to.
    pub open spec fn resolve_spec(&self, name: Seq<char>) -> Option<SymbolView> {
        stack_get(self.scopes(), name)
    }

    /// A resolver whose one scope holds the builtin names.
    pub fn new() -> (r: Self)
        ensures
            r.wf(),
            r.scopes() == seq![builtin_scope()],
            r.scopes().len() == 1,
            r.last_id() == 22,
            forall|k: int|
                0 <= k < 23 ==> #[trigger] r.resolve_spec(builtin_names()[k]) == Some(
                    SymbolView { id: k as u32, name: builtin_names()[k] },
                ),
    {
        let names: [&str; 23] = [
            "hook",
            "sim",
            "use_node",
            "use_state",
            "use_equation",
            "voltage",
            "conductance",
            "current",
            "fix_voltage",
            "drive_voltage",
            "time",
            "delta_time",
            "test",
            "assert",
            "assert_close",
            "simulate",
            "use_symbol",
            "section",
            "net",
            "display",
            "pcb_config",
            "ground",
            "render",
        ];
        let mut builtins: Vec<(String, Symbol)> = Vec::new();
        let mut id: usize = 0;
        while id < 23
            invariant
                id <= 23,
                builtins@.len() == id,
                forall|j: int|
                    0 <= j < id ==> (#[trigger] builtins@[j]).0@ == names@[j]@ && builtins@[j].1.id
                        == j && builtins@[j].1.name@ == names@[j]@,
            decreases 23 - id,
        {
            let name = names[id];
            builtins.push((name.to_owned(), Symbol { id: id as u32, name: name.to_owned() }));
            id = id + 1;
        }
        let mut scopes: Vec<Vec<(String, Symbol)>> = Vec::new();
        scopes.push(builtins);
        let r = SymbolResolver { scopes, next_symbol: 22 };
        proof {
            reveal_strlit("hook");
            reveal_strlit("sim");
            reveal_strlit("use_node");
            reveal_strlit("use_state");
            reveal_strlit("use_equation");
            reveal_strlit("voltage");
            reveal_strlit("conductance");
            reveal_strlit("current");
            reveal_strlit("fix_voltage");
            reveal_strlit("drive_voltage");
            reveal_strlit("time");
            reveal_strlit("delta_time");
            reveal_strlit("test");
            reveal_strlit("assert");
            reveal_strlit("assert_close");
            reveal_strlit("simulate");
            reveal_strlit("use_symbol");
            reveal_strlit("section");
            reveal_strlit("net");
            reveal_strlit("display");
            reveal_strlit("pcb_config");
            reveal_strlit("ground");
            reveal_strlit("render");
            let scope = scope_view(builtins@);
            assert(r.scopes().drop_last() =~= Seq::<Seq<(Seq<char>, SymbolView)>>::empty());
            assert(names@.len() == 23);
            assert forall|k: int| 0 <= k < 23 implies builtin_names()[k] == names@[k]@ by {
                assert(names@[0] == "hook");
                assert(names@[1] == "sim");
                assert(names@[2] == "use_node");
                assert(names@[3] == "use_state");
                assert(names@[4] == "use_equation");
                assert(names@[5] == "voltage");
                assert(names@[6] == "conductance");
                assert(names@[7] == "current");
                assert(names@[8] == "fix_voltage");
                assert(names@[9] == "drive_voltage");
                assert(names@[10] == "time");
                assert(names@[11] == "delta_time");
                assert(names@[12] == "test");
                assert(names@[13] == "assert");
                assert(names@[14] == "assert_close");
                assert(names@[15] == "simulate");
                assert(names@[16] == "use_symbol");
                assert(names@[17] == "section");
                assert(names@[18] == "net");
                assert(names@[19] == "display");
                assert(names@[20] == "pcb_config");
                assert(names@[21] == "ground");
                assert(names@[22] == "render");
            }
            assert forall|k: int| 0 <= k < 23 implies #[trigger] r.resolve_spec(builtin_names()[k])
                == Some(SymbolView { id: k as u32, name: builtin_names()[k] }) by {
                assert forall|j: int| 0 <= j < k implies scope[j].0 != builtin_names()[k] by {
                    assert(scope[j].0 == builtin_names()[j]);
                    lemma_builtin_names_distinct(j, k);
                }
                lemma_scope_get_first(scope, builtin_names()[k], k);
                assert(r.scopes().last() == scope);
            }
            assert(scope =~= builtin_scope());
            assert(r.scopes() =~= seq![builtin_scope()]);
        }
        r
    }
}


/// What a stack of scopes gives to every name other than `name` does not
/// change when only its innermost scope changes on `name`.
proof fn lemma_stack_other(
    scopes: Seq<Seq<(Seq<char>, SymbolView)>>,
    scope: Seq<(Seq<char>, SymbolView)>,
    name: Seq<char>,
    symbol: SymbolView,
    other: Seq<char>,
)
    requires
        scopes.len() > 0,
        scope == scopes.last(),
        other != name,
    ensures
        stack_get(scopes.update(scopes.len() - 1, scope_with(scope, name, symbol)), other)
            == stack_get(scopes, other),
{
    let s2 = scopes.update(scopes.len() - 1, scope_with(scope, name, symbol));
    lemma_scope_with(scope, name, symbol, other);
    assert(s2.drop_last() =~= scopes.drop_last());
}

/// Every symbol a stack of scopes gives out is one of its entries.
proof fn lemma_stack_get_entry(scopes: Seq<Seq<(Seq<char>, SymbolView)>>, name: Seq<char>)
    ensures
        stack_get(scopes, name) matches Some(s) ==> exists|i: int, j: int|
            0 <= i < scopes.len() && 0 <= j < scopes[i].len() && #[trigger] scopes[i][j] == (name, s),
    decreases scopes.len(),
{
    if scopes.len() > 0 {
        lemma_scope_index(scopes.last(), name);
        match scope_get(scopes.last(), name) {
            Some(s) => {
                let j = scope_index(scopes.last(), name)->0;
                assert(scopes[scopes.len() - 1][j] == (name, s));
            },
            None => {
                lemma_stack_get_entry(scopes.drop_last(), name);
                if let Some(s) = stack_get(scopes.drop_last(), name) {
                    let (i, j) = choose|i: int, j: int|
                        0 <= i < scopes.drop_last().len() && 0 <= j < scopes.drop_last()[i].len()
                            && #[trigger] scopes.drop_last()[i][j] == (name, s);
                    assert(scopes[i][j] == (name, s));
                }
            },
        }
    }
}

impl SymbolResolver {
    /// A well-formed resolver has a scope.
    pub proof fn lemma_has_scope(&self)
        requires
            self.wf(),
        ensures
            self.scopes().len() > 0,
    {
    }

    /// Every symbol a resolver gives out was handed out already: its number
    /// is at most the last one.
    pub proof fn lemma_resolved_ids_bounded(&self, name: Seq<char>)
        requires
            self.wf(),
        ensures
            self.resolve_spec(name) matches Some(s) ==> s.id <= self.last_id(),
    {
        lemma_stack_get_entry(self.scopes(), name);
        if let Some(s) = self.resolve_spec(name) {
            let (i, j) = choose|i: int, j: int|
                0 <= i < self.scopes().len() && 0 <= j < self.scopes()[i].len()
                    && #[trigger] self.scopes()[i][j] == (name, s);
            assert(self.scopes()[i] == scope_view(self.scopes@[i]@));
            assert(self.scopes@[i]@[j].1.id <= self.next_symbol);
        }
    }

    /// Declares `name` in the innermost scope with a fresh symbol, numbered
    /// one past the last; `name` now refers to it, and every other name to
    /// what it referred to before.
    pub fn declare(&mut self, name: String) -> (r: Symbol)
        requires
            old(self).wf(),
            old(self).last_id() < u32::MAX,
        ensures
            final(self).wf(),
            r.view() == (SymbolView { id: (old(self).last_id() + 1) as u32, name: name@ }),
            final(self).last_id() == old(self).last_id() + 1,
            final(self).scopes() == old(self).scopes().update(
                old(self).scopes().len() - 1,
                scope_with(old(self).scopes().last(), name@, r.view()),
            ),
            final(self).resolve_spec(name@) == Some(r.view()),
            forall|other: Seq<char>|
                other != name@ ==> #[trigger] final(self).resolve_spec(other) == old(
                    self,
                ).resolve_spec(other),
    {
        let ghost before = self.scopes();
        let ghost old_scopes = self.scopes@;
        self.next_symbol = self.next_symbol + 1;
        let symbol = Symbol { id: self.next_symbol, name: name.clone() };
        let mut scope = self.scopes.pop().unwrap();
        let ghost sv = scope_view(scope@);
        proof {
            assert(sv == before.last());
            lemma_scope_index(sv, name@);
        }
        let mut i: usize = 0;
        while i < scope.len() && !str_eq(scope[i].0.as_str(), name.as_str())
            invariant
                sv == scope_view(scope@),
                i <= scope@.len(),
                forall|j: int| 0 <= j < i ==> sv[j].0 != name@,
            decreases scope@.len() - i,
        {
            i = i + 1;
        }
        let ghost scope0 = scope@;
        if i < scope.len() {
            proof {
                assert(sv[i as int].0 == name@);
                match scope_index(sv, name@) {
                    Some(k) => {
                        if k < i {
                            assert(sv[k].0 != name@);
                        }
                        if k > i {
                            assert(sv[i as int].0 != name@);
                        }
                    },
                    None => {
                        assert(sv[i as int].0 != name@);
                    },
                }
            }
            scope.set(i, (name, symbol.duplicate()));
            assert(scope_view(scope@) =~= scope_with(sv, symbol.name@, symbol.view()));
        } else {
            proof {
                match scope_index(sv, name@) {
                    Some(k) => {
                        assert(sv[k].0 != name@);
                    },
                    None => {},
                }
            }
            scope.push((name, symbol.duplicate()));
            assert(scope_view(scope@) =~= scope_with(sv, symbol.name@, symbol.view()));
        }
        self.scopes.push(scope);
        proof {
            assert(self.scopes() =~= before.update(
                before.len() - 1,
                scope_with(before.last(), symbol.name@, symbol.view()),
            ));
            lemma_scope_with(before.last(), symbol.name@, symbol.view(), symbol.name@);
            assert(self.scopes().last() == scope_with(before.last(), symbol.name@, symbol.view()));
            assert forall|other: Seq<char>| other != symbol.name@ implies #[trigger] self.resolve_spec(
                other,
            ) == stack_get(before, other) by {
                lemma_stack_other(before, before.last(), symbol.name@, symbol.view(), other);
            }
            assert forall|a: int, b: int|
                0 <= a < self.scopes@.len() && 0 <= b < self.scopes@[a]@.len() implies #[trigger] self.scopes@[a]@[b].1.id
                <= self.next_symbol by {
                if a < self.scopes@.len() - 1 {
                    assert(self.scopes@[a] == old_scopes[a]);
                } else if b < scope0.len() && (b != i || i == scope0.len()) {
                    assert(self.scopes@[a]@[b] == scope0[b]);
                    assert(scope0 == old_scopes[a]@);
                }
            }
        }
        symbol
    }

    /// The symbol `name` refers to: that of the innermost scope declaring it.
    pub fn lookup(&self, name: &str) -> (r: Option<Symbol>)
        ensures
            match r {
                Some(s) => self.resolve_spec(name@) == Some(s.view()),
                None => self.resolve_spec(name@) is None,
            },
    {
        let ghost all = self.scopes();
        let mut k: usize = self.scopes.len();
        proof {
            assert(all.take(k as int) =~= all);
        }
        while k > 0
            invariant
                all == self.scopes(),
                k <= all.len(),
                stack_get(all, name@) == stack_get(all.take(k as int), name@),
            decreases k,
        {
            let scope = &self.scopes[k - 1];
            let ghost sv = scope_view(scope@);
            proof {
                assert(sv == all[k - 1]);
                lemma_scope_index(sv, name@);
                assert(all.take(k as int).last() == sv);
                assert(all.take(k as int).drop_last() =~= all.take(k - 1));
            }
            let mut i: usize = 0;
            while i < scope.len()
                invariant
                    sv == scope_view(scope@),
                    all == self.scopes(),
                    0 < k <= all.len(),
                    stack_get(all, name@) == stack_get(all.take(k as int), name@),
                    all.take(k as int).last() == sv,
                    i <= scope@.len(),
                    forall|j: int| 0 <= j < i ==> sv[j].0 != name@,
                decreases scope@.len() - i,
            {
                if str_eq(scope[i].0.as_str(), name) {
                    proof {
                        lemma_scope_get_first(sv, name@, i as int);
                    }
                    return Some(scope[i].1.duplicate());
                }
                i = i + 1;
            }
            proof {
                match scope_index(sv, name@) {
                    Some(x) => {
                        assert(sv[x].0 != name@);
                    },
                    None => {},
                }
            }
            k = k - 1;
        }
        None
    }

    /// Opens an inner scope.
    pub fn enter_scope(&mut self)
        requires
            old(self).wf(),
        ensures
            final(self).wf(),
            final(self).scopes() == old(self).scopes().push(Seq::empty()),
            final(self).last_id() == old(self).last_id(),
    {
        let ghost before = self.scopes@;
        self.scopes.push(Vec::new());
        proof {
            assert(self.scopes().last() =~= Seq::<(Seq<char>, SymbolView)>::empty());
            assert(self.scopes() =~= old(self).scopes().push(Seq::empty()));
            assert forall|a: int, b: int|
                0 <= a < self.scopes@.len() && 0 <= b < self.scopes@[a]@.len() implies #[trigger] self.scopes@[a]@[b].1.id
                <= self.next_symbol by {
                assert(self.scopes@[a] == before[a]);
            }
        }
    }

    /// Closes the innermost scope, forgetting the names declared in it.
    pub fn leave_scope(&mut self)
        requires
            old(self).wf(),
            old(self).scopes().len() > 1,
        ensures
            final(self).wf(),
            final(self).scopes() == old(self).scopes().drop_last(),
            final(self).last_id() == old(self).last_id(),
    {
        let ghost before = self.scopes@;
        self.scopes.pop();
        proof {
            assert(self.scopes() =~= old(self).scopes().drop_last());
            assert forall|a: int, b: int|
                0 <= a < self.scopes@.len() && 0 <= b < self.scopes@[a]@.len() implies #[trigger] self.scopes@[a]@[b].1.id
                <= self.next_symbol by {
                assert(self.scopes@[a] == before[a]);
            }
        }
    }

    /// Resolves a name used in an expression: its symbol, or an error when
    /// no scope declares it.
    pub fn resolve_name(&self, name: &str) -> (r: Results<Option<Symbol>, String>)
        ensures
            match self.resolve_spec(name@) {
                Some(s) => r.spec_value() matches Some(t) && t.view() == s && r.spec_errors().len() == 0,
                None => r.spec_value() is None && r.spec_errors().len() == 1
                    && r.spec_errors()[0]@ == "undefined name `"@ + name@ + "`"@,
            },
    {
        match self.lookup(name) {
            Some(s) => Results::ok(Some(s)),
            None => {
                let mut out = chars_of("undefined name `");
                let n = chars_of(name);
                push_all(&mut out, n.as_slice());
                let tail = chars_of("`");
                push_all(&mut out, tail.as_slice());
                Results::with_error(None, string_of(out.as_slice()))
            },
        }
    }
}

impl Default for SymbolResolver {
    fn default() -> (r: Self)
        ensures
            r.wf(),
            r.scopes().len() == 1,
            r.last_id() == 22,
    {
        SymbolResolver::new()
    }
}

} // verus!
