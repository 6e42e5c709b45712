//! Layering of a schematic: the column of each component in signal-flow
//! order, and the symbol and designator of each kind of component.
//!
//! Nets touched by a ground component, or by three or more components, are
//! rails and do not link components. A component sits one column after the
//! furthest earlier component it shares a net with (a ground component in
//! that same column), and in the first column when it shares none.
use vstd::prelude::*;
use std::collections::BTreeMap;
use crate::circuit::Component;
use crate::text::{chars_of, push_all, str_eq, string_of};

verus! {

broadcast use vstd::laws_cmp::group_laws_cmp;

/// The root of the net of `n`: as `roots` gives it, or `n` itself.
pub open spec fn root_in(roots: Map<u64, u64>, n: u64) -> u64 {
    if roots.contains_key(n) {
        roots[n]
    } else {
        n
    }
}

/// Component `c` touches the net rooted at `r`.
pub open spec fn touches(c: Component, roots: Map<u64, u64>, r: u64) -> bool {
    exists|k: int| 0 <= k < c.ports@.len() && root_in(roots, #[trigger] c.ports@[k].1) == r
}

/// The number of components that touch the net rooted at `r`.
pub open spec fn usage(cs: Seq<Component>, roots: Map<u64, u64>, r: u64) -> nat
    decreases cs.len(),
{
    if cs.len() == 0 {
        0
    } else {
        usage(cs.drop_last(), roots, r) + if touches(cs.last(), roots, r) {
            1nat
        } else {
            0nat
        }
    }
}

/// A component is a ground.
pub open spec fn is_ground(c: Component) -> bool {
    c.kind@ == "ground"@
}

/// The net rooted at `r` is a rail: a ground touches it, or three or more
/// components do.
pub open spec fn is_rail(cs: Seq<Component>, roots: Map<u64, u64>, r: u64) -> bool {
    (exists|g: int| 0 <= g < cs.len() && is_ground(#[trigger] cs[g]) && touches(cs[g], roots, r))
        || usage(cs, roots, r) >= 3
}

/// Components `i` and `j` share a net that is no rail.
pub open spec fn linked(cs: Seq<Component>, roots: Map<u64, u64>, i: int, j: int) -> bool {
    exists|r: u64|
        #[trigger] touches(cs[i], roots, r) && touches(cs[j], roots, r) && !is_rail(cs, roots, r)
}

/// The furthest column among components `0..k` linked to component `i`,
/// given their columns `ls`.
pub open spec fn furthest(cs: Seq<Component>, roots: Map<u64, u64>, ls: Seq<int>, i: int, k: int) -> Option<
    int,
>
    decreases k,
{
    if k <= 0 {
        None
    } else {
        let before = furthest(cs, roots, ls, i, k - 1);
        if linked(cs, roots, i, k - 1) {
            match before {
                Some(l) => Some(if l < ls[k - 1] { ls[k - 1] } else { l }),
                None => Some(ls[k - 1]),
            }
        } else {
            before
        }
    }
}

/// The columns of components `0..n`.
pub open spec fn layers(cs: Seq<Component>, roots: Map<u64, u64>, n: int) -> Seq<int>
    decreases n,
{
    if n <= 0 {
        Seq::empty()
    } else {
        let ls = layers(cs, roots, n - 1);
        let l = match furthest(cs, roots, ls, n - 1, n - 1) {
            Some(f) => if is_ground(cs[n - 1]) {
                f
            } else {
                f + 1
            },
            None => 0,
        };
        ls.push(l)
    }
}

proof fn lemma_layers_len(cs: Seq<Component>, roots: Map<u64, u64>, n: int)
    requires
        n >= 0,
    ensures
        layers(cs, roots, n).len() == n,
    decreases n,
{
    if n > 0 {
        lemma_layers_len(cs, roots, n - 1);
    }
}

proof fn lemma_furthest_none(cs: Seq<Component>, roots: Map<u64, u64>, ls: Seq<int>, i: int, k: int)
    requires
        forall|j: int| 0 <= j < k ==> !linked(cs, roots, i, j),
    ensures
        furthest(cs, roots, ls, i, k) is None,
    decreases k,
{
    if k > 0 {
        lemma_furthest_none(cs, roots, ls, i, k - 1);
    }
}

proof fn lemma_furthest_bound(cs: Seq<Component>, roots: Map<u64, u64>, ls: Seq<int>, i: int, k: int)
    requires
        k <= ls.len(),
        forall|j: int| 0 <= j < k ==> 0 <= #[trigger] ls[j] <= j,
    ensures
        furthest(cs, roots, ls, i, k) matches Some(f) ==> 0 <= f < k,
    decreases k,
{
    if k > 0 {
        lemma_furthest_bound(cs, roots, ls, i, k - 1);
    }
}

/// A ground touches only rails, so it links to no component and stays in
/// the first column.
pub proof fn lemma_grounds_in_first_column(cs: Seq<Component>, roots: Map<u64, u64>, n: int, i: int)
    requires
        0 <= i < n,
        n <= cs.len(),
        is_ground(cs[i]),
    ensures
        layers(cs, roots, n)[i] == 0,
    decreases n,
{
    lemma_layers_len(cs, roots, n - 1);
    if i < n - 1 {
        lemma_grounds_in_first_column(cs, roots, n - 1, i);
    } else {
        assert forall|j: int| 0 <= j < i implies !linked(cs, roots, i, j) by {
            if linked(cs, roots, i, j) {
                let r = choose|r: u64|
                    #[trigger] touches(cs[i], roots, r) && touches(cs[j], roots, r) && !is_rail(cs, roots, r);
                assert(is_ground(cs[i]) && touches(cs[i], roots, r));
            }
        }
        lemma_furthest_none(cs, roots, layers(cs, roots, n - 1), i, i);
    }
}

/// Every component sits in a column no further than its position: column
/// `i` is at most `i`.
pub proof fn lemma_layers_bounded(cs: Seq<Component>, roots: Map<u64, u64>, n: int)
    requires
        0 <= n <= cs.len(),
    ensures
        layers(cs, roots, n).len() == n,
        forall|i: int| 0 <= i < n ==> 0 <= #[trigger] layers(cs, roots, n)[i] <= i,
    decreases n,
{
    lemma_layers_len(cs, roots, n);
    if n > 0 {
        lemma_layers_bounded(cs, roots, n - 1);
        let ls = layers(cs, roots, n - 1);
        lemma_furthest_bound(cs, roots, ls, n - 1, n - 1);
        assert forall|i: int| 0 <= i < n implies 0 <= #[trigger] layers(cs, roots, n)[i] <= i by {
            if i < n - 1 {
                assert(layers(cs, roots, n)[i] == ls[i]);
            }
        }
    }
}

proof fn lemma_furthest_is_max(cs: Seq<Component>, roots: Map<u64, u64>, ls: Seq<int>, i: int, k: int)
    requires
        0 <= k <= ls.len(),
    ensures
        match furthest(cs, roots, ls, i, k) {
            Some(f) => {
                &&& forall|j: int| 0 <= j < k && linked(cs, roots, i, j) ==> ls[j] <= f
                &&& exists|j: int| 0 <= j < k && linked(cs, roots, i, j) && ls[j] == f
            },
            None => forall|j: int| 0 <= j < k ==> !linked(cs, roots, i, j),
        },
    decreases k,
{
    if k > 0 {
        lemma_furthest_is_max(cs, roots, ls, i, k - 1);
        if linked(cs, roots, i, k - 1) {
            assert(0 <= k - 1 < k && linked(cs, roots, i, k - 1));
        }
    }
}

proof fn lemma_layers_prefix(cs: Seq<Component>, roots: Map<u64, u64>, n: int, m: int)
    requires
        0 <= m <= n,
    ensures
        layers(cs, roots, n).take(m) == layers(cs, roots, m),
    decreases n,
{
    lemma_layers_len(cs, roots, n);
    lemma_layers_len(cs, roots, m);
    if m < n {
        lemma_layers_prefix(cs, roots, n - 1, m);
        lemma_layers_len(cs, roots, n - 1);
        assert(layers(cs, roots, n).take(m) =~= layers(cs, roots, n - 1).take(m));
    } else {
        assert(layers(cs, roots, n).take(m) =~= layers(cs, roots, n));
    }
}

/// Columns follow signal flow: a component sits past every earlier
/// component it is linked to (in the same column or past it, for a
/// ground), one column past the furthest of them (the same column, for a
/// ground), and in the first column when it is linked to none.
pub proof fn lemma_layers_follow_links(cs: Seq<Component>, roots: Map<u64, u64>, n: int, i: int)
    requires
        0 <= i < n,
    ensures
        ({
            let ls = layers(cs, roots, n);
            let step: int = if is_ground(cs[i]) { 0 } else { 1 };
            &&& forall|j: int| 0 <= j < i && linked(cs, roots, i, j) ==> ls[j] + step <= ls[i]
            &&& (exists|j: int| 0 <= j < i && linked(cs, roots, i, j)) ==> exists|j: int|
                0 <= j < i && linked(cs, roots, i, j) && ls[i] == ls[j] + step
            &&& (forall|j: int| 0 <= j < i ==> !linked(cs, roots, i, j)) ==> ls[i] == 0
        }),
{
    let ls = layers(cs, roots, n);
    let before = layers(cs, roots, i);
    lemma_layers_len(cs, roots, i);
    lemma_layers_len(cs, roots, n);
    lemma_layers_prefix(cs, roots, n, i + 1);
    lemma_layers_prefix(cs, roots, n, i);
    assert(layers(cs, roots, i + 1) == before.push(layers(cs, roots, i + 1)[i]));
    assert(ls[i] == ls.take(i + 1)[i]);
    assert forall|j: int| 0 <= j < i implies ls[j] == before[j] by {
        assert(ls.take(i)[j] == ls[j]);
    }
    lemma_furthest_is_max(cs, roots, before, i, i);
    match furthest(cs, roots, before, i, i) {
        Some(f) => {
            let j = choose|j: int| 0 <= j < i && linked(cs, roots, i, j) && before[j] == f;
            assert(0 <= j < i && linked(cs, roots, i, j) && ls[i] == ls[j] + (if is_ground(cs[i]) { 0int } else { 1int }));
        },
        None => {},
    }
}

fn root_exec(roots: &BTreeMap<u64, u64>, n: u64) -> (r: u64)
    ensures
        r == root_in(roots@, n),
{
    match roots.get(&n) {
        Some(x) => *x,
        None => n,
    }
}

/// Whether a component touches the net rooted at `r`.
fn touches_exec(c: &Component, roots: &BTreeMap<u64, u64>, r: u64) -> (b: bool)
    ensures
        b == touches(*c, roots@, r),
{
    let mut k: usize = 0;
    while k < c.ports.len()
        invariant
            k <= c.ports@.len(),
            forall|q: int| 0 <= q < k ==> root_in(roots@, #[trigger] c.ports@[q].1) != r,
        decreases c.ports@.len() - k,
    {
        if root_exec(roots, c.ports[k].1) == r {
            return true;
        }
        k = k + 1;
    }
    false
}

fn is_ground_exec(c: &Component) -> (b: bool)
    ensures
        b == is_ground(*c),
{
    str_eq(c.kind.as_str(), "ground")
}

fn is_rail_exec(cs: &Vec<Component>, roots: &BTreeMap<u64, u64>, r: u64) -> (b: bool)
    ensures
        b == is_rail(cs@, roots@, r),
{
    let mut count: usize = 0;
    let mut grounded = false;
    let mut i: usize = 0;
    while i < cs.len()
        invariant
            i <= cs@.len(),
            count == usage(cs@.take(i as int), roots@, r),
            count <= i,
            grounded == exists|g: int| 0 <= g < i && is_ground(#[trigger] cs@[g]) && touches(cs@[g], roots@, r),
        decreases cs@.len() - i,
    {
        assert(cs@.take(i + 1).drop_last() =~= cs@.take(i as int));
        let t = touches_exec(&cs[i], roots, r);
        if t {
            count = count + 1;
            if is_ground_exec(&cs[i]) {
                grounded = true;
            }
        }
        i = i + 1;
    }
    assert(cs@.take(cs@.len() as int) =~= cs@);
    grounded || count >= 3
}

/// Whether components `i` and `j` share a net that is no rail.
fn linked_exec(cs: &Vec<Component>, roots: &BTreeMap<u64, u64>, i: usize, j: usize) -> (b: bool)
    requires
        i < cs@.len(),
        j < cs@.len(),
    ensures
        b == linked(cs@, roots@, i as int, j as int),
{
    let a = &cs[i];
    let mut k: usize = 0;
    while k < a.ports.len()
        invariant
            i < cs@.len(),
            j < cs@.len(),
            *a == cs@[i as int],
            k <= a.ports@.len(),
            forall|q: int|
                0 <= q < k ==> !(touches(cs@[j as int], roots@, root_in(roots@, #[trigger] a.ports@[q].1))
                    && !is_rail(cs@, roots@, root_in(roots@, a.ports@[q].1))),
        decreases a.ports@.len() - k,
    {
        let r = root_exec(roots, a.ports[k].1);
        if touches_exec(&cs[j], roots, r) && !is_rail_exec(cs, roots, r) {
            assert(touches(cs@[i as int], roots@, r));
            return true;
        }
        k = k + 1;
    }
    proof {
        if linked(cs@, roots@, i as int, j as int) {
            let r = choose|r: u64|
                #[trigger] touches(cs@[i as int], roots@, r) && touches(cs@[j as int], roots@, r)
                    && !is_rail(cs@, roots@, r);
            let q = choose|q: int| 0 <= q < a.ports@.len() && root_in(roots@, #[trigger] a.ports@[q].1) == r;
            assert(root_in(roots@, a.ports@[q].1) == r);
        }
    }
    false
}

/// The column of each component of a schematic section, in order: one past
/// the furthest earlier component it shares a net with (the same column
/// for a ground), or the first column.
pub fn graph_layers(components: &Vec<Component>, roots: &BTreeMap<u64, u64>) -> (r: Vec<usize>)
    ensures
        r@.len() == components@.len(),
        forall|i: int|
            0 <= i < r@.len() ==> r@[i] as int == #[trigger] layers(components@, roots@, components@.len() as int)[i],
{
    let ghost cs = components@;
    let mut out: Vec<usize> = Vec::new();
    let mut i: usize = 0;
    while i < components.len()
        invariant
            cs == components@,
            i <= cs.len(),
            out@.len() == i,
            layers(cs, roots@, i as int).len() == i,
            forall|k: int| 0 <= k < i ==> out@[k] as int == #[trigger] layers(cs, roots@, i as int)[k],
            forall|k: int| 0 <= k < i ==> out@[k] <= k,
        decreases cs.len() - i,
    {
        let ghost ls = layers(cs, roots@, i as int);
        let mut best: Option<usize> = None;
        let mut j: usize = 0;
        while j < i
            invariant
                cs == components@,
                i < cs.len(),
                j <= i,
                out@.len() == i,
                ls == layers(cs, roots@, i as int),
                ls.len() == i,
                forall|k: int| 0 <= k < i ==> out@[k] as int == #[trigger] ls[k],
                forall|k: int| 0 <= k < i ==> out@[k] <= k,
                match best {
                    Some(b) => furthest(cs, roots@, ls, i as int, j as int) == Some(b as int) && b < i,
                    None => furthest(cs, roots@, ls, i as int, j as int) is None,
                },
            decreases i - j,
        {
            if linked_exec(components, roots, i, j) {
                let l = out[j];
                best = match best {
                    Some(b) => Some(if b < l { l } else { b }),
                    None => Some(l),
                };
            }
            j = j + 1;
        }
        let layer = match best {
            Some(b) => if is_ground_exec(&components[i]) {
                b
            } else {
                b + 1
            },
            None => 0,
        };
        out.push(layer);
        proof {
            lemma_layers_len(cs, roots@, i + 1);
            assert(layers(cs, roots@, i + 1) == ls.push(layer as int));
        }
        i = i + 1;
    }
    out
}


/// Two components touch a common net.
pub open spec fn share_net(a: Component, b: Component, roots: Map<u64, u64>) -> bool {
    exists|r: u64| #[trigger] touches(a, roots, r) && touches(b, roots, r)
}

/// Whether two components touch a common net.
pub fn components_share_net(a: &Component, b: &Component, roots: &BTreeMap<u64, u64>) -> (r: bool)
    ensures
        r == share_net(*a, *b, roots@),
{
    let mut k: usize = 0;
    while k < a.ports.len()
        invariant
            k <= a.ports@.len(),
            forall|q: int| 0 <= q < k ==> !touches(*b, roots@, root_in(roots@, #[trigger] a.ports@[q].1)),
        decreases a.ports@.len() - k,
    {
        let r = root_exec(roots, a.ports[k].1);
        if touches_exec(b, roots, r) {
            assert(touches(*a, roots@, r));
            return true;
        }
        k = k + 1;
    }
    proof {
        if share_net(*a, *b, roots@) {
            let r = choose|r: u64| #[trigger] touches(*a, roots@, r) && touches(*b, roots@, r);
            let q = choose|q: int| 0 <= q < a.ports@.len() && root_in(roots@, #[trigger] a.ports@[q].1) == r;
            assert(root_in(roots@, a.ports@[q].1) == r);
        }
    }
    false
}

/// The kinds of component that have a schematic symbol of their own.
pub open spec fn symbol_kinds() -> Seq<Seq<char>> {
    seq![
        "voltage-source"@,
        "current-source"@,
        "ground"@,
        "resistor"@,
        "capacitor"@,
        "inductor"@,
        "switch"@,
        "op-amp"@,
        "comparator"@,
        "diode"@,
        "led"@,
        "not-gate"@,
        "and-gate"@,
        "or-gate"@,
        "nand-gate"@,
        "nor-gate"@,
        "d-flip-flop"@,
    ]
}

/// The symbol drawn for a kind of component: its own, or the generic one.
pub open spec fn symbol_id_spec(kind: Seq<char>) -> Seq<char> {
    if symbol_kinds().contains(kind) {
        "symbol-"@ + kind
    } else {
        "symbol-generic"@
    }
}

fn known_kind(kind: &str) -> (r: bool)
    ensures
        r == symbol_kinds().contains(kind@),
{
    let kinds: [&str; 17] = [
        "voltage-source",
        "current-source",
        "ground",
        "resistor",
        "capacitor",
        "inductor",
        "switch",
        "op-amp",
        "comparator",
        "diode",
        "led",
        "not-gate",
        "and-gate",
        "or-gate",
        "nand-gate",
        "nor-gate",
        "d-flip-flop",
    ];
    assert(kinds@.len() == 17);
    assert forall|i: int| 0 <= i < 17 implies #[trigger] kinds@[i]@ == symbol_kinds()[i] by {
        assert(kinds@[0] == "voltage-source");
        assert(kinds@[1] == "current-source");
        assert(kinds@[2] == "ground");
        assert(kinds@[3] == "resistor");
        assert(kinds@[4] == "capacitor");
        assert(kinds@[5] == "inductor");
        assert(kinds@[6] == "switch");
        assert(kinds@[7] == "op-amp");
        assert(kinds@[8] == "comparator");
        assert(kinds@[9] == "diode");
        assert(kinds@[10] == "led");
        assert(kinds@[11] == "not-gate");
        assert(kinds@[12] == "and-gate");
        assert(kinds@[13] == "or-gate");
        assert(kinds@[14] == "nand-gate");
        assert(kinds@[15] == "nor-gate");
        assert(kinds@[16] == "d-flip-flop");
    }
    let mut i: usize = 0;
    while i < 17
        invariant
            i <= 17,
            kinds@.len() == 17,
            forall|j: int| 0 <= j < 17 ==> #[trigger] kinds@[j]@ == symbol_kinds()[j],
            forall|j: int| 0 <= j < i ==> symbol_kinds()[j] != kind@,
        decreases 17 - i,
    {
        if str_eq(kinds[i], kind) {
            assert(symbol_kinds()[i as int] == kind@);
            return true;
        }
        i = i + 1;
    }
    proof {
        if symbol_kinds().contains(kind@) {
            let j = choose|j: int| 0 <= j < symbol_kinds().len() && symbol_kinds()[j] == kind@;
            assert(symbol_kinds()[j] != kind@);
        }
    }
    false
}

/// The identifier of the schematic symbol drawn for a kind of component.
pub fn symbol_id(kind: &str) -> (r: String)
    ensures
        r@ == symbol_id_spec(kind@),
{
    if known_kind(kind) {
        let mut out = chars_of("symbol-");
        let k = chars_of(kind);
        push_all(&mut out, k.as_slice());
        string_of(out.as_slice())
    } else {
        "symbol-generic".to_owned()
    }
}

/// A component is drawn as a generic box: it has no drawing of its own and
/// its kind has no symbol.
pub open spec fn generic_component(c: Component) -> bool {
    c.svg is None && !symbol_kinds().contains(c.kind@)
}

/// Whether a component is drawn as a generic box.
pub fn is_generic_component(component: &Component) -> (r: bool)
    ensures
        r == generic_component(*component),
{
    component.svg.is_none() && !known_kind(component.kind.as_str())
}

/// The reference designator prefix of a kind of component.
pub open spec fn prefix_spec(kind: Seq<char>) -> Seq<char> {
    if kind == "resistor"@ {
        "R"@
    } else if kind == "capacitor"@ {
        "C"@
    } else if kind == "inductor"@ {
        "L"@
    } else if kind == "diode"@ || kind == "led"@ {
        "D"@
    } else if kind == "voltage-source"@ || kind == "current-source"@ {
        "V"@
    } else if kind == "ground"@ {
        "GND"@
    } else if kind == "switch"@ {
        "SW"@
    } else {
        "U"@
    }
}

/// The reference designator prefix of a kind of component.
pub fn prefix(kind: &str) -> (r: &'static str)
    ensures
        r@ == prefix_spec(kind@),
{
    if str_eq(kind, "resistor") {
        "R"
    } else if str_eq(kind, "capacitor") {
        "C"
    } else if str_eq(kind, "inductor") {
        "L"
    } else if str_eq(kind, "diode") || str_eq(kind, "led") {
        "D"
    } else if str_eq(kind, "voltage-source") || str_eq(kind, "current-source") {
        "V"
    } else if str_eq(kind, "ground") {
        "GND"
    } else if str_eq(kind, "switch") {
        "SW"
    } else {
        "U"
    }
}

} // verus!
