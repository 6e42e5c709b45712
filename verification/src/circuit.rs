//! The circuit design produced by evaluation: nodes and the wires between
//! them, components with their ports, net labels and sections, and the
//! connectivity derived from them.
use vstd::prelude::*;
use std::collections::{BTreeMap, BTreeSet};
use crate::text::{
    chars_of, decimal, decimal_u64, lemma_text_less_total, lemma_text_less_trans, push_all, str_eq,
    str_less, string_of, strings_view, text_less,
};

verus! {

broadcast use vstd::laws_cmp::group_laws_cmp;

/// A KiCad symbol, its footprint and the pin number of each port.
pub struct KicadLink {
    pub symbol: String,
    pub footprint: String,
    /// `(port, pin number)` pairs, one per port, in increasing order of
    /// port name (see [`pins_ordered`]).
    pub pins: Vec<(String, String)>,
}

/// A placed part: its kind, optional label and value, the node each of its
/// ports is attached to, and how it is drawn and exported.
pub struct Component {
    pub kind: String,
    pub label: Option<String>,
    pub value: Option<String>,
    /// `(port, node)` pairs, one per port, in increasing order of port name
    /// (see [`ports_ordered`]).
    pub ports: Vec<(String, u64)>,
    pub section: Option<String>,
    pub svg: Option<String>,
    pub kicad: Option<KicadLink>,
}

/// The design of a circuit: its nodes, the wires between them (each wire
/// recorded in both directions), its components, the nodes registered under
/// each net label, and its sections in order of first mention.
pub struct CircuitDesign {
    pub nodes: BTreeSet<u64>,
    pub connections: BTreeMap<u64, BTreeSet<u64>>,
    pub components: Vec<Component>,
    pub net_labels: Vec<(String, Vec<u64>)>,
    pub sections: Vec<String>,
}

/// The ports of a component in strictly increasing order of name, as the
/// keys of a map: each port name once.
pub open spec fn ports_ordered(c: Component) -> bool {
    forall|i: int, j: int|
        0 <= i < j < c.ports@.len() ==> text_less(c.ports@[i].0@, c.ports@[j].0@)
}

/// The pins of a link in strictly increasing order of port name, as the
/// keys of a map: each port mapped once.
pub open spec fn pins_ordered(l: KicadLink) -> bool {
    forall|i: int, j: int| 0 <= i < j < l.pins@.len() ==> text_less(l.pins@[i].0@, l.pins@[j].0@)
}

/// A component whose ports, and the pins of its KiCad link, are held as
/// maps hold them.
pub open spec fn component_wf(c: Component) -> bool {
    &&& ports_ordered(c)
    &&& match c.kicad {
        Some(l) => pins_ordered(l),
        None => true,
    }
}

// ---------------------------------------------------------------------------
// Graphs and walks
// ---------------------------------------------------------------------------

/// `b` is wired to `a` in `g`.
pub open spec fn adjacent(g: Map<u64, Set<u64>>, a: u64, b: u64) -> bool {
    g.contains_key(a) && g[a].contains(b)
}

/// Every wire of `g` is recorded at both of its ends.
pub open spec fn symmetric(g: Map<u64, Set<u64>>) -> bool {
    forall|a: u64, b: u64| #[trigger] adjacent(g, a, b) ==> adjacent(g, b, a)
}

/// Step `i` of the node sequence `p` follows a wire of `g`.
pub open spec fn step(g: Map<u64, Set<u64>>, p: Seq<u64>, i: int) -> bool {
    adjacent(g, p[i], p[i + 1])
}

/// `p` is a walk of `g`: a non-empty sequence of nodes of `g`, each wired to
/// the next.
pub open spec fn is_walk(g: Map<u64, Set<u64>>, p: Seq<u64>) -> bool {
    &&& p.len() > 0
    &&& g.contains_key(p[0])
    &&& forall|i: int| 0 <= i < p.len() - 1 ==> #[trigger] step(g, p, i)
}

/// A walk of `g` leads from `a` to `b`.
pub open spec fn connected(g: Map<u64, Set<u64>>, a: u64, b: u64) -> bool {
    exists|p: Seq<u64>| #[trigger] is_walk(g, p) && p[0] == a && p.last() == b
}

/// `r` is the smallest node that `n` is connected to.
pub open spec fn least_connected(g: Map<u64, Set<u64>>, n: u64, r: u64) -> bool {
    &&& connected(g, n, r)
    &&& forall|y: u64| #[trigger] connected(g, n, y) ==> r <= y
}

/// The root of `n`: the smallest node it is connected to.
pub open spec fn component_root(g: Map<u64, Set<u64>>, n: u64) -> u64 {
    choose|r: u64| least_connected(g, n, r)
}

/// No wire leads out of `s`.
pub open spec fn closed(g: Map<u64, Set<u64>>, s: Set<u64>) -> bool {
    forall|a: u64, b: u64| s.contains(a) && #[trigger] adjacent(g, a, b) ==> s.contains(b)
}

pub proof fn lemma_walk_single(g: Map<u64, Set<u64>>, a: u64)
    requires
        g.contains_key(a),
    ensures
        is_walk(g, seq![a]),
        connected(g, a, a),
{
    assert(is_walk(g, seq![a]));
}

pub proof fn lemma_walk_push(g: Map<u64, Set<u64>>, p: Seq<u64>, x: u64)
    requires
        is_walk(g, p),
        adjacent(g, p.last(), x),
    ensures
        is_walk(g, p.push(x)),
{
    let q = p.push(x);
    assert forall|i: int| 0 <= i < q.len() - 1 implies #[trigger] step(g, q, i) by {
        if i < p.len() - 1 {
            assert(step(g, p, i));
        }
    }
}

pub proof fn lemma_walk_prepend(g: Map<u64, Set<u64>>, x: u64, p: Seq<u64>)
    requires
        is_walk(g, p),
        adjacent(g, x, p[0]),
    ensures
        is_walk(g, seq![x] + p),
{
    let q = seq![x] + p;
    assert forall|i: int| 0 <= i < q.len() - 1 implies #[trigger] step(g, q, i) by {
        if i > 0 {
            assert(step(g, p, i - 1));
        }
    }
}

pub proof fn lemma_walk_concat(g: Map<u64, Set<u64>>, p: Seq<u64>, q: Seq<u64>)
    requires
        is_walk(g, p),
        is_walk(g, q),
        p.last() == q[0],
    ensures
        is_walk(g, p + q.drop_first()),
        (p + q.drop_first())[0] == p[0],
        (p + q.drop_first()).last() == q.last(),
{
    let r = p + q.drop_first();
    assert forall|i: int| 0 <= i < r.len() - 1 implies #[trigger] step(g, r, i) by {
        if i < p.len() - 1 {
            assert(step(g, p, i));
        } else {
            assert(step(g, q, i - p.len() + 1));
        }
    }
}

/// Connectivity is transitive.
pub proof fn lemma_connected_trans(g: Map<u64, Set<u64>>, a: u64, b: u64, c: u64)
    requires
        connected(g, a, b),
        connected(g, b, c),
    ensures
        connected(g, a, c),
{
    let p = choose|p: Seq<u64>| #[trigger] is_walk(g, p) && p[0] == a && p.last() == b;
    let q = choose|q: Seq<u64>| #[trigger] is_walk(g, q) && q[0] == b && q.last() == c;
    lemma_walk_concat(g, p, q);
    assert(is_walk(g, p + q.drop_first()));
}

/// A walk that starts in a closed set stays in it.
pub proof fn lemma_walk_stays(g: Map<u64, Set<u64>>, s: Set<u64>, p: Seq<u64>)
    requires
        closed(g, s),
        is_walk(g, p),
        s.contains(p[0]),
    ensures
        s.contains(p.last()),
    decreases p.len(),
{
    if p.len() > 1 {
        let q = p.drop_last();
        assert forall|i: int| 0 <= i < q.len() - 1 implies #[trigger] step(g, q, i) by {
            assert(step(g, p, i));
        }
        lemma_walk_stays(g, s, q);
        assert(step(g, p, p.len() - 2));
    }
}

impl CircuitDesign {
    /// The wires as a graph: each node and the nodes it is wired to.
    pub open spec fn graph(&self) -> Map<u64, Set<u64>> {
        Map::new(|k: u64| self.connections@.contains_key(k), |k: u64| self.connections@[k]@)
    }

    /// The net labels and the nodes registered under each.
    pub open spec fn labels(&self) -> Seq<(Seq<char>, Seq<u64>)> {
        Seq::new(
            self.net_labels@.len(),
            |i: int| (self.net_labels@[i].0@, self.net_labels@[i].1@),
        )
    }

    /// The section names.
    pub open spec fn section_list(&self) -> Seq<Seq<char>> {
        Seq::new(self.sections@.len(), |i: int| self.sections@[i]@)
    }

    /// Every node has an entry of wires and every wire is recorded at both
    /// of its ends.
    pub open spec fn wf(&self) -> bool {
        &&& forall|n: u64| #[trigger] self.nodes@.contains(n) <==> self.connections@.contains_key(n)
        &&& symmetric(self.graph())
    }
}

/// `g` with node `n`, which gets no wires if it is new.
pub open spec fn with_node(g: Map<u64, Set<u64>>, n: u64) -> Map<u64, Set<u64>> {
    if g.contains_key(n) {
        g
    } else {
        g.insert(n, Set::empty())
    }
}

/// `g` with nodes `a` and `b` and a wire between them.
pub open spec fn with_wire(g: Map<u64, Set<u64>>, a: u64, b: u64) -> Map<u64, Set<u64>> {
    let h = with_node(with_node(g, a), b);
    let h2 = h.insert(a, h[a].insert(b));
    h2.insert(b, h2[b].insert(a))
}

impl CircuitDesign {
    /// Registers `node`, with no wires if it is new.
    pub fn add_node(&mut self, node: u64)
        requires
            old(self).wf(),
        ensures
            final(self).wf(),
            final(self).nodes@ == old(self).nodes@.insert(node),
            final(self).graph() == with_node(old(self).graph(), node),
            final(self).components@ == old(self).components@,
            final(self).net_labels@ == old(self).net_labels@,
            final(self).sections@ == old(self).sections@,
    {
        let ghost g0 = self.graph();
        self.nodes.insert(node);
        if !self.connections.contains_key(&node) {
            self.connections.insert(node, BTreeSet::new());
        }
        assert(self.graph() =~= with_node(g0, node));
        assert(symmetric(self.graph())) by {
            assert forall|a: u64, b: u64| #[trigger] adjacent(self.graph(), a, b) implies adjacent(
                self.graph(),
                b,
                a,
            ) by {
                assert(adjacent(g0, a, b));
            }
        }
    }

    /// Wires `a` to `b`, registering both.
    pub fn connect(&mut self, a: u64, b: u64)
        requires
            old(self).wf(),
        ensures
            final(self).wf(),
            final(self).nodes@ == old(self).nodes@.insert(a).insert(b),
            final(self).graph() == with_wire(old(self).graph(), a, b),
            final(self).components@ == old(self).components@,
            final(self).net_labels@ == old(self).net_labels@,
            final(self).sections@ == old(self).sections@,
    {
        let ghost g0 = self.graph();
        self.add_node(a);
        self.add_node(b);
        let ghost h = self.graph();
        let ghost c0 = self.connections@;
        assert(self.nodes@.contains(a) && self.nodes@.contains(b));
        let mut wires_a = match self.connections.remove(&a) {
            Some(s) => s,
            None => BTreeSet::new(),
        };
        assert(wires_a@ == h[a]);
        assert(self.connections@ == c0.remove(a));
        wires_a.insert(b);
        self.connections.insert(a, wires_a);
        assert(self.connections@ == c0.insert(a, wires_a));
        let ghost h2 = self.graph();
        assert(h2 =~= h.insert(a, h[a].insert(b)));
        let mut wires_b = match self.connections.remove(&b) {
            Some(s) => s,
            None => BTreeSet::new(),
        };
        wires_b.insert(a);
        self.connections.insert(b, wires_b);
        assert(self.graph() =~= h2.insert(b, h2[b].insert(a)));
        assert(self.graph() == with_wire(g0, a, b));
        assert(symmetric(self.graph())) by {
            assert forall|x: u64, y: u64| #[trigger] adjacent(self.graph(), x, y) implies adjacent(
                self.graph(),
                y,
                x,
            ) by {
                if !((x == a && y == b) || (x == b && y == a)) {
                    assert(adjacent(h, x, y));
                }
            }
        }
    }
}


/// The elements of a set of nodes, in increasing order.
pub(crate) fn set_items(s: &BTreeSet<u64>) -> (r: Vec<u64>)
    ensures
        r@.to_set() == s@,
{
    let mut out: Vec<u64> = Vec::new();
    for n in it: s.iter()
        invariant
            out@ == it.seq().take(it.index() as int).unref(),
            it.seq().unref().to_set() == s@,
            it.index() == it.seq().len() ==> out@.to_set() == s@,
    {
        out.push(*n);
        assert(it.seq().unref().take(it.seq().len() as int) =~= it.seq().unref());
        assert(out@ =~= it.seq().unref().take(it.index() + 1));
    }
    out
}

impl CircuitDesign {
    /// Visits, from `node`, every node connected to it that `visited` does
    /// not hold yet, marks them visited and returns them, `node` first.
    fn explore(&self, node: u64, visited: &mut BTreeSet<u64>) -> (members: Vec<u64>)
        requires
            self.wf(),
            self.nodes@.finite(),
            self.nodes@.contains(node),
            !old(visited)@.contains(node),
            old(visited)@.subset_of(self.nodes@),
            closed(self.graph(), old(visited)@),
        ensures
            final(visited)@ == old(visited)@ + members@.to_set(),
            final(visited)@.subset_of(self.nodes@),
            members@.len() > 0,
            members@[0] == node,
            closed(self.graph(), members@.to_set()),
            forall|m: u64| #[trigger]
                members@.contains(m) ==> !old(visited)@.contains(m) && connected(
                    self.graph(),
                    node,
                    m,
                ) && connected(self.graph(), m, node),
    {
        broadcast use vstd::seq_lib::group_seq_properties;
        let ghost g = self.graph();
        let ghost v0 = visited@;
        visited.insert(node);
        let mut members: Vec<u64> = Vec::new();
        members.push(node);
        let mut stack: Vec<u64> = Vec::new();
        stack.push(node);
        proof {
            lemma_walk_single(g, node);
            assert(visited@ =~= v0 + members@.to_set());
        }
        while stack.len() > 0
            invariant
                self.wf(),
                g == self.graph(),
                self.nodes@.finite(),
                self.nodes@.contains(node),
                !v0.contains(node),
                v0.subset_of(self.nodes@),
                closed(g, v0),
                visited@ == v0 + members@.to_set(),
                visited@.subset_of(self.nodes@),
                members@.len() > 0,
                members@[0] == node,
                forall|m: u64| #[trigger]
                    members@.contains(m) ==> !v0.contains(m) && connected(g, node, m) && connected(
                        g,
                        m,
                        node,
                    ),
                forall|m: u64| #[trigger] stack@.contains(m) ==> members@.contains(m),
                stack@.no_duplicates(),
                forall|m: u64, w: u64|
                    members@.contains(m) && !stack@.contains(m) && #[trigger] adjacent(g, m, w)
                        ==> visited@.contains(w),
            decreases self.nodes@.len() - visited@.len(), stack@.len(),
        {
            let ghost vlen0 = visited@.len();
            let ghost slen0 = stack@.len();
            let ghost stack0 = stack@;
            proof {
                vstd::set_lib::lemma_len_subset(visited@, self.nodes@);
            }
            let current = stack.pop().unwrap();
            proof {
                assert(stack0 == stack@.push(current));
                assert(stack0.contains(current));
                assert(!stack@.contains(current)) by {
                    if stack@.contains(current) {
                        let k = choose|k: int| 0 <= k < stack@.len() && stack@[k] == current;
                        assert(stack0[k] == stack0[stack0.len() - 1]);
                    }
                }
                assert forall|m: u64| #[trigger] stack@.contains(m) implies stack0.contains(m) by {
                    let k = choose|k: int| 0 <= k < stack@.len() && stack@[k] == m;
                    assert(stack0[k] == m);
                }
                assert(self.nodes@.contains(current));
            }
            let wires: Vec<u64> = match self.connections.get(&current) {
                Some(set) => set_items(set),
                None => Vec::new(),
            };
            assert(wires@.to_set() == g[current]);
            let mut k: usize = 0;
            while k < wires.len()
                invariant
                    self.wf(),
                    g == self.graph(),
                    self.nodes@.finite(),
                    self.nodes@.contains(node),
                    !v0.contains(node),
                    v0.subset_of(self.nodes@),
                    closed(g, v0),
                    visited@ == v0 + members@.to_set(),
                    visited@.subset_of(self.nodes@),
                    members@.len() > 0,
                    members@[0] == node,
                    forall|m: u64| #[trigger]
                        members@.contains(m) ==> !v0.contains(m) && connected(g, node, m)
                            && connected(g, m, node),
                    forall|m: u64| #[trigger] stack@.contains(m) ==> members@.contains(m),
                    stack@.no_duplicates(),
                    members@.contains(current),
                    !stack@.contains(current),
                    forall|m: u64, w: u64|
                        members@.contains(m) && !stack@.contains(m) && m != current
                            && #[trigger] adjacent(g, m, w) ==> visited@.contains(w),
                    wires@.to_set() == g[current],
                    g.contains_key(current),
                    k <= wires@.len(),
                    forall|j: int| 0 <= j < k ==> visited@.contains(#[trigger] wires@[j]),
                    visited@.finite(),
                    visited@.len() >= vlen0,
                    stack@.len() + vlen0 == slen0 - 1 + visited@.len(),
                decreases wires@.len() - k,
            {
                let next = wires[k];
                proof {
                    assert(wires@.to_set().contains(next));
                    assert(adjacent(g, current, next));
                    assert(adjacent(g, next, current));
                }
                if !visited.contains(&next) {
                    proof {
                        let p = choose|p: Seq<u64>|
                            #[trigger] is_walk(g, p) && p[0] == node && p.last() == current;
                        lemma_walk_push(g, p, next);
                        assert(is_walk(g, p.push(next)));
                        assert(p.push(next)[0] == node);
                        assert(p.push(next).last() == next);
                        assert(connected(g, node, next));
                        let q = choose|q: Seq<u64>|
                            #[trigger] is_walk(g, q) && q[0] == current && q.last() == node;
                        lemma_walk_prepend(g, next, q);
                        assert(is_walk(g, seq![next] + q));
                        assert((seq![next] + q).last() == node);
                        assert((seq![next] + q)[0] == next);
                        assert(connected(g, next, node));
                        assert(!members@.contains(next));
                        assert(!v0.contains(next));
                        assert(!stack@.contains(next));
                    }
                    let ghost members0 = members@;
                    let ghost stack1 = stack@;
                    let ghost visited1 = visited@;
                    visited.insert(next);
                    members.push(next);
                    stack.push(next);
                    proof {
                        assert forall|m: u64| #[trigger] members@.contains(m) implies (m == next
                            || members0.contains(m)) by {
                            let j = choose|j: int| 0 <= j < members@.len() && members@[j] == m;
                            if j < members0.len() {
                                assert(members0[j] == m);
                            }
                        }
                        assert forall|m: u64| #[trigger] stack@.contains(m) implies (m == next
                            || stack1.contains(m)) by {
                            let j = choose|j: int| 0 <= j < stack@.len() && stack@[j] == m;
                            if j < stack1.len() {
                                assert(stack1[j] == m);
                            }
                        }
                        assert(members@[members@.len() - 1] == next);
                        assert(stack@[stack@.len() - 1] == next);
                        assert forall|m: u64| #[trigger] members0.contains(m) implies members@.contains(m) by {
                            let j = choose|j: int| 0 <= j < members0.len() && members0[j] == m;
                            assert(members@[j] == m);
                        }
                        assert(members@.contains(next));
                        assert(members@.contains(current));
                        assert forall|m: u64| #[trigger] stack1.contains(m) implies stack@.contains(m) by {
                            let j = choose|j: int| 0 <= j < stack1.len() && stack1[j] == m;
                            assert(stack@[j] == m);
                        }
                        assert(stack@.contains(next));
                        assert forall|m: u64, w: u64|
                            members@.contains(m) && !stack@.contains(m) && m != current
                                && #[trigger] adjacent(g, m, w) implies visited@.contains(w) by {
                            assert(m != next);
                            assert(members0.contains(m));
                            assert(!stack1.contains(m));
                        }
                        members0.lemma_push_to_set_commute(next);
                        assert(members@.to_set() == members0.to_set().insert(next));
                        assert(visited@ =~= v0 + members@.to_set());
                        assert(self.nodes@.contains(next));
                    }
                }
                k = k + 1;
            }
            proof {
                assert forall|m: u64, w: u64|
                    members@.contains(m) && !stack@.contains(m) && #[trigger] adjacent(
                        g,
                        m,
                        w,
                    ) implies visited@.contains(w) by {
                    if m == current {
                        assert(wires@.to_set().contains(w));
                        let j = choose|j: int| 0 <= j < wires@.len() && wires@[j] == w;
                    }
                }
                vstd::set_lib::lemma_len_subset(visited@, self.nodes@);
            }
        }
        proof {
            assert forall|a: u64, b: u64| members@.to_set().contains(a) && #[trigger] adjacent(
                g,
                a,
                b,
            ) implies members@.to_set().contains(b) by {
                assert(members@.contains(a));
                assert(visited@.contains(b));
                if v0.contains(b) {
                    assert(adjacent(g, b, a));
                    assert(v0.contains(a));
                }
            }
        }
        members
    }
}


/// Within a closed group of nodes connected both ways to one node, the
/// group's smallest node is the smallest node each member is connected to.
proof fn lemma_group_root(g: Map<u64, Set<u64>>, members: Seq<u64>, node: u64, root: u64)
    requires
        closed(g, members.to_set()),
        forall|m: u64| #[trigger]
            members.contains(m) ==> connected(g, node, m) && connected(g, m, node),
        members.contains(root),
        forall|m: u64| #[trigger] members.contains(m) ==> root <= m,
    ensures
        forall|m: u64| #[trigger] members.contains(m) ==> least_connected(g, m, root),
{
    assert forall|m: u64| #[trigger] members.contains(m) implies least_connected(g, m, root) by {
        lemma_connected_trans(g, m, node, root);
        assert forall|y: u64| #[trigger] connected(g, m, y) implies root <= y by {
            let p = choose|p: Seq<u64>| #[trigger] is_walk(g, p) && p[0] == m && p.last() == y;
            assert(members.to_set().contains(m));
            lemma_walk_stays(g, members.to_set(), p);
            assert(members.to_set().contains(y));
        }
    }
}

/// Walking a wire backwards is walking a wire.
pub proof fn lemma_walk_reverse(g: Map<u64, Set<u64>>, p: Seq<u64>)
    requires
        symmetric(g),
        is_walk(g, p),
    ensures
        is_walk(g, p.reverse()),
        p.reverse()[0] == p.last(),
        p.reverse().last() == p[0],
    decreases p.len(),
{
    if p.len() == 1 {
        assert(p.reverse() =~= p);
    } else {
        let q = p.drop_first();
        assert(step(g, p, 0));
        assert forall|i: int| 0 <= i < q.len() - 1 implies #[trigger] step(g, q, i) by {
            assert(step(g, p, i + 1));
        }
        assert(adjacent(g, p[0], p[1]));
        assert(g.contains_key(q[0]));
        lemma_walk_reverse(g, q);
        assert(adjacent(g, p[1], p[0]));
        assert(q.reverse().last() == p[1]);
        lemma_walk_push(g, q.reverse(), p[0]);
        assert(p.reverse() =~= q.reverse().push(p[0]));
    }
}

/// Connectivity is symmetric when every wire is recorded at both ends.
pub proof fn lemma_connected_symmetric(g: Map<u64, Set<u64>>, a: u64, b: u64)
    requires
        symmetric(g),
        connected(g, a, b),
    ensures
        connected(g, b, a),
{
    let p = choose|p: Seq<u64>| #[trigger] is_walk(g, p) && p[0] == a && p.last() == b;
    lemma_walk_reverse(g, p);
    assert(is_walk(g, p.reverse()));
}

/// Two nodes of a design share a root exactly when wires connect them: the
/// roots that [`CircuitDesign::electrical_roots`] computes name the nets.
pub proof fn lemma_same_root_iff_connected(
    d: CircuitDesign,
    roots: Map<u64, u64>,
    a: u64,
    b: u64,
)
    requires
        d.wf(),
        roots.dom() == d.nodes@,
        forall|n: u64| #[trigger]
            d.nodes@.contains(n) ==> least_connected(d.graph(), n, roots[n]),
        d.nodes@.contains(a),
        d.nodes@.contains(b),
    ensures
        roots[a] == roots[b] <==> connected(d.graph(), a, b),
{
    let g = d.graph();
    assert(least_connected(g, a, roots[a]));
    assert(least_connected(g, b, roots[b]));
    if connected(g, a, b) {
        lemma_connected_symmetric(g, a, b);
        lemma_connected_trans(g, a, b, roots[b]);
        lemma_connected_trans(g, b, a, roots[a]);
    }
    if roots[a] == roots[b] {
        lemma_connected_symmetric(g, b, roots[b]);
        lemma_connected_trans(g, a, roots[a], b);
    }
}

/// The root of a node is its component root.
pub proof fn lemma_least_connected_unique(g: Map<u64, Set<u64>>, n: u64, r: u64)
    requires
        least_connected(g, n, r),
    ensures
        component_root(g, n) == r,
{
    let c = component_root(g, n);
    assert(least_connected(g, n, c));
}

impl CircuitDesign {
    /// Maps every node to the root of its net: the smallest node it is
    /// connected to by wires.
    pub fn electrical_roots(&self) -> (r: BTreeMap<u64, u64>)
        requires
            self.wf(),
        ensures
            r@.dom() == self.nodes@,
            forall|n: u64| #[trigger]
                self.nodes@.contains(n) ==> least_connected(self.graph(), n, r@[n]),
    {
        broadcast use vstd::seq_lib::group_seq_properties;
        let ghost g = self.graph();
        let order = set_items(&self.nodes);
        let mut roots: BTreeMap<u64, u64> = BTreeMap::new();
        let mut visited: BTreeSet<u64> = BTreeSet::new();
        let mut i: usize = 0;
        proof {
            assert(roots@.dom() =~= visited@);
        }
        while i < order.len()
            invariant
                self.wf(),
                g == self.graph(),
                order@.to_set() == self.nodes@,
                self.nodes@.finite(),
                i <= order@.len(),
                forall|j: int| 0 <= j < i ==> visited@.contains(#[trigger] order@[j]),
                visited@.subset_of(self.nodes@),
                closed(g, visited@),
                roots@.dom() == visited@,
                forall|v: u64| #[trigger] visited@.contains(v) ==> least_connected(g, v, roots@[v]),
            decreases order@.len() - i,
        {
            let node = order[i];
            proof {
                assert(order@.to_set().contains(node));
            }
            if !visited.contains(&node) {
                let ghost v0 = visited@;
                let ghost r0 = roots@;
                let members = self.explore(node, &mut visited);
                let mut root = members[0];
                let mut k: usize = 1;
                assert(members@.take(1)[0] == root);
                while k < members.len()
                    invariant
                        1 <= k <= members@.len(),
                        members@.take(k as int).contains(root),
                        forall|j: int| 0 <= j < k ==> root <= #[trigger] members@[j],
                    decreases members@.len() - k,
                {
                    if members[k] < root {
                        root = members[k];
                    }
                    proof {
                        assert(members@.take(k + 1)[k as int] == members@[k as int]);
                        if members@.take(k as int).contains(root) {
                            let j = choose|j: int|
                                0 <= j < k && members@.take(k as int)[j] == root;
                            assert(members@.take(k + 1)[j] == root);
                        }
                    }
                    k = k + 1;
                }
                proof {
                    assert(members@.take(members@.len() as int) =~= members@);
                    assert forall|m: u64| #[trigger] members@.contains(m) implies root <= m by {
                        let j = choose|j: int| 0 <= j < members@.len() && members@[j] == m;
                    }
                    lemma_group_root(g, members@, node, root);
                }
                let mut k: usize = 0;
                while k < members.len()
                    invariant
                        k <= members@.len(),
                        roots@.dom() == r0.dom() + members@.take(k as int).to_set(),
                        forall|v: u64| #[trigger]
                            r0.contains_key(v) ==> roots@.contains_key(v) && roots@[v] == r0[v],
                        forall|j: int|
                            0 <= j < k ==> roots@.contains_key(#[trigger] members@[j])
                                && roots@[members@[j]] == root,
                        forall|m: u64| #[trigger] members@.contains(m) ==> !r0.contains_key(m),
                    decreases members@.len() - k,
                {
                    let ghost before = roots@;
                    roots.insert(members[k], root);
                    proof {
                        assert(members@.contains(members@[k as int]));
                        assert(members@.take(k + 1) == members@.take(k as int).push(members@[k as int]));
                        members@.take(k as int).lemma_push_to_set_commute(members@[k as int]);
                        assert(roots@.dom() =~= r0.dom() + members@.take(k + 1).to_set());
                    }
                    k = k + 1;
                }
                proof {
                    assert(members@.take(members@.len() as int) =~= members@);
                    assert(visited@ =~= roots@.dom());
                    assert forall|v: u64| #[trigger] visited@.contains(v) implies least_connected(
                        g,
                        v,
                        roots@[v],
                    ) by {
                        if !v0.contains(v) {
                            assert(members@.to_set().contains(v));
                            let j = choose|j: int| 0 <= j < members@.len() && members@[j] == v;
                            assert(members@.contains(v));
                        }
                    }
                    assert forall|a: u64, b: u64| visited@.contains(a) && #[trigger] adjacent(
                        g,
                        a,
                        b,
                    ) implies visited@.contains(b) by {
                        if v0.contains(a) {
                        } else {
                            assert(members@.to_set().contains(a));
                        }
                    }
                }
            }
            i = i + 1;
        }
        proof {
            assert forall|n: u64| self.nodes@.contains(n) implies visited@.contains(n) by {
                assert(order@.to_set().contains(n));
                let j = choose|j: int| 0 <= j < order@.len() && order@[j] == n;
            }
            assert(roots@.dom() =~= self.nodes@);
        }
        roots
    }
}


impl Default for CircuitDesign {
    fn default() -> (r: Self)
        ensures
            r.wf(),
            r.nodes@ == Set::<u64>::empty(),
            r.graph() == Map::<u64, Set<u64>>::empty(),
            r.components@.len() == 0,
            r.net_labels@.len() == 0,
            r.sections@.len() == 0,
    {
        CircuitDesign::new()
    }
}

/// `names` with `n` appended unless it is already there.
pub open spec fn with_unique(names: Seq<Seq<char>>, n: Seq<char>) -> Seq<Seq<char>> {
    if names.contains(n) {
        names
    } else {
        names.push(n)
    }
}

/// `ns` with `n` appended unless it is already there.
pub open spec fn with_unique_node(ns: Seq<u64>, n: u64) -> Seq<u64> {
    if ns.contains(n) {
        ns
    } else {
        ns.push(n)
    }
}

/// `g` with the nodes of `ns`, each new one without wires.
pub open spec fn with_nodes(g: Map<u64, Set<u64>>, ns: Seq<u64>) -> Map<u64, Set<u64>>
    decreases ns.len(),
{
    if ns.len() == 0 {
        g
    } else {
        with_node(with_nodes(g, ns.drop_last()), ns.last())
    }
}

/// The nodes the ports of a component are attached to, in port order.
pub open spec fn port_nodes(c: Component) -> Seq<u64> {
    Seq::new(c.ports@.len(), |i: int| c.ports@[i].1)
}

/// The index of the first net label named `t`.
pub open spec fn find_label(labels: Seq<(Seq<char>, Seq<u64>)>, t: Seq<char>) -> Option<int>
    decreases labels.len(),
{
    if labels.len() == 0 {
        None
    } else {
        match find_label(labels.drop_last(), t) {
            Some(i) => Some(i),
            None => if labels.last().0 == t {
                Some(labels.len() - 1)
            } else {
                None
            },
        }
    }
}

proof fn lemma_find_label_bounds(labels: Seq<(Seq<char>, Seq<u64>)>, t: Seq<char>)
    ensures
        match find_label(labels, t) {
            Some(i) => 0 <= i < labels.len() && labels[i].0 == t && forall|j: int|
                0 <= j < i ==> labels[j].0 != t,
            None => forall|j: int| 0 <= j < labels.len() ==> labels[j].0 != t,
        },
    decreases labels.len(),
{
    if labels.len() > 0 {
        lemma_find_label_bounds(labels.drop_last(), t);
        match find_label(labels.drop_last(), t) {
            Some(i) => {
                assert forall|j: int| 0 <= j < i implies labels[j].0 != t by {
                    assert(labels.drop_last()[j] == labels[j]);
                }
                assert(labels.drop_last()[i] == labels[i]);
            },
            None => {
                assert forall|j: int| 0 <= j < labels.len() - 1 implies labels[j].0 != t by {
                    assert(labels.drop_last()[j] == labels[j]);
                }
            },
        }
    }
}

/// The node first registered under net label `t`, if any.
pub open spec fn label_first(labels: Seq<(Seq<char>, Seq<u64>)>, t: Seq<char>) -> Option<u64> {
    match find_label(labels, t) {
        Some(i) => if labels[i].1.len() > 0 {
            Some(labels[i].1[0])
        } else {
            None
        },
        None => None,
    }
}

/// Where a new label `t` goes among the labels from index `i` on: before
/// the first that sorts after it, else at the end.
pub open spec fn label_slot(labels: Seq<(Seq<char>, Seq<u64>)>, t: Seq<char>, i: int) -> int
    decreases labels.len() - i,
{
    if i < 0 || i >= labels.len() {
        labels.len() as int
    } else if text_less(t, labels[i].0) {
        i
    } else {
        label_slot(labels, t, i + 1)
    }
}

/// The net labels after registering `node` under `t`: a new label is
/// placed before the first label that sorts after it.
pub open spec fn labels_with(labels: Seq<(Seq<char>, Seq<u64>)>, t: Seq<char>, node: u64) -> Seq<
    (Seq<char>, Seq<u64>),
> {
    match find_label(labels, t) {
        Some(i) => labels.update(i, (t, with_unique_node(labels[i].1, node))),
        None => labels.insert(label_slot(labels, t, 0), (t, seq![node])),
    }
}

/// Net labels in strictly increasing order of name, as a map keyed by the
/// name holds them.
pub open spec fn labels_ordered(labels: Seq<(Seq<char>, Seq<u64>)>) -> bool {
    forall|i: int, j: int| 0 <= i < j < labels.len() ==> text_less(labels[i].0, labels[j].0)
}

proof fn lemma_label_slot(labels: Seq<(Seq<char>, Seq<u64>)>, t: Seq<char>, i: int)
    requires
        0 <= i <= labels.len(),
    ensures
        i <= label_slot(labels, t, i) <= labels.len(),
        forall|j: int| i <= j < label_slot(labels, t, i) ==> !text_less(t, #[trigger] labels[j].0),
        label_slot(labels, t, i) < labels.len() ==> text_less(t, labels[label_slot(labels, t, i)].0),
    decreases labels.len() - i,
{
    if i < labels.len() && !text_less(t, labels[i].0) {
        lemma_label_slot(labels, t, i + 1);
    }
}

/// Registering a node under a label keeps the labels in order of name, so
/// each name stays unique.
pub proof fn lemma_labels_with_ordered(labels: Seq<(Seq<char>, Seq<u64>)>, t: Seq<char>, node: u64)
    requires
        labels_ordered(labels),
    ensures
        labels_ordered(labels_with(labels, t, node)),
{
    lemma_find_label_bounds(labels, t);
    match find_label(labels, t) {
        Some(i) => {
            let r = labels_with(labels, t, node);
            assert forall|a: int, b: int| 0 <= a < b < r.len() implies text_less(
                r[a].0,
                r[b].0,
            ) by {
                assert(r[a].0 == labels[a].0);
                assert(r[b].0 == labels[b].0);
            }
        },
        None => {
            let p = label_slot(labels, t, 0);
            lemma_label_slot(labels, t, 0);
            let r = labels_with(labels, t, node);
            assert forall|a: int, b: int| 0 <= a < b < r.len() implies text_less(
                r[a].0,
                r[b].0,
            ) by {
                if a < p && b < p {
                    assert(r[a] == labels[a] && r[b] == labels[b]);
                } else if a < p && b == p {
                    lemma_text_less_total(labels[a].0, t);
                } else if a < p {
                    assert(r[a] == labels[a] && r[b] == labels[b - 1]);
                    lemma_text_less_total(labels[a].0, t);
                    if p < b - 1 {
                        lemma_text_less_trans(t, labels[p].0, labels[b - 1].0);
                    }
                    lemma_text_less_trans(labels[a].0, t, labels[b - 1].0);
                } else if a == p {
                    assert(r[b] == labels[b - 1]);
                    if p < b - 1 {
                        lemma_text_less_trans(t, labels[p].0, labels[b - 1].0);
                    }
                } else {
                    assert(r[a] == labels[a - 1] && r[b] == labels[b - 1]);
                }
            }
        },
    }
}

impl CircuitDesign {
    /// An empty design.
    pub fn new() -> (r: Self)
        ensures
            r.wf(),
            r.nodes@ == Set::<u64>::empty(),
            r.graph() == Map::<u64, Set<u64>>::empty(),
            r.components@.len() == 0,
            r.net_labels@.len() == 0,
            r.sections@.len() == 0,
    {
        let r = CircuitDesign {
            nodes: BTreeSet::new(),
            connections: BTreeMap::new(),
            components: Vec::new(),
            net_labels: Vec::new(),
            sections: Vec::new(),
        };
        assert(r.graph() =~= Map::<u64, Set<u64>>::empty());
        r
    }

    /// Records the section `name` unless it is already recorded.
    pub fn add_section(&mut self, name: String)
        requires
            old(self).wf(),
        ensures
            final(self).wf(),
            final(self).section_list() == with_unique(old(self).section_list(), name@),
            final(self).nodes@ == old(self).nodes@,
            final(self).graph() == old(self).graph(),
            final(self).components@ == old(self).components@,
            final(self).net_labels@ == old(self).net_labels@,
    {
        let ghost names = self.section_list();
        let mut i: usize = 0;
        while i < self.sections.len()
            invariant
                self.wf(),
                names == self.section_list(),
                i <= self.sections@.len(),
                forall|j: int| 0 <= j < i ==> names[j] != name@,
            decreases self.sections@.len() - i,
        {
            if str_eq(self.sections[i].as_str(), name.as_str()) {
                assert(names.contains(name@)) by {
                    assert(names[i as int] == name@);
                }
                return;
            }
            i = i + 1;
        }
        assert(!names.contains(name@));
        self.sections.push(name);
        assert(self.section_list() =~= names.push(name@));
    }

    /// Adds a component, registering the nodes of its ports and its section.
    pub fn add_component(&mut self, component: Component)
        requires
            old(self).wf(),
        ensures
            final(self).wf(),
            final(self).nodes@ == old(self).nodes@ + port_nodes(component).to_set(),
            final(self).graph() == with_nodes(old(self).graph(), port_nodes(component)),
            final(self).components@ == old(self).components@.push(component),
            final(self).section_list() == match component.section {
                Some(s) => with_unique(old(self).section_list(), s@),
                None => old(self).section_list(),
            },
            final(self).net_labels@ == old(self).net_labels@,
    {
        broadcast use vstd::seq_lib::group_seq_properties;
        let ghost nodes0 = self.nodes@;
        let ghost g0 = self.graph();
        let ghost ports = port_nodes(component);
        let mut i: usize = 0;
        proof {
            assert(ports.take(0) =~= Seq::<u64>::empty());
            assert(nodes0 + ports.take(0).to_set() =~= nodes0);
        }
        while i < component.ports.len()
            invariant
                self.wf(),
                ports == port_nodes(component),
                i <= ports.len(),
                self.nodes@ == nodes0 + ports.take(i as int).to_set(),
                self.graph() == with_nodes(g0, ports.take(i as int)),
                self.components@ == old(self).components@,
                self.net_labels@ == old(self).net_labels@,
                self.sections@ == old(self).sections@,
            decreases ports.len() - i,
        {
            let node = component.ports[i].1;
            self.add_node(node);
            proof {
                assert(ports.take(i + 1) =~= ports.take(i as int).push(node));
                assert(ports.take(i + 1).drop_last() =~= ports.take(i as int));
                ports.take(i as int).lemma_push_to_set_commute(node);
                assert(self.nodes@ =~= nodes0 + ports.take(i + 1).to_set());
            }
            i = i + 1;
        }
        proof {
            assert(ports.take(ports.len() as int) =~= ports);
        }
        match &component.section {
            Some(section) => {
                self.add_section(section.clone());
            },
            None => {},
        }
        self.components.push(component);
    }

    /// Registers `node` under the net label `label` and wires it to the node
    /// first registered under that label; returns that node, if any. A new
    /// label takes its place in the order of names.
    pub fn add_net_label(&mut self, label: String, node: u64) -> (r: Option<u64>)
        requires
            old(self).wf(),
        ensures
            final(self).wf(),
            r == label_first(old(self).labels(), label@),
            final(self).labels() == labels_with(old(self).labels(), label@, node),
            labels_ordered(old(self).labels()) ==> labels_ordered(final(self).labels()),
            final(self).nodes@ == match r {
                Some(p) => old(self).nodes@.insert(node).insert(p),
                None => old(self).nodes@.insert(node),
            },
            final(self).graph() == match r {
                Some(p) => with_wire(with_node(old(self).graph(), node), p, node),
                None => with_node(old(self).graph(), node),
            },
            final(self).components@ == old(self).components@,
            final(self).sections@ == old(self).sections@,
    {
        let ghost labels0 = self.labels();
        proof {
            lemma_find_label_bounds(labels0, label@);
            if labels_ordered(labels0) {
                lemma_labels_with_ordered(labels0, label@, node);
            }
        }
        self.add_node(node);
        let ghost g1 = self.graph();
        let ghost nodes1 = self.nodes@;
        let n = self.net_labels.len();
        let mut i: usize = 0;
        while i < n && !str_eq(self.net_labels[i].0.as_str(), label.as_str())
            invariant
                n == self.net_labels@.len(),
                labels0 == self.labels(),
                i <= n,
                forall|j: int| 0 <= j < i ==> labels0[j].0 != label@,
            decreases n - i,
        {
            i = i + 1;
        }
        proof {
            if i < n {
                assert(labels0[i as int].0 == label@);
                assert(find_label(labels0, label@) == Some(i as int));
            } else {
                assert(find_label(labels0, label@) is None);
            }
        }
        if i == n {
            self.net_labels.push((label, Vec::new()));
        }
        let mut entry = self.net_labels.remove(i);
        let existing = if entry.1.len() > 0 {
            Some(entry.1[0])
        } else {
            None
        };
        let mut k: usize = 0;
        let mut present = false;
        while k < entry.1.len()
            invariant
                k <= entry.1@.len(),
                present == entry.1@.take(k as int).contains(node),
            decreases entry.1@.len() - k,
        {
            let ghost t0 = entry.1@.take(k as int);
            let ghost t1 = entry.1@.take(k + 1);
            proof {
                assert(t1 =~= t0.push(entry.1@[k as int]));
                assert(t1[k as int] == entry.1@[k as int]);
                if t1.contains(node) && entry.1@[k as int] != node {
                    let j = choose|j: int| 0 <= j < t1.len() && t1[j] == node;
                    assert(t0[j] == node);
                }
                if t0.contains(node) {
                    let j = choose|j: int| 0 <= j < t0.len() && t0[j] == node;
                    assert(t1[j] == node);
                }
            }
            if entry.1[k] == node {
                present = true;
            }
            k = k + 1;
        }
        proof {
            assert(entry.1@.take(entry.1@.len() as int) =~= entry.1@);
        }
        let ghost before = entry.1@;
        if !present {
            entry.1.push(node);
        }
        assert(entry.1@ == with_unique_node(before, node));
        // A new label goes before the first label that sorts after it.
        let mut at: usize = i;
        if i == n {
            at = 0;
            assert(entry.0@ == label@);
            while at < n && !str_less(entry.0.as_str(), self.net_labels[at].0.as_str())
                invariant
                    entry.0@ == label@,
                    n == self.net_labels@.len(),
                    labels0 == self.labels(),
                    at <= n,
                    label_slot(labels0, label@, 0) == label_slot(labels0, label@, at as int),
                decreases n - at,
            {
                at = at + 1;
            }
        }
        self.net_labels.insert(at, entry);
        proof {
            if i < n {
                assert(self.labels() =~= labels0.update(i as int, (label@, entry.1@)));
            } else {
                assert(before =~= Seq::<u64>::empty());
                assert(entry.1@ =~= seq![node]);
                assert(label_slot(labels0, label@, at as int) == at);
                assert(self.labels() =~= labels0.insert(at as int, (label@, seq![node])));
            }
        }
        match existing {
            Some(previous) => {
                self.connect(previous, node);
            },
            None => {},
        }
        existing
    }
}


/// The sections named by components, in component order.
pub open spec fn component_sections(cs: Seq<Component>) -> Seq<Seq<char>>
    decreases cs.len(),
{
    if cs.len() == 0 {
        Seq::empty()
    } else {
        let rest = component_sections(cs.drop_last());
        match cs.last().section {
            Some(s) => rest.push(s@),
            None => rest,
        }
    }
}

/// `start` extended by each text of `list` in turn, skipping texts already
/// present.
pub open spec fn fold_unique(start: Seq<Seq<char>>, list: Seq<Seq<char>>) -> Seq<Seq<char>>
    decreases list.len(),
{
    if list.len() == 0 {
        start
    } else {
        with_unique(fold_unique(start, list.drop_last()), list.last())
    }
}

/// The name of the default section.
pub open spec fn circuit_word() -> Seq<char> {
    seq!['C', 'i', 'r', 'c', 'u', 'i', 't']
}

/// Some component belongs to no section.
pub open spec fn has_unsectioned(cs: Seq<Component>) -> bool {
    exists|i: int| 0 <= i < cs.len() && (#[trigger] cs[i]).section is None
}

/// The section names of a design: `Circuit` first when a component has no
/// section, then the recorded sections and the sections of components in
/// order of first mention, and `Circuit` alone when there is nothing else.
pub open spec fn section_names_spec(d: CircuitDesign) -> Seq<Seq<char>> {
    let start = if has_unsectioned(d.components@) {
        seq![circuit_word()]
    } else {
        Seq::empty()
    };
    let names = fold_unique(start, d.section_list() + component_sections(d.components@));
    if names.len() == 0 {
        seq![circuit_word()]
    } else {
        names
    }
}

fn circuit_name() -> (r: String)
    ensures
        r@ == circuit_word(),
{
    let r = "Circuit".to_owned();
    proof {
        reveal_strlit("Circuit");
        assert(r@ =~= circuit_word());
    }
    r
}

/// Appends `name` to `names` unless it is already there.
fn push_unique(names: &mut Vec<String>, name: &str)
    ensures
        strings_view(final(names)@) == with_unique(strings_view(old(names)@), name@),
{
    let ghost v = strings_view(names@);
    let mut i: usize = 0;
    while i < names.len()
        invariant
            v == strings_view(names@),
            i <= names@.len(),
            forall|j: int| 0 <= j < i ==> v[j] != name@,
        decreases names@.len() - i,
    {
        if str_eq(names[i].as_str(), name) {
            assert(v[i as int] == name@);
            assert(v.contains(name@));
            return;
        }
        i = i + 1;
    }
    assert(!v.contains(name@));
    names.push(name.to_owned());
    assert(strings_view(names@) =~= v.push(name@));
}

impl CircuitDesign {
    /// The names of the design's sections.
    pub fn section_names(&self) -> (r: Vec<String>)
        ensures
            strings_view(r@) == section_names_spec(*self),
    {
        let mut unsectioned = false;
        let mut k: usize = 0;
        while k < self.components.len()
            invariant
                k <= self.components@.len(),
                unsectioned == exists|i: int|
                    0 <= i < k && (#[trigger] self.components@[i]).section is None,
            decreases self.components@.len() - k,
        {
            if self.components[k].section.is_none() {
                unsectioned = true;
            }
            k = k + 1;
        }
        let mut names: Vec<String> = Vec::new();
        if unsectioned {
            names.push(circuit_name());
            assert(strings_view(names@) =~= seq![circuit_word()]);
        } else {
            assert(strings_view(names@) =~= Seq::<Seq<char>>::empty());
        }
        let ghost start = strings_view(names@);
        assert(start == (if has_unsectioned(self.components@) {
            seq![circuit_word()]
        } else {
            Seq::<Seq<char>>::empty()
        }));
        let ghost sections = self.section_list();
        let mut i: usize = 0;
        proof {
            assert(sections.take(0) =~= Seq::<Seq<char>>::empty());
        }
        while i < self.sections.len()
            invariant
                sections == self.section_list(),
                i <= sections.len(),
                strings_view(names@) == fold_unique(start, sections.take(i as int)),
            decreases sections.len() - i,
        {
            push_unique(&mut names, self.sections[i].as_str());
            proof {
                assert(sections.take(i + 1).drop_last() =~= sections.take(i as int));
            }
            i = i + 1;
        }
        proof {
            assert(sections.take(sections.len() as int) =~= sections);
        }
        let ghost cs = self.components@;
        let mut j: usize = 0;
        proof {
            assert(cs.take(0) =~= Seq::<Component>::empty());
            assert(sections + component_sections(cs.take(0)) =~= sections);
        }
        while j < self.components.len()
            invariant
                cs == self.components@,
                sections == self.section_list(),
                j <= cs.len(),
                strings_view(names@) == fold_unique(
                    start,
                    sections + component_sections(cs.take(j as int)),
                ),
            decreases cs.len() - j,
        {
            proof {
                assert(cs.take(j + 1).drop_last() =~= cs.take(j as int));
                assert(cs.take(j + 1).last() == cs[j as int]);
            }
            match &self.components[j].section {
                Some(section) => {
                    push_unique(&mut names, section.as_str());
                    proof {
                        let all = sections + component_sections(cs.take(j + 1));
                        assert(all.drop_last() =~= sections + component_sections(cs.take(j as int)));
                    }
                },
                None => {
                    assert(sections + component_sections(cs.take(j + 1)) =~= sections
                        + component_sections(cs.take(j as int)));
                },
            }
            j = j + 1;
        }
        proof {
            assert(cs.take(cs.len() as int) =~= cs);
        }
        if names.len() == 0 {
            names.push(circuit_name());
            assert(strings_view(names@) =~= seq![circuit_word()]);
        }
        names
    }
}


/// The root of the net of `n`, or `n` itself when it is not a node.
pub open spec fn root_of(d: CircuitDesign, n: u64) -> u64 {
    if d.nodes@.contains(n) {
        component_root(d.graph(), n)
    } else {
        n
    }
}

/// The later of two texts in `str` order.
pub open spec fn text_max(a: Seq<char>, b: Seq<char>) -> Seq<char> {
    if text_less(a, b) {
        b
    } else {
        a
    }
}

/// `m` after naming the net of each node of `ns` with `t`, a net keeping
/// the later of two names.
pub open spec fn name_nodes(d: CircuitDesign, m: Map<u64, Seq<char>>, t: Seq<char>, ns: Seq<u64>) -> Map<
    u64,
    Seq<char>,
>
    decreases ns.len(),
{
    if ns.len() == 0 {
        m
    } else {
        let m1 = name_nodes(d, m, t, ns.drop_last());
        let k = root_of(d, ns.last());
        m1.insert(
            k,
            if m1.contains_key(k) {
                text_max(m1[k], t)
            } else {
                t
            },
        )
    }
}

/// The names that the net labels give to nets: each net is named by the
/// greatest label registered on one of its nodes.
pub open spec fn labelled_names(d: CircuitDesign, labels: Seq<(Seq<char>, Seq<u64>)>) -> Map<
    u64,
    Seq<char>,
>
    decreases labels.len(),
{
    if labels.len() == 0 {
        Map::empty()
    } else {
        name_nodes(d, labelled_names(d, labels.drop_last()), labels.last().0, labels.last().1)
    }
}

/// `k` is the root of some node of the design.
pub open spec fn is_root(d: CircuitDesign, k: u64) -> bool {
    exists|n: u64| #[trigger] d.nodes@.contains(n) && component_root(d.graph(), n) == k
}

/// The generated name of an unlabelled net.
pub open spec fn generated_name(k: u64) -> Seq<char> {
    seq!['N', 'e', 't', '-'] + decimal(k as nat)
}

/// The names of the nets of a design: the labelled name of each labelled
/// net, and `Net-` followed by the root for every other net.
pub open spec fn net_name_map(d: CircuitDesign) -> Map<u64, Seq<char>> {
    let named = labelled_names(d, d.labels());
    Map::new(
        |k: u64| named.contains_key(k) || is_root(d, k),
        |k: u64|
            if named.contains_key(k) {
                named[k]
            } else {
                generated_name(k)
            },
    )
}

fn generated_name_exec(k: u64) -> (r: String)
    ensures
        r@ == generated_name(k),
{
    let mut out: Vec<char> = Vec::new();
    out.push('N');
    out.push('e');
    out.push('t');
    out.push('-');
    let digits = decimal_u64(k);
    push_all(&mut out, digits.as_slice());
    assert(out@ =~= generated_name(k));
    string_of(out.as_slice())
}

impl CircuitDesign {
    /// The name of every net, keyed by its root.
    pub fn net_names(&self) -> (r: BTreeMap<u64, String>)
        requires
            self.wf(),
        ensures
            r@.dom() == net_name_map(*self).dom(),
            forall|k: u64| #[trigger] r@.contains_key(k) ==> r@[k]@ == net_name_map(*self)[k],
    {
        let ghost g = self.graph();
        let ghost d = *self;
        let roots = self.electrical_roots();
        proof {
            assert forall|n: u64| #[trigger] self.nodes@.contains(n) implies roots@[n]
                == component_root(g, n) by {
                lemma_least_connected_unique(g, n, roots@[n]);
            }
        }
        let ghost labels = self.labels();
        let mut names: BTreeMap<u64, String> = BTreeMap::new();
        let mut i: usize = 0;
        proof {
            assert(labels.take(0) =~= Seq::<(Seq<char>, Seq<u64>)>::empty());
        }
        while i < self.net_labels.len()
            invariant
                d == *self,
                labels == self.labels(),
                roots@.dom() == self.nodes@,
                forall|n: u64| #[trigger]
                    self.nodes@.contains(n) ==> roots@[n] == component_root(g, n),
                g == self.graph(),
                i <= labels.len(),
                names@.dom() == labelled_names(d, labels.take(i as int)).dom(),
                forall|k: u64| #[trigger]
                    names@.contains_key(k) ==> names@[k]@ == labelled_names(
                        d,
                        labels.take(i as int),
                    )[k],
            decreases labels.len() - i,
        {
            let label = &self.net_labels[i].0;
            let members = &self.net_labels[i].1;
            let ghost base = labelled_names(d, labels.take(i as int));
            proof {
                assert(labels.take(i + 1).drop_last() =~= labels.take(i as int));
                assert(labels[i as int] == (label@, members@));
                assert(members@.take(0) =~= Seq::<u64>::empty());
            }
            let mut j: usize = 0;
            while j < members.len()
                invariant
                    d == *self,
                    roots@.dom() == self.nodes@,
                    forall|n: u64| #[trigger]
                        self.nodes@.contains(n) ==> roots@[n] == component_root(g, n),
                    g == self.graph(),
                    j <= members@.len(),
                    names@.dom() == name_nodes(d, base, label@, members@.take(j as int)).dom(),
                    forall|k: u64| #[trigger]
                        names@.contains_key(k) ==> names@[k]@ == name_nodes(
                            d,
                            base,
                            label@,
                            members@.take(j as int),
                        )[k],
                decreases members@.len() - j,
            {
                let n = members[j];
                let key = match roots.get(&n) {
                    Some(r) => *r,
                    None => n,
                };
                assert(key == root_of(d, n));
                let ghost m1 = name_nodes(d, base, label@, members@.take(j as int));
                proof {
                    assert(members@.take(j + 1).drop_last() =~= members@.take(j as int));
                }
                let replace = match names.get(&key) {
                    Some(previous) => str_less(previous.as_str(), label.as_str()),
                    None => true,
                };
                if replace {
                    names.insert(key, label.clone());
                }
                proof {
                    let m2 = name_nodes(d, base, label@, members@.take(j + 1));
                    assert(m2 == m1.insert(key, if m1.contains_key(key) { text_max(m1[key], label@) } else { label@ }));
                    assert(names@.dom() =~= m2.dom());
                }
                j = j + 1;
            }
            proof {
                assert(members@.take(members@.len() as int) =~= members@);
            }
            i = i + 1;
        }
        proof {
            assert(labels.take(labels.len() as int) =~= labels);
        }
        let ghost named = labelled_names(d, labels);
        let order = set_items(&self.nodes);
        let mut k: usize = 0;
        while k < order.len()
            invariant
                d == *self,
                labels == self.labels(),
                named == labelled_names(d, labels),
                roots@.dom() == self.nodes@,
                forall|n: u64| #[trigger]
                    self.nodes@.contains(n) ==> roots@[n] == component_root(g, n),
                g == self.graph(),
                order@.to_set() == self.nodes@,
                k <= order@.len(),
                forall|x: u64| #[trigger]
                    names@.contains_key(x) <==> (named.contains_key(x) || exists|j: int|
                        0 <= j < k && component_root(g, #[trigger] order@[j]) == x),
                forall|x: u64| #[trigger]
                    names@.contains_key(x) ==> names@[x]@ == (if named.contains_key(x) {
                        named[x]
                    } else {
                        generated_name(x)
                    }),
            decreases order@.len() - k,
        {
            let n = order[k];
            proof {
                assert(order@.to_set().contains(n));
            }
            let root = match roots.get(&n) {
                Some(r) => *r,
                None => n,
            };
            if !names.contains_key(&root) {
                let text = generated_name_exec(root);
                names.insert(root, text);
            }
            proof {
                assert forall|x: u64| #[trigger]
                    names@.contains_key(x) <==> (named.contains_key(x) || exists|j: int|
                        0 <= j < k + 1 && component_root(g, #[trigger] order@[j]) == x) by {
                    if x == root {
                        assert(component_root(g, order@[k as int]) == x);
                    }
                    if exists|j: int| 0 <= j < k + 1 && component_root(g, #[trigger] order@[j]) == x {
                        let j = choose|j: int| 0 <= j < k + 1 && component_root(g, #[trigger] order@[j]) == x;
                        if j < k {
                            assert(exists|j2: int| 0 <= j2 < k && component_root(g, #[trigger] order@[j2]) == x);
                        }
                    }
                }
            }
            k = k + 1;
        }
        proof {
            assert forall|x: u64| #[trigger] names@.contains_key(x) <==> net_name_map(d).dom().contains(x) by {
                if is_root(d, x) {
                    let n = choose|n: u64| #[trigger] d.nodes@.contains(n) && component_root(g, n) == x;
                    assert(order@.to_set().contains(n));
                    let j = choose|j: int| 0 <= j < order@.len() && order@[j] == n;
                    assert(component_root(g, order@[j]) == x);
                }
                if exists|j: int| 0 <= j < order@.len() && component_root(g, #[trigger] order@[j]) == x {
                    let j = choose|j: int| 0 <= j < order@.len() && component_root(g, #[trigger] order@[j]) == x;
                    assert(order@.to_set().contains(order@[j]));
                    assert(d.nodes@.contains(order@[j]));
                }
            }
            assert(names@.dom() =~= net_name_map(d).dom());
        }
        names
    }
}

} // verus!
