use vstd::prelude::*;

use super::data::{link_of, simple_view, with_parameters, Link, NodeView, Nodes, Shape, Simple};
use super::visit::{
    closed_graph, lemma_closed_push, lemma_closed_set_parameter, lemma_closed_update, lemma_parameter_in_graph, predecessors,
    reachable, retain_only, reverse_topological, swept,
};

verus! {

/// What a folded node is replaced with: a link that already exists, or a
/// fresh literal zero.
#[derive(Clone, Copy, PartialEq, Eq, Structural, Debug)]
pub enum Replacement {
    Existing(Link),
    Zero,
}

/// A match of the memory rules.
#[derive(Clone, Copy, PartialEq, Eq, Structural, Debug)]
pub enum Elided {
    /// A load right after a store to the same pointer: its post state is the
    /// store's, its value is the stored one.
    Load { store: Link, value: Link },
    /// A store right after a store to the same pointer: it follows the
    /// earlier store's input state instead.
    Store { state: Link },
    /// A merge whose inputs all come from one node collapses onto it.
    Merge { node: usize },
}

pub open spec fn is_simple(n: NodeView, op: Simple) -> bool {
    n.shape == Shape::Simple(op)
}

/// The value of `l` when it is the output of an integer literal.
pub open spec fn literal(g: Seq<NodeView>, l: Link) -> Option<u64> {
    if l.node < g.len() && l.port == 0 && g[l.node as int].shape is Simple && g[l.node as int].shape->Simple_0 is Integer {
        Some(g[l.node as int].shape->Simple_0->value)
    } else {
        None
    }
}

pub open spec fn modulus() -> int {
    0x1_0000_0000_0000_0000
}

/// `a + b` on 64-bit words.
pub open spec fn wrapping_add(a: u64, b: u64) -> u64 {
    ((a + b) % modulus()) as u64
}

/// `a - b` on 64-bit words.
pub open spec fn wrapping_sub(a: u64, b: u64) -> u64 {
    ((a - b + modulus()) % modulus()) as u64
}

/// Identity folding: `x + 0`, `x - 0` and `x - x`, and a merge of one state
/// with itself.
pub open spec fn identity_rule(g: Seq<NodeView>, id: int) -> Option<Replacement> {
    let n = g[id];
    let p = n.parameters;
    if (is_simple(n, Simple::Add) || is_simple(n, Simple::Sub)) && p.len() == 2 && literal(g, p[1]) == Some(0u64) {
        Some(Replacement::Existing(p[0]))
    } else if is_simple(n, Simple::Sub) && p.len() == 2 && p[0] == p[1] {
        Some(Replacement::Zero)
    } else if is_simple(n, Simple::Merge) && p.len() > 0 && (forall|k: int| 0 <= k < p.len() ==> #[trigger] p[k] == p[0]) {
        Some(Replacement::Existing(p[0]))
    } else {
        None
    }
}

/// Constant folding: an add or subtract of two literals.
pub open spec fn fold_rule(g: Seq<NodeView>, id: int) -> Option<u64> {
    let n = g[id];
    let p = n.parameters;
    if p.len() == 2 && literal(g, p[0]) is Some && literal(g, p[1]) is Some {
        let a = literal(g, p[0])->Some_0;
        let b = literal(g, p[1])->Some_0;
        if is_simple(n, Simple::Add) {
            Some(wrapping_add(a, b))
        } else if is_simple(n, Simple::Sub) {
            Some(wrapping_sub(a, b))
        } else {
            None
        }
    } else {
        None
    }
}

/// The store that link `l` is the post state of, with its three inputs.
pub open spec fn store_at(g: Seq<NodeView>, l: Link) -> bool {
    l.node < g.len() && l.port == 0 && is_simple(g[l.node as int], Simple::Store) && g[l.node as int].parameters.len() == 3
}

/// Load/store elision on the memory chain. Pointers are equal when they are
/// the same link. A store after a store follows the earlier store's input
/// when that input is an older node than the earlier store. Every parsed
/// graph satisfies this for every store (`stores_follow_older`, stated by
/// `Parser::parse`), so on the graphs the builder makes the condition never
/// blocks the rule; on any graph it makes each firing lower the rewrite
/// measure, which is what ends the rewrite loop.
pub open spec fn elide_rule(g: Seq<NodeView>, id: int) -> Option<Elided> {
    let n = g[id];
    let p = n.parameters;
    if is_simple(n, Simple::Load) && p.len() == 2 && store_at(g, p[0]) && g[p[0].node as int].parameters[1] == p[1] {
        Some(Elided::Load { store: p[0], value: g[p[0].node as int].parameters[2] })
    } else if is_simple(n, Simple::Store) && p.len() == 3 && store_at(g, p[0]) && g[p[0].node as int].parameters[1] == p[1]
        && g[p[0].node as int].parameters[0].node < p[0].node {
        Some(Elided::Store { state: g[p[0].node as int].parameters[0] })
    } else if is_simple(n, Simple::Merge) && p.len() > 0 && (forall|k: int| 0 <= k < p.len() ==> #[trigger] p[k].node == p[0].node) {
        Some(Elided::Merge { node: p[0].node })
    } else {
        None
    }
}

fn literal_of(nodes: &Nodes, l: Link) -> (r: Option<u64>)
    ensures
        r == literal(nodes@, l),
{
    if l.node < nodes.len() && l.port == 0 {
        match nodes.get(l.node).operation {
            super::data::Operation::Simple(Simple::Integer { value }) => Some(value),
            _ => None,
        }
    } else {
        None
    }
}

fn simple_of(nodes: &Nodes, id: usize) -> (r: Option<Simple>)
    requires
        id < nodes@.len(),
    ensures
        r matches Some(op) ==> nodes@[id as int].shape == Shape::Simple(op),
        r is None ==> !(nodes@[id as int].shape is Simple),
{
    match nodes.get(id).operation {
        super::data::Operation::Simple(op) => Some(op),
        _ => None,
    }
}

/// Matches the identity rules at node `id`.
pub fn identity(nodes: &Nodes, id: usize) -> (r: Option<Replacement>)
    requires
        id < nodes@.len(),
    ensures
        r == identity_rule(nodes@, id as int),
{
    let node = nodes.get(id);
    let p = &node.parameters;
    let op = simple_of(nodes, id);
    match op {
        Some(Simple::Add) | Some(Simple::Sub) => {
            if p.len() == 2 {
                if literal_of(nodes, p[1]) == Some(0u64) {
                    return Some(Replacement::Existing(p[0]));
                }
                if op == Some(Simple::Sub) && p[0] == p[1] {
                    return Some(Replacement::Zero);
                }
            }
            None
        },
        Some(Simple::Merge) => {
            if p.len() == 0 {
                return None;
            }
            let first = p[0];
            let mut k: usize = 1;
            while k < p.len()
                invariant
                    id < nodes@.len(),
                    p@ == nodes@[id as int].parameters,
                    nodes@[id as int].shape == Shape::Simple(Simple::Merge),
                    1 <= k <= p@.len(),
                    first == p@[0],
                    forall|j: int| 0 <= j < k ==> p@[j] == first,
                decreases p@.len() - k,
            {
                if p[k] != first {
                    assert(nodes@[id as int].parameters[k as int] != nodes@[id as int].parameters[0]);
                    return None;
                }
                k = k + 1;
            }
            Some(Replacement::Existing(first))
        },
        _ => None,
    }
}

/// Matches the constant folding rules at node `id`.
pub fn fold(nodes: &Nodes, id: usize) -> (r: Option<u64>)
    requires
        id < nodes@.len(),
    ensures
        r == fold_rule(nodes@, id as int),
{
    let node = nodes.get(id);
    let p = &node.parameters;
    if p.len() != 2 {
        return None;
    }
    let a = match literal_of(nodes, p[0]) {
        Some(a) => a,
        None => return None,
    };
    let b = match literal_of(nodes, p[1]) {
        Some(b) => b,
        None => return None,
    };
    match simple_of(nodes, id) {
        Some(Simple::Add) => {
            let r = a.wrapping_add(b);
            assert(r == wrapping_add(a, b));
            Some(r)
        },
        Some(Simple::Sub) => {
            let r = a.wrapping_sub(b);
            assert(r == wrapping_sub(a, b));
            Some(r)
        },
        _ => None,
    }
}

fn store_inputs(nodes: &Nodes, l: Link) -> (r: Option<(Link, Link, Link)>)
    ensures
        r is Some == store_at(nodes@, l),
        r matches Some(t) ==> t.0 == nodes@[l.node as int].parameters[0] && t.1 == nodes@[l.node as int].parameters[1]
            && t.2 == nodes@[l.node as int].parameters[2],
{
    if l.node < nodes.len() && l.port == 0 {
        let node = nodes.get(l.node);
        if node.parameters.len() == 3 && simple_of(nodes, l.node) == Some(Simple::Store) {
            return Some((node.parameters[0], node.parameters[1], node.parameters[2]));
        }
    }
    None
}

/// Matches the memory rules at node `id`.
pub fn elide(nodes: &Nodes, id: usize) -> (r: Option<Elided>)
    requires
        id < nodes@.len(),
    ensures
        r == elide_rule(nodes@, id as int),
{
    let node = nodes.get(id);
    let p = &node.parameters;
    match simple_of(nodes, id) {
        Some(Simple::Load) => {
            if p.len() == 2 {
                if let Some((_, pointer, value)) = store_inputs(nodes, p[0]) {
                    if pointer == p[1] {
                        return Some(Elided::Load { store: p[0], value });
                    }
                }
            }
            None
        },
        Some(Simple::Store) => {
            if p.len() == 3 {
                if let Some((state, pointer, _)) = store_inputs(nodes, p[0]) {
                    if pointer == p[1] && state.node < p[0].node {
                        return Some(Elided::Store { state });
                    }
                }
            }
            None
        },
        Some(Simple::Merge) => {
            if p.len() == 0 {
                return None;
            }
            let first = p[0].node;
            let mut k: usize = 1;
            while k < p.len()
                invariant
                    id < nodes@.len(),
                    p@ == nodes@[id as int].parameters,
                    nodes@[id as int].shape == Shape::Simple(Simple::Merge),
                    1 <= k <= p@.len(),
                    first == p@[0].node,
                    forall|j: int| 0 <= j < k ==> p@[j].node == first,
                decreases p@.len() - k,
            {
                if p[k].node != first {
                    assert(nodes@[id as int].parameters[k as int].node != nodes@[id as int].parameters[0].node);
                    return None;
                }
                k = k + 1;
            }
            Some(Elided::Merge { node: first })
        },
        _ => None,
    }
}


/// The operations that a rule can remove: each firing turns one of them into
/// a no-op or a literal.
pub open spec fn reducible(n: NodeView) -> bool {
    is_simple(n, Simple::Add) || is_simple(n, Simple::Sub) || is_simple(n, Simple::Merge) || is_simple(n, Simple::Load)
}

/// One node's share of the rewrite measure: whether it is reducible, or, for
/// a store, the id of the node its input state comes from.
pub open spec fn weight(n: NodeView, reducing: bool) -> nat {
    if reducing {
        if reducible(n) {
            1
        } else {
            0
        }
    } else if is_simple(n, Simple::Store) && n.parameters.len() > 0 {
        n.parameters[0].node as nat
    } else {
        0
    }
}

pub open spec fn total(g: Seq<NodeView>, reducing: bool) -> nat
    decreases g.len(),
{
    if g.len() == 0 {
        0
    } else {
        total(g.drop_last(), reducing) + weight(g.last(), reducing)
    }
}

/// `g` is strictly below `h` in the lexicographic rewrite measure.
pub open spec fn below(g: Seq<NodeView>, h: Seq<NodeView>) -> bool {
    total(g, true) < total(h, true) || (total(g, true) == total(h, true) && total(g, false) < total(h, false))
}

proof fn lemma_total_update(g: Seq<NodeView>, i: int, n: NodeView, reducing: bool)
    requires
        0 <= i < g.len(),
    ensures
        total(g.update(i, n), reducing) == total(g, reducing) - weight(g[i], reducing) + weight(n, reducing),
    decreases g.len(),
{
    let h = g.update(i, n);
    if i == g.len() - 1 {
        assert(h.drop_last() =~= g.drop_last());
    } else {
        assert(h.drop_last() =~= g.drop_last().update(i, n));
        lemma_total_update(g.drop_last(), i, n, reducing);
    }
}

proof fn lemma_total_push(g: Seq<NodeView>, n: NodeView, reducing: bool)
    ensures
        total(g.push(n), reducing) == total(g, reducing) + weight(n, reducing),
{
    assert(g.push(n).drop_last() =~= g);
}

proof fn lemma_total_shapes(g: Seq<NodeView>, h: Seq<NodeView>)
    requires
        g.len() == h.len(),
        forall|x: int| 0 <= x < g.len() ==> #[trigger] g[x].shape == h[x].shape,
    ensures
        total(g, true) == total(h, true),
    decreases g.len(),
{
    if g.len() > 0 {
        lemma_total_shapes(g.drop_last(), h.drop_last());
    }
}

/// Rewrite termination: the first part of the rewrite measure never exceeds
/// the node count, and every firing lowers the measure (see `progress`), so
/// a graph of bounded size is rewritten in boundedly many passes.
pub proof fn lemma_total_bound(g: Seq<NodeView>)
    ensures
        total(g, true) <= g.len(),
    decreases g.len(),
{
    if g.len() > 0 {
        lemma_total_bound(g.drop_last());
    }
}

pub open spec fn same_shapes(g: Seq<NodeView>, h: Seq<NodeView>) -> bool {
    g.len() == h.len() && forall|x: int| 0 <= x < g.len() ==> #[trigger] g[x].shape == h[x].shape
}

/// How a rewrite re-points the readers of node `id`: every port of it to
/// the same port of `whole`, when given; else port 0 to `first` and port 1
/// to `second`, where given.
#[derive(Clone, Copy, Debug)]
pub struct Redirect {
    pub id: usize,
    pub first: Option<Link>,
    pub second: Option<Link>,
    pub whole: Option<usize>,
}

pub open spec fn redirect(l: Link, r: Redirect) -> Link {
    if l.node != r.id {
        l
    } else if r.whole is Some {
        Link { node: r.whole->Some_0, port: l.port }
    } else if l.port == 0 && r.first is Some {
        r.first->Some_0
    } else if l.port == 1 && r.second is Some {
        r.second->Some_0
    } else {
        l
    }
}

/// The targets of `r` are nodes below `len`.
pub open spec fn redirect_fits(r: Redirect, len: nat) -> bool {
    &&& r.first matches Some(l) ==> l.node < len
    &&& r.second matches Some(l) ==> l.node < len
    &&& r.whole matches Some(n) ==> n < len
}

pub open spec fn rewire_node(n: NodeView, r: Redirect) -> NodeView {
    with_parameters(n, n.parameters.map_values(|l: Link| redirect(l, r)))
}

/// `g` with every node re-pointed by `r`: each parameter that reads node
/// `r.id` is redirected, so every reader of it now reads the replacement.
pub open spec fn rewired(g: Seq<NodeView>, r: Redirect) -> Seq<NodeView> {
    Seq::new(g.len(), |s: int| rewire_node(g[s], r))
}

proof fn lemma_rewire_closed(g: Seq<NodeView>, s: int, r: Redirect)
    requires
        closed_graph(g),
        0 <= s < g.len(),
        redirect_fits(r, g.len()),
    ensures
        closed_graph(g.update(s, rewire_node(g[s], r))),
{
    let n = g[s];
    let m = rewire_node(n, r);
    assert forall|q: int| 0 <= q < predecessors(m).len() implies #[trigger] predecessors(m)[q] < g.len() by {
        if q < n.parameters.len() {
            lemma_parameter_in_graph(g, s, q);
            assert(predecessors(m)[q] == redirect(n.parameters[q], r).node);
        } else {
            assert(predecessors(m)[q] == predecessors(n)[q]);
        }
    }
    lemma_closed_update(g, s, m);
}

/// Re-points the parameters of node `s` by `r`.
fn rewire(nodes: &mut Nodes, s: usize, r: Redirect)
    requires
        s < old(nodes)@.len(),
    ensures
        final(nodes)@ == old(nodes)@.update(s as int, rewire_node(old(nodes)@[s as int], r)),
{
    let ghost n = old(nodes)@[s as int];
    let count = nodes.get(s).parameters.len();
    proof {
        assert(Seq::new(count as nat, |j: int| if j < 0 { redirect(n.parameters[j], r) } else { n.parameters[j] }) =~= n.parameters);
        assert(with_parameters(n, n.parameters) == n);
        assert(old(nodes)@.update(s as int, n) =~= old(nodes)@);
    }
    let mut k: usize = 0;
    while k < count
        invariant
            s < old(nodes)@.len(),
            n == old(nodes)@[s as int],
            count == n.parameters.len(),
            k <= count,
            nodes@ == old(nodes)@.update(s as int, with_parameters(n, Seq::new(count as nat, |j: int| if j < k {
                redirect(n.parameters[j], r)
            } else {
                n.parameters[j]
            }))),
        decreases count - k,
    {
        let l = nodes.get(s).parameters[k];
        let target = if l.node != r.id {
            l
        } else if let Some(w) = r.whole {
            Link { node: w, port: l.port }
        } else if l.port == 0 && r.first.is_some() {
            match r.first {
                Some(f) => f,
                None => l,
            }
        } else if l.port == 1 && r.second.is_some() {
            match r.second {
                Some(f) => f,
                None => l,
            }
        } else {
            l
        };
        let ghost cur = Seq::new(count as nat, |j: int| if j < k { redirect(n.parameters[j], r) } else { n.parameters[j] });
        assert(l == cur[k as int]);
        assert(target == redirect(n.parameters[k as int], r));
        nodes.set_parameter(s, k, target);
        proof {
            assert(cur.update(k as int, target) =~= Seq::new(count as nat, |j: int| if j < k + 1 {
                redirect(n.parameters[j], r)
            } else {
                n.parameters[j]
            }));
            assert(nodes@ =~= old(nodes)@.update(s as int, with_parameters(n, Seq::new(count as nat, |j: int| if j < k + 1 {
                redirect(n.parameters[j], r)
            } else {
                n.parameters[j]
            }))));
        }
        k = k + 1;
    }
    assert(Seq::new(count as nat, |j: int| if j < k { redirect(n.parameters[j], r) } else { n.parameters[j] })
        =~= n.parameters.map_values(|l: Link| redirect(l, r)));
}

/// Re-points every reader of `r.id` in the graph.
fn redo(nodes: &mut Nodes, r: Redirect)
    ensures
        final(nodes)@ == rewired(old(nodes)@, r),
        closed_graph(old(nodes)@) && redirect_fits(r, old(nodes)@.len()) ==> closed_graph(final(nodes)@),
{
    let ghost g = old(nodes)@;
    let ghost closed = closed_graph(g) && redirect_fits(r, g.len());
    let n = nodes.len();
    let mut s: usize = 0;
    while s < n
        invariant
            n == g.len(),
            s <= n,
            g == old(nodes)@,
            closed == (closed_graph(g) && redirect_fits(r, g.len())),
            nodes@ == Seq::new(g.len(), |x: int| if x < s { rewire_node(g[x], r) } else { g[x] }),
            closed ==> closed_graph(nodes@),
        decreases n - s,
    {
        proof {
            if closed {
                lemma_rewire_closed(nodes@, s as int, r);
            }
        }
        rewire(nodes, s, r);
        proof {
            assert(nodes@ =~= Seq::new(g.len(), |x: int| if x < s + 1 { rewire_node(g[x], r) } else { g[x] }));
        }
        s = s + 1;
    }
    assert(nodes@ =~= rewired(g, r));
}

/// Re-points the readers of node `id`: a parameter that reads its port 0 is
/// replaced by `first`, one that reads its port 1 by `second`, where given.
pub fn redo_ports(nodes: &mut Nodes, id: usize, first: Option<Link>, second: Option<Link>)
    ensures
        final(nodes)@ == rewired(old(nodes)@, Redirect { id, first, second, whole: None }),
        closed_graph(old(nodes)@) && redirect_fits(Redirect { id, first, second, whole: None }, old(nodes)@.len())
            ==> closed_graph(final(nodes)@),
{
    redo(nodes, Redirect { id, first, second, whole: None });
}

/// Re-points every reader of node `id` to the same port of `replacement`.
pub fn redo_ports_in_place(nodes: &mut Nodes, id: usize, replacement: usize)
    ensures
        final(nodes)@ == rewired(old(nodes)@, Redirect { id, first: None, second: None, whole: Some(replacement) }),
        closed_graph(old(nodes)@) && replacement < old(nodes)@.len() ==> closed_graph(final(nodes)@),
{
    redo(nodes, Redirect { id, first: None, second: None, whole: Some(replacement) });
}

proof fn lemma_rewired_shapes(g: Seq<NodeView>, r: Redirect)
    ensures
        same_shapes(rewired(g, r), g),
{
}

/// What a rule firing owes: the measure drops, and the node count grows at
/// most by what the measure dropped.
pub open spec fn progress(g: Seq<NodeView>, h: Seq<NodeView>) -> bool {
    &&& below(h, g)
    &&& h.len() >= g.len()
    &&& h.len() + total(h, true) <= g.len() + total(g, true)
}

/// The rules of the enabled families that fire at node `id`, none of them.
pub open spec fn quiet(g: Seq<NodeView>, id: int, rewrites: Rewrites) -> bool {
    &&& rewrites.constant_fold ==> identity_rule(g, id) is None && fold_rule(g, id) is None
    &&& rewrites.load_store_elide ==> elide_rule(g, id) is None
}

/// Which rule families run.
#[derive(Clone, Copy, PartialEq, Eq, Structural, Debug)]
pub struct Rewrites {
    pub constant_fold: bool,
    pub load_store_elide: bool,
}

/// The slot a removed node leaves: a no-op reading nothing.
pub open spec fn no_op() -> NodeView {
    simple_view(Simple::NoOp, seq![])
}

/// Identity folding at `id`: its readers read the replacement (a fresh
/// literal zero for `x - x`) and `id` becomes a no-op.
pub open spec fn identity_applied(g: Seq<NodeView>, id: int) -> Seq<NodeView> {
    let (g1, value) = match identity_rule(g, id)->Some_0 {
        Replacement::Existing(l) => (g, l),
        Replacement::Zero => (g.push(simple_view(Simple::Integer { value: 0 }, seq![])), link_of(g.len() as int, 0)),
    };
    rewired(g1, Redirect { id: id as usize, first: Some(value), second: None, whole: None }).update(id, no_op())
}

/// Constant folding at `id`: the node becomes the literal of its value.
pub open spec fn fold_applied(g: Seq<NodeView>, id: int) -> Seq<NodeView> {
    g.update(id, simple_view(Simple::Integer { value: fold_rule(g, id)->Some_0 }, seq![]))
}

/// Load/store elision at `id`; the readers of a removed load or merge read
/// what it stood for.
pub open spec fn elide_applied(g: Seq<NodeView>, id: int) -> Seq<NodeView> {
    match elide_rule(g, id)->Some_0 {
        Elided::Load { store, value } => rewired(
            g,
            Redirect { id: id as usize, first: Some(store), second: Some(value), whole: None },
        ).update(id, no_op()),
        Elided::Merge { node } => rewired(
            g,
            Redirect { id: id as usize, first: None, second: None, whole: Some(node) },
        ).update(id, no_op()),
        Elided::Store { state } => g.update(id, with_parameters(g[id], g[id].parameters.update(0, state))),
    }
}

/// `h` is `g` after one firing of an enabled rule at some node.
pub open spec fn one_rewrite(g: Seq<NodeView>, h: Seq<NodeView>, rewrites: Rewrites) -> bool {
    exists|id: int|
        #![trigger identity_applied(g, id)]
        #![trigger fold_applied(g, id)]
        #![trigger elide_applied(g, id)]
        0 <= id < g.len() && {
            ||| rewrites.constant_fold && identity_rule(g, id) is Some && h == identity_applied(g, id)
            ||| rewrites.constant_fold && fold_rule(g, id) is Some && h == fold_applied(g, id)
            ||| rewrites.load_store_elide && elide_rule(g, id) is Some && h == elide_applied(g, id)
        }
}

/// The graph after the identity rules run at `id`, when enabled.
pub open spec fn after_identity(g: Seq<NodeView>, id: int, rewrites: Rewrites) -> Seq<NodeView> {
    if rewrites.constant_fold && identity_rule(g, id) is Some {
        identity_applied(g, id)
    } else {
        g
    }
}

/// The graph after constant folding runs at `id`, when enabled.
pub open spec fn after_fold(g: Seq<NodeView>, id: int, rewrites: Rewrites) -> Seq<NodeView> {
    if rewrites.constant_fold && fold_rule(g, id) is Some {
        fold_applied(g, id)
    } else {
        g
    }
}

/// The graph after the memory rules run at `id`, when enabled.
pub open spec fn after_elide(g: Seq<NodeView>, id: int, rewrites: Rewrites) -> Seq<NodeView> {
    if rewrites.load_store_elide && elide_rule(g, id) is Some {
        elide_applied(g, id)
    } else {
        g
    }
}

/// The graph after the enabled families run at `id`, in order.
pub open spec fn optimized_at(g: Seq<NodeView>, id: int, rewrites: Rewrites) -> Seq<NodeView> {
    after_elide(after_fold(after_identity(g, id, rewrites), id, rewrites), id, rewrites)
}

/// How many families fire at `id`, each judged on the graph it meets.
pub open spec fn fired_at(g: Seq<NodeView>, id: int, rewrites: Rewrites) -> nat {
    let g1 = after_identity(g, id, rewrites);
    let g2 = after_fold(g1, id, rewrites);
    (if rewrites.constant_fold && identity_rule(g, id) is Some { 1nat } else { 0nat }) + (if rewrites.constant_fold && fold_rule(
        g1,
        id,
    ) is Some {
        1nat
    } else {
        0nat
    }) + (if rewrites.load_store_elide && elide_rule(g2, id) is Some {
        1nat
    } else {
        0nat
    })
}

/// `h` is reached from `g` by a chain of rule firings.
pub open spec fn rewrites_to(g: Seq<NodeView>, h: Seq<NodeView>, rewrites: Rewrites) -> bool {
    exists|path: Seq<Seq<NodeView>>|
        #![trigger path.last()]
        path.len() >= 1 && path[0] == g && path.last() == h && forall|i: int|
            0 <= i < path.len() - 1 ==> #[trigger] one_rewrite(path[i], path[i + 1], rewrites)
}

proof fn lemma_rewrites_refl(g: Seq<NodeView>, rewrites: Rewrites)
    ensures
        rewrites_to(g, g, rewrites),
{
    let path = seq![g];
    assert(path.last() == g);
}

proof fn lemma_rewrites_trans(g: Seq<NodeView>, h: Seq<NodeView>, k: Seq<NodeView>, rewrites: Rewrites)
    requires
        rewrites_to(g, h, rewrites),
        rewrites_to(h, k, rewrites),
    ensures
        rewrites_to(g, k, rewrites),
{
    let p1 = choose|path: Seq<Seq<NodeView>>|
        #![trigger path.last()]
        path.len() >= 1 && path[0] == g && path.last() == h && forall|i: int|
            0 <= i < path.len() - 1 ==> #[trigger] one_rewrite(path[i], path[i + 1], rewrites);
    let p2 = choose|path: Seq<Seq<NodeView>>|
        #![trigger path.last()]
        path.len() >= 1 && path[0] == h && path.last() == k && forall|i: int|
            0 <= i < path.len() - 1 ==> #[trigger] one_rewrite(path[i], path[i + 1], rewrites);
    let path = p1 + p2.drop_first();
    assert forall|i: int| 0 <= i < path.len() - 1 implies #[trigger] one_rewrite(path[i], path[i + 1], rewrites) by {
        if i < p1.len() - 1 {
            assert(path[i] == p1[i]);
            assert(path[i + 1] == p1[i + 1]);
        } else {
            let j = i - (p1.len() - 1);
            assert(path[i] == p2[j]);
            assert(path[i + 1] == p2[j + 1]);
        }
    }
    assert(path[0] == g);
    assert(path.last() == k);
}

proof fn lemma_rewrites_extend(g: Seq<NodeView>, h: Seq<NodeView>, k: Seq<NodeView>, rewrites: Rewrites)
    requires
        rewrites_to(g, h, rewrites),
        one_rewrite(h, k, rewrites),
    ensures
        rewrites_to(g, k, rewrites),
{
    let path = choose|path: Seq<Seq<NodeView>>|
        #![trigger path.last()]
        path.len() >= 1 && path[0] == g && path.last() == h && forall|i: int|
            0 <= i < path.len() - 1 ==> #[trigger] one_rewrite(path[i], path[i + 1], rewrites);
    let longer = path.push(k);
    assert forall|i: int| 0 <= i < longer.len() - 1 implies #[trigger] one_rewrite(longer[i], longer[i + 1], rewrites) by {
        if i < path.len() - 1 {
            assert(longer[i] == path[i]);
            assert(longer[i + 1] == path[i + 1]);
        } else {
            assert(longer[i] == h);
            assert(longer[i + 1] == k);
        }
    }
    assert(longer[0] == g);
    assert(longer.last() == k);
}

fn apply_identity(nodes: &mut Nodes, id: usize) -> (r: bool)
    requires
        id < old(nodes)@.len(),
        old(nodes)@.len() + 1 < usize::MAX,
    ensures
        r == identity_rule(old(nodes)@, id as int) is Some,
        !r ==> final(nodes)@ == old(nodes)@,
        r ==> final(nodes)@ == identity_applied(old(nodes)@, id as int),
        r ==> progress(old(nodes)@, final(nodes)@),
        closed_graph(old(nodes)@) ==> closed_graph(final(nodes)@),
{
    let replacement = match identity(nodes, id) {
        None => return false,
        Some(rep) => rep,
    };
    let ghost g0 = nodes@;
    let ghost closed = closed_graph(g0);
    let value = match replacement {
        Replacement::Existing(l) => {
            proof {
                if closed {
                    lemma_parameter_in_graph(g0, id as int, 0);
                }
            }
            l
        },
        Replacement::Zero => {
            let l = nodes.add_integer(0);
            proof {
                lemma_total_push(g0, simple_view(Simple::Integer { value: 0 }, seq![]), true);
                if closed {
                    lemma_closed_push(g0, simple_view(Simple::Integer { value: 0 }, seq![]));
                }
            }
            l
        },
    };
    let ghost g1 = nodes@;
    redo_ports(nodes, id, Some(value), None);
    proof {
        lemma_rewired_shapes(g1, Redirect { id, first: Some(value), second: None, whole: None });
        lemma_total_shapes(nodes@, g1);
        assert(reducible(nodes@[id as int]));
    }
    let ghost g2 = nodes@;
    let empty: Vec<Link> = Vec::new();
    nodes.replace_simple(id, Simple::NoOp, empty);
    proof {
        assert(simple_view(Simple::NoOp, empty@) =~~= no_op());
        lemma_total_update(g2, id as int, no_op(), true);
        lemma_total_update(g2, id as int, no_op(), false);
        if closed {
            assert(predecessors(no_op()) =~= seq![]);
            lemma_closed_update(g2, id as int, no_op());
        }
    }
    true
}

fn apply_fold(nodes: &mut Nodes, id: usize) -> (r: bool)
    requires
        id < old(nodes)@.len(),
    ensures
        r == fold_rule(old(nodes)@, id as int) is Some,
        !r ==> final(nodes)@ == old(nodes)@,
        r ==> final(nodes)@ == fold_applied(old(nodes)@, id as int),
        r ==> progress(old(nodes)@, final(nodes)@),
        closed_graph(old(nodes)@) ==> closed_graph(final(nodes)@),
{
    let value = match fold(nodes, id) {
        None => return false,
        Some(v) => v,
    };
    let ghost g0 = nodes@;
    let empty: Vec<Link> = Vec::new();
    nodes.replace_simple(id, Simple::Integer { value }, empty);
    proof {
        assert(simple_view(Simple::Integer { value }, empty@) =~~= simple_view(Simple::Integer { value }, seq![]));
        lemma_total_update(g0, id as int, simple_view(Simple::Integer { value }, empty@), true);
        lemma_total_update(g0, id as int, simple_view(Simple::Integer { value }, empty@), false);
        if closed_graph(g0) {
            assert(predecessors(simple_view(Simple::Integer { value }, empty@)) =~= seq![]);
            lemma_closed_update(g0, id as int, simple_view(Simple::Integer { value }, empty@));
        }
    }
    true
}

fn apply_elide(nodes: &mut Nodes, id: usize) -> (r: bool)
    requires
        id < old(nodes)@.len(),
    ensures
        r == elide_rule(old(nodes)@, id as int) is Some,
        !r ==> final(nodes)@ == old(nodes)@,
        r ==> final(nodes)@ == elide_applied(old(nodes)@, id as int),
        r ==> progress(old(nodes)@, final(nodes)@),
        closed_graph(old(nodes)@) ==> closed_graph(final(nodes)@),
{
    let elided = match elide(nodes, id) {
        None => return false,
        Some(e) => e,
    };
    let ghost g0 = nodes@;
    let ghost closed = closed_graph(g0);
    proof {
        if closed {
            lemma_parameter_in_graph(g0, id as int, 0);
        }
    }
    match elided {
        Elided::Load { store, value } => {
            proof {
                if closed {
                    lemma_parameter_in_graph(g0, store.node as int, 2);
                }
            }
            redo_ports(nodes, id, Some(store), Some(value));
            proof {
                lemma_rewired_shapes(g0, Redirect { id, first: Some(store), second: Some(value), whole: None });
            }
        },
        Elided::Merge { node } => {
            redo_ports_in_place(nodes, id, node);
            proof {
                lemma_rewired_shapes(g0, Redirect { id, first: None, second: None, whole: Some(node) });
            }
        },
        Elided::Store { state } => {
            proof {
                if closed {
                    lemma_parameter_in_graph(g0, g0[id as int].parameters[0].node as int, 0);
                    lemma_closed_set_parameter(g0, id as int, 0, state);
                }
            }
            nodes.set_parameter(id, 0, state);
            proof {
                let n = with_parameters(g0[id as int], g0[id as int].parameters.update(0, state));
                lemma_total_update(g0, id as int, n, true);
                lemma_total_update(g0, id as int, n, false);
            }
            return true;
        },
    }
    proof {
        lemma_total_shapes(nodes@, g0);
        assert(reducible(nodes@[id as int]));
    }
    let ghost g1 = nodes@;
    let empty: Vec<Link> = Vec::new();
    nodes.replace_simple(id, Simple::NoOp, empty);
    proof {
        assert(simple_view(Simple::NoOp, empty@) =~~= no_op());
        lemma_total_update(g1, id as int, no_op(), true);
        lemma_total_update(g1, id as int, no_op(), false);
        if closed {
            assert(predecessors(no_op()) =~= seq![]);
            lemma_closed_update(g1, id as int, no_op());
        }
    }
    true
}

/// Runs the enabled rule families at node `id`, in the order identity,
/// constant folding, memory elision; returns how many of them fired. Every
/// firing is a rule application, and lowers the rewrite measure.
pub fn run_optimization(nodes: &mut Nodes, id: usize, rewrites: Rewrites) -> (r: usize)
    requires
        id < old(nodes)@.len(),
        old(nodes)@.len() + 1 < usize::MAX,
    ensures
        final(nodes)@ == optimized_at(old(nodes)@, id as int, rewrites),
        r == fired_at(old(nodes)@, id as int, rewrites),
        r <= 3,
        r == 0 ==> final(nodes)@ == old(nodes)@ && quiet(old(nodes)@, id as int, rewrites),
        r > 0 ==> progress(old(nodes)@, final(nodes)@),
        rewrites_to(old(nodes)@, final(nodes)@, rewrites),
        closed_graph(old(nodes)@) ==> closed_graph(final(nodes)@),
{
    let ghost g0 = nodes@;
    proof {
        lemma_rewrites_refl(g0, rewrites);
    }
    let mut applied: usize = 0;
    if rewrites.constant_fold {
        let ghost before = nodes@;
        if apply_identity(nodes, id) {
            applied = applied + 1;
            proof {
                assert(identity_applied(before, id as int) == nodes@);
                assert(one_rewrite(before, nodes@, rewrites));
                lemma_rewrites_extend(g0, before, nodes@, rewrites);
            }
        }
    }
    let ghost g1 = nodes@;
    assert(g1 == after_identity(g0, id as int, rewrites));
    if rewrites.constant_fold {
        let ghost before = nodes@;
        if apply_fold(nodes, id) {
            applied = applied + 1;
            proof {
                assert(fold_applied(before, id as int) == nodes@);
                assert(one_rewrite(before, nodes@, rewrites));
                lemma_rewrites_extend(g0, before, nodes@, rewrites);
            }
        }
    }
    let ghost g2 = nodes@;
    assert(g2 == after_fold(g1, id as int, rewrites));
    if rewrites.load_store_elide {
        let ghost before = nodes@;
        if apply_elide(nodes, id) {
            applied = applied + 1;
            proof {
                assert(elide_applied(before, id as int) == nodes@);
                assert(one_rewrite(before, nodes@, rewrites));
                lemma_rewrites_extend(g0, before, nodes@, rewrites);
            }
        }
    }
    assert(nodes@ == after_elide(g2, id as int, rewrites));
    applied
}

/// No enabled rule fires at any live node.
pub open spec fn at_fixed_point(g: Seq<NodeView>, roots: Seq<usize>, rewrites: Rewrites) -> bool {
    forall|x: int| 0 <= x < g.len() && #[trigger] reachable(g, roots, x as usize) ==> quiet(g, x, rewrites)
}

/// Rewrites the graph to a fixed point, then sweeps away the dead nodes.
///
/// Each pass visits the live nodes in reverse topological order and applies
/// the enabled rules; the passes stop at the first one in which no rule
/// fires. Every firing lowers a lexicographic measure (the number of
/// removable operations, then the sum over stores of the id of their input
/// state), so the passes are finitely many.
pub fn optimize(nodes: &mut Nodes, roots: &[usize], rewrites: Rewrites)
    requires
        2 * old(nodes)@.len() + 2 < usize::MAX,
    ensures
        exists|fixed: Seq<NodeView>|
            rewrites_to(old(nodes)@, fixed, rewrites) && at_fixed_point(fixed, roots@, rewrites) && #[trigger] swept(
                fixed,
                final(nodes)@,
                roots@,
            ),
        closed_graph(old(nodes)@) ==> closed_graph(final(nodes)@),
{
    let ghost closed = closed_graph(nodes@);
    proof {
        lemma_total_bound(nodes@);
    }
    let ghost budget = nodes@.len() + total(nodes@, true);
    let ghost g0 = nodes@;
    proof {
        lemma_rewrites_refl(g0, rewrites);
    }
    loop
        invariant
            budget + 2 < usize::MAX,
            nodes@.len() + total(nodes@, true) <= budget,
            closed ==> closed_graph(nodes@),
            rewrites_to(g0, nodes@, rewrites),
            g0 == old(nodes)@,
        ensures
            rewrites_to(g0, nodes@, rewrites),
            at_fixed_point(nodes@, roots@, rewrites),
            closed ==> closed_graph(nodes@),
        decreases total(nodes@, true), total(nodes@, false),
    {
        let order = reverse_topological(nodes, roots);
        let ghost start = nodes@;
        let mut changed = false;
        let mut i: usize = 0;
        while i < order.len()
            invariant
                budget + 2 < usize::MAX,
                nodes@.len() + total(nodes@, true) <= budget,
                nodes@.len() >= start.len(),
                i <= order@.len(),
                forall|k: int| 0 <= k < order@.len() ==> order@[k] < start.len(),
                !changed ==> nodes@ == start && forall|k: int| 0 <= k < i ==> quiet(start, #[trigger] order@[k] as int, rewrites),
                changed ==> below(nodes@, start),
                closed ==> closed_graph(nodes@),
                rewrites_to(g0, nodes@, rewrites),
            decreases order@.len() - i,
        {
            let id = order[i];
            let ghost before = nodes@;
            let fired = run_optimization(nodes, id, rewrites);
            proof {
                lemma_rewrites_trans(g0, before, nodes@, rewrites);
            }
            if fired > 0 {
                changed = true;
            }
            i = i + 1;
        }
        if !changed {
            proof {
                assert forall|x: int| 0 <= x < start.len() && #[trigger] reachable(start, roots@, x as usize) implies quiet(start, x, rewrites) by {
                    let k = choose|k: int| 0 <= k < order@.len() && order@[k] == x as usize;
                    assert(quiet(start, order@[k] as int, rewrites));
                }
                assert(at_fixed_point(nodes@, roots@, rewrites));
            }
            break;
        }
    }
    let ghost fixed = nodes@;
    retain_only(nodes, roots);
    assert(swept(fixed, nodes@, roots@));
}

} // verus!
