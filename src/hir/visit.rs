use vstd::prelude::*;

use super::data::{simple_view, Compound, Link, NodeView, Nodes, Operation, Region, Shape, Simple};

verus! {

/// The markers of each region, start before end.
pub open spec fn region_markers(regions: Seq<Region>) -> Seq<usize> {
    Seq::new(2 * regions.len(), |k: int| if k % 2 == 0 { regions[k / 2].start } else { regions[k / 2].end })
}

/// The nodes that node `n` depends on: the producers of its parameters, then
/// the markers of the regions it owns.
pub open spec fn predecessors(n: NodeView) -> Seq<usize> {
    let producers = n.parameters.map_values(|l: Link| l.node);
    match n.shape {
        Shape::Gamma(regions) => producers + region_markers(regions),
        Shape::Theta(region) => producers + region_markers(seq![region]),
        _ => producers,
    }
}

impl Nodes {
    pub fn predecessors(&self, id: usize) -> (r: Vec<usize>)
        requires
            id < self@.len(),
        ensures
            r@ == predecessors(self@[id as int]),
    {
        let node = self.get(id);
        let mut r: Vec<usize> = Vec::new();
        let mut k: usize = 0;
        while k < node.parameters.len()
            invariant
                node@ == self@[id as int],
                k <= node.parameters@.len(),
                r@ == node.parameters@.take(k as int).map_values(|l: Link| l.node),
            decreases node.parameters@.len() - k,
        {
            r.push(node.parameters[k].node);
            proof {
                assert(r@ =~= node.parameters@.take(k + 1).map_values(|l: Link| l.node));
            }
            k = k + 1;
        }
        assert(node.parameters@.take(k as int) =~= node.parameters@);
        let ghost producers = r@;
        match &node.operation {
            Operation::Compound(Compound::Gamma { regions }) => {
                let mut j: usize = 0;
                while j < regions.len()
                    invariant
                        j <= regions@.len(),
                        r@ == producers + region_markers(regions@.take(j as int)),
                    decreases regions@.len() - j,
                {
                    r.push(regions[j].start);
                    r.push(regions[j].end);
                    proof {
                        assert(r@ =~= producers + region_markers(regions@.take(j + 1)));
                    }
                    j = j + 1;
                }
                assert(regions@.take(j as int) =~= regions@);
            },
            Operation::Compound(Compound::Theta { region }) => {
                r.push(region.start);
                r.push(region.end);
                assert(r@ =~= producers + region_markers(seq![*region]));
            },
            _ => {},
        }
        r
    }
}

/// `path` starts at a root and each next node is a predecessor of the last.
pub open spec fn is_path(g: Seq<NodeView>, roots: Seq<usize>, path: Seq<usize>) -> bool {
    &&& path.len() > 0
    &&& roots.contains(path[0])
    &&& forall|i: int| 0 <= i < path.len() - 1 ==> #[trigger] feeds(g, path[i], path[i + 1])
}

/// Node `a` depends on node `b`.
pub open spec fn feeds(g: Seq<NodeView>, a: usize, b: usize) -> bool {
    a < g.len() && predecessors(g[a as int]).contains(b)
}

/// `x` is live: some chain of dependencies leads from a root to it.
pub open spec fn reachable(g: Seq<NodeView>, roots: Seq<usize>, x: usize) -> bool {
    exists|path: Seq<usize>| is_path(g, roots, path) && path.last() == x
}

proof fn lemma_reaches_step(g: Seq<NodeView>, roots: Seq<usize>, y: usize, q: int)
    requires
        y < g.len(),
        reachable(g, roots, y),
        0 <= q < predecessors(g[y as int]).len(),
    ensures
        reachable(g, roots, predecessors(g[y as int])[q]),
{
    let path = choose|path: Seq<usize>| is_path(g, roots, path) && path.last() == y;
    let longer = path.push(predecessors(g[y as int])[q]);
    assert forall|i: int| 0 <= i < longer.len() - 1 implies #[trigger] feeds(g, longer[i], longer[i + 1]) by {
        if i < path.len() - 1 {
            assert(longer[i + 1] == path[i + 1]);
            assert(longer[i] == path[i]);
            assert(feeds(g, path[i], path[i + 1]));
        } else {
            assert(longer[i] == y);
            assert(predecessors(g[y as int])[q] == longer[i + 1]);
            assert(predecessors(g[longer[i] as int]).contains(longer[i + 1]));
        }
    }
    assert(longer[0] == path[0]);
    assert(longer.len() > 0);
    assert(roots.contains(longer[0]));
    assert(is_path(g, roots, longer));
    assert(longer.last() == predecessors(g[y as int])[q]);
}

spec fn count_true(v: Seq<bool>) -> nat
    decreases v.len(),
{
    if v.len() == 0 {
        0
    } else {
        count_true(v.drop_last()) + if v.last() {
            1nat
        } else {
            0nat
        }
    }
}

proof fn lemma_count_true(v: Seq<bool>, i: int)
    requires
        0 <= i < v.len(),
        !v[i],
    ensures
        count_true(v.update(i, true)) == count_true(v) + 1,
        count_true(v) < v.len(),
    decreases v.len(),
{
    let w = v.update(i, true);
    if i == v.len() - 1 {
        assert(w.drop_last() =~= v.drop_last());
        lemma_count_true_bound(v.drop_last());
    } else {
        assert(w.drop_last() =~= v.drop_last().update(i, true));
        lemma_count_true(v.drop_last(), i);
    }
}

proof fn lemma_count_true_bound(v: Seq<bool>)
    ensures
        count_true(v) <= v.len(),
    decreases v.len(),
{
    if v.len() > 0 {
        lemma_count_true_bound(v.drop_last());
    }
}

/// The work left on a depth-first stack: one pop per frame plus the
/// predecessors each frame has yet to look at.
spec fn pending(g: Seq<NodeView>, stack: Seq<(usize, usize)>) -> nat
    decreases stack.len(),
{
    if stack.len() == 0 {
        0
    } else {
        let (id, k) = stack.last();
        pending(g, stack.drop_last()) + 1 + (predecessors(g[id as int]).len() - k) as nat
    }
}

/// Every node in `order` has its in-range predecessors marked.
pub open spec fn preds_marked(g: Seq<NodeView>, order: Seq<usize>, visited: Seq<bool>) -> bool {
    forall|i: int, q: int| 0 <= i < order.len() && 0 <= q < predecessors(g[order[i] as int]).len()
        && #[trigger] predecessors(g[order[i] as int])[q] < g.len()
        ==> visited[predecessors(g[order[i] as int])[q] as int]
}

/// The state between two depth-first walks: the marked nodes are exactly
/// the emitted ones, and each emitted node's predecessors are marked.
pub open spec fn walk_done(g: Seq<NodeView>, order: Seq<usize>, visited: Seq<bool>) -> bool {
    &&& visited.len() == g.len()
    &&& order.no_duplicates()
    &&& forall|i: int| 0 <= i < order.len() ==> order[i] < g.len()
    &&& forall|x: int| 0 <= x < g.len() ==> (visited[x] <==> order.contains(x as usize))
    &&& preds_marked(g, order, visited)
}

spec fn on_stack(stack: Seq<(usize, usize)>, x: usize) -> bool {
    exists|i: int| 0 <= i < stack.len() && stack[i].0 == x
}

/// `path` follows dependencies: each next node is a predecessor of the one
/// before it.
pub open spec fn chain(g: Seq<NodeView>, path: Seq<usize>) -> bool {
    &&& path.len() > 0
    &&& forall|i: int| 0 <= i < path.len() - 1 ==> #[trigger] feeds(g, path[i], path[i + 1])
}

/// Node `a` depends on node `b`, directly or through others, or is `b`.
pub open spec fn depends(g: Seq<NodeView>, a: usize, b: usize) -> bool {
    exists|path: Seq<usize>| chain(g, path) && path[0] == a && path.last() == b
}

/// Every node of `order` comes after each node it depends on, unless that
/// node in turn depends on it (they lie on a cycle).
pub open spec fn ordered(g: Seq<NodeView>, order: Seq<usize>) -> bool {
    forall|i: int, q: int| 0 <= i < order.len() && 0 <= q < predecessors(g[order[i] as int]).len()
        && #[trigger] predecessors(g[order[i] as int])[q] < g.len()
        ==> (exists|j: int| 0 <= j < i && #[trigger] order[j] == predecessors(g[order[i] as int])[q])
            || depends(g, predecessors(g[order[i] as int])[q], order[i])
}

/// No node depends on itself through one of its predecessors.
pub open spec fn acyclic(g: Seq<NodeView>) -> bool {
    forall|x: usize, p: usize| #[trigger] feeds(g, x, p) ==> !depends(g, p, x)
}

/// In an acyclic graph an `ordered` sequence is a topological order: every
/// node comes after all of its predecessors that are in the graph.
pub proof fn lemma_topological(g: Seq<NodeView>, order: Seq<usize>, i: int, q: int)
    requires
        acyclic(g),
        ordered(g, order),
        0 <= i < order.len(),
        order[i] < g.len(),
        0 <= q < predecessors(g[order[i] as int]).len(),
        predecessors(g[order[i] as int])[q] < g.len(),
    ensures
        exists|j: int| 0 <= j < i && order[j] == predecessors(g[order[i] as int])[q],
{
    let p = predecessors(g[order[i] as int])[q];
    assert(feeds(g, order[i], p));
}

/// The frames of a depth-first stack, from frame `j` to the top, form a
/// dependency chain.
proof fn lemma_stack_chain(g: Seq<NodeView>, stack: Seq<(usize, usize)>, j: int)
    requires
        0 <= j < stack.len(),
        forall|i: int| 0 <= i < stack.len() - 1 ==> #[trigger] feeds(g, stack[i].0, stack[i + 1].0),
    ensures
        depends(g, stack[j].0, stack.last().0),
{
    let path = Seq::new((stack.len() - j) as nat, |t: int| stack[j + t].0);
    assert forall|t: int| 0 <= t < path.len() - 1 implies #[trigger] feeds(g, path[t], path[t + 1]) by {
        assert(feeds(g, stack[j + t].0, stack[j + t + 1].0));
    }
    assert(chain(g, path));
    assert(path[0] == stack[j].0);
    assert(path.last() == stack.last().0);
}

/// Depth-first walk from `root`, emitting each node after its predecessors.
fn walk(nodes: &Nodes, root: usize, visited: &mut Vec<bool>, order: &mut Vec<usize>, Ghost(roots): Ghost<Seq<usize>>)
    requires
        walk_done(nodes@, old(order)@, old(visited)@),
        root < nodes@.len(),
        !old(visited)@[root as int],
        roots.contains(root),
        forall|x: int| 0 <= x < nodes@.len() && old(visited)@[x] ==> reachable(nodes@, roots, x as usize),
        ordered(nodes@, old(order)@),
    ensures
        walk_done(nodes@, final(order)@, final(visited)@),
        ordered(nodes@, final(order)@),
        forall|x: int| 0 <= x < nodes@.len() && final(visited)@[x] ==> reachable(nodes@, roots, x as usize),
        final(visited)@[root as int],
        forall|x: int| 0 <= x < nodes@.len() && old(visited)@[x] ==> final(visited)@[x],
{
    let ghost g = nodes@;
    let n = nodes.len();
    proof {
        lemma_count_true(visited@, root as int);
    }
    visited.set(root, true);
    let mut stack: Vec<(usize, usize)> = Vec::new();
    stack.push((root, 0));
    proof {
        assert(stack@[0].0 == root);
        assert(is_path(g, roots, seq![root]));
        assert(seq![root].last() == root);
        assert(reachable(g, roots, root));
        assert forall|x: int| 0 <= x < n implies (visited@[x] <==> (order@.contains(x as usize) || on_stack(stack@, x as usize))) by {
            if on_stack(stack@, x as usize) {
                let i = choose|i: int| 0 <= i < stack@.len() && stack@[i].0 == x as usize;
            }
        }
    }
    while stack.len() > 0
        invariant
            g == nodes@,
            n == g.len(),
            visited@.len() == n,
            root < n,
            visited@[root as int],
            forall|x: int| 0 <= x < n && visited@[x] ==> reachable(g, roots, x as usize),
            forall|x: int| 0 <= x < n && old(visited)@[x] ==> visited@[x],
            order@.no_duplicates(),
            forall|i: int| 0 <= i < order@.len() ==> order@[i] < n,
            forall|i: int| 0 <= i < stack@.len() ==> stack@[i].0 < n && stack@[i].1 <= predecessors(g[stack@[i].0 as int]).len(),
            forall|i: int, j: int| 0 <= i < j < stack@.len() ==> stack@[i].0 != stack@[j].0,
            forall|i: int| 0 <= i < stack@.len() ==> !order@.contains(#[trigger] stack@[i].0),
            forall|x: int| 0 <= x < n ==> (visited@[x] <==> (order@.contains(x as usize) || on_stack(stack@, x as usize))),
            preds_marked(g, order@, visited@),
            ordered(g, order@),
            forall|i: int| 0 <= i < stack@.len() - 1 ==> #[trigger] feeds(g, stack@[i].0, stack@[i + 1].0),
            forall|i: int, q: int| 0 <= i < stack@.len() && 0 <= q < stack@[i].1
                && #[trigger] predecessors(g[stack@[i].0 as int])[q] < n
                ==> visited@[predecessors(g[stack@[i].0 as int])[q] as int],
        ensures
            stack@.len() == 0,
        decreases n - count_true(visited@), pending(g, stack@),
    {
        let top = stack.len() - 1;
        let (id, k) = stack[top];
        let preds = nodes.predecessors(id);
        proof {
            lemma_count_true_bound(visited@);
        }
        if k < preds.len() {
            let p = preds[k];
            let ghost before = stack@;
            stack.set(top, (id, k + 1));
            proof {
                assert(stack@.drop_last() =~= before.drop_last());
                assert forall|i: int| 0 <= i < stack@.len() - 1 implies #[trigger] feeds(g, stack@[i].0, stack@[i + 1].0) by {
                    assert(stack@[i].0 == before[i].0);
                    assert(stack@[i + 1].0 == before[i + 1].0);
                    assert(feeds(g, before[i].0, before[i + 1].0));
                }
                assert forall|x: int| 0 <= x < n implies (#[trigger] on_stack(stack@, x as usize) == on_stack(before, x as usize)) by {
                    if on_stack(before, x as usize) {
                        let i = choose|i: int| 0 <= i < before.len() && before[i].0 == x as usize;
                        assert(stack@[i].0 == x as usize);
                    }
                    if on_stack(stack@, x as usize) {
                        let i = choose|i: int| 0 <= i < stack@.len() && stack@[i].0 == x as usize;
                        assert(before[i].0 == x as usize);
                    }
                }
            }
            if p < n && !visited[p] {
                proof {
                    assert(before[top as int].0 == id);
                    assert(on_stack(before, id));
                    assert(visited@[id as int]);
                    assert(reachable(g, roots, id));
                    assert(predecessors(g[id as int])[k as int] == p);
                    lemma_reaches_step(g, roots, id, k as int);
                    lemma_count_true(visited@, p as int);
                    assert(!on_stack(stack@, p));
                    assert(!order@.contains(p));
                }
                visited.set(p, true);
                let ghost mid = stack@;
                stack.push((p, 0));
                proof {
                    assert(mid[top as int].0 == id);
                    assert(predecessors(g[id as int])[k as int] == p);
                    assert(feeds(g, id, p));
                    assert forall|i: int| 0 <= i < stack@.len() - 1 implies #[trigger] feeds(g, stack@[i].0, stack@[i + 1].0) by {
                        if i < mid.len() - 1 {
                            assert(stack@[i] == mid[i]);
                            assert(stack@[i + 1] == mid[i + 1]);
                            assert(feeds(g, mid[i].0, mid[i + 1].0));
                        } else {
                            assert(stack@[i].0 == id);
                            assert(stack@[i + 1].0 == p);
                        }
                    }
                    assert forall|x: int| 0 <= x < n implies (visited@[x] <==> (order@.contains(x as usize) || on_stack(stack@, x as usize))) by {
                        if on_stack(mid, x as usize) {
                            let i = choose|i: int| 0 <= i < mid.len() && mid[i].0 == x as usize;
                            assert(stack@[i].0 == x as usize);
                        }
                        if x == p {
                            assert(stack@[mid.len() as int].0 == p);
                        }
                        if on_stack(stack@, x as usize) && x != p {
                            let i = choose|i: int| 0 <= i < stack@.len() && stack@[i].0 == x as usize;
                            assert(mid[i].0 == x as usize);
                        }
                    }
                    assert forall|i: int, j: int| 0 <= i < j < stack@.len() implies stack@[i].0 != stack@[j].0 by {
                        if j == mid.len() {
                            assert(mid[i].0 != p) by {
                                if mid[i].0 == p {
                                    assert(on_stack(mid, p));
                                }
                            }
                        }
                    }
                }
            }
        } else {
            let ghost before = stack@;
            let ghost old_order = order@;
            stack.pop();
            proof {
                assert(stack@ =~= before.drop_last());
            }
            order.push(id);
            proof {
                assert(order@ == old_order.push(id));
                assert forall|i: int| 0 <= i < stack@.len() - 1 implies #[trigger] feeds(g, stack@[i].0, stack@[i + 1].0) by {
                    assert(stack@[i] == before[i]);
                    assert(stack@[i + 1] == before[i + 1]);
                    assert(feeds(g, before[i].0, before[i + 1].0));
                }
                assert forall|i: int, q: int| 0 <= i < order@.len() && 0 <= q < predecessors(g[order@[i] as int]).len()
                    && #[trigger] predecessors(g[order@[i] as int])[q] < g.len()
                    implies (exists|j: int| 0 <= j < i && #[trigger] order@[j] == predecessors(g[order@[i] as int])[q])
                        || depends(g, predecessors(g[order@[i] as int])[q], order@[i]) by {
                    let x = order@[i];
                    let p = predecessors(g[x as int])[q];
                    if i < old_order.len() {
                        assert(old_order[i] == x);
                        if exists|j: int| 0 <= j < i && #[trigger] old_order[j] == p {
                            let j = choose|j: int| 0 <= j < i && #[trigger] old_order[j] == p;
                            assert(order@[j] == p);
                        }
                    } else {
                        assert(x == id);
                        assert(before[top as int] == (id, k));
                        assert(visited@[p as int]);
                        if old_order.contains(p) {
                            let j = choose|j: int| 0 <= j < old_order.len() && old_order[j] == p;
                            assert(order@[j] == p);
                        } else {
                            assert(on_stack(before, p));
                            let j = choose|j: int| 0 <= j < before.len() && before[j].0 == p;
                            lemma_stack_chain(g, before, j);
                        }
                    }
                }
                assert forall|x: int| 0 <= x < n implies (visited@[x] <==> (order@.contains(x as usize) || on_stack(stack@, x as usize))) by {
                    if old_order.contains(x as usize) {
                        let i = choose|i: int| 0 <= i < old_order.len() && old_order[i] == x as usize;
                        assert(order@[i] == x as usize);
                    }
                    if on_stack(before, x as usize) {
                        let i = choose|i: int| 0 <= i < before.len() && before[i].0 == x as usize;
                        if i < stack@.len() {
                            assert(stack@[i].0 == x as usize);
                        } else {
                            assert(order@[order@.len() - 1] == x as usize);
                        }
                    }
                    if on_stack(stack@, x as usize) {
                        let i = choose|i: int| 0 <= i < stack@.len() && stack@[i].0 == x as usize;
                        assert(before[i].0 == x as usize);
                    }
                    if order@.contains(x as usize) {
                        let i = choose|i: int| 0 <= i < order@.len() && order@[i] == x as usize;
                        if i < old_order.len() {
                            assert(old_order[i] == x as usize);
                        } else {
                            assert(before[before.len() - 1].0 == x as usize);
                        }
                    }
                }
                assert forall|i: int| 0 <= i < stack@.len() implies !order@.contains(#[trigger] stack@[i].0) by {
                    assert(before[i].0 != id);
                    assert(before[i] == stack@[i]);
                    if order@.contains(stack@[i].0) {
                        let j = choose|j: int| 0 <= j < order@.len() && order@[j] == stack@[i].0;
                        assert(old_order[j] == stack@[i].0);
                    }
                }
                assert(order@.no_duplicates()) by {
                    assert(!old_order.contains(id));
                }
                assert(preds_marked(g, order@, visited@)) by {
                    assert forall|i: int, q: int| 0 <= i < order@.len() && 0 <= q < predecessors(g[order@[i] as int]).len()
                        && #[trigger] predecessors(g[order@[i] as int])[q] < g.len()
                        implies visited@[predecessors(g[order@[i] as int])[q] as int] by {
                        if i < order@.len() - 1 {
                            assert(order@[i] == old_order[i]);
                        } else {
                            assert(order@[i] == before[before.len() - 1].0);
                        }
                    }
                }
            }
        }
    }
    proof {
        assert forall|x: int| 0 <= x < n implies (visited@[x] <==> order@.contains(x as usize)) by {
            if on_stack(stack@, x as usize) {
                let i = choose|i: int| 0 <= i < stack@.len() && stack@[i].0 == x as usize;
            }
        }
    }
}


/// Walks the graph depth-first from each root in turn and emits exactly the
/// live nodes, each after the nodes it depends on (a region's markers count
/// as dependencies of its loop or branch), unless they lie on a cycle with
/// it.
pub fn reverse_topological(nodes: &Nodes, roots: &[usize]) -> (order: Vec<usize>)
    ensures
        walk_done(nodes@, order@, Seq::new(nodes@.len(), |x: int| order@.contains(x as usize))),
        forall|i: int| 0 <= i < roots@.len() && roots@[i] < nodes@.len() ==> order@.contains(roots@[i]),
        forall|i: int| 0 <= i < order@.len() ==> reachable(nodes@, roots@, #[trigger] order@[i]),
        forall|x: int| 0 <= x < nodes@.len() && #[trigger] reachable(nodes@, roots@, x as usize) ==> order@.contains(x as usize),
        ordered(nodes@, order@),
{
    let n = nodes.len();
    let mut visited: Vec<bool> = vec![false; n];
    let mut order: Vec<usize> = Vec::new();
    let mut r: usize = 0;
    while r < roots.len()
        invariant
            n == nodes@.len(),
            r <= roots@.len(),
            walk_done(nodes@, order@, visited@),
            forall|i: int| 0 <= i < r && roots@[i] < n ==> visited@[roots@[i] as int],
            forall|x: int| 0 <= x < n && visited@[x] ==> reachable(nodes@, roots@, x as usize),
            ordered(nodes@, order@),
        decreases roots@.len() - r,
    {
        let root = roots[r];
        if root < n && !visited[root] {
            proof {
                assert(roots@[r as int] == root);
            }
            walk(nodes, root, &mut visited, &mut order, Ghost(roots@));
        }
        r = r + 1;
    }
    proof {
        assert(visited@ =~= Seq::new(nodes@.len(), |x: int| order@.contains(x as usize)));
        assert forall|i: int| 0 <= i < order@.len() implies reachable(nodes@, roots@, #[trigger] order@[i]) by {
            assert(order@.contains(order@[i]));
            assert(order@[i] < n);
            assert(visited@[order@[i] as int]);
        }
        let g = nodes@;
        assert forall|y: int, q: int| 0 <= y < g.len() && visited@[y] && 0 <= q < predecessors(g[y]).len()
            && #[trigger] predecessors(g[y])[q] < g.len() implies visited@[predecessors(g[y])[q] as int] by {
            let i = choose|i: int| 0 <= i < order@.len() && order@[i] == y as usize;
            assert(predecessors(g[order@[i] as int])[q] < g.len());
        }
        assert forall|x: int| 0 <= x < g.len() && #[trigger] reachable(g, roots@, x as usize) implies order@.contains(x as usize) by {
            lemma_reachable_marked(g, roots@, visited@, x as usize);
        }
    }
    order
}

/// Node `s` has a parameter that names an output of node `x`.
pub open spec fn reads_from(g: Seq<NodeView>, s: usize, x: usize) -> bool {
    s < g.len() && exists|k: int| 0 <= k < g[s as int].parameters.len() && #[trigger] g[s as int].parameters[k].node == x
}

/// Node `s` names node `x` among its first `k` parameters.
spec fn reads_within(g: Seq<NodeView>, s: usize, x: usize, k: int) -> bool {
    exists|j: int| 0 <= j < k && #[trigger] g[s as int].parameters[j].node == x
}

/// The successor index: for each node, the nodes of `order` that read one of
/// its outputs, each listed once.
pub fn successors(nodes: &Nodes, order: &[usize]) -> (r: Vec<Vec<usize>>)
    requires
        forall|i: int| 0 <= i < order@.len() ==> order@[i] < nodes@.len(),
        order@.no_duplicates(),
    ensures
        r@.len() == nodes@.len(),
        forall|x: int, j: int| 0 <= x < r@.len() && 0 <= j < r@[x]@.len() ==> #[trigger] r@[x]@[j] < nodes@.len(),
        forall|x: int| 0 <= x < r@.len() ==> (#[trigger] r@[x]@).no_duplicates(),
        forall|x: int, s: usize| 0 <= x < r@.len() ==> (#[trigger] r@[x]@.contains(s) <==> order@.contains(s) && reads_from(
            nodes@,
            s,
            x as usize,
        )),
{
    let ghost g = nodes@;
    let n = nodes.len();
    let mut r: Vec<Vec<usize>> = Vec::new();
    let mut x: usize = 0;
    while x < n
        invariant
            x <= n,
            r@.len() == x,
            forall|y: int| 0 <= y < x ==> (#[trigger] r@[y])@.len() == 0,
        decreases n - x,
    {
        r.push(Vec::new());
        x = x + 1;
    }
    let mut i: usize = 0;
    while i < order.len()
        invariant
            g == nodes@,
            n == g.len(),
            r@.len() == n,
            i <= order@.len(),
            order@.no_duplicates(),
            forall|i: int| 0 <= i < order@.len() ==> order@[i] < n,
            forall|x: int, j: int| 0 <= x < r@.len() && 0 <= j < r@[x]@.len() ==> #[trigger] r@[x]@[j] < n,
            forall|x: int| 0 <= x < r@.len() ==> (#[trigger] r@[x]@).no_duplicates(),
            forall|x: int, s: usize| 0 <= x < r@.len() ==> (#[trigger] r@[x]@.contains(s) <==> order@.take(i as int).contains(s)
                && reads_from(g, s, x as usize)),
        decreases order@.len() - i,
    {
        let id = order[i];
        let node = nodes.get(id);
        proof {
            assert(!order@.take(i as int).contains(id)) by {
                if order@.take(i as int).contains(id) {
                    let j = choose|j: int| 0 <= j < i && #[trigger] order@.take(i as int)[j] == id;
                    assert(order@[j] == order@[i as int]);
                }
            }
            assert forall|x: int, j: int| 0 <= x < r@.len() && 0 <= j < r@[x]@.len() implies #[trigger] r@[x]@[j] != id by {
                assert(r@[x]@.contains(r@[x]@[j]));
            }
        }
        let mut k: usize = 0;
        while k < node.parameters.len()
            invariant
                g == nodes@,
                n == g.len(),
                r@.len() == n,
                id < n,
                node@ == g[id as int],
                i < order@.len(),
                id == order@[i as int],
                !order@.take(i as int).contains(id),
                k <= node.parameters@.len(),
                forall|x: int, j: int| 0 <= x < r@.len() && 0 <= j < r@[x]@.len() ==> #[trigger] r@[x]@[j] < n,
                forall|x: int| 0 <= x < r@.len() ==> (#[trigger] r@[x]@).no_duplicates(),
                forall|x: int, j: int| 0 <= x < r@.len() && 0 <= j < r@[x]@.len() - 1 ==> #[trigger] r@[x]@[j] != id,
                forall|x: int, s: usize| 0 <= x < r@.len() ==> (#[trigger] r@[x]@.contains(s) <==> (order@.take(i as int).contains(s)
                    && reads_from(g, s, x as usize)) || (s == id && reads_within(g, id, x as usize, k as int))),
            decreases node.parameters@.len() - k,
        {
            let p = node.parameters[k].node;
            proof {
                assert(g[id as int].parameters[k as int].node == p);
            }
            if p < n {
                let len = r[p].len();
                if len == 0 || r[p][len - 1] != id {
                    let ghost before = r@;
                    proof {
                        assert(!before[p as int]@.contains(id)) by {
                            if before[p as int]@.contains(id) {
                                let j = choose|j: int| 0 <= j < before[p as int]@.len() && before[p as int]@[j] == id;
                                assert(j == len - 1);
                            }
                        }
                    }
                    r[p].push(id);
                    proof {
                        assert(r@[p as int]@ == before[p as int]@.push(id));
                        assert forall|x: int, j: int| 0 <= x < r@.len() && 0 <= j < r@[x]@.len() implies #[trigger] r@[x]@[j] < n by {
                            if x != p {
                                assert(r@[x] == before[x]);
                            } else if j < before[x]@.len() {
                                assert(r@[x]@[j] == before[x]@[j]);
                            }
                        }
                        assert forall|x: int| 0 <= x < r@.len() implies (#[trigger] r@[x]@).no_duplicates() by {
                            if x != p {
                                assert(r@[x] == before[x]);
                            }
                        }
                        assert forall|x: int, j: int| 0 <= x < r@.len() && 0 <= j < r@[x]@.len() - 1 implies #[trigger] r@[x]@[j] != id by {
                            if x != p {
                                assert(r@[x] == before[x]);
                            } else {
                                assert(r@[x]@[j] == before[x]@[j]);
                                if j < before[x]@.len() - 1 {
                                } else {
                                    assert(before[x]@[j] != id);
                                }
                            }
                        }
                        assert forall|x: int, s: usize| 0 <= x < r@.len() implies (#[trigger] r@[x]@.contains(s) <==> (order@.take(
                            i as int,
                        ).contains(s) && reads_from(g, s, x as usize)) || (s == id && reads_within(g, id, x as usize, k + 1))) by {
                            if x != p {
                                assert(r@[x] == before[x]);
                                if reads_within(g, id, x as usize, k + 1) {
                                    let j = choose|j: int| 0 <= j < k + 1 && #[trigger] g[id as int].parameters[j].node == x as usize;
                                    assert(j != k);
                                }
                            } else {
                                if s == id {
                                    assert(r@[x]@[before[x]@.len() as int] == id);
                                }
                                if r@[x]@.contains(s) && s != id {
                                    let j = choose|j: int| 0 <= j < r@[x]@.len() && r@[x]@[j] == s;
                                    assert(before[x]@[j] == s);
                                }
                                if before[x]@.contains(s) {
                                    let j = choose|j: int| 0 <= j < before[x]@.len() && before[x]@[j] == s;
                                    assert(r@[x]@[j] == s);
                                }
                            }
                        }
                    }
                } else {
                    proof {
                        assert(r@[p as int]@[len - 1] == id);
                        assert(r@[p as int]@.contains(id));
                        assert forall|x: int, s: usize| 0 <= x < r@.len() implies (#[trigger] r@[x]@.contains(s) <==> (order@.take(
                            i as int,
                        ).contains(s) && reads_from(g, s, x as usize)) || (s == id && reads_within(g, id, x as usize, k + 1))) by {
                            if reads_within(g, id, x as usize, k + 1) && x != p {
                                let j = choose|j: int| 0 <= j < k + 1 && #[trigger] g[id as int].parameters[j].node == x as usize;
                                assert(j != k);
                            }
                        }
                    }
                }
            } else {
                proof {
                    assert forall|x: int, s: usize| 0 <= x < r@.len() implies (#[trigger] r@[x]@.contains(s) <==> (order@.take(
                        i as int,
                    ).contains(s) && reads_from(g, s, x as usize)) || (s == id && reads_within(g, id, x as usize, k + 1))) by {
                        if reads_within(g, id, x as usize, k + 1) {
                            let j = choose|j: int| 0 <= j < k + 1 && #[trigger] g[id as int].parameters[j].node == x as usize;
                            assert(j != k);
                        }
                    }
                }
            }
            k = k + 1;
        }
        proof {
            assert forall|x: int, s: usize| 0 <= x < r@.len() implies (#[trigger] r@[x]@.contains(s) <==> order@.take(i + 1).contains(s)
                && reads_from(g, s, x as usize)) by {
                if order@.take(i + 1).contains(s) {
                    let j = choose|j: int| 0 <= j < i + 1 && #[trigger] order@.take(i + 1)[j] == s;
                    if j < i {
                        assert(order@.take(i as int)[j] == s);
                    }
                }
                if order@.take(i as int).contains(s) {
                    let j = choose|j: int| 0 <= j < i && #[trigger] order@.take(i as int)[j] == s;
                    assert(order@.take(i + 1)[j] == s);
                }
                if s == id {
                    assert(order@.take(i + 1)[i as int] == id);
                    if reads_from(g, id, x as usize) {
                        let j = choose|j: int| 0 <= j < g[id as int].parameters.len() && #[trigger] g[id as int].parameters[j].node == x as usize;
                        assert(reads_within(g, id, x as usize, k as int));
                    }
                }
            }
        }
        i = i + 1;
    }
    assert(order@.take(i as int) =~= order@);
    r
}

/// A closed set that holds the roots holds every node reachable from them.
pub proof fn lemma_reachable_marked(g: Seq<NodeView>, roots: Seq<usize>, marked: Seq<bool>, x: usize)
    requires
        marked.len() == g.len(),
        x < g.len(),
        forall|i: int| 0 <= i < roots.len() && roots[i] < g.len() ==> marked[roots[i] as int],
        forall|y: int, q: int| 0 <= y < g.len() && marked[y] && 0 <= q < predecessors(g[y]).len()
            && #[trigger] predecessors(g[y])[q] < g.len() ==> marked[predecessors(g[y])[q] as int],
        reachable(g, roots, x),
    ensures
        marked[x as int],
{
    let path = choose|path: Seq<usize>| is_path(g, roots, path) && path.last() == x;
    lemma_path_marked(g, roots, marked, path, path.len() - 1);
}

proof fn lemma_path_marked(g: Seq<NodeView>, roots: Seq<usize>, marked: Seq<bool>, path: Seq<usize>, i: int)
    requires
        marked.len() == g.len(),
        forall|i: int| 0 <= i < roots.len() && roots[i] < g.len() ==> marked[roots[i] as int],
        forall|y: int, q: int| 0 <= y < g.len() && marked[y] && 0 <= q < predecessors(g[y]).len()
            && #[trigger] predecessors(g[y])[q] < g.len() ==> marked[predecessors(g[y])[q] as int],
        is_path(g, roots, path),
        path.last() < g.len(),
        0 <= i < path.len(),
    ensures
        path[i] < g.len() && marked[path[i] as int],
    decreases i,
{
    if i < path.len() - 1 {
        assert(feeds(g, path[i], path[i + 1]));
    }
    if i == 0 {
        let j = choose|j: int| 0 <= j < roots.len() && roots[j] == path[0];
    } else {
        lemma_path_marked(g, roots, marked, path, i - 1);
        let y = path[i - 1];
        let k = i - 1;
        assert(feeds(g, path[k], path[k + 1]));
        assert(k + 1 == i);
        let q = choose|q: int| 0 <= q < predecessors(g[y as int]).len() && predecessors(g[y as int])[q] == path[i];
        assert(predecessors(g[y as int])[q] < g.len());
    }
}


/// The slot a dead node leaves behind.
pub open spec fn hole() -> NodeView {
    simple_view(Simple::NoOp, seq![])
}

/// Every node depends only on nodes that exist.
pub open spec fn closed_graph(g: Seq<NodeView>) -> bool {
    forall|x: int, q: int| 0 <= x < g.len() && 0 <= q < predecessors(g[x]).len() ==> #[trigger] predecessors(g[x])[q] < g.len()
}

/// Every predecessor of `n` is below `bound`.
pub open spec fn preds_below(n: NodeView, bound: nat) -> bool {
    forall|q: int| 0 <= q < predecessors(n).len() ==> #[trigger] predecessors(n)[q] < bound
}

pub proof fn lemma_closed_push(g: Seq<NodeView>, n: NodeView)
    requires
        closed_graph(g),
        preds_below(n, g.len() + 1),
    ensures
        closed_graph(g.push(n)),
{
    let h = g.push(n);
    assert forall|x: int, q: int| 0 <= x < h.len() && 0 <= q < predecessors(h[x]).len() implies #[trigger] predecessors(h[x])[q] < h.len() by {
        if x < g.len() {
            assert(h[x] == g[x]);
        }
    }
}

pub proof fn lemma_closed_update(g: Seq<NodeView>, i: int, n: NodeView)
    requires
        closed_graph(g),
        0 <= i < g.len(),
        preds_below(n, g.len()),
    ensures
        closed_graph(g.update(i, n)),
{
    let h = g.update(i, n);
    assert forall|x: int, q: int| 0 <= x < h.len() && 0 <= q < predecessors(h[x]).len() implies #[trigger] predecessors(h[x])[q] < h.len() by {
        if x != i {
            assert(h[x] == g[x]);
        }
    }
}

/// In a closed graph every parameter names a node.
pub proof fn lemma_parameter_in_graph(g: Seq<NodeView>, x: int, k: int)
    requires
        closed_graph(g),
        0 <= x < g.len(),
        0 <= k < g[x].parameters.len(),
    ensures
        g[x].parameters[k].node < g.len(),
{
    assert(predecessors(g[x])[k] == g[x].parameters[k].node);
}

/// Re-pointing one parameter at a node of the graph keeps it closed.
pub proof fn lemma_closed_set_parameter(g: Seq<NodeView>, x: int, k: int, link: Link)
    requires
        closed_graph(g),
        0 <= x < g.len(),
        0 <= k < g[x].parameters.len(),
        link.node < g.len(),
    ensures
        closed_graph(g.update(x, NodeView { shape: g[x].shape, parameters: g[x].parameters.update(k, link) })),
{
    let old_node = g[x];
    let new_node = NodeView { shape: g[x].shape, parameters: g[x].parameters.update(k, link) };
    assert forall|q: int| 0 <= q < predecessors(new_node).len() implies #[trigger] predecessors(new_node)[q] < g.len() by {
        if q != k {
            assert(predecessors(new_node)[q] == predecessors(old_node)[q]);
        }
    }
    lemma_closed_update(g, x, new_node);
}

/// `after` keeps the live nodes of `before` in place and holes elsewhere.
pub open spec fn swept(before: Seq<NodeView>, after: Seq<NodeView>, roots: Seq<usize>) -> bool {
    &&& after.len() == before.len()
    &&& forall|x: int| 0 <= x < before.len() ==> if reachable(before, roots, x as usize) {
        after[x] == before[x]
    } else {
        after[x] == hole()
    }
}

/// Sweep completeness: after a sweep every node that is not a hole is live
/// in the swept graph itself, and its predecessors are kept nodes too.
pub proof fn lemma_sweep_complete(before: Seq<NodeView>, after: Seq<NodeView>, roots: Seq<usize>, x: usize)
    requires
        swept(before, after, roots),
        x < before.len(),
        reachable(before, roots, x),
    ensures
        reachable(after, roots, x),
        forall|q: int| 0 <= q < predecessors(after[x as int]).len() && #[trigger] predecessors(after[x as int])[q] < after.len()
            ==> reachable(before, roots, predecessors(after[x as int])[q]) && after[predecessors(after[x as int])[q] as int]
                == before[predecessors(after[x as int])[q] as int],
{
    let path = choose|path: Seq<usize>| is_path(before, roots, path) && path.last() == x;
    assert forall|i: int| 0 <= i < path.len() - 1 implies #[trigger] feeds(after, path[i], path[i + 1]) by {
        assert(feeds(before, path[i], path[i + 1]));
        lemma_prefix_reachable(before, roots, path, i);
    }
    assert(is_path(after, roots, path));
    assert forall|q: int| 0 <= q < predecessors(after[x as int]).len() && #[trigger] predecessors(after[x as int])[q] < after.len()
        implies reachable(before, roots, predecessors(after[x as int])[q]) by {
        lemma_reaches_step(before, roots, x, q);
    }
}

proof fn lemma_prefix_reachable(g: Seq<NodeView>, roots: Seq<usize>, path: Seq<usize>, i: int)
    requires
        is_path(g, roots, path),
        0 <= i < path.len(),
    ensures
        reachable(g, roots, path[i]),
{
    let prefix = path.take(i + 1);
    assert forall|j: int| 0 <= j < prefix.len() - 1 implies #[trigger] feeds(g, prefix[j], prefix[j + 1]) by {
        assert(feeds(g, path[j], path[j + 1]));
    }
    assert(prefix[0] == path[0]);
    assert(is_path(g, roots, prefix));
    assert(prefix.last() == path[i]);
}

/// Keeps the nodes reachable from `roots` in place and leaves a hole in every
/// other slot.
pub fn retain_only(nodes: &mut Nodes, roots: &[usize])
    ensures
        swept(old(nodes)@, final(nodes)@, roots@),
        closed_graph(old(nodes)@) ==> closed_graph(final(nodes)@),
{
    let order = reverse_topological(nodes, roots);
    let n = nodes.len();
    let ghost before = nodes@;
    let ghost marked = Seq::new(n as nat, |x: int| order@.contains(x as usize));
    proof {
        assert forall|y: int, q: int| 0 <= y < before.len() && marked[y] && 0 <= q < predecessors(before[y]).len()
            && #[trigger] predecessors(before[y])[q] < before.len() implies marked[predecessors(before[y])[q] as int] by {
            let i = choose|i: int| 0 <= i < order@.len() && order@[i] == y as usize;
            assert(predecessors(before[order@[i] as int])[q] < before.len());
        }
        assert forall|x: int| 0 <= x < n implies (marked[x] <==> reachable(before, roots@, x as usize)) by {
            if reachable(before, roots@, x as usize) {
                lemma_reachable_marked(before, roots@, marked, x as usize);
            }
            if marked[x] {
                let i = choose|i: int| 0 <= i < order@.len() && order@[i] == x as usize;
                assert(reachable(nodes@, roots@, order@[i]));
            }
        }
    }
    let mut live: Vec<bool> = vec![false; n];
    let mut i: usize = 0;
    while i < order.len()
        invariant
            n == before.len(),
            live@.len() == n,
            i <= order@.len(),
            forall|k: int| 0 <= k < order@.len() ==> order@[k] < n,
            forall|x: int| 0 <= x < n ==> (live@[x] <==> order@.take(i as int).contains(x as usize)),
        decreases order@.len() - i,
    {
        live.set(order[i], true);
        proof {
            assert forall|x: int| 0 <= x < n implies (live@[x] <==> order@.take(i + 1).contains(x as usize)) by {
                if order@.take(i as int).contains(x as usize) {
                    let k = choose|k: int| 0 <= k < i && #[trigger] order@.take(i as int)[k] == x as usize;
                    assert(order@.take(i + 1)[k] == x as usize);
                }
                if order@.take(i + 1).contains(x as usize) {
                    let k = choose|k: int| 0 <= k < i + 1 && #[trigger] order@.take(i + 1)[k] == x as usize;
                    if k < i {
                        assert(order@.take(i as int)[k] == x as usize);
                    }
                }
                assert(order@.take(i + 1)[i as int] == order@[i as int]);
            }
        }
        i = i + 1;
    }
    assert(order@.take(i as int) =~= order@);
    let mut x: usize = 0;
    while x < n
        invariant
            n == before.len(),
            live@.len() == n,
            x <= n,
            nodes@.len() == n,
            forall|y: int| 0 <= y < n ==> (live@[y] <==> marked[y]),
            forall|y: int| 0 <= y < n ==> (marked[y] <==> reachable(before, roots@, y as usize)),
            forall|y: int| 0 <= y < n && (y >= x || live@[y]) ==> #[trigger] nodes@[y] == before[y],
            forall|y: int| 0 <= y < x && !live@[y] ==> #[trigger] nodes@[y] == hole(),
        decreases n - x,
    {
        if !live[x] {
            let empty: Vec<Link> = Vec::new();
            assert(empty@ =~= seq![]);
            let ghost prev = nodes@;
            nodes.replace_simple(x, Simple::NoOp, empty);
            assert(nodes@[x as int] =~~= hole());
            assert forall|y: int| 0 <= y < n && y != x implies #[trigger] nodes@[y] == prev[y] by {}
        }
        x = x + 1;
    }
    proof {
        assert forall|y: int| 0 <= y < before.len() implies if reachable(before, roots@, y as usize) {
            nodes@[y] == before[y]
        } else {
            nodes@[y] == hole()
        } by {
            assert(live@[y] == marked[y]);
            assert(marked[y] == reachable(before, roots@, y as usize));
            if live@[y] {
                assert(nodes@[y] == before[y]);
            } else {
                assert(nodes@[y] == hole());
            }
        }
        if closed_graph(before) {
            assert forall|y: int, q: int| 0 <= y < n && 0 <= q < predecessors(nodes@[y]).len()
                implies #[trigger] predecessors(nodes@[y])[q] < nodes@.len() by {
                if live@[y] {
                    assert(nodes@[y] == before[y]);
                } else {
                    assert(nodes@[y] == hole());
                    assert(predecessors(nodes@[y]) =~= seq![]);
                }
            }
        }
    }
}

} // verus!
