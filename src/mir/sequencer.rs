use vstd::prelude::*;

use crate::hir::data::{Compound, Link, Marker, NodeView, Nodes, Operation, Region, Shape, Simple};
use crate::hir::parser::ParseData;
use crate::hir::visit::{ordered, reachable, reads_from, reverse_topological};

use super::data::{bodies_nest, insn_names, named, named_once, names_at, names_below, register_ok, nests_forward, registers_below, Instruction, Program};
use super::registers::{fetched, kept_or_reserved, reserved_for, reused, spent_fwd, spent_rev, Registers, ResultMap};

verus! {

/// The register of `l` once the assignments in `fresh` (oldest first) are
/// made over `before`.
pub open spec fn read(before: ResultMap, fresh: Seq<(Link, u32)>, l: Link) -> u32
    decreases fresh.len(),
{
    if fresh.len() == 0 {
        before.lookup(l)
    } else if fresh.last().0 == l {
        fresh.last().1
    } else {
        read(before, fresh.drop_last(), l)
    }
}

/// A copy from one register to another, when they differ.
pub open spec fn moved(from: u32, to: u32) -> Seq<Instruction> {
    if from == to {
        Seq::empty()
    } else {
        seq![Instruction::Move { from, to }]
    }
}

/// The instructions for simple node `id` (operation `op`, parameters `p`),
/// with the register assignments `before` and `after` lowering it. Operands
/// are read from the registers of the parameters; outputs are the registers
/// assigned to the node's ports. A state output keeps its input's register
/// where it can, with a `Move` where it cannot.
pub open spec fn lowered(op: Simple, p: Seq<Link>, id: usize, before: ResultMap, after: ResultMap) -> Seq<Instruction> {
    let first = Link { node: id, port: 0 };
    let second = Link { node: id, port: 1 };
    let out0 = after.lookup(first);
    let out1 = after.lookup(second);
    match op {
        Simple::NoOp => Seq::empty(),
        Simple::Merge => if p.len() > 0 {
            moved(before.lookup(p[0]), out0)
        } else {
            Seq::empty()
        },
        Simple::Memory => seq![Instruction::Memory { result: out0 }],
        Simple::IO => seq![Instruction::IO { result: out0 }],
        Simple::Integer { value } => seq![Instruction::Integer { result: out0, value }],
        Simple::Add => if p.len() == 2 {
            seq![Instruction::Add { result: out0, lhs: before.lookup(p[0]), rhs: before.lookup(p[1]) }]
        } else {
            Seq::empty()
        },
        Simple::Sub => if p.len() == 2 {
            seq![Instruction::Sub { result: out0, lhs: before.lookup(p[0]), rhs: before.lookup(p[1]) }]
        } else {
            Seq::empty()
        },
        Simple::Load => if p.len() == 2 {
            let state = before.lookup(p[0]);
            moved(state, out0) + seq![Instruction::Load { result: out1, pointer: read(before, seq![(first, out0)], p[1]), state }]
        } else {
            Seq::empty()
        },
        Simple::Store => if p.len() == 3 {
            let state = before.lookup(p[0]);
            seq![Instruction::Store { pointer: before.lookup(p[1]), value: before.lookup(p[2]), state }] + moved(state, out0)
        } else {
            Seq::empty()
        },
        Simple::Ask => if p.len() == 1 {
            let state = before.lookup(p[0]);
            moved(state, out0) + seq![Instruction::Ask { result: out1, state }]
        } else {
            Seq::empty()
        },
        Simple::Tell => if p.len() == 2 {
            let state = before.lookup(p[0]);
            seq![Instruction::Tell { value: before.lookup(p[1]), state }] + moved(state, out0)
        } else {
            Seq::empty()
        },
    }
}

/// The register operations that lower simple node `id` of `g` take the
/// register file from `a` to `b`, in the order of the lowering table:
/// operands are fetched, results reserved (the lowest free register), and a
/// state output keeps its input's register when that is free.
pub open spec fn register_steps(op: Simple, p: Seq<Link>, id: usize, g: Seq<NodeView>, a: Registers, b: Registers) -> bool {
    let first = Link { node: id, port: 0 };
    let second = Link { node: id, port: 1 };
    match op {
        Simple::NoOp => b == a,
        Simple::Merge => if p.len() == 0 {
            b == a
        } else {
            exists|m: Registers|
                m.map() == a.map() && m.readers() == a.readers() && m.counts() == spent_rev(a.counts(), a.map(), p)
                    && #[trigger] kept_or_reserved(m, g, first, a.map().lookup(p[0]), b, b.map().lookup(first))
        },
        Simple::Memory | Simple::IO | Simple::Integer { .. } => reserved_for(a, g, first, b, b.map().lookup(first)),
        Simple::Add | Simple::Sub => if p.len() != 2 {
            b == a
        } else {
            exists|m1: Registers, m2: Registers|
                #[trigger] fetched(a, p[0], m1, a.map().lookup(p[0])) && #[trigger] fetched(m1, p[1], m2, m1.map().lookup(p[1]))
                    && reserved_for(m2, g, first, b, b.map().lookup(first))
        },
        Simple::Load => if p.len() != 2 {
            b == a
        } else {
            exists|m1: Registers, m2: Registers, m3: Registers|
                #[trigger] fetched(a, p[0], m1, a.map().lookup(p[0])) && #[trigger] kept_or_reserved(
                    m1,
                    g,
                    first,
                    a.map().lookup(p[0]),
                    m2,
                    m2.map().lookup(first),
                ) && #[trigger] fetched(m2, p[1], m3, m2.map().lookup(p[1])) && reserved_for(m3, g, second, b, b.map().lookup(second))
        },
        Simple::Store => if p.len() != 3 {
            b == a
        } else {
            exists|m1: Registers, m2: Registers, m3: Registers|
                #[trigger] fetched(a, p[0], m1, a.map().lookup(p[0])) && #[trigger] fetched(m1, p[1], m2, m1.map().lookup(p[1]))
                    && #[trigger] fetched(m2, p[2], m3, m2.map().lookup(p[2])) && kept_or_reserved(
                    m3,
                    g,
                    first,
                    a.map().lookup(p[0]),
                    b,
                    b.map().lookup(first),
                )
        },
        Simple::Ask => if p.len() != 1 {
            b == a
        } else {
            exists|m1: Registers, m2: Registers|
                #[trigger] fetched(a, p[0], m1, a.map().lookup(p[0])) && #[trigger] kept_or_reserved(
                    m1,
                    g,
                    first,
                    a.map().lookup(p[0]),
                    m2,
                    m2.map().lookup(first),
                ) && reserved_for(m2, g, second, b, b.map().lookup(second))
        },
        Simple::Tell => if p.len() != 2 {
            b == a
        } else {
            exists|m1: Registers, m2: Registers|
                #[trigger] fetched(a, p[0], m1, a.map().lookup(p[0])) && #[trigger] fetched(m1, p[1], m2, m1.map().lookup(p[1]))
                    && kept_or_reserved(m2, g, first, a.map().lookup(p[0]), b, b.map().lookup(first))
        },
    }
}

/// Register operation `k` of opening a branch's region at start marker `id`:
/// first the `fetches` reads of the branch's inputs `p`, then `results`
/// reservations for its outputs, then each entry given its input's register.
pub open spec fn branch_entry_op(g: Seq<NodeView>, p: Seq<Link>, id: usize, parent: usize, fetches: int, results: int, k: int, a: Registers, b: Registers) -> bool {
    if k < fetches {
        fetched(a, p[k], b, a.map().lookup(p[k]))
    } else if k < fetches + results {
        let out = Link { node: parent, port: (k - fetches) as usize };
        reserved_for(a, g, out, b, b.map().lookup(out))
    } else {
        let j = k - fetches - results;
        reused(a, g, Link { node: id, port: j as usize }, a.map().lookup(p[j]), b)
    }
}

/// Register operation `k` of entering a loop at start marker `id`: for each
/// carried value, its input is read, the entry keeps that register when free
/// (else reserves one), and the loop's output shares the entry's register.
pub open spec fn loop_entry_op(g: Seq<NodeView>, p: Seq<Link>, id: usize, parent: usize, k: int, a: Registers, b: Registers) -> bool {
    let j = k / 3;
    let entry = Link { node: id, port: j as usize };
    if k % 3 == 0 {
        fetched(a, p[j], b, a.map().lookup(p[j]))
    } else if k % 3 == 1 {
        kept_or_reserved(a, g, entry, a.map().lookup(p[j]), b, b.map().lookup(entry))
    } else {
        reused(a, g, Link { node: parent, port: j as usize }, a.map().lookup(entry), b)
    }
}

/// `rs` runs the register file from `a` to `b` through the operations that
/// open the region at start marker `id`, owned by `parent`.
pub open spec fn entry_trace(rs: Seq<Registers>, a: Registers, b: Registers, g: Seq<NodeView>, id: usize, parent: usize) -> bool {
    let p = g[parent as int].parameters;
    &&& rs.len() >= 1
    &&& rs[0] == a
    &&& rs.last() == b
    &&& match g[parent as int].shape {
        Shape::Gamma(regions) => {
            let first = regions.len() > 0 && regions[0].start == id;
            let fetches = if first { p.len() as int } else { 0 };
            let results = if first && regions[0].end < g.len() { g[regions[0].end as int].parameters.len() as int } else { 0 };
            &&& rs.len() == fetches + results + p.len() + 1
            &&& forall|k: int| 0 <= k < rs.len() - 1 ==> #[trigger] branch_entry_op(g, p, id, parent, fetches, results, k, rs[k], rs[k + 1])
        },
        Shape::Theta(_) => {
            &&& rs.len() == 3 * p.len() + 1
            &&& forall|k: int| 0 <= k < rs.len() - 1 ==> #[trigger] loop_entry_op(g, p, id, parent, k, rs[k], rs[k + 1])
        },
        _ => rs.len() == 1,
    }
}

proof fn lemma_branch_push(rs: Seq<Registers>, b: Registers, g: Seq<NodeView>, p: Seq<Link>, id: usize, parent: usize, fetches: int, results: int)
    requires
        rs.len() >= 1,
        forall|k: int| 0 <= k < rs.len() - 1 ==> #[trigger] branch_entry_op(g, p, id, parent, fetches, results, k, rs[k], rs[k + 1]),
        branch_entry_op(g, p, id, parent, fetches, results, rs.len() - 1, rs.last(), b),
    ensures
        forall|k: int| 0 <= k < rs.push(b).len() - 1 ==> #[trigger] branch_entry_op(g, p, id, parent, fetches, results, k, rs.push(b)[k], rs.push(b)[k + 1]),
{
    let t = rs.push(b);
    assert forall|k: int| 0 <= k < t.len() - 1 implies #[trigger] branch_entry_op(g, p, id, parent, fetches, results, k, t[k], t[k + 1]) by {
        if k < rs.len() - 1 {
            assert(t[k] == rs[k]);
            assert(t[k + 1] == rs[k + 1]);
        } else {
            assert(t[k] == rs.last());
            assert(t[k + 1] == b);
        }
    }
}

proof fn lemma_loop_push(rs: Seq<Registers>, b: Registers, g: Seq<NodeView>, p: Seq<Link>, id: usize, parent: usize)
    requires
        rs.len() >= 1,
        forall|k: int| 0 <= k < rs.len() - 1 ==> #[trigger] loop_entry_op(g, p, id, parent, k, rs[k], rs[k + 1]),
        loop_entry_op(g, p, id, parent, rs.len() - 1, rs.last(), b),
    ensures
        forall|k: int| 0 <= k < rs.push(b).len() - 1 ==> #[trigger] loop_entry_op(g, p, id, parent, k, rs.push(b)[k], rs.push(b)[k + 1]),
{
    let t = rs.push(b);
    assert forall|k: int| 0 <= k < t.len() - 1 implies #[trigger] loop_entry_op(g, p, id, parent, k, t[k], t[k + 1]) by {
        if k < rs.len() - 1 {
            assert(t[k] == rs[k]);
            assert(t[k + 1] == rs[k + 1]);
        } else {
            assert(t[k] == rs.last());
            assert(t[k + 1] == b);
        }
    }
}

/// The moves that enter a loop: carried value `j` moves from the register of
/// the loop's input `p[j]` to the register of the region's entry `j`.
pub open spec fn start_moves(p: Seq<Link>, id: usize, n: int, before: ResultMap, after: ResultMap) -> Seq<Instruction>
    decreases n,
{
    if n <= 0 {
        Seq::empty()
    } else {
        start_moves(p, id, n - 1, before, after) + moved(before.lookup(p[n - 1]), after.lookup(Link { node: id, port: (n - 1) as usize }))
    }
}

proof fn lemma_start_moves_frame(p: Seq<Link>, id: usize, n: int, before: ResultMap, a: ResultMap, b: ResultMap)
    requires
        forall|j: int| 0 <= j < n ==> #[trigger] a.lookup(Link { node: id, port: j as usize }) == b.lookup(Link { node: id, port: j as usize }),
    ensures
        start_moves(p, id, n, before, a) == start_moves(p, id, n, before, b),
    decreases n,
{
    if n > 0 {
        lemma_start_moves_frame(p, id, n - 1, before, a, b);
    }
}

/// The moves that close a region: result `j` moves from its register to the
/// register of the owner's output `j`.
pub open spec fn end_moves(p: Seq<Link>, parent: usize, n: int, m: ResultMap) -> Seq<Instruction>
    decreases n,
{
    if n <= 0 {
        Seq::empty()
    } else {
        end_moves(p, parent, n - 1, m) + moved(m.lookup(p[n - 1]), m.lookup(Link { node: parent, port: (n - 1) as usize }))
    }
}

/// How many results of a region move out: all but a loop's condition.
pub open spec fn results_moved(owner: Shape, len: nat) -> int {
    if owner is Theta && len > 0 {
        len - 1
    } else {
        len as int
    }
}

/// No parameter of the owner names the region's start marker or the owner
/// itself, and the two are distinct nodes.
pub open spec fn entries_clean(p: Seq<Link>, id: usize, parent: usize) -> bool {
    &&& id != parent
    &&& forall|k: int| 0 <= k < p.len() ==> #[trigger] p[k].node != id && p[k].node != parent
}

/// Some region of `regions` starts or ends at marker `x`.
pub open spec fn regions_hold(regions: Seq<Region>, x: usize) -> bool {
    exists|j: int| 0 <= j < regions.len() && (regions[j].start == x || regions[j].end == x)
}

/// Node `n` is a compound owning a region delimited by marker `x`.
pub open spec fn owns(n: NodeView, x: usize) -> bool {
    match n.shape {
        Shape::Gamma(regions) => regions_hold(regions, x),
        Shape::Theta(region) => regions_hold(seq![region], x),
        _ => false,
    }
}

/// The last of the first `n` nodes that owns marker `x`.
pub open spec fn owner(g: Seq<NodeView>, x: usize, n: int) -> Option<usize>
    decreases n,
{
    if n <= 0 {
        None
    } else if owns(g[n - 1], x) {
        Some((n - 1) as usize)
    } else {
        owner(g, x, n - 1)
    }
}

/// Lowers a graph to a program, region by region, in reverse topological
/// order, allocating registers as it goes.
pub struct Sequencer {
    // Node ids are dense indices into the arena, so the owner of each marker
    // is kept in a vector indexed by id rather than a hash map: lookups are
    // exact and need no hashing.
    parents: Vec<Option<usize>>,
    regions: Vec<usize>,
    bodies: Vec<Vec<Instruction>>,
    registers: Registers,
}

impl Sequencer {
    pub fn new() -> (r: Sequencer)
        ensures
            r.inv(),
    {
        let mut bodies: Vec<Vec<Instruction>> = Vec::new();
        bodies.push(Vec::new());
        let mut regions: Vec<usize> = Vec::new();
        regions.push(0);
        Sequencer { parents: Vec::new(), regions, bodies, registers: Registers::new() }
    }

    /// The register file, as the last sequencing left it.
    pub fn registers(&self) -> (r: &Registers)
        ensures
            *r == self.register_file(),
    {
        &self.registers
    }

    pub closed spec fn register_file(&self) -> Registers {
        self.registers
    }

    /// The bodies whose regions were opened and not yet closed, outermost
    /// first; after sequencing a graph whose loops and branches are all
    /// reached, only the top level.
    pub closed spec fn open_bodies(&self) -> Seq<usize> {
        self.regions@
    }

    /// The open bodies form a stack of strictly increasing body indices,
    /// starting at the top level, and every body nests only later ones.
    pub closed spec fn inv(&self) -> bool {
        &&& self.registers.wf()
        &&& self.regions@.len() >= 1
        &&& self.regions@[0] == 0
        &&& forall|i: int, j: int| 0 <= i < j < self.regions@.len() ==> self.regions@[i] < self.regions@[j]
        &&& forall|i: int| 0 <= i < self.regions@.len() ==> #[trigger] self.regions@[i] < self.bodies@.len()
        &&& bodies_nest(self.bodies@)
        &&& registers_below(self.bodies@, self.registers.counts().len())
        &&& named_once(self.bodies@)
        &&& forall|b: int| 1 <= b < self.bodies@.len() ==> (#[trigger] named(self.bodies@, b) <==> !self.regions@.contains(b as usize))
    }

    /// `inv`, except that the bodies `insn` names are neither open nor named.
    closed spec fn ready_for(&self, insn: Instruction) -> bool {
        &&& self.registers.wf()
        &&& self.regions@.len() >= 1
        &&& self.regions@[0] == 0
        &&& forall|i: int, j: int| 0 <= i < j < self.regions@.len() ==> self.regions@[i] < self.regions@[j]
        &&& forall|i: int| 0 <= i < self.regions@.len() ==> #[trigger] self.regions@[i] < self.bodies@.len()
        &&& bodies_nest(self.bodies@)
        &&& registers_below(self.bodies@, self.registers.counts().len())
        &&& named_once(self.bodies@)
        &&& forall|b: int| 1 <= b < self.bodies@.len() && !(exists|k: int| #[trigger] insn_names(insn, k, b)) ==> (#[trigger] named(
            self.bodies@,
            b,
        ) <==> !self.regions@.contains(b as usize))
        &&& forall|k: int, b: int| #[trigger] insn_names(insn, k, b) ==> 1 <= b && !named(self.bodies@, b) && !self.regions@.contains(
            b as usize,
        )
        &&& forall|k1: int, k2: int, b: int| #[trigger] insn_names(insn, k1, b) && #[trigger] insn_names(insn, k2, b) ==> k1 == k2
    }

    closed spec fn current(&self) -> int {
        self.regions@.last() as int
    }

    /// `self` is `before` with `tail` appended to the current body.
    closed spec fn grew(&self, before: Sequencer, tail: Seq<Instruction>) -> bool {
        &&& self.regions@ == before.regions@
        &&& self.bodies@.len() == before.bodies@.len()
        &&& self.bodies@[before.current()]@ == before.bodies@[before.current()]@ + tail
        &&& forall|b: int| 0 <= b < self.bodies@.len() && b != before.current() ==> #[trigger] self.bodies@[b] == before.bodies@[b]
    }

    /// Lowering simple node `id`: `lowered` is appended to the current body,
    /// and only the node's own outputs get new registers.
    pub closed spec fn simple_step(before: Sequencer, after: Sequencer, op: Simple, p: Seq<Link>, id: usize, g: Seq<NodeView>) -> bool {
        &&& after.parents == before.parents
        &&& register_steps(op, p, id, g, before.registers, after.registers)
        &&& after.grew(before, lowered(op, p, id, before.registers.map(), after.registers.map()))
        &&& forall|l: Link| l.node != id ==> #[trigger] after.registers.map().lookup(l) == before.registers.map().lookup(l)
    }

    /// Opening the region whose start marker is `id`, owned by `parent`.
    pub closed spec fn start_step(before: Sequencer, after: Sequencer, g: Seq<NodeView>, id: usize, parent: usize) -> bool {
        let p = g[parent as int].parameters;
        let m0 = before.registers.map();
        let m1 = after.registers.map();
        &&& after.parents == before.parents
        &&& exists|rs: Seq<Registers>| #[trigger] entry_trace(rs, before.registers, after.registers, g, id, parent)
        &&& after.regions@.len() == before.regions@.len() + 1
        &&& after.regions@.drop_last() == before.regions@
        &&& g[parent as int].shape is Gamma && entries_clean(p, id, parent) ==> after.opened(before, Seq::empty()) && forall|k: int|
            0 <= k < p.len() ==> #[trigger] m1.lookup(Link { node: id, port: k as usize }) == m0.lookup(p[k])
        &&& g[parent as int].shape is Theta && entries_clean(p, id, parent) ==> after.opened(before, start_moves(p, id, p.len() as int, m0, m1))
            && forall|k: int| 0 <= k < p.len() ==> #[trigger] m1.lookup(Link { node: id, port: k as usize }) == m1.lookup(
            Link { node: parent, port: k as usize },
        )
    }

    /// Closing the region whose end marker is `id`, owned by `parent`: its
    /// results move to the owner's outputs, each result is read once, a
    /// loop's condition is not read here, and no register changes hands.
    pub closed spec fn end_step(before: Sequencer, after: Sequencer, g: Seq<NodeView>, id: usize, parent: usize) -> bool {
        let p = g[id as int].parameters;
        let n = results_moved(g[parent as int].shape, p.len());
        &&& after.parents == before.parents
        &&& after.grew(before, end_moves(p, parent, n, before.registers.map()))
        &&& after.registers.map() == before.registers.map()
        &&& after.registers.readers() == before.registers.readers()
        &&& after.registers.counts() == spent_fwd(before.registers.counts(), before.registers.map(), p.take(n))
    }

    /// Visiting marker `id`: the region opens (a start marker) or closes (an
    /// end marker) under the compound recorded as its owner; a marker with no
    /// owner changes nothing.
    pub closed spec fn marker_step(before: Sequencer, after: Sequencer, g: Seq<NodeView>, id: usize, start: bool) -> bool {
        let owner = if id < before.parents@.len() { before.parents@[id as int] } else { None };
        match owner {
            Some(q) => if q < g.len() {
                if start {
                    Self::start_step(before, after, g, id, q)
                } else {
                    Self::end_step(before, after, g, id, q)
                }
            } else {
                after == before
            },
            None => after == before,
        }
    }

    /// Visiting node `id` of `g` in the walk: what the sequencer does to its
    /// bodies, open regions and registers.
    pub closed spec fn lowers(before: Sequencer, after: Sequencer, g: Seq<NodeView>, id: usize) -> bool {
        let n = g[id as int];
        match n.shape {
            Shape::Simple(op) => Self::simple_step(before, after, op, n.parameters, id, g),
            Shape::Start => Self::marker_step(before, after, g, id, true),
            Shape::End => Self::marker_step(before, after, g, id, false),
            Shape::Gamma(regions) => after.parents == before.parents && if n.parameters.len() == 0 {
                after == before
            } else {
                after.closes_branch(
                    before,
                    before.registers.map().lookup(n.parameters.last()),
                    if (regions.len() as usize) < before.regions@.len() {
                        (before.regions@.len() - regions.len() as usize) as int
                    } else {
                        1
                    },
                )
            },
            Shape::Theta(region) => after.parents == before.parents && if before.regions@.len() < 2 {
                after == before
            } else {
                after.closes_loop(before, g, region)
            },
        }
    }

    /// The sequencer as a walk over `g` from `roots` begins: one empty top
    /// body open, an empty register file whose reader index lists the live
    /// readers of each node, and each marker's owner recorded.
    pub closed spec fn fresh(s: Sequencer, g: Seq<NodeView>, roots: Seq<usize>) -> bool {
        &&& s.bodies@.len() == 1
        &&& s.bodies@[0]@.len() == 0
        &&& s.regions@ == seq![0usize]
        &&& s.registers.counts().len() == 0
        &&& forall|l: Link| s.registers.map().lookup(l) == 0
        &&& s.registers.readers().len() == g.len()
        &&& forall|x: int, y: usize| 0 <= x < g.len() ==> (#[trigger] s.registers.readers()[x]@.contains(y) <==> y < g.len() && reachable(
            g,
            roots,
            y,
        ) && reads_from(g, y, x as usize))
        &&& s.parents@.len() == g.len()
        &&& forall|x: int| 0 <= x < g.len() ==> #[trigger] s.parents@[x] == owner(g, x as usize, g.len() as int)
    }

    /// `bodies` and `locals` are what sequencing `g` from `roots` yields:
    /// `order` lists each live node once, after the nodes it depends on
    /// (but for cycles), and `trace` is the sequencer before and after each
    /// node of `order` is lowered.
    pub closed spec fn walked(
        g: Seq<NodeView>,
        roots: Seq<usize>,
        order: Seq<usize>,
        trace: Seq<Sequencer>,
        bodies: Seq<Vec<Instruction>>,
        locals: usize,
    ) -> bool {
        &&& order.no_duplicates()
        &&& forall|i: int| 0 <= i < order.len() ==> #[trigger] order[i] < g.len()
        &&& forall|x: int| 0 <= x < g.len() ==> (order.contains(x as usize) <==> #[trigger] reachable(g, roots, x as usize))
        &&& ordered(g, order)
        &&& trace.len() == order.len() + 1
        &&& Self::fresh(trace[0], g, roots)
        &&& forall|i: int| 0 <= i < order.len() ==> #[trigger] Self::lowers(trace[i], trace[i + 1], g, order[i])
        &&& bodies == trace.last().bodies@
        &&& locals == trace.last().registers.counts().len()
    }

    /// `self` is `before` with its top `len - keep` open bodies closed as the
    /// arms of a `Select` on `condition`, appended to the body left on top.
    pub closed spec fn closes_branch(&self, before: Sequencer, condition: u32, keep: int) -> bool {
        let c = before.regions@[keep - 1] as int;
        &&& 1 <= keep <= before.regions@.len()
        &&& self.registers == before.registers
        &&& self.regions@ == before.regions@.take(keep)
        &&& self.bodies@.len() == before.bodies@.len()
        &&& self.bodies@[c]@.len() == before.bodies@[c]@.len() + 1
        &&& self.bodies@[c]@.drop_last() == before.bodies@[c]@
        &&& self.bodies@[c]@.last() matches Instruction::Select { condition: cnd, code } && cnd == condition && code@
            == before.regions@.subrange(keep, before.regions@.len() as int)
        &&& forall|b: int| 0 <= b < before.bodies@.len() && b != c ==> #[trigger] self.bodies@[b] == before.bodies@[b]
    }

    /// `self` is `before` with its top open body closed as a `Repeat`
    /// appended to the body below it; the condition is the last parameter
    /// of the region's end marker, read (and so released) here.
    pub closed spec fn closes_loop(&self, before: Sequencer, g: Seq<NodeView>, region: Region) -> bool {
        let len = before.regions@.len();
        let c = before.regions@[len - 2] as int;
        let code = before.regions@[len - 1];
        let p = if region.end < g.len() { g[region.end as int].parameters } else { Seq::empty() };
        let condition = if p.len() > 0 { before.registers.map().lookup(p.last()) } else { 0 };
        &&& self.regions@ == before.regions@.drop_last()
        &&& p.len() > 0 ==> fetched(before.registers, p.last(), self.registers, condition)
        &&& p.len() == 0 ==> self.registers == before.registers
        &&& self.bodies@.len() == before.bodies@.len()
        &&& self.bodies@[c]@ == before.bodies@[c]@.push(Instruction::Repeat { code, condition })
        &&& forall|b: int| 0 <= b < before.bodies@.len() && b != c ==> #[trigger] self.bodies@[b] == before.bodies@[b]
    }

    proof fn lemma_grew(a: Sequencer, b: Sequencer, c: Sequencer, t1: Seq<Instruction>, t2: Seq<Instruction>)
        requires
            b.grew(a, t1),
            c.grew(b, t2),
        ensures
            c.grew(a, t1 + t2),
    {
        assert(a.bodies@[a.current()]@ + t1 + t2 =~= a.bodies@[a.current()]@ + (t1 + t2));
    }

    proof fn lemma_grew_none(a: Sequencer)
        ensures
            a.grew(a, Seq::empty()),
    {
        assert(a.bodies@[a.current()]@ + Seq::<Instruction>::empty() =~= a.bodies@[a.current()]@);
    }

    fn add(&mut self, instruction: Instruction)
        requires
            old(self).ready_for(instruction),
            nests_forward(instruction, old(self).current(), old(self).bodies@.len() as int),
            names_below(instruction, old(self).registers.counts().len()),
        ensures
            final(self).inv(),
            final(self).grew(*old(self), seq![instruction]),
            final(self).registers == old(self).registers,
            final(self).parents == old(self).parents,
    {
        let index = self.regions[self.regions.len() - 1];
        let ghost before = self.bodies@;
        self.bodies[index].push(instruction);
        proof {
            assert forall|i: int, j: int| 0 <= i < self.bodies@.len() && 0 <= j < self.bodies@[i]@.len()
                implies nests_forward(#[trigger] self.bodies@[i]@[j], i, self.bodies@.len() as int) by {
                if i != index || j < before[i]@.len() {
                    assert(self.bodies@[i]@[j] == before[i]@[j]);
                }
            }
            assert(self.bodies@[index as int]@ =~= before[index as int]@ + seq![instruction]);
            let cur = index as int;
            let last = before[cur]@.len() as int;
            assert forall|i: int, j: int, k: int, b: int| #[trigger] names_at(self.bodies@, i, j, k, b) <==> names_at(before, i, j, k, b)
                || (i == cur && j == last && insn_names(instruction, k, b)) by {
                if 0 <= i < before.len() && (i != cur || j < last) && 0 <= j {
                    if i != cur {
                        assert(self.bodies@[i] == before[i]);
                    } else {
                        assert(self.bodies@[i]@[j] == before[i]@[j]);
                    }
                }
                if i == cur && j == last {
                    assert(self.bodies@[i]@[j] == instruction);
                }
            }
            assert forall|b: int| 1 <= b < self.bodies@.len() implies (#[trigger] named(self.bodies@, b) <==> !self.regions@.contains(
                b as usize,
            )) by {
                if exists|k: int| #[trigger] insn_names(instruction, k, b) {
                    let k = choose|k: int| #[trigger] insn_names(instruction, k, b);
                    assert(names_at(self.bodies@, cur, last, k, b));
                } else {
                    if named(self.bodies@, b) {
                        let (i, j, k) = choose|i: int, j: int, k: int| #[trigger] names_at(self.bodies@, i, j, k, b);
                        assert(names_at(before, i, j, k, b));
                    }
                    if named(before, b) {
                        let (i, j, k) = choose|i: int, j: int, k: int| #[trigger] names_at(before, i, j, k, b);
                        assert(names_at(self.bodies@, i, j, k, b));
                    }
                }
            }
            assert forall|i1: int, j1: int, k1: int, i2: int, j2: int, k2: int, b: int|
                #[trigger] names_at(self.bodies@, i1, j1, k1, b) && #[trigger] names_at(self.bodies@, i2, j2, k2, b) implies i1 == i2 && j1
                == j2 && k1 == k2 by {
                if names_at(before, i1, j1, k1, b) && !names_at(before, i2, j2, k2, b) {
                    assert(insn_names(instruction, k2, b));
                    assert(named(before, b));
                }
                if names_at(before, i2, j2, k2, b) && !names_at(before, i1, j1, k1, b) {
                    assert(insn_names(instruction, k1, b));
                    assert(named(before, b));
                }
            }
        }
    }

    fn try_add_move(&mut self, from: u32, to: u32)
        requires
            old(self).inv(),
            register_ok(from, old(self).registers.counts().len()),
            register_ok(to, old(self).registers.counts().len()),
        ensures
            final(self).inv(),
            final(self).grew(*old(self), moved(from, to)),
            final(self).registers == old(self).registers,
            final(self).parents == old(self).parents,
    {
        if from == to {
            proof {
                Self::lemma_grew_none(*self);
            }
            return;
        }
        self.add(Instruction::Move { from, to });
    }

    /// `self` is `before` with `tail` appended to the current body, then a
    /// new empty body opened on top.
    closed spec fn opened(&self, before: Sequencer, tail: Seq<Instruction>) -> bool {
        &&& self.regions@ == before.regions@.push(before.bodies@.len() as usize)
        &&& self.bodies@.len() == before.bodies@.len() + 1
        &&& self.bodies@[before.bodies@.len() as int]@.len() == 0
        &&& self.bodies@[before.current()]@ == before.bodies@[before.current()]@ + tail
        &&& forall|b: int| 0 <= b < before.bodies@.len() && b != before.current() ==> #[trigger] self.bodies@[b] == before.bodies@[b]
    }

    proof fn lemma_unchanged(a: Sequencer, b: Sequencer)
        requires
            b.bodies == a.bodies,
            b.regions == a.regions,
        ensures
            b.grew(a, Seq::empty()),
    {
        assert(a.bodies@[a.current()]@ + Seq::<Instruction>::empty() =~= a.bodies@[a.current()]@);
    }

    /// Lowers simple node `id`, whose operation is `op`, reading `parameters`:
    /// the instructions of `lowered` are appended to the current body, and no
    /// register assignment changes but those of the node's own outputs.
    #[verifier::rlimit(60)]
    fn add_simple(&mut self, op: Simple, parameters: &Vec<Link>, nodes: &Nodes, id: usize)
        requires
            old(self).inv(),
        ensures
            final(self).inv(),
            Self::simple_step(*old(self), *final(self), op, parameters@, id, nodes@),
    {
        let first = Link { node: id, port: 0 };
        let second = Link { node: id, port: 1 };
        let n = parameters.len();
        let ghost s0 = *self;
        let ghost m0 = self.registers.map();
        let ghost a = self.registers;
        let ghost g = nodes@;
        match op {
            Simple::NoOp => {
                proof {
                    Self::lemma_unchanged(s0, *self);
                }
            },
            Simple::Merge => {
                if n > 0 {
                    let mut k: usize = n;
                    let mut result: u32 = 0;
                    while k > 0
                        invariant
                            self.inv(),
                            self.parents == old(self).parents,
                            self.bodies == s0.bodies,
                            self.regions == s0.regions,
                            self.registers.map() == m0,
                            k <= n,
                            n == parameters@.len(),
                            k < n ==> result == m0.lookup(parameters@[k as int]),
                            self.registers.readers() == a.readers(),
                            self.registers.counts() == spent_rev(a.counts(), m0, parameters@.subrange(k as int, n as int)),
                        decreases k,
                    {
                        k = k - 1;
                        result = self.registers.fetch(parameters[k]);
                        proof {
                            assert(parameters@.subrange(k as int, n as int).drop_first() =~= parameters@.subrange(k + 1, n as int));
                        }
                    }
                    let ghost m = self.registers;
                    let post = self.registers.reuse_or_reserve(nodes, first, result);
                    proof {
                        assert(parameters@.subrange(0, n as int) =~= parameters@);
                        assert(kept_or_reserved(m, g, first, a.map().lookup(parameters@[0]), self.registers, self.registers.map().lookup(first)));
                    }
                    let ghost s1 = *self;
                    proof {
                        Self::lemma_unchanged(s0, s1);
                    }
                    self.try_add_move(result, post);
                    proof {
                        Self::lemma_grew(s0, s1, *self, Seq::empty(), moved(result, post));
                        assert(Seq::<Instruction>::empty() + moved(result, post) =~= moved(result, post));
                    }
                } else {
                    proof {
                        Self::lemma_unchanged(s0, *self);
                    }
                }
            },
            Simple::Memory => {
                let result = self.registers.reserve(nodes, first);
                let ghost s1 = *self;
                proof {
                    Self::lemma_unchanged(s0, s1);
                    assert(reserved_for(a, g, first, self.registers, self.registers.map().lookup(first)));
                }
                self.add(Instruction::Memory { result });
                proof {
                    Self::lemma_grew(s0, s1, *self, Seq::empty(), seq![Instruction::Memory { result }]);
                    assert(Seq::<Instruction>::empty() + seq![Instruction::Memory { result }] =~= seq![Instruction::Memory { result }]);
                }
            },
            Simple::IO => {
                let result = self.registers.reserve(nodes, first);
                let ghost s1 = *self;
                proof {
                    Self::lemma_unchanged(s0, s1);
                    assert(reserved_for(a, g, first, self.registers, self.registers.map().lookup(first)));
                }
                self.add(Instruction::IO { result });
                proof {
                    Self::lemma_grew(s0, s1, *self, Seq::empty(), seq![Instruction::IO { result }]);
                    assert(Seq::<Instruction>::empty() + seq![Instruction::IO { result }] =~= seq![Instruction::IO { result }]);
                }
            },
            Simple::Integer { value } => {
                let result = self.registers.reserve(nodes, first);
                let ghost s1 = *self;
                proof {
                    Self::lemma_unchanged(s0, s1);
                    assert(reserved_for(a, g, first, self.registers, self.registers.map().lookup(first)));
                }
                self.add(Instruction::Integer { result, value });
                proof {
                    Self::lemma_grew(s0, s1, *self, Seq::empty(), seq![Instruction::Integer { result, value }]);
                    assert(Seq::<Instruction>::empty() + seq![Instruction::Integer { result, value }]
                        =~= seq![Instruction::Integer { result, value }]);
                }
            },
            Simple::Add | Simple::Sub => {
                if n == 2 {
                    let lhs = self.registers.fetch(parameters[0]);
                    let ghost m1 = self.registers;
                    let rhs = self.registers.fetch(parameters[1]);
                    let ghost m2 = self.registers;
                    let result = self.registers.reserve(nodes, first);
                    let ghost s1 = *self;
                    proof {
                        Self::lemma_unchanged(s0, s1);
                        assert(fetched(a, parameters@[0], m1, a.map().lookup(parameters@[0])));
                        assert(fetched(m1, parameters@[1], m2, m1.map().lookup(parameters@[1])));
                        assert(reserved_for(m2, g, first, self.registers, self.registers.map().lookup(first)));
                    }
                    let insn = if op == Simple::Add {
                        Instruction::Add { result, lhs, rhs }
                    } else {
                        Instruction::Sub { result, lhs, rhs }
                    };
                    self.add(insn);
                    proof {
                        Self::lemma_grew(s0, s1, *self, Seq::empty(), seq![insn]);
                        assert(Seq::<Instruction>::empty() + seq![insn] =~= seq![insn]);
                    }
                } else {
                    proof {
                        Self::lemma_unchanged(s0, *self);
                    }
                }
            },
            Simple::Load => {
                if n == 2 {
                    let state = self.registers.fetch(parameters[0]);
                    let ghost r1 = self.registers;
                    let post = self.registers.reuse_or_reserve(nodes, first, state);
                    let ghost r2 = self.registers;
                    let ghost m1 = self.registers.map();
                    let pointer = self.registers.fetch(parameters[1]);
                    let ghost r3 = self.registers;
                    proof {
                        let fresh = seq![(first, post)];
                        assert(fresh.drop_last() =~= Seq::<(Link, u32)>::empty());
                        assert(fresh.last() == (first, post));
                        assert(m1.lookup(parameters@[1]) == if parameters@[1] == first { post } else { m0.lookup(parameters@[1]) });
                        assert(read(m0, Seq::<(Link, u32)>::empty(), parameters@[1]) == m0.lookup(parameters@[1]));
                        assert(pointer == m1.lookup(parameters@[1]));
                        assert(pointer == read(m0, fresh, parameters@[1]));
                    }
                    let result = self.registers.reserve(nodes, second);
                    let ghost s1 = *self;
                    proof {
                        Self::lemma_unchanged(s0, s1);
                        assert(fetched(a, parameters@[0], r1, a.map().lookup(parameters@[0])));
                        assert(kept_or_reserved(r1, g, first, a.map().lookup(parameters@[0]), r2, r2.map().lookup(first)));
                        assert(fetched(r2, parameters@[1], r3, r2.map().lookup(parameters@[1])));
                        assert(reserved_for(r3, g, second, self.registers, self.registers.map().lookup(second)));
                    }
                    self.try_add_move(state, post);
                    let ghost s2 = *self;
                    self.add(Instruction::Load { result, pointer, state });
                    proof {
                        Self::lemma_grew(s0, s1, s2, Seq::empty(), moved(state, post));
                        Self::lemma_grew(s0, s2, *self, Seq::empty() + moved(state, post), seq![Instruction::Load { result, pointer, state }]);
                        assert(Seq::<Instruction>::empty() + moved(state, post) + seq![Instruction::Load { result, pointer, state }]
                            =~= moved(state, post) + seq![Instruction::Load { result, pointer, state }]);
                    }
                } else {
                    proof {
                        Self::lemma_unchanged(s0, *self);
                    }
                }
            },
            Simple::Store => {
                if n == 3 {
                    let state = self.registers.fetch(parameters[0]);
                    let ghost r1 = self.registers;
                    let pointer = self.registers.fetch(parameters[1]);
                    let ghost r2 = self.registers;
                    let value = self.registers.fetch(parameters[2]);
                    let ghost r3 = self.registers;
                    let ghost s1 = *self;
                    proof {
                        Self::lemma_unchanged(s0, s1);
                    }
                    self.add(Instruction::Store { pointer, value, state });
                    let ghost s2 = *self;
                    let post = self.registers.reuse_or_reserve(nodes, first, state);
                    let ghost s3 = *self;
                    proof {
                        Self::lemma_unchanged(s2, s3);
                        assert(fetched(a, parameters@[0], r1, a.map().lookup(parameters@[0])));
                        assert(fetched(r1, parameters@[1], r2, r1.map().lookup(parameters@[1])));
                        assert(fetched(r2, parameters@[2], r3, r2.map().lookup(parameters@[2])));
                        assert(kept_or_reserved(r3, g, first, a.map().lookup(parameters@[0]), self.registers, self.registers.map().lookup(first)));
                    }
                    self.try_add_move(state, post);
                    proof {
                        let t = seq![Instruction::Store { pointer, value, state }];
                        Self::lemma_grew(s0, s1, s2, Seq::empty(), t);
                        Self::lemma_grew(s2, s3, *self, Seq::empty(), moved(state, post));
                        Self::lemma_grew(s0, s2, *self, Seq::empty() + t, Seq::empty() + moved(state, post));
                        assert(Seq::<Instruction>::empty() + t + (Seq::<Instruction>::empty() + moved(state, post)) =~= t + moved(
                            state,
                            post,
                        ));
                    }
                } else {
                    proof {
                        Self::lemma_unchanged(s0, *self);
                    }
                }
            },
            Simple::Ask => {
                if n == 1 {
                    let state = self.registers.fetch(parameters[0]);
                    let ghost r1 = self.registers;
                    let post = self.registers.reuse_or_reserve(nodes, first, state);
                    let ghost r2 = self.registers;
                    let result = self.registers.reserve(nodes, second);
                    let ghost s1 = *self;
                    proof {
                        Self::lemma_unchanged(s0, s1);
                        assert(fetched(a, parameters@[0], r1, a.map().lookup(parameters@[0])));
                        assert(kept_or_reserved(r1, g, first, a.map().lookup(parameters@[0]), r2, r2.map().lookup(first)));
                        assert(reserved_for(r2, g, second, self.registers, self.registers.map().lookup(second)));
                    }
                    self.try_add_move(state, post);
                    let ghost s2 = *self;
                    self.add(Instruction::Ask { result, state });
                    proof {
                        Self::lemma_grew(s0, s1, s2, Seq::empty(), moved(state, post));
                        Self::lemma_grew(s0, s2, *self, Seq::empty() + moved(state, post), seq![Instruction::Ask { result, state }]);
                        assert(Seq::<Instruction>::empty() + moved(state, post) + seq![Instruction::Ask { result, state }]
                            =~= moved(state, post) + seq![Instruction::Ask { result, state }]);
                    }
                } else {
                    proof {
                        Self::lemma_unchanged(s0, *self);
                    }
                }
            },
            Simple::Tell => {
                if n == 2 {
                    let state = self.registers.fetch(parameters[0]);
                    let ghost r1 = self.registers;
                    let value = self.registers.fetch(parameters[1]);
                    let ghost r2 = self.registers;
                    let ghost s1 = *self;
                    proof {
                        Self::lemma_unchanged(s0, s1);
                    }
                    self.add(Instruction::Tell { value, state });
                    let ghost s2 = *self;
                    let post = self.registers.reuse_or_reserve(nodes, first, state);
                    let ghost s3 = *self;
                    proof {
                        Self::lemma_unchanged(s2, s3);
                        assert(fetched(a, parameters@[0], r1, a.map().lookup(parameters@[0])));
                        assert(fetched(r1, parameters@[1], r2, r1.map().lookup(parameters@[1])));
                        assert(kept_or_reserved(r2, g, first, a.map().lookup(parameters@[0]), self.registers, self.registers.map().lookup(first)));
                    }
                    self.try_add_move(state, post);
                    proof {
                        let t = seq![Instruction::Tell { value, state }];
                        Self::lemma_grew(s0, s1, s2, Seq::empty(), t);
                        Self::lemma_grew(s2, s3, *self, Seq::empty(), moved(state, post));
                        Self::lemma_grew(s0, s2, *self, Seq::empty() + t, Seq::empty() + moved(state, post));
                        assert(Seq::<Instruction>::empty() + t + (Seq::<Instruction>::empty() + moved(state, post)) =~= t + moved(
                            state,
                            post,
                        ));
                    }
                } else {
                    proof {
                        Self::lemma_unchanged(s0, *self);
                    }
                }
            },
        }
    }

    /// Opens the body of a region. For a branch, the first region consumes
    /// the inputs and reserves the result registers, and every region reads
    /// its entries in the inputs' registers. For a loop, each carried value
    /// moves into the register that also holds the loop's output.
    fn add_start_marker(&mut self, nodes: &Nodes, id: usize, parent: usize)
        requires
            old(self).inv(),
            parent < nodes@.len(),
        ensures
            final(self).inv(),
            Self::start_step(*old(self), *final(self), nodes@, id, parent),
    {
        let node = nodes.get(parent);
        let parameters = &node.parameters;
        let ghost s0 = *self;
        let ghost m0 = self.registers.map();
        let ghost clean = entries_clean(parameters@, id, parent);
        let ghost g = nodes@;
        let ghost p = parameters@;
        let ghost mut rs: Seq<Registers> = seq![self.registers];
        match &node.operation {
            Operation::Compound(Compound::Gamma { regions }) => {
                let ghost first = regions@.len() > 0 && regions@[0].start == id;
                let ghost fetches: int = if first { p.len() as int } else { 0 };
                let ghost results: int = if first && regions@[0].end < g.len() { g[regions@[0].end as int].parameters.len() as int } else { 0 };
                if regions.len() > 0 && regions[0].start == id {
                    let mut k: usize = 0;
                    while k < parameters.len()
                        invariant
                            self.inv(),
                            self.parents == old(self).parents,
                            self.bodies == s0.bodies,
                            self.regions == s0.regions,
                            self.registers.map() == m0,
                            g == nodes@,
                            p == parameters@,
                            k <= p.len(),
                            fetches == p.len(),
                            rs.len() == k + 1,
                            rs[0] == s0.registers,
                            rs.last() == self.registers,
                            forall|j: int| 0 <= j < rs.len() - 1 ==> #[trigger] branch_entry_op(g, p, id, parent, fetches, results, j, rs[j], rs[j + 1]),
                        decreases parameters@.len() - k,
                    {
                        let ghost a = self.registers;
                        self.registers.fetch(parameters[k]);
                        proof {
                            lemma_branch_push(rs, self.registers, g, p, id, parent, fetches, results);
                            rs = rs.push(self.registers);
                        }
                        k = k + 1;
                    }
                    let end = regions[0].end;
                    if end < nodes.len() {
                        let count = nodes.get(end).parameters.len();
                        let mut k: usize = 0;
                        while k < count
                            invariant
                                self.inv(),
                                self.parents == old(self).parents,
                                self.bodies == s0.bodies,
                                self.regions == s0.regions,
                                forall|l: Link| l.node != parent ==> #[trigger] self.registers.map().lookup(l) == m0.lookup(l),
                                g == nodes@,
                                p == parameters@,
                                count == results,
                                fetches >= 0,
                                k <= count,
                                rs.len() == fetches + k + 1,
                                rs[0] == s0.registers,
                                rs.last() == self.registers,
                                forall|j: int| 0 <= j < rs.len() - 1 ==> #[trigger] branch_entry_op(g, p, id, parent, fetches, results, j, rs[j], rs[j + 1]),
                            decreases count - k,
                        {
                            self.registers.reserve(nodes, Link { node: parent, port: k });
                            proof {
                                lemma_branch_push(rs, self.registers, g, p, id, parent, fetches, results);
                                rs = rs.push(self.registers);
                            }
                            k = k + 1;
                        }
                    }
                }
                let mut k: usize = 0;
                while k < parameters.len()
                    invariant
                        self.inv(),
                        self.parents == old(self).parents,
                        self.bodies == s0.bodies,
                        self.regions == s0.regions,
                        clean == entries_clean(parameters@, id, parent),
                        k <= parameters@.len(),
                        forall|l: Link| l.node != parent && l.node != id ==> #[trigger] self.registers.map().lookup(l) == m0.lookup(l),
                        clean ==> forall|j: int| 0 <= j < k ==> #[trigger] self.registers.map().lookup(Link { node: id, port: j as usize })
                            == m0.lookup(parameters@[j]),
                        g == nodes@,
                        p == parameters@,
                        rs.len() == fetches + results + k + 1,
                        fetches >= 0,
                        results >= 0,
                        rs[0] == s0.registers,
                        rs.last() == self.registers,
                        forall|j: int| 0 <= j < rs.len() - 1 ==> #[trigger] branch_entry_op(g, p, id, parent, fetches, results, j, rs[j], rs[j + 1]),
                    decreases parameters@.len() - k,
                {
                    let predecessor = self.registers.assigned().get(parameters[k]);
                    self.registers.reuse(nodes, Link { node: id, port: k }, predecessor);
                    proof {
                        lemma_branch_push(rs, self.registers, g, p, id, parent, fetches, results);
                        rs = rs.push(self.registers);
                    }
                    k = k + 1;
                }
                proof {
                    assert(entry_trace(rs, s0.registers, self.registers, g, id, parent));
                }
            },
            Operation::Compound(Compound::Theta { .. }) => {
                proof {
                    Self::lemma_unchanged(s0, *self);
                }
                let mut k: usize = 0;
                while k < parameters.len()
                    invariant
                        self.inv(),
                        self.parents == old(self).parents,
                        self.regions@ == s0.regions@,
                        clean == entries_clean(parameters@, id, parent),
                        k <= parameters@.len(),
                        forall|l: Link| l.node != parent && l.node != id ==> #[trigger] self.registers.map().lookup(l) == m0.lookup(l),
                        clean ==> self.grew(s0, start_moves(parameters@, id, k as int, m0, self.registers.map())),
                        clean ==> forall|j: int| 0 <= j < k ==> #[trigger] self.registers.map().lookup(Link { node: id, port: j as usize })
                            == self.registers.map().lookup(Link { node: parent, port: j as usize }),
                        g == nodes@,
                        p == parameters@,
                        rs.len() == 3 * k + 1,
                        rs[0] == s0.registers,
                        rs.last() == self.registers,
                        forall|j: int| 0 <= j < rs.len() - 1 ==> #[trigger] loop_entry_op(g, p, id, parent, j, rs[j], rs[j + 1]),
                    decreases parameters@.len() - k,
                {
                    let ghost s1 = *self;
                    let ghost m1 = self.registers.map();
                    let from = self.registers.fetch(parameters[k]);
                    proof {
                        lemma_loop_push(rs, self.registers, g, p, id, parent);
                        rs = rs.push(self.registers);
                    }
                    let to = self.registers.reuse_or_reserve(nodes, Link { node: id, port: k }, from);
                    proof {
                        lemma_loop_push(rs, self.registers, g, p, id, parent);
                        rs = rs.push(self.registers);
                    }
                    self.registers.reuse(nodes, Link { node: parent, port: k }, to);
                    proof {
                        lemma_loop_push(rs, self.registers, g, p, id, parent);
                        rs = rs.push(self.registers);
                    }
                    let ghost s2 = *self;
                    let ghost m2 = self.registers.map();
                    proof {
                        Self::lemma_unchanged(s1, s2);
                    }
                    self.try_add_move(from, to);
                    proof {
                        if clean {
                            assert(parameters@[k as int].node != id && parameters@[k as int].node != parent);
                            assert(from == m0.lookup(parameters@[k as int]));
                            assert forall|j: int| 0 <= j < k implies #[trigger] m1.lookup(Link { node: id, port: j as usize }) == m2.lookup(
                                Link { node: id, port: j as usize },
                            ) by {
                                assert(Link { node: id, port: j as usize } != Link { node: id, port: k });
                                assert(Link { node: id, port: j as usize } != Link { node: parent, port: k });
                            }
                            lemma_start_moves_frame(parameters@, id, k as int, m0, m1, m2);
                            assert(m2.lookup(Link { node: id, port: k }) == to);
                            assert(Link { node: id, port: ((k + 1) - 1) as usize } == Link { node: id, port: k });
                            assert(start_moves(parameters@, id, k + 1, m0, m2) == start_moves(parameters@, id, k as int, m0, m2) + moved(
                                from,
                                to,
                            ));
                            Self::lemma_grew(s0, s1, s2, start_moves(parameters@, id, k as int, m0, m1), Seq::empty());
                            assert(start_moves(parameters@, id, k as int, m0, m1) + Seq::<Instruction>::empty() =~= start_moves(
                                parameters@,
                                id,
                                k as int,
                                m0,
                                m1,
                            ));
                            Self::lemma_grew(s0, s2, *self, start_moves(parameters@, id, k as int, m0, m2), moved(from, to));
                            assert forall|j: int| 0 <= j < k + 1 implies #[trigger] self.registers.map().lookup(
                                Link { node: id, port: j as usize },
                            ) == self.registers.map().lookup(Link { node: parent, port: j as usize }) by {
                                if j < k {
                                    assert(Link { node: id, port: j as usize } != Link { node: id, port: k });
                                    assert(Link { node: parent, port: j as usize } != Link { node: id, port: k });
                                    assert(Link { node: parent, port: j as usize } != Link { node: parent, port: k });
                                    assert(Link { node: id, port: j as usize } != Link { node: parent, port: k });
                                }
                            }
                        }
                    }
                    k = k + 1;
                }
            },
            _ => {},
        }
        proof {
            assert(entry_trace(rs, s0.registers, self.registers, g, id, parent));
        }
        let ghost before = self.regions@;
        let ghost mid = self.bodies@;
        let ghost s3 = *self;
        self.regions.push(self.bodies.len());
        self.bodies.push(Vec::new());
        proof {
            assert(self.regions@.drop_last() =~= before);
            assert forall|i: int| 0 <= i < self.regions@.len() implies #[trigger] self.regions@[i] < self.bodies@.len() by {
                if i < before.len() {
                    assert(self.regions@[i] == before[i]);
                }
            }
            assert forall|i: int, j: int| 0 <= i < self.bodies@.len() && 0 <= j < self.bodies@[i]@.len()
                implies nests_forward(#[trigger] self.bodies@[i]@[j], i, self.bodies@.len() as int) by {
                assert(self.bodies@[i] == mid[i]);
                assert(nests_forward(mid[i]@[j], i, mid.len() as int));
            }
            assert forall|b: int| 0 <= b < mid.len() implies #[trigger] self.bodies@[b] == mid[b] by {}
            assert forall|i: int, j: int, k: int, b: int| #[trigger] names_at(self.bodies@, i, j, k, b) <==> names_at(mid, i, j, k, b) by {
                if 0 <= i < mid.len() {
                    assert(self.bodies@[i] == mid[i]);
                }
            }
            assert forall|b: int| 1 <= b < self.bodies@.len() implies (#[trigger] named(self.bodies@, b) <==> !self.regions@.contains(
                b as usize,
            )) by {
                if named(self.bodies@, b) {
                    let (i, j, k) = choose|i: int, j: int, k: int| #[trigger] names_at(self.bodies@, i, j, k, b);
                    assert(names_at(mid, i, j, k, b));
                    assert(nests_forward(mid[i]@[j], i, mid.len() as int));
                    assert(b < mid.len());
                }
                if named(mid, b) {
                    let (i, j, k) = choose|i: int, j: int, k: int| #[trigger] names_at(mid, i, j, k, b);
                    assert(names_at(self.bodies@, i, j, k, b));
                }
                if b < mid.len() {
                    if before.contains(b as usize) {
                        let t = choose|t: int| 0 <= t < before.len() && before[t] == b as usize;
                        assert(self.regions@[t] == b as usize);
                    }
                    if self.regions@.contains(b as usize) {
                        let t = choose|t: int| 0 <= t < self.regions@.len() && self.regions@[t] == b as usize;
                        assert(t < before.len());
                        assert(before[t] == b as usize);
                    }
                } else {
                    assert(self.regions@[before.len() as int] == b as usize);
                }
            }
            if clean && nodes@[parent as int].shape is Gamma {
                Self::lemma_unchanged(s0, s3);
                assert(self.opened(s0, Seq::empty()));
            }
            assert(entry_trace(rs, s0.registers, self.registers, g, id, parent));
        }
    }

    /// Closes a region: moves each result into the register of the
    /// matching output of `parent`. A loop's last result is its condition
    /// and moves nowhere.
    fn add_end_marker(&mut self, nodes: &Nodes, id: usize, parent: usize)
        requires
            old(self).inv(),
            parent < nodes@.len(),
            id < nodes@.len(),
        ensures
            final(self).inv(),
            Self::end_step(*old(self), *final(self), nodes@, id, parent),
    {
        let parameters = &nodes.get(id).parameters;
        let ghost s0 = *self;
        let ghost m0 = self.registers.map();
        let mut n = parameters.len();
        if n > 0 {
            if let Operation::Compound(Compound::Theta { .. }) = &nodes.get(parent).operation {
                n = n - 1;
            }
        }
        assert(n == results_moved(nodes@[parent as int].shape, parameters@.len()));
        proof {
            Self::lemma_grew_none(s0);
            assert(end_moves(parameters@, parent, 0, m0) =~= Seq::<Instruction>::empty());
        }
        let mut k: usize = 0;
        while k < n
            invariant
                self.inv(),
                self.parents == old(self).parents,
                n <= parameters@.len(),
                k <= n,
                self.registers.map() == m0,
                self.grew(s0, end_moves(parameters@, parent, k as int, m0)),
                self.registers.readers() == s0.registers.readers(),
                self.registers.counts() == spent_fwd(s0.registers.counts(), m0, parameters@.take(k as int)),
            decreases n - k,
        {
            let ghost s1 = *self;
            let to = self.registers.assigned().get(Link { node: parent, port: k });
            let from = self.registers.fetch(parameters[k]);
            let ghost s2 = *self;
            proof {
                assert(parameters@.take(k + 1).drop_last() =~= parameters@.take(k as int));
                Self::lemma_grew(s0, s1, s2, end_moves(parameters@, parent, k as int, m0), Seq::empty());
                assert(end_moves(parameters@, parent, k as int, m0) + Seq::<Instruction>::empty() =~= end_moves(parameters@, parent, k as int, m0));
            }
            self.try_add_move(from, to);
            proof {
                Self::lemma_grew(s0, s2, *self, end_moves(parameters@, parent, k as int, m0), moved(from, to));
                assert(Link { node: parent, port: ((k + 1) - 1) as usize } == Link { node: parent, port: k });
            }
            k = k + 1;
        }
    }

    fn add_marker(&mut self, marker: Marker, nodes: &Nodes, id: usize)
        requires
            old(self).inv(),
            id < nodes@.len(),
        ensures
            final(self).inv(),
            Self::marker_step(*old(self), *final(self), nodes@, id, marker is Start),
    {
        if id >= self.parents.len() {
            return;
        }
        let parent = match self.parents[id] {
            Some(p) => p,
            None => return,
        };
        if parent >= nodes.len() {
            return;
        }
        match marker {
            Marker::Start => self.add_start_marker(nodes, id, parent),
            Marker::End => self.add_end_marker(nodes, id, parent),
        }
    }

    /// Closes a branch: its last `count` open bodies become the arms of a
    /// `Select` on the branch's last parameter.
    fn add_gamma(&mut self, parameters: &Vec<Link>, count: usize)
        requires
            old(self).inv(),
        ensures
            final(self).inv(),
            final(self).parents == old(self).parents,
            parameters@.len() == 0 ==> *final(self) == *old(self),
            parameters@.len() > 0 ==> final(self).closes_branch(
                *old(self),
                old(self).registers.map().lookup(parameters@.last()),
                if count < old(self).regions@.len() {
                    (old(self).regions@.len() - count) as int
                } else {
                    1
                },
            ),
    {
        if parameters.len() == 0 {
            return;
        }
        let condition = self.registers.assigned().get(parameters[parameters.len() - 1]);
        let len = self.regions.len();
        let keep = if count < len {
            len - count
        } else {
            1
        };
        let mut code: Vec<usize> = Vec::new();
        let mut k: usize = keep;
        while k < len
            invariant
                self.inv(),
                len == self.regions@.len(),
                1 <= keep <= k <= len,
                code@.len() == k - keep,
                forall|j: int| 0 <= j < code@.len() ==> #[trigger] code@[j] == self.regions@[keep + j],
            decreases len - k,
        {
            code.push(self.regions[k]);
            k = k + 1;
        }
        let ghost before = self.regions@;
        let nb = self.bodies.len();
        self.regions.truncate(keep);
        proof {
            assert(self.regions@ =~= before.take(keep as int));
            assert forall|j: int| 0 <= j < code@.len() implies self.regions@.last() < #[trigger] code@[j] < self.bodies@.len() by {
                assert(before[keep - 1] < before[keep + j]);
            }
            assert(nb as int == self.bodies@.len());
            let insn = Instruction::Select { condition, code };
            assert forall|k: int, b: int| #[trigger] insn_names(insn, k, b) implies 1 <= b && !named(self.bodies@, b)
                && !self.regions@.contains(b as usize) by {
                assert(b == before[keep + k]);
                assert(before[0] < before[keep + k]);
                assert(before.contains(b as usize));
                if self.regions@.contains(b as usize) {
                    let t = choose|t: int| 0 <= t < self.regions@.len() && self.regions@[t] == b as usize;
                    assert(before[t] < before[keep + k]);
                }
            }
            assert forall|k1: int, k2: int, b: int| #[trigger] insn_names(insn, k1, b) && #[trigger] insn_names(insn, k2, b) implies k1
                == k2 by {
                if k1 < k2 {
                    assert(before[keep + k1] < before[keep + k2]);
                }
                if k2 < k1 {
                    assert(before[keep + k2] < before[keep + k1]);
                }
            }
            assert forall|b: int| 1 <= b < self.bodies@.len() && !(exists|k: int| #[trigger] insn_names(insn, k, b)) implies (
            #[trigger] named(self.bodies@, b) <==> !self.regions@.contains(b as usize)) by {
                if before.contains(b as usize) {
                    let t = choose|t: int| 0 <= t < before.len() && before[t] == b as usize;
                    if t >= keep {
                        assert(insn_names(insn, t - keep, b));
                    } else {
                        assert(self.regions@[t] == b as usize);
                    }
                }
                if self.regions@.contains(b as usize) {
                    let t = choose|t: int| 0 <= t < self.regions@.len() && self.regions@[t] == b as usize;
                    assert(before[t] == b as usize);
                }
            }
        }
        let ghost mid = *self;
        let ghost code_view = code@;
        self.add(Instruction::Select { condition, code });
        proof {
            let c = before[keep - 1] as int;
            assert(mid.current() == c);
            assert(code_view =~= before.subrange(keep as int, len as int));
            assert(self.bodies@[c]@ == mid.bodies@[c]@ + seq![Instruction::Select { condition, code }]);
            assert(self.bodies@[c]@.drop_last() =~= mid.bodies@[c]@);
        }
    }

    /// Closes a loop: its open body becomes a `Repeat` on the condition,
    /// the last parameter of the region's end marker. Reading the condition
    /// here is its last read, so its register is released.
    fn add_theta(&mut self, nodes: &Nodes, region: Region)
        requires
            old(self).inv(),
        ensures
            final(self).inv(),
            final(self).parents == old(self).parents,
            old(self).regions@.len() < 2 ==> *final(self) == *old(self),
            old(self).regions@.len() >= 2 ==> final(self).closes_loop(*old(self), nodes@, region),
    {
        if self.regions.len() < 2 {
            return;
        }
        let ghost before = self.regions@;
        let nb = self.bodies.len();
        let code = match self.regions.pop() {
            Some(c) => c,
            None => return,
        };
        proof {
            assert(self.regions@ =~= before.drop_last());
            assert(before[before.len() - 2] < before[before.len() - 1]);
            let top = before.len() - 1;
            assert(nb as int == self.bodies@.len());
            assert(before[top] == code);
            assert(before[0] < before[top]);
            assert(before.contains(code));
            assert(!self.regions@.contains(code)) by {
                if self.regions@.contains(code) {
                    let t = choose|t: int| 0 <= t < self.regions@.len() && self.regions@[t] == code;
                    assert(before[t] < before[top]);
                }
            }
            assert forall|b: int| 1 <= b < self.bodies@.len() && b != code as int implies (#[trigger] named(self.bodies@, b)
                <==> !self.regions@.contains(b as usize)) by {
                if before.contains(b as usize) {
                    let t = choose|t: int| 0 <= t < before.len() && before[t] == b as usize;
                    assert(t != top);
                    assert(self.regions@[t] == b as usize);
                }
                if self.regions@.contains(b as usize) {
                    let t = choose|t: int| 0 <= t < self.regions@.len() && self.regions@[t] == b as usize;
                    assert(before[t] == b as usize);
                }
            }
        }
        let mut condition: u32 = 0;
        if region.end < nodes.len() {
            let parameters = &nodes.get(region.end).parameters;
            if parameters.len() > 0 {
                condition = self.registers.fetch(parameters[parameters.len() - 1]);
            }
        }
        proof {
            let insn = Instruction::Repeat { code, condition };
            assert(!named(self.bodies@, code as int));
            assert forall|k: int, b: int| #[trigger] insn_names(insn, k, b) implies 1 <= b && !named(self.bodies@, b)
                && !self.regions@.contains(b as usize) by {
                assert(b == code as int);
            }
            assert forall|b: int| 1 <= b < self.bodies@.len() && !(exists|k: int| #[trigger] insn_names(insn, k, b)) implies (
            #[trigger] named(self.bodies@, b) <==> !self.regions@.contains(b as usize)) by {
                if b == code as int {
                    assert(insn_names(insn, 0, b));
                }
            }
        }
        let ghost mid = *self;
        self.add(Instruction::Repeat { code, condition });
        proof {
            let c = before[before.len() - 2] as int;
            assert(mid.current() == c);
            assert(self.bodies@[c]@ =~= mid.bodies@[c]@.push(Instruction::Repeat { code, condition }));
        }
    }

    fn add_compound(&mut self, nodes: &Nodes, id: usize)
        requires
            old(self).inv(),
            id < nodes@.len(),
            nodes@[id as int].shape is Gamma || nodes@[id as int].shape is Theta,
        ensures
            final(self).inv(),
            Self::lowers(*old(self), *final(self), nodes@, id),
    {
        let node = nodes.get(id);
        match &node.operation {
            Operation::Compound(Compound::Gamma { regions }) => self.add_gamma(&node.parameters, regions.len()),
            Operation::Compound(Compound::Theta { region }) => self.add_theta(nodes, *region),
            _ => {},
        }
    }

    /// Records, for each region marker, the compound that owns it (the
    /// last such compound, should several claim it).
    fn find_parents(&mut self, nodes: &Nodes)
        requires
            old(self).inv(),
        ensures
            final(self).inv(),
            final(self).regions == old(self).regions,
            final(self).bodies == old(self).bodies,
            final(self).registers == old(self).registers,
            final(self).parents@.len() == nodes@.len(),
            forall|x: int| 0 <= x < nodes@.len() ==> #[trigger] final(self).parents@[x] == owner(nodes@, x as usize, nodes@.len() as int),
    {
        let n = nodes.len();
        let mut parents: Vec<Option<usize>> = Vec::new();
        let mut k: usize = 0;
        while k < n
            invariant
                k <= n,
                parents@.len() == k,
                forall|x: int| 0 <= x < k ==> #[trigger] parents@[x] == None::<usize>,
            decreases n - k,
        {
            parents.push(None);
            k = k + 1;
        }
        let mut id: usize = 0;
        while id < n
            invariant
                n == nodes@.len(),
                id <= n,
                parents@.len() == n,
                forall|x: int| 0 <= x < n ==> #[trigger] parents@[x] == owner(nodes@, x as usize, id as int),
            decreases n - id,
        {
            let mut owned: Vec<Region> = Vec::new();
            match &nodes.get(id).operation {
                Operation::Compound(Compound::Gamma { regions }) => {
                    let mut j: usize = 0;
                    while j < regions.len()
                        invariant
                            j <= regions@.len(),
                            owned@ == regions@.take(j as int),
                        decreases regions@.len() - j,
                    {
                        owned.push(regions[j]);
                        proof {
                            assert(owned@ =~= regions@.take(j + 1));
                        }
                        j = j + 1;
                    }
                    assert(owned@ =~= regions@);
                },
                Operation::Compound(Compound::Theta { region }) => {
                    owned.push(*region);
                    assert(owned@ =~= seq![*region]);
                },
                _ => {
                    assert(owned@ =~= Seq::<Region>::empty());
                },
            }
            proof {
                assert forall|x: usize| owns(nodes@[id as int], x) == regions_hold(owned@, x) by {
                    if nodes@[id as int].shape is Theta {
                        if regions_hold(owned@, x) {
                            let j = choose|j: int| 0 <= j < owned@.len() && (owned@[j].start == x || owned@[j].end == x);
                        }
                        if owns(nodes@[id as int], x) {
                            assert(owned@[0].start == x || owned@[0].end == x);
                        }
                    }
                }
            }
            let ghost base = parents@;
            let mut j: usize = 0;
            while j < owned.len()
                invariant
                    parents@.len() == n,
                    base.len() == n,
                    j <= owned@.len(),
                    forall|x: int| 0 <= x < n ==> #[trigger] parents@[x] == if regions_hold(owned@.take(j as int), x as usize) {
                        Some(id)
                    } else {
                        base[x]
                    },
                decreases owned@.len() - j,
            {
                let region = owned[j];
                if region.start < n {
                    parents.set(region.start, Some(id));
                }
                if region.end < n {
                    parents.set(region.end, Some(id));
                }
                proof {
                    assert forall|x: int| 0 <= x < n implies #[trigger] parents@[x] == if regions_hold(owned@.take(j + 1), x as usize) {
                        Some(id)
                    } else {
                        base[x]
                    } by {
                        let t0 = owned@.take(j as int);
                        let t1 = owned@.take(j + 1);
                        assert(t1[j as int] == region);
                        if regions_hold(t0, x as usize) {
                            let k = choose|k: int| 0 <= k < t0.len() && (t0[k].start == x as usize || t0[k].end == x as usize);
                            assert(t1[k] == t0[k]);
                        }
                        if regions_hold(t1, x as usize) && !(region.start == x as usize || region.end == x as usize) {
                            let k = choose|k: int| 0 <= k < t1.len() && (t1[k].start == x as usize || t1[k].end == x as usize);
                            assert(k != j);
                            assert(t0[k] == t1[k]);
                        }
                    }
                }
                j = j + 1;
            }
            proof {
                assert(owned@.take(j as int) =~= owned@);
                assert forall|x: int| 0 <= x < n implies #[trigger] parents@[x] == owner(nodes@, x as usize, id + 1) by {
                    assert(owns(nodes@[id as int], x as usize) == regions_hold(owned@, x as usize));
                }
            }
            id = id + 1;
        }
        self.parents = parents;
    }

    /// Sequences a parsed graph into a program whose bodies nest forward.
    pub fn sequence(&mut self, parsed: &ParseData) -> (r: Program)
        ensures
            r.body_list().len() >= 1,
            bodies_nest(r.body_list()),
            r.local_count() <= u32::MAX,
            r.local_count() == final(self).register_file().counts().len(),
            registers_below(r.body_list(), r.local_count() as nat),
            named_once(r.body_list()),
            forall|b: int| 1 <= b < r.body_list().len() ==> (#[trigger] named(r.body_list(), b) <==> !final(self).open_bodies().contains(
                b as usize,
            )),
            exists|order: Seq<usize>, trace: Seq<Sequencer>|
                #[trigger] Self::walked(parsed.graph()@, seq![parsed.root()], order, trace, r.body_list(), r.local_count()),
    {
        let nodes = parsed.nodes();
        let roots = parsed.roots();
        self.registers.reset(nodes, &roots);
        let mut bodies: Vec<Vec<Instruction>> = Vec::new();
        bodies.push(Vec::new());
        self.bodies = bodies;
        let mut regions: Vec<usize> = Vec::new();
        regions.push(0);
        self.regions = regions;
        self.find_parents(nodes);
        let ghost g = nodes@;
        let ghost root_seq = seq![parsed.root()];
        assert(roots@ == root_seq);
        proof {
            assert(self.regions@ =~= seq![0usize]);
        }
        let ghost start = *self;
        assert(Self::fresh(start, g, root_seq));
        let order = reverse_topological(nodes, &roots);
        let ghost mut trace: Seq<Sequencer> = seq![*self];
        let mut i: usize = 0;
        while i < order.len()
            invariant
                self.inv(),
                g == nodes@,
                forall|k: int| 0 <= k < order@.len() ==> order@[k] < nodes@.len(),
                i <= order@.len(),
                trace.len() == i + 1,
                trace[0] == start,
                trace.last() == *self,
                forall|k: int| 0 <= k < i ==> #[trigger] Self::lowers(trace[k], trace[k + 1], g, order@[k]),
            decreases order@.len() - i,
        {
            let id = order[i];
            let node = nodes.get(id);
            let ghost before = *self;
            match &node.operation {
                Operation::Simple(op) => self.add_simple(*op, &node.parameters, nodes, id),
                Operation::Marker(marker) => self.add_marker(*marker, nodes, id),
                Operation::Compound(_) => self.add_compound(nodes, id),
            }
            proof {
                assert(Self::lowers(before, *self, g, id));
                let old_trace = trace;
                trace = trace.push(*self);
                assert forall|k: int| 0 <= k < i + 1 implies #[trigger] Self::lowers(trace[k], trace[k + 1], g, order@[k]) by {
                    if k < i {
                        assert(trace[k] == old_trace[k]);
                        assert(trace[k + 1] == old_trace[k + 1]);
                    } else {
                        assert(trace[k] == old_trace.last());
                    }
                }
            }
            i = i + 1;
        }
        let ghost last = *self;
        let mut bodies: Vec<Vec<Instruction>> = Vec::new();
        std::mem::swap(&mut bodies, &mut self.bodies);
        let locals = self.registers.register_count();
        let r = Program::new(bodies, locals);
        proof {
            assert forall|x: int| 0 <= x < g.len() implies (order@.contains(x as usize) <==> #[trigger] reachable(g, root_seq, x as usize)) by {
                if order@.contains(x as usize) {
                    let k = choose|k: int| 0 <= k < order@.len() && order@[k] == x as usize;
                    assert(reachable(g, root_seq, order@[k]));
                }
            }
            assert(Self::walked(g, root_seq, order@, trace, r.body_list(), r.local_count()));
        }
        r
    }
}

} // verus!
