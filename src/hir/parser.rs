use vstd::prelude::*;

use super::visit::{closed_graph, lemma_closed_push, lemma_closed_update, predecessors, preds_below, region_markers};
use super::data::{link_of, marker_view, ports, simple_view, with_parameters, Link, Marker, NodeView, Nodes, Region, Shape, Simple};

verus! {

/// A parsed program: its graph and the node that produces the final io state.
pub struct ParseData {
    nodes: Nodes,
    io: usize,
}

impl ParseData {
    pub fn nodes(&self) -> (r: &Nodes)
        ensures
            *r == self.graph(),
    {
        &self.nodes
    }

    pub fn nodes_mut(&mut self) -> (r: &mut Nodes)
        ensures
            *r == old(self).graph(),
            final(self).graph() == *final(r),
            final(self).root() == old(self).root(),
    {
        &mut self.nodes
    }

    /// The nodes whose outputs escape the graph: the final io state alone.
    /// A node is live when this root depends on it, so the memory state left
    /// after the last output is dead: a store that no later output observes
    /// is swept and never sequenced.
    pub fn roots(&self) -> (r: [usize; 1])
        ensures
            r@ == seq![self.root()],
    {
        [self.io]
    }

    pub closed spec fn graph(&self) -> Nodes {
        self.nodes
    }

    pub closed spec fn root(&self) -> usize {
        self.io
    }
}

#[derive(Debug, PartialEq, Eq, Structural, Clone, Copy)]
pub enum ParseError {
    TooManyClosingBrackets { offset: usize },
    TooFewClosingBrackets,
}

/// An open loop: the end marker of its body and the branch around it.
#[derive(Clone, Copy, PartialEq, Eq, Structural, Debug)]
pub struct Block {
    pub output: usize,
    pub parent: usize,
}

/// The builder's state: the graph so far and the four edges it threads.
pub struct BuildState {
    pub nodes: Seq<NodeView>,
    pub blocks: Seq<Block>,
    pub loads: Seq<Link>,
    pub store: Link,
    pub io: Link,
    pub pointer: Link,
}

pub open spec fn with_node(s: BuildState, n: NodeView) -> BuildState {
    BuildState { nodes: s.nodes.push(n), ..s }
}

/// A load of the current cell; its post state joins the pending loads.
pub open spec fn load_direct(s: BuildState) -> (BuildState, Link) {
    let id = s.nodes.len() as int;
    let t = with_node(s, simple_view(Simple::Load, seq![s.store, s.pointer]));
    (BuildState { loads: s.loads.push(link_of(id, 0)), ..t }, link_of(id, 1))
}

/// The state a store must follow: the last store, the one pending load, or a
/// merge of all pending loads.
pub open spec fn reconcile(s: BuildState) -> (BuildState, Link) {
    if s.loads.len() == 0 {
        (s, s.store)
    } else if s.loads.len() == 1 {
        (BuildState { loads: seq![], ..s }, s.loads[0])
    } else {
        let id = s.nodes.len() as int;
        (BuildState { loads: seq![], ..with_node(s, simple_view(Simple::Merge, s.loads)) }, link_of(id, 0))
    }
}

pub open spec fn store_direct(s: BuildState, value: Link) -> BuildState {
    let (t, state) = reconcile(s);
    let id = t.nodes.len() as int;
    BuildState { store: link_of(id, 0), ..with_node(t, simple_view(Simple::Store, seq![state, t.pointer, value])) }
}

pub open spec fn pointer_shift(s: BuildState, op: Simple) -> BuildState {
    let one = s.nodes.len() as int;
    let t = with_node(with_node(s, simple_view(Simple::Integer { value: 1 }, seq![])), simple_view(op, seq![s.pointer, link_of(one, 0)]));
    BuildState { pointer: link_of(one + 1, 0), ..t }
}

pub open spec fn memory_arithmetic(s: BuildState, op: Simple) -> BuildState {
    let (t, temporary) = load_direct(s);
    let one = t.nodes.len() as int;
    let u = with_node(with_node(t, simple_view(Simple::Integer { value: 1 }, seq![])), simple_view(op, seq![temporary, link_of(one, 0)]));
    store_direct(u, link_of(one + 1, 0))
}

pub open spec fn tell_output(s: BuildState) -> BuildState {
    let (t, value) = load_direct(s);
    let id = t.nodes.len() as int;
    BuildState { io: link_of(id, 0), ..with_node(t, simple_view(Simple::Tell, seq![t.io, value])) }
}

pub open spec fn ask_input(s: BuildState) -> BuildState {
    let id = s.nodes.len() as int;
    let t = BuildState { io: link_of(id, 0), ..with_node(s, simple_view(Simple::Ask, seq![s.io])) };
    store_direct(t, link_of(id, 1))
}

pub open spec fn passthrough(s: BuildState, start: int, end: int, n: nat) -> BuildState {
    BuildState {
        nodes: s.nodes.update(end, with_parameters(s.nodes[end], s.nodes[end].parameters + ports(start, n))),
        ..s
    }
}

/// The loop inside the taken arm of a branch; the builder moves into its body.
pub open spec fn theta_handle(s: BuildState, parent: Region) -> (BuildState, usize) {
    let t = s.nodes.len() as int;
    let region = Region { start: t as usize, end: (t + 1) as usize };
    let s1 = with_node(with_node(with_node(s, marker_view(Marker::Start)), marker_view(Marker::End)), NodeView { shape: Shape::Theta(region), parameters: seq![] });
    let s2 = passthrough(passthrough(s1, parent.start as int, t + 2, 3), t + 2, parent.end as int, 3);
    (BuildState { io: link_of(t, 0), store: link_of(t, 1), pointer: link_of(t, 2), ..s2 }, (t + 1) as usize)
}

/// `[`: a two-arm branch on the current cell; arm 0 skips, arm 1 loops.
pub open spec fn block_start(s: BuildState) -> BuildState {
    let f = s.nodes.len() as int;
    let on_false = Region { start: f as usize, end: (f + 1) as usize };
    let on_true = Region { start: (f + 2) as usize, end: (f + 3) as usize };
    let s1 = with_node(with_node(with_node(with_node(s, marker_view(Marker::Start)), marker_view(Marker::End)), marker_view(Marker::Start)), marker_view(Marker::End));
    let (s2, condition) = load_direct(s1);
    let (s3, store) = reconcile(s2);
    let gamma = s3.nodes.len() as int;
    let s4 = with_node(s3, NodeView { shape: Shape::Gamma(seq![on_false, on_true]), parameters: seq![s3.io, store, s3.pointer, condition] });
    let s5 = passthrough(s4, on_false.start as int, on_false.end as int, 3);
    let (s6, output) = theta_handle(s5, on_true);
    BuildState { blocks: s6.blocks.push(Block { output, parent: gamma as usize }), ..s6 }
}

/// `]`: closes the innermost loop with its continuation test and moves the
/// builder to the branch's outputs.
pub open spec fn block_end(s: BuildState, offset: usize) -> Result<BuildState, ParseError> {
    if s.blocks.len() == 0 {
        Err(ParseError::TooManyClosingBrackets { offset })
    } else {
        let block = s.blocks.last();
        let s1 = BuildState { blocks: s.blocks.drop_last(), ..s };
        let (s2, condition) = load_direct(s1);
        let (s3, store) = reconcile(s2);
        let out = block.output as int;
        let s4 = BuildState {
            nodes: s3.nodes.update(out, with_parameters(s3.nodes[out], s3.nodes[out].parameters + seq![s3.io, store, s3.pointer, condition])),
            ..s3
        };
        let parent = block.parent as int;
        Ok(BuildState { io: link_of(parent, 0), store: link_of(parent, 1), pointer: link_of(parent, 2), ..s4 })
    }
}

/// What one source character does to the builder.
pub open spec fn step(s: BuildState, item: (usize, char)) -> Result<BuildState, ParseError> {
    let (offset, c) = item;
    if c == '>' {
        Ok(pointer_shift(s, Simple::Add))
    } else if c == '<' {
        Ok(pointer_shift(s, Simple::Sub))
    } else if c == '+' {
        Ok(memory_arithmetic(s, Simple::Add))
    } else if c == '-' {
        Ok(memory_arithmetic(s, Simple::Sub))
    } else if c == '.' {
        Ok(tell_output(s))
    } else if c == ',' {
        Ok(ask_input(s))
    } else if c == '[' {
        Ok(block_start(s))
    } else if c == ']' {
        block_end(s, offset)
    } else {
        Ok(s)
    }
}

pub open spec fn is_operator(c: char) -> bool {
    c == '>' || c == '<' || c == '+' || c == '-' || c == '.' || c == ',' || c == '[' || c == ']'
}

/// The graph before any source is read: io state, memory state, pointer 0.
pub open spec fn initial() -> BuildState {
    BuildState {
        nodes: seq![
            simple_view(Simple::IO, seq![]),
            simple_view(Simple::Memory, seq![]),
            simple_view(Simple::Integer { value: 0 }, seq![]),
        ],
        blocks: seq![],
        loads: seq![],
        store: link_of(1, 0),
        io: link_of(0, 0),
        pointer: link_of(2, 0),
    }
}

/// The builder after reading all of `source`, or the first error.
pub open spec fn run(source: Seq<(usize, char)>) -> Result<BuildState, ParseError>
    decreases source.len(),
{
    if source.len() == 0 {
        Ok(initial())
    } else {
        match run(source.drop_last()) {
            Ok(s) => step(s, source.last()),
            Err(e) => Err(e),
        }
    }
}

/// The graph and root node that `source` lowers to, or its error.
pub open spec fn parse_model(source: Seq<(usize, char)>) -> Result<(Seq<NodeView>, usize), ParseError> {
    match run(source) {
        Ok(s) => if s.blocks.len() == 0 {
            Ok((s.nodes, s.io.node))
        } else {
            Err(ParseError::TooFewClosingBrackets)
        },
        Err(e) => Err(e),
    }
}

/// Every open block names nodes that exist.
pub open spec fn sound(s: BuildState) -> bool {
    forall|i: int| 0 <= i < s.blocks.len() ==> s.blocks[i].output < s.nodes.len() && s.blocks[i].parent < s.nodes.len()
}

pub open spec fn room(s: BuildState, k: nat) -> bool {
    s.nodes.len() + k < usize::MAX
}

/// Room for the nodes that one more character can add.
pub open spec fn roomy(s: BuildState) -> bool {
    s.nodes.len() + 16 < usize::MAX
}

proof fn lemma_step(s: BuildState, item: (usize, char))
    requires
        sound(s),
    ensures
        step(s, item) matches Ok(t) ==> sound(t) && t.nodes.len() <= s.nodes.len() + 16,
{
    let (offset, c) = item;
    if c == ']' && s.blocks.len() > 0 {
        let t = step(s, item)->Ok_0;
        assert forall|i: int| 0 <= i < t.blocks.len() implies t.blocks[i].output < t.nodes.len() && t.blocks[i].parent < t.nodes.len() by {
            assert(t.blocks[i] == s.blocks[i]);
        }
    }
    if c == '[' {
        let t = step(s, item)->Ok_0;
        assert forall|i: int| 0 <= i < t.blocks.len() implies t.blocks[i].output < t.nodes.len() && t.blocks[i].parent < t.nodes.len() by {
            if i < s.blocks.len() {
                assert(t.blocks[i] == s.blocks[i]);
            }
        }
    }
}

/// The builder's graph is closed and every edge it threads names a node.
pub open spec fn built(s: BuildState) -> bool {
    &&& closed_graph(s.nodes)
    &&& sound(s)
    &&& s.store.node < s.nodes.len()
    &&& s.io.node < s.nodes.len()
    &&& s.pointer.node < s.nodes.len()
    &&& forall|i: int| 0 <= i < s.loads.len() ==> #[trigger] s.loads[i].node < s.nodes.len()
    &&& stores_follow_older(s.nodes)
    &&& forall|i: int| 0 <= i < s.blocks.len() ==> (#[trigger] s.nodes[s.blocks[i].output as int]).shape == Shape::End
}

/// Every store's input state comes from an older node.
pub open spec fn stores_follow_older(g: Seq<NodeView>) -> bool {
    forall|x: int| 0 <= x < g.len() && (#[trigger] g[x]).shape == Shape::Simple(Simple::Store) && g[x].parameters.len() > 0
        ==> g[x].parameters[0].node < x
}

pub open spec fn store_ready(n: NodeView, len: nat) -> bool {
    n.shape == Shape::Simple(Simple::Store) && n.parameters.len() > 0 ==> n.parameters[0].node < len
}

proof fn lemma_simple_preds(op: Simple, parameters: Seq<Link>, bound: nat)
    requires
        forall|k: int| 0 <= k < parameters.len() ==> #[trigger] parameters[k].node < bound,
    ensures
        preds_below(simple_view(op, parameters), bound),
{
    assert forall|q: int| 0 <= q < predecessors(simple_view(op, parameters)).len() implies #[trigger] predecessors(simple_view(op, parameters))[q] < bound by {
        assert(predecessors(simple_view(op, parameters))[q] == parameters[q].node);
    }
}

proof fn lemma_with_node(s: BuildState, n: NodeView)
    requires
        built(s),
        preds_below(n, s.nodes.len() + 1),
        store_ready(n, s.nodes.len()),
    ensures
        built(with_node(s, n)),
{
    lemma_closed_push(s.nodes, n);
    let t = with_node(s, n);
    assert forall|i: int| 0 <= i < t.blocks.len() implies t.blocks[i].output < t.nodes.len() && t.blocks[i].parent < t.nodes.len() by {
        assert(t.blocks[i] == s.blocks[i]);
    }
    assert forall|x: int| 0 <= x < t.nodes.len() && (#[trigger] t.nodes[x]).shape == Shape::Simple(Simple::Store)
        && t.nodes[x].parameters.len() > 0 implies t.nodes[x].parameters[0].node < x by {
        if x < s.nodes.len() {
            assert(t.nodes[x] == s.nodes[x]);
        }
    }
    assert forall|i: int| 0 <= i < t.blocks.len() implies (#[trigger] t.nodes[t.blocks[i].output as int]).shape == Shape::End by {
        assert(t.blocks[i] == s.blocks[i]);
        assert(s.nodes[s.blocks[i].output as int].shape == Shape::End);
    }
}

proof fn lemma_marker(s: BuildState, m: Marker)
    requires
        built(s),
    ensures
        built(with_node(s, marker_view(m))),
{
    assert(predecessors(marker_view(m)) =~= seq![]);
    lemma_with_node(s, marker_view(m));
}

proof fn lemma_add_simple(s: BuildState, op: Simple, parameters: Seq<Link>)
    requires
        built(s),
        forall|k: int| 0 <= k < parameters.len() ==> #[trigger] parameters[k].node < s.nodes.len() + 1,
        store_ready(simple_view(op, parameters), s.nodes.len()),
    ensures
        built(with_node(s, simple_view(op, parameters))),
{
    lemma_simple_preds(op, parameters, s.nodes.len() + 1);
    lemma_with_node(s, simple_view(op, parameters));
}

proof fn lemma_load(s: BuildState)
    requires
        built(s),
    ensures
        built(load_direct(s).0),
        load_direct(s).1.node < load_direct(s).0.nodes.len(),
{
    lemma_add_simple(s, Simple::Load, seq![s.store, s.pointer]);
    let t = load_direct(s).0;
    assert forall|i: int| 0 <= i < t.loads.len() implies #[trigger] t.loads[i].node < t.nodes.len() by {
        if i < s.loads.len() {
            assert(t.loads[i] == s.loads[i]);
        }
    }
}

proof fn lemma_reconcile(s: BuildState)
    requires
        built(s),
    ensures
        built(reconcile(s).0),
        reconcile(s).1.node < reconcile(s).0.nodes.len(),
        reconcile(s).0.pointer == s.pointer,
{
    if s.loads.len() > 1 {
        lemma_add_simple(s, Simple::Merge, s.loads);
    }
}

proof fn lemma_store(s: BuildState, value: Link)
    requires
        built(s),
        value.node < s.nodes.len(),
    ensures
        built(store_direct(s, value)),
{
    lemma_reconcile(s);
    let (t, state) = reconcile(s);
    lemma_add_simple(t, Simple::Store, seq![state, t.pointer, value]);
}

proof fn lemma_passthrough(s: BuildState, start: int, end: int, n: nat)
    requires
        built(s),
        s.nodes[end].shape != Shape::Simple(Simple::Store),
        start <= usize::MAX,
        0 <= start < s.nodes.len(),
        0 <= end < s.nodes.len(),
    ensures
        built(passthrough(s, start, end, n)),
{
    let old_node = s.nodes[end];
    let new_node = with_parameters(old_node, old_node.parameters + ports(start, n));
    assert forall|q: int| 0 <= q < predecessors(new_node).len() implies #[trigger] predecessors(new_node)[q] < s.nodes.len() by {
        let k = old_node.parameters.len();
        if old_node.shape is Gamma || old_node.shape is Theta {
            let markers = if old_node.shape is Gamma {
                region_markers(old_node.shape->Gamma_0)
            } else {
                region_markers(seq![old_node.shape->Theta_0])
            };
            if q < k {
                assert(predecessors(new_node)[q] == predecessors(old_node)[q]);
            } else if q < k + n {
                assert((old_node.parameters + ports(start, n))[q] == ports(start, n)[q - k]);
                assert(ports(start, n)[q - k].node == start as usize);
                assert(predecessors(new_node)[q] == start);
            } else {
                assert(predecessors(new_node)[q] == predecessors(old_node)[q - n]);
            }
        } else {
            if q < k {
                assert(predecessors(new_node)[q] == predecessors(old_node)[q]);
            } else {
                assert((old_node.parameters + ports(start, n))[q] == ports(start, n)[q - k]);
                assert(ports(start, n)[q - k].node == start as usize);
                assert(predecessors(new_node)[q] == start);
            }
        }
    }
    lemma_closed_update(s.nodes, end, new_node);
}

proof fn lemma_step_built(s: BuildState, item: (usize, char))
    requires
        built(s),
        roomy(s),
    ensures
        step(s, item) matches Ok(t) ==> built(t),
{
    let (offset, c) = item;
    if c == '>' || c == '<' {
        let op = if c == '>' { Simple::Add } else { Simple::Sub };
        let one = s.nodes.len() as int;
        lemma_add_simple(s, Simple::Integer { value: 1 }, seq![]);
        let s1 = with_node(s, simple_view(Simple::Integer { value: 1 }, seq![]));
        lemma_add_simple(s1, op, seq![s.pointer, link_of(one, 0)]);
    } else if c == '+' || c == '-' {
        let op = if c == '+' { Simple::Add } else { Simple::Sub };
        lemma_load(s);
        let (t, temporary) = load_direct(s);
        let one = t.nodes.len() as int;
        lemma_add_simple(t, Simple::Integer { value: 1 }, seq![]);
        let t1 = with_node(t, simple_view(Simple::Integer { value: 1 }, seq![]));
        lemma_add_simple(t1, op, seq![temporary, link_of(one, 0)]);
        let u = with_node(t1, simple_view(op, seq![temporary, link_of(one, 0)]));
        lemma_store(u, link_of(one + 1, 0));
    } else if c == '.' {
        lemma_load(s);
        let (t, value) = load_direct(s);
        lemma_add_simple(t, Simple::Tell, seq![t.io, value]);
    } else if c == ',' {
        let id = s.nodes.len() as int;
        lemma_add_simple(s, Simple::Ask, seq![s.io]);
        let t = BuildState { io: link_of(id, 0), ..with_node(s, simple_view(Simple::Ask, seq![s.io])) };
        lemma_store(t, link_of(id, 1));
    } else if c == '[' {
        lemma_block_start(s);
    } else if c == ']' {
        lemma_block_end(s, offset);
    }
}

proof fn lemma_block_start(s: BuildState)
    requires
        built(s),
        roomy(s),
    ensures
        built(block_start(s)),
{
    let f = s.nodes.len() as int;
    let on_false = Region { start: f as usize, end: (f + 1) as usize };
    let on_true = Region { start: (f + 2) as usize, end: (f + 3) as usize };
    lemma_marker(s, Marker::Start);
    let a1 = with_node(s, marker_view(Marker::Start));
    lemma_marker(a1, Marker::End);
    let a2 = with_node(a1, marker_view(Marker::End));
    lemma_marker(a2, Marker::Start);
    let a3 = with_node(a2, marker_view(Marker::Start));
    lemma_marker(a3, Marker::End);
    let s1 = with_node(a3, marker_view(Marker::End));
    lemma_load(s1);
    let (s2, condition) = load_direct(s1);
    lemma_reconcile(s2);
    let (s3, store) = reconcile(s2);
    let gamma = s3.nodes.len() as int;
    let g = NodeView { shape: Shape::Gamma(seq![on_false, on_true]), parameters: seq![s3.io, store, s3.pointer, condition] };
    assert forall|q: int| 0 <= q < predecessors(g).len() implies #[trigger] predecessors(g)[q] < s3.nodes.len() + 1 by {
        if q >= 4 {
            assert(predecessors(g)[q] == region_markers(seq![on_false, on_true])[q - 4]);
        }
    }
    lemma_with_node(s3, g);
    let s4 = with_node(s3, g);
    lemma_passthrough(s4, on_false.start as int, on_false.end as int, 3);
    let s5 = passthrough(s4, on_false.start as int, on_false.end as int, 3);
    let t = s5.nodes.len() as int;
    let region = Region { start: t as usize, end: (t + 1) as usize };
    lemma_marker(s5, Marker::Start);
    let b1 = with_node(s5, marker_view(Marker::Start));
    lemma_marker(b1, Marker::End);
    let b2 = with_node(b1, marker_view(Marker::End));
    let theta = NodeView { shape: Shape::Theta(region), parameters: seq![] };
    assert forall|q: int| 0 <= q < predecessors(theta).len() implies #[trigger] predecessors(theta)[q] < b2.nodes.len() + 1 by {
        assert(predecessors(theta)[q] == region_markers(seq![region])[q]);
    }
    lemma_with_node(b2, theta);
    let s6 = with_node(b2, theta);
    lemma_passthrough(s6, on_true.start as int, t + 2, 3);
    let s7 = passthrough(s6, on_true.start as int, t + 2, 3);
    lemma_passthrough(s7, t + 2, on_true.end as int, 3);
    let r = block_start(s);
    assert forall|i: int| 0 <= i < r.blocks.len() implies r.blocks[i].output < r.nodes.len() && r.blocks[i].parent < r.nodes.len() by {
        if i < s.blocks.len() {
            assert(r.blocks[i] == s.blocks[i]);
        }
    }
}

proof fn lemma_block_end(s: BuildState, offset: usize)
    requires
        built(s),
    ensures
        block_end(s, offset) matches Ok(t) ==> built(t),
{
    if s.blocks.len() > 0 {
        let block = s.blocks.last();
        let s1 = BuildState { blocks: s.blocks.drop_last(), ..s };
        assert forall|i: int| 0 <= i < s1.blocks.len() implies s1.blocks[i].output < s1.nodes.len() && s1.blocks[i].parent < s1.nodes.len() by {
            assert(s1.blocks[i] == s.blocks[i]);
        }
        lemma_load(s1);
        let (s2, condition) = load_direct(s1);
        lemma_reconcile(s2);
        let (s3, store) = reconcile(s2);
        let out = block.output as int;
        let old_node = s3.nodes[out];
        let extra = seq![s3.io, store, s3.pointer, condition];
        let new_node = with_parameters(old_node, old_node.parameters + extra);
        assert forall|q: int| 0 <= q < predecessors(new_node).len() implies #[trigger] predecessors(new_node)[q] < s3.nodes.len() by {
            let k = old_node.parameters.len();
            if old_node.shape is Gamma || old_node.shape is Theta {
                if q < k {
                    assert(predecessors(new_node)[q] == predecessors(old_node)[q]);
                } else if q < k + 4 {
                    assert(predecessors(new_node)[q] == extra[q - k].node);
                } else {
                    assert(predecessors(new_node)[q] == predecessors(old_node)[q - 4]);
                }
            } else {
                if q < k {
                    assert(predecessors(new_node)[q] == predecessors(old_node)[q]);
                } else {
                    assert(predecessors(new_node)[q] == extra[q - k].node);
                }
            }
        }
        lemma_closed_update(s3.nodes, out, new_node);
    }
}

/// Lowers source text to the graph, one character at a time.
pub struct Parser {
    nodes: Nodes,
    blocks: Vec<Block>,
    load_states: Vec<Link>,
    store_state: Link,
    io_state: Link,
    pointer: Link,
}

impl Parser {
    pub fn new() -> (r: Parser) {
        let zero = Link { node: 0, port: 0 };
        Parser {
            nodes: Nodes::new(),
            blocks: Vec::new(),
            load_states: Vec::new(),
            store_state: zero,
            io_state: zero,
            pointer: zero,
        }
    }

    closed spec fn state(&self) -> BuildState {
        BuildState {
            nodes: self.nodes@,
            blocks: self.blocks@,
            loads: self.load_states@,
            store: self.store_state,
            io: self.io_state,
            pointer: self.pointer,
        }
    }

    fn add_load_direct(&mut self) -> (r: Link)
        requires
            room(old(self).state(), 1),
        ensures
            final(self).state() == load_direct(old(self).state()).0,
            r == load_direct(old(self).state()).1,
    {
        let load = self.nodes.add_simple(Simple::Load, vec![self.store_state, self.pointer]);
        self.load_states.push(Link { node: load, port: 0 });
        Link { node: load, port: 1 }
    }

    fn reconcile_store_state(&mut self) -> (r: Link)
        requires
            room(old(self).state(), 1),
        ensures
            final(self).state() == reconcile(old(self).state()).0,
            r == reconcile(old(self).state()).1,
    {
        let n = self.load_states.len();
        if n == 0 {
            self.store_state
        } else if n == 1 {
            let r = self.load_states[0];
            self.load_states.clear();
            assert(self.load_states@ =~= seq![]);
            r
        } else {
            let mut states: Vec<Link> = Vec::new();
            std::mem::swap(&mut states, &mut self.load_states);
            assert(self.load_states@ =~= seq![]);
            let merge = self.nodes.add_simple(Simple::Merge, states);
            Link { node: merge, port: 0 }
        }
    }

    fn add_store_direct(&mut self, value: Link)
        requires
            room(old(self).state(), 2),
        ensures
            final(self).state() == store_direct(old(self).state(), value),
    {
        let state = self.reconcile_store_state();
        let store = self.nodes.add_simple(Simple::Store, vec![state, self.pointer, value]);
        self.store_state = Link { node: store, port: 0 };
    }

    fn add_pointer_shift(&mut self, op: Simple)
        requires
            room(old(self).state(), 2),
        ensures
            final(self).state() == pointer_shift(old(self).state(), op),
    {
        let one = self.nodes.add_integer(1);
        let result = self.nodes.add_simple(op, vec![self.pointer, one]);
        self.pointer = Link { node: result, port: 0 };
    }

    fn add_memory_arithmetic(&mut self, op: Simple)
        requires
            room(old(self).state(), 5),
        ensures
            final(self).state() == memory_arithmetic(old(self).state(), op),
    {
        let temporary = self.add_load_direct();
        let one = self.nodes.add_integer(1);
        let result = self.nodes.add_simple(op, vec![temporary, one]);
        self.add_store_direct(Link { node: result, port: 0 });
    }

    fn add_tell_output(&mut self)
        requires
            room(old(self).state(), 2),
        ensures
            final(self).state() == tell_output(old(self).state()),
    {
        let value = self.add_load_direct();
        let result = self.nodes.add_simple(Simple::Tell, vec![self.io_state, value]);
        self.io_state = Link { node: result, port: 0 };
    }

    fn add_ask_input(&mut self)
        requires
            room(old(self).state(), 3),
        ensures
            final(self).state() == ask_input(old(self).state()),
    {
        let ghost s0 = self.state();
        let parameters = vec![self.io_state];
        assert(parameters@ =~= seq![s0.io]);
        let ask = self.nodes.add_simple(Simple::Ask, parameters);
        self.io_state = Link { node: ask, port: 0 };
        assert(self.state() == (BuildState { io: link_of(ask as int, 0), ..with_node(s0, simple_view(Simple::Ask, seq![s0.io])) }));
        self.add_store_direct(Link { node: ask, port: 1 });
    }

    fn add_theta_handle(&mut self, parent: Region) -> (r: usize)
        requires
            room(old(self).state(), 3),
            parent.start < old(self).state().nodes.len(),
            parent.end < old(self).state().nodes.len(),
        ensures
            final(self).state() == theta_handle(old(self).state(), parent).0,
            r == theta_handle(old(self).state(), parent).1,
    {
        let (theta, region) = self.nodes.add_theta();
        self.nodes.add_passthrough(parent.start, theta, 3);
        self.nodes.add_passthrough(theta, parent.end, 3);
        self.io_state = Link { node: region.start, port: 0 };
        self.store_state = Link { node: region.start, port: 1 };
        self.pointer = Link { node: region.start, port: 2 };
        region.end
    }

    fn add_block_start(&mut self)
        requires
            room(old(self).state(), 10),
        ensures
            final(self).state() == block_start(old(self).state()),
    {
        let ghost s0 = self.state();
        let on_false = self.nodes.add_region();
        let on_true = self.nodes.add_region();
        assert(self.state() == with_node(with_node(with_node(with_node(s0, marker_view(Marker::Start)), marker_view(Marker::End)), marker_view(Marker::Start)), marker_view(Marker::End)));
        let condition = self.add_load_direct();
        let store_state = self.reconcile_store_state();
        let ghost s3 = self.state();
        let regions = vec![on_false, on_true];
        assert(regions@ =~= seq![on_false, on_true]);
        let gamma = self.nodes.add_gamma(regions);
        let links = [self.io_state, store_state, self.pointer, condition];
        assert(seq![] + links@ =~= seq![s3.io, store_state, s3.pointer, condition]);
        self.nodes.append_parameters(gamma, &links);
        assert(self.nodes@ =~= s3.nodes.push(NodeView { shape: Shape::Gamma(seq![on_false, on_true]), parameters: seq![s3.io, store_state, s3.pointer, condition] }));
        assert(self.state() == with_node(s3, NodeView { shape: Shape::Gamma(seq![on_false, on_true]), parameters: seq![s3.io, store_state, s3.pointer, condition] }));
        self.nodes.add_identity_handle(on_false);
        assert(self.state() == passthrough(with_node(s3, NodeView { shape: Shape::Gamma(seq![on_false, on_true]), parameters: seq![s3.io, store_state, s3.pointer, condition] }), on_false.start as int, on_false.end as int, 3));
        let output = self.add_theta_handle(on_true);
        self.blocks.push(Block { output, parent: gamma });
    }

    fn add_block_end(&mut self, offset: usize) -> (r: Result<(), ParseError>)
        requires
            room(old(self).state(), 2),
            sound(old(self).state()),
        ensures
            match block_end(old(self).state(), offset) {
                Ok(t) => r is Ok && final(self).state() == t,
                Err(e) => r == Err::<(), ParseError>(e) && final(self).state() == old(self).state(),
            },
    {
        let block = match self.blocks.pop() {
            Some(b) => b,
            None => return Err(ParseError::TooManyClosingBrackets { offset }),
        };
        let condition = self.add_load_direct();
        let store_state = self.reconcile_store_state();
        let links = [self.io_state, store_state, self.pointer, condition];
        assert(links@ =~= seq![self.io_state, store_state, self.pointer, condition]);
        self.nodes.append_parameters(block.output, &links);
        self.io_state = Link { node: block.parent, port: 0 };
        self.store_state = Link { node: block.parent, port: 1 };
        self.pointer = Link { node: block.parent, port: 2 };
        Ok(())
    }
    fn initialize_nodes(&mut self)
        ensures
            final(self).state() == initial(),
    {
        let mut nodes = Nodes::new();
        let io = nodes.add_simple(Simple::IO, Vec::new());
        let memory = nodes.add_simple(Simple::Memory, Vec::new());
        let pointer = nodes.add_integer(0);
        self.io_state = Link { node: io, port: 0 };
        self.store_state = Link { node: memory, port: 0 };
        self.pointer = pointer;
        self.nodes = nodes;
        self.blocks.clear();
        self.load_states.clear();
        assert(self.nodes@ =~= initial().nodes);
        assert(self.blocks@ =~= seq![]);
        assert(self.load_states@ =~= seq![]);
    }

    /// Lowers `source`, a sequence of (byte offset, character) pairs, to a
    /// graph. Characters other than the eight operators are ignored.
    pub fn parse(&mut self, source: &[(usize, char)]) -> (r: Result<ParseData, ParseError>)
        requires
            source@.len() * 16 + 16 < usize::MAX,
        ensures
            match parse_model(source@) {
                Ok((graph, root)) => r matches Ok(d) && d.graph()@ == graph && d.root() == root,
                Err(e) => r == Err::<ParseData, ParseError>(e),
            },
            r matches Ok(d) ==> closed_graph(d.graph()@) && d.root() < d.graph()@.len() && stores_follow_older(d.graph()@),
    {
        self.initialize_nodes();
        proof {
            let g = initial().nodes;
            assert forall|x: int, q: int| 0 <= x < g.len() && 0 <= q < predecessors(g[x]).len() implies #[trigger] predecessors(g[x])[q] < g.len() by {
                assert(predecessors(g[x]) =~= seq![]);
            }
        }
        assert(source@.take(0) =~= seq![]);
        let mut i: usize = 0;
        while i < source.len()
            invariant
                i <= source@.len(),
                source@.len() * 16 + 16 < usize::MAX,
                run(source@.take(i as int)) == Ok::<BuildState, ParseError>(self.state()),
                sound(self.state()),
                built(self.state()),
                self.state().nodes.len() <= 3 + 16 * i,
            decreases source@.len() - i,
        {
            let (offset, c) = source[i];
            proof {
                lemma_step(self.state(), (offset, c));
                lemma_step_built(self.state(), (offset, c));
                assert(source@.take(i + 1).drop_last() =~= source@.take(i as int));
                assert(source@.take(i + 1).last() == (offset, c));
            }
            match c {
                '>' => self.add_pointer_shift(Simple::Add),
                '<' => self.add_pointer_shift(Simple::Sub),
                '+' => self.add_memory_arithmetic(Simple::Add),
                '-' => self.add_memory_arithmetic(Simple::Sub),
                '.' => self.add_tell_output(),
                ',' => self.add_ask_input(),
                '[' => self.add_block_start(),
                ']' => {
                    if let Err(e) = self.add_block_end(offset) {
                        proof {
                            lemma_error_persists(source@, i + 1);
                        }
                        return Err(e);
                    }
                },
                _ => {},
            }
            i = i + 1;
        }
        assert(source@.take(i as int) =~= source@);
        if self.blocks.len() > 0 {
            return Err(ParseError::TooFewClosingBrackets);
        }
        let mut nodes = Nodes::new();
        std::mem::swap(&mut nodes, &mut self.nodes);
        Ok(ParseData { nodes, io: self.io_state.node })
    }
}

/// Once reading a prefix fails, reading the whole source fails the same way.
proof fn lemma_error_persists(source: Seq<(usize, char)>, j: int)
    requires
        0 <= j <= source.len(),
        run(source.take(j)) is Err,
    ensures
        run(source) == run(source.take(j)),
    decreases source.len() - j,
{
    if j == source.len() {
        assert(source.take(j) =~= source);
    } else {
        assert(source.take(j + 1).drop_last() =~= source.take(j));
        lemma_error_persists(source, j + 1);
    }
}

/// How many loops are open after reading `source`: `[` opens, `]` closes.
pub open spec fn depth(source: Seq<(usize, char)>) -> int
    decreases source.len(),
{
    if source.len() == 0 {
        0
    } else {
        let c = source.last().1;
        depth(source.drop_last()) + if c == '[' {
            1int
        } else if c == ']' {
            -1int
        } else {
            0int
        }
    }
}

/// No prefix of `source` closes more loops than it opens.
pub open spec fn never_negative(source: Seq<(usize, char)>) -> bool {
    forall|j: int| 0 <= j <= source.len() ==> depth(#[trigger] source.take(j)) >= 0
}

/// The brackets of `source` balance.
pub open spec fn balanced(source: Seq<(usize, char)>) -> bool {
    never_negative(source) && depth(source) == 0
}

/// `source[j]` is the first `]` that has no matching `[`.
pub open spec fn first_unmatched(source: Seq<(usize, char)>, j: int) -> bool {
    0 <= j < source.len() && depth(source.take(j + 1)) < 0 && never_negative(source.take(j))
}

proof fn lemma_never_negative_drop_last(source: Seq<(usize, char)>)
    requires
        source.len() > 0,
    ensures
        never_negative(source) == (never_negative(source.drop_last()) && depth(source) >= 0),
{
    assert forall|j: int| 0 <= j <= source.len() - 1 implies #[trigger] source.drop_last().take(j) == source.take(j) by {
        assert(source.drop_last().take(j) =~= source.take(j));
    }
    assert(source.take(source.len() as int) =~= source);
    assert(source.drop_last().take(source.len() - 1) =~= source.drop_last());
    if never_negative(source) {
        assert forall|j: int| 0 <= j <= source.drop_last().len() implies depth(#[trigger] source.drop_last().take(j)) >= 0 by {
            assert(source.drop_last().take(j) == source.take(j));
        }
    }
    if never_negative(source.drop_last()) && depth(source) >= 0 {
        assert forall|j: int| 0 <= j <= source.len() implies depth(#[trigger] source.take(j)) >= 0 by {
            if j < source.len() {
                assert(source.drop_last().take(j) == source.take(j));
            }
        }
    }
}

proof fn lemma_run_shape(source: Seq<(usize, char)>)
    ensures
        (run(source) is Ok) == never_negative(source),
        run(source) matches Ok(s) ==> s.blocks.len() == depth(source),
        run(source) matches Err(e) ==> exists|j: int| first_unmatched(source, j) && e == (ParseError::TooManyClosingBrackets { offset: source[j].0 }),
    decreases source.len(),
{
    if source.len() == 0 {
        assert forall|j: int| 0 <= j <= source.len() implies depth(#[trigger] source.take(j)) >= 0 by {
            assert(source.take(j) =~= seq![]);
        }
    } else {
        let prefix = source.drop_last();
        lemma_run_shape(prefix);
        lemma_never_negative_drop_last(source);
        match run(prefix) {
            Ok(s) => {
                let j = source.len() - 1;
                assert(source.take(j) =~= prefix);
                assert(source.take(j + 1) =~= source);
                if run(source) is Err {
                    assert(first_unmatched(source, j));
                }
            },
            Err(e) => {
                let j = choose|j: int| first_unmatched(prefix, j) && e == (ParseError::TooManyClosingBrackets { offset: prefix[j].0 });
                assert(prefix.take(j + 1) =~= source.take(j + 1));
                assert(prefix.take(j) =~= source.take(j));
                assert(first_unmatched(source, j));
            },
        }
    }
}

/// Which sources parse: exactly those whose brackets balance. Otherwise the
/// first `]` without a matching `[` is reported with its offset, and a source
/// that never over-closes but leaves loops open is reported as such.
pub proof fn lemma_parse_acceptance(source: Seq<(usize, char)>)
    ensures
        parse_model(source) is Ok <==> balanced(source),
        parse_model(source) == Err::<(Seq<NodeView>, usize), ParseError>(ParseError::TooFewClosingBrackets)
            <==> never_negative(source) && depth(source) > 0,
        !never_negative(source) ==> exists|j: int| first_unmatched(source, j) && parse_model(source)
            == Err::<(Seq<NodeView>, usize), ParseError>(ParseError::TooManyClosingBrackets { offset: source[j].0 }),
{
    lemma_run_shape(source);
    if never_negative(source) {
        assert(source.take(source.len() as int) =~= source);
    }
}

/// Characters other than the eight operators change nothing: inserting one
/// anywhere yields the same graph, or the same error.
pub proof fn lemma_ignores_non_operators(source: Seq<(usize, char)>, i: int, item: (usize, char))
    requires
        0 <= i <= source.len(),
        !is_operator(item.1),
    ensures
        parse_model(source.insert(i, item)) == parse_model(source),
{
    lemma_run_ignores(source, i, item);
}

proof fn lemma_run_ignores(source: Seq<(usize, char)>, i: int, item: (usize, char))
    requires
        0 <= i <= source.len(),
        !is_operator(item.1),
    ensures
        run(source.insert(i, item)) == run(source),
    decreases source.len(),
{
    let longer = source.insert(i, item);
    if i == source.len() {
        assert(longer.drop_last() =~= source);
    } else {
        assert(longer.drop_last() =~= source.drop_last().insert(i, item));
        assert(longer.last() == source.last());
        lemma_run_ignores(source.drop_last(), i, item);
    }
}

} // verus!
