use vstd::prelude::*;

verus! {

/// Names one output port of a producer node.
#[derive(Clone, Copy, PartialEq, Eq, Structural, Debug)]
pub struct Link {
    pub node: usize,
    pub port: usize,
}

/// The start and end markers that delimit a region.
#[derive(Clone, Copy, PartialEq, Eq, Structural, Debug)]
pub struct Region {
    pub start: usize,
    pub end: usize,
}

/// The simple operations; their operands are the node's parameters, in order.
#[derive(Clone, Copy, PartialEq, Eq, Structural, Debug)]
pub enum Simple {
    NoOp,
    Merge,
    Memory,
    IO,
    Integer { value: u64 },
    Add,
    Sub,
    Load,
    Store,
    Ask,
    Tell,
}

/// A node that owns regions: an n-way branch or a tail-controlled loop.
#[derive(Debug)]
pub enum Compound {
    Gamma { regions: Vec<Region> },
    Theta { region: Region },
}

/// The markers that delimit a region.
#[derive(Clone, Copy, PartialEq, Eq, Structural, Debug)]
pub enum Marker {
    Start,
    End,
}

/// What a node is: a simple operation, a compound, or a region marker.
#[derive(Debug)]
pub enum Operation {
    Simple(Simple),
    Compound(Compound),
    Marker(Marker),
}

/// A node: what it does, and the ordered links it reads.
#[derive(Debug)]
pub struct Node {
    pub operation: Operation,
    pub parameters: Vec<Link>,
}

/// The mathematical shape of an operation.
pub enum Shape {
    Simple(Simple),
    Gamma(Seq<Region>),
    Theta(Region),
    Start,
    End,
}

/// The mathematical form of a node.
pub struct NodeView {
    pub shape: Shape,
    pub parameters: Seq<Link>,
}

impl Operation {
    pub open spec fn shape(&self) -> Shape {
        match self {
            Operation::Simple(s) => Shape::Simple(*s),
            Operation::Compound(Compound::Gamma { regions }) => Shape::Gamma(regions@),
            Operation::Compound(Compound::Theta { region }) => Shape::Theta(*region),
            Operation::Marker(Marker::Start) => Shape::Start,
            Operation::Marker(Marker::End) => Shape::End,
        }
    }
}

impl View for Node {
    type V = NodeView;

    open spec fn view(&self) -> NodeView {
        NodeView { shape: self.operation.shape(), parameters: self.parameters@ }
    }
}

pub open spec fn simple_view(op: Simple, parameters: Seq<Link>) -> NodeView {
    NodeView { shape: Shape::Simple(op), parameters }
}

pub open spec fn link_of(node: int, port: int) -> Link {
    Link { node: node as usize, port: port as usize }
}

/// The first `n` output ports of `node`.
pub open spec fn ports(node: int, n: nat) -> Seq<Link> {
    Seq::new(n, |k: int| link_of(node, k))
}

/// The node arena: nodes are named by their index and never removed.
pub struct Nodes {
    list: Vec<Node>,
}

impl View for Nodes {
    type V = Seq<NodeView>;

    closed spec fn view(&self) -> Seq<NodeView> {
        Seq::new(self.list@.len(), |i: int| self.list@[i]@)
    }
}

impl Nodes {
    /// An empty graph.
    pub fn new() -> (r: Nodes)
        ensures
            r@ == Seq::<NodeView>::empty(),
    {
        let r = Nodes { list: Vec::new() };
        assert(r@ =~= Seq::<NodeView>::empty());
        r
    }

    /// How many nodes have been allocated.
    pub fn len(&self) -> (r: usize)
        ensures
            r == self@.len(),
    {
        self.list.len()
    }

    /// Node `id`.
    pub fn get(&self, id: usize) -> (r: &Node)
        requires
            id < self@.len(),
        ensures
            r@ == self@[id as int],
    {
        &self.list[id]
    }

    /// Appends a node and returns its id.
    fn add_node(&mut self, node: Node) -> (r: usize)
        requires
            old(self)@.len() < usize::MAX,
        ensures
            r == old(self)@.len(),
            final(self)@ == old(self)@.push(node@),
    {
        let r = self.list.len();
        self.list.push(node);
        assert(self@ =~= old(self)@.push(node@));
        r
    }

    /// Adds a simple operation reading `parameters`; returns its id.
    pub fn add_simple(&mut self, op: Simple, parameters: Vec<Link>) -> (r: usize)
        requires
            old(self)@.len() < usize::MAX,
        ensures
            r == old(self)@.len(),
            final(self)@ == old(self)@.push(simple_view(op, parameters@)),
    {
        self.add_node(Node { operation: Operation::Simple(op), parameters })
    }

    /// Adds the literal `value`; returns the link to its output.
    pub fn add_integer(&mut self, value: u64) -> (r: Link)
        requires
            old(self)@.len() < usize::MAX,
        ensures
            r == link_of(old(self)@.len() as int, 0),
            final(self)@ == old(self)@.push(simple_view(Simple::Integer { value }, seq![])),
    {
        let empty: Vec<Link> = Vec::new();
        assert(empty@ =~= seq![]);
        let node = self.add_simple(Simple::Integer { value }, empty);
        Link { node, port: 0 }
    }

    /// Adds a region: its start marker, then its end marker.
    pub fn add_region(&mut self) -> (r: Region)
        requires
            old(self)@.len() + 2 < usize::MAX,
        ensures
            r == (Region { start: old(self)@.len() as usize, end: (old(self)@.len() + 1) as usize }),
            final(self)@ == old(self)@.push(marker_view(Marker::Start)).push(
                marker_view(Marker::End),
            ),
    {
        let start = self.add_node(Node { operation: Operation::Marker(Marker::Start), parameters: Vec::new() });
        let end = self.add_node(Node { operation: Operation::Marker(Marker::End), parameters: Vec::new() });
        proof {
            assert(self@ =~= old(self)@.push(marker_view(Marker::Start)).push(marker_view(Marker::End)));
        }
        Region { start, end }
    }

    /// Adds a branch over `regions`, with no parameters yet; returns its id.
    pub fn add_gamma(&mut self, regions: Vec<Region>) -> (r: usize)
        requires
            old(self)@.len() < usize::MAX,
        ensures
            r == old(self)@.len(),
            final(self)@ == old(self)@.push(NodeView { shape: Shape::Gamma(regions@), parameters: seq![] }),
    {
        let r = self.add_node(Node { operation: Operation::Compound(Compound::Gamma { regions }), parameters: Vec::new() });
        proof {
            assert(self@ =~= old(self)@.push(NodeView { shape: Shape::Gamma(regions@), parameters: seq![] }));
        }
        r
    }

    /// Adds a loop with one fresh region; the region's markers come first.
    pub fn add_theta(&mut self) -> (r: (usize, Region))
        requires
            old(self)@.len() + 3 < usize::MAX,
        ensures
            r.0 == old(self)@.len() + 2,
            r.1 == (Region { start: old(self)@.len() as usize, end: (old(self)@.len() + 1) as usize }),
            final(self)@ == old(self)@.push(marker_view(Marker::Start)).push(
                marker_view(Marker::End),
            ).push(NodeView { shape: Shape::Theta(r.1), parameters: seq![] }),
    {
        let region = self.add_region();
        let theta = self.add_node(Node { operation: Operation::Compound(Compound::Theta { region }), parameters: Vec::new() });
        proof {
            assert(self@ =~= old(self)@.push(marker_view(Marker::Start)).push(
                marker_view(Marker::End)).push(NodeView { shape: Shape::Theta(region), parameters: seq![] }));
        }
        (theta, region)
    }

    /// Appends `link` to the parameters of node `id`.
    pub fn push_parameter(&mut self, id: usize, link: Link)
        requires
            id < old(self)@.len(),
        ensures
            final(self)@ == old(self)@.update(id as int, with_parameters(old(self)@[id as int], old(self)@[id as int].parameters.push(link))),
    {
        self.list[id].parameters.push(link);
        proof {
            assert(self@ =~= old(self)@.update(id as int, with_parameters(old(self)@[id as int], old(self)@[id as int].parameters.push(link))));
        }
    }

    /// Appends the first `len` output ports of `start` to the parameters of `end`.
    pub fn add_passthrough(&mut self, start: usize, end: usize, len: usize)
        requires
            end < old(self)@.len(),
        ensures
            final(self)@ == old(self)@.update(end as int, with_parameters(old(self)@[end as int], old(self)@[end as int].parameters + ports(start as int, len as nat))),
    {
        let mut k: usize = 0;
        while k < len
            invariant
                k <= len,
                end < old(self)@.len(),
                self@ == old(self)@.update(end as int, with_parameters(old(self)@[end as int], old(self)@[end as int].parameters + ports(start as int, k as nat))),
            decreases len - k,
        {
            self.push_parameter(end, Link { node: start, port: k });
            proof {
                assert((old(self)@[end as int].parameters + ports(start as int, k as nat)).push(link_of(start as int, k as int))
                    =~= old(self)@[end as int].parameters + ports(start as int, (k + 1) as nat));
                assert(self@ =~= old(self)@.update(end as int, with_parameters(old(self)@[end as int], old(self)@[end as int].parameters + ports(start as int, (k + 1) as nat))));
            }
            k = k + 1;
        }
    }

    /// Wires the three carried values (io state, memory state, pointer)
    /// straight across a region that does nothing.
    pub fn add_identity_handle(&mut self, parent: Region)
        requires
            parent.end < old(self)@.len(),
        ensures
            final(self)@ == old(self)@.update(parent.end as int, with_parameters(old(self)@[parent.end as int], old(self)@[parent.end as int].parameters + ports(parent.start as int, 3))),
    {
        self.add_passthrough(parent.start, parent.end, 3);
    }

    /// Appends `links`, in order, to the parameters of node `id`.
    pub fn append_parameters(&mut self, id: usize, links: &[Link])
        requires
            id < old(self)@.len(),
        ensures
            final(self)@ == old(self)@.update(id as int, with_parameters(old(self)@[id as int], old(self)@[id as int].parameters + links@)),
    {
        let mut k: usize = 0;
        while k < links.len()
            invariant
                k <= links@.len(),
                id < old(self)@.len(),
                self@ == old(self)@.update(id as int, with_parameters(old(self)@[id as int], old(self)@[id as int].parameters + links@.take(k as int))),
            decreases links@.len() - k,
        {
            self.push_parameter(id, links[k]);
            proof {
                assert((old(self)@[id as int].parameters + links@.take(k as int)).push(links@[k as int])
                    =~= old(self)@[id as int].parameters + links@.take(k + 1));
                assert(self@ =~= old(self)@.update(id as int, with_parameters(old(self)@[id as int], old(self)@[id as int].parameters + links@.take(k + 1))));
            }
            k = k + 1;
        }
        assert(links@.take(k as int) =~= links@);
    }

    /// Overwrites the parameter at `index` of node `id`.
    pub fn set_parameter(&mut self, id: usize, index: usize, link: Link)
        requires
            id < old(self)@.len(),
            index < old(self)@[id as int].parameters.len(),
        ensures
            final(self)@ == old(self)@.update(id as int, with_parameters(old(self)@[id as int], old(self)@[id as int].parameters.update(index as int, link))),
    {
        self.list[id].parameters.set(index, link);
        proof {
            assert(self@ =~= old(self)@.update(id as int, with_parameters(old(self)@[id as int], old(self)@[id as int].parameters.update(index as int, link))));
        }
    }

    /// Replaces node `id` by a simple operation reading `parameters`.
    pub fn replace_simple(&mut self, id: usize, op: Simple, parameters: Vec<Link>)
        requires
            id < old(self)@.len(),
        ensures
            final(self)@ == old(self)@.update(id as int, simple_view(op, parameters@)),
    {
        self.list.set(id, Node { operation: Operation::Simple(op), parameters });
        proof {
            assert(self@ =~= old(self)@.update(id as int, simple_view(op, parameters@)));
        }
    }
}

pub open spec fn marker_view(m: Marker) -> NodeView {
    NodeView {
        shape: match m {
            Marker::Start => Shape::Start,
            Marker::End => Shape::End,
        },
        parameters: seq![],
    }
}

pub open spec fn with_parameters(n: NodeView, parameters: Seq<Link>) -> NodeView {
    NodeView { shape: n.shape, parameters }
}

} // verus!
