use vstd::prelude::*;

use crate::hir::data::{Link, NodeView, Nodes};
use crate::hir::visit::{reachable, reads_from, reverse_topological, successors};

verus! {

/// `min(n, usize::MAX)`: counts saturate at the largest `usize`.
pub open spec fn clamp(n: nat) -> usize {
    if n <= usize::MAX {
        n as usize
    } else {
        usize::MAX
    }
}

/// How many of `parameters` are exactly `link`.
pub open spec fn matches_in(parameters: Seq<Link>, link: Link) -> nat
    decreases parameters.len(),
{
    if parameters.len() == 0 {
        0
    } else {
        matches_in(parameters.drop_last(), link) + if parameters.last() == link {
            1nat
        } else {
            0nat
        }
    }
}

/// How many parameter slots of the nodes `readers` are exactly `link`.
pub open spec fn reads(g: Seq<NodeView>, readers: Seq<usize>, link: Link) -> nat
    decreases readers.len(),
{
    if readers.len() == 0 {
        0
    } else {
        reads(g, readers.drop_last(), link) + if readers.last() < g.len() {
            matches_in(g[readers.last() as int].parameters, link)
        } else {
            0nat
        }
    }
}

proof fn lemma_wf_grow(a: Registers, b: Registers)
    requires
        a.wf(),
        b.map() == a.map(),
        a.counts().len() <= b.counts().len() <= u32::MAX,
    ensures
        b.wf(),
{
    assert forall|l: Link| #[trigger] b.map().lookup(l) < b.counts().len() || b.map().lookup(l) == 0 by {
        assert(a.map().lookup(l) < a.counts().len() || a.map().lookup(l) == 0);
    }
}

/// The counts after one read of register `r`: its count drops by one, and
/// a count already at zero stays there.
pub open spec fn spent(c: Seq<usize>, r: u32) -> Seq<usize> {
    if (r as int) < c.len() && c[r as int] > 0 {
        c.update(r as int, (c[r as int] - 1) as usize)
    } else {
        c
    }
}

/// `b` is `a` after `fetch(l)` returned `r`.
pub open spec fn fetched(a: Registers, l: Link, b: Registers, r: u32) -> bool {
    &&& r == a.map().lookup(l)
    &&& b.map() == a.map()
    &&& b.readers() == a.readers()
    &&& b.counts() == spent(a.counts(), r)
}

/// `b` is `a` with register `r` assigned to `l` and the reader index kept.
pub open spec fn assigned_to(a: Registers, l: Link, r: u32, b: Registers) -> bool {
    &&& b.readers() == a.readers()
    &&& forall|x: Link| #[trigger] b.map().lookup(x) == if x == l {
        r
    } else {
        a.map().lookup(x)
    }
}

/// `b` is `a` after `reserve(l)` gave `r`: the lowest free register (else a
/// new one), holding the reads of `l` in `g`.
pub open spec fn reserved_for(a: Registers, g: Seq<NodeView>, l: Link, b: Registers, r: u32) -> bool {
    &&& assigned_to(a, l, r, b)
    &&& reserved(a.counts(), r, a.references(g, l), b.counts())
}

/// `b` is `a` after `reuse_or_reserve(l, preferred)` gave `r`: `preferred`
/// when it is free, else a reservation.
pub open spec fn kept_or_reserved(a: Registers, g: Seq<NodeView>, l: Link, preferred: u32, b: Registers, r: u32) -> bool {
    &&& assigned_to(a, l, r, b)
    &&& if (preferred as int) < a.counts().len() && a.counts()[preferred as int] == 0 {
        r == preferred && b.counts() == a.counts().update(preferred as int, a.references(g, l))
    } else {
        reserved(a.counts(), r, a.references(g, l), b.counts())
    }
}

/// The counts after reading the registers of `ls`, last link first.
pub open spec fn spent_rev(c: Seq<usize>, m: ResultMap, ls: Seq<Link>) -> Seq<usize>
    decreases ls.len(),
{
    if ls.len() == 0 {
        c
    } else {
        spent(spent_rev(c, m, ls.drop_first()), m.lookup(ls[0]))
    }
}

/// The counts after reading the registers of `ls`, first link first.
pub open spec fn spent_fwd(c: Seq<usize>, m: ResultMap, ls: Seq<Link>) -> Seq<usize>
    decreases ls.len(),
{
    if ls.len() == 0 {
        c
    } else {
        spent(spent_fwd(c, m, ls.drop_last()), m.lookup(ls.last()))
    }
}

/// `b` is `a` after `reuse(l, r)`: `l` is given `r`, whose count grows by
/// the reads of `l` in `g`.
pub open spec fn reused(a: Registers, g: Seq<NodeView>, l: Link, r: u32, b: Registers) -> bool {
    &&& assigned_to(a, l, r, b)
    &&& b.counts() == if (r as int) < a.counts().len() {
        a.counts().update(r as int, clamp((a.counts()[r as int] + a.references(g, l)) as nat))
    } else {
        a.counts()
    }
}

/// What `reserve` does to the counts `c`, giving register `r` to a value
/// read `refs` times: the lowest free register is taken, else a new one is
/// added, else (with all 2^32 - 1 busy) the last is shared.
pub open spec fn reserved(c: Seq<usize>, r: u32, refs: usize, after: Seq<usize>) -> bool {
    if exists|i: int| 0 <= i < c.len() && c[i] == 0 {
        &&& (r as int) < c.len()
        &&& c[r as int] == 0
        &&& forall|i: int| 0 <= i < r ==> c[i] != 0
        &&& after == c.update(r as int, refs)
    } else if c.len() < u32::MAX {
        r == c.len() && after == c.push(refs)
    } else {
        r == u32::MAX - 1 && after == c.update(r as int, clamp((c[r as int] + refs) as nat))
    }
}

/// The register assigned to each output port, by node and then by port.
pub struct ResultMap {
    results: Vec<Vec<u32>>,
}

impl ResultMap {
    pub fn new() -> (r: ResultMap)
        ensures
            forall|l: Link| r.lookup(l) == 0,
    {
        ResultMap { results: Vec::new() }
    }

    /// The register of `link`; 0 where none was set.
    pub closed spec fn lookup(&self, link: Link) -> u32 {
        if link.node < self.results@.len() && link.port < self.results@[link.node as int]@.len() {
            self.results@[link.node as int]@[link.port as int]
        } else {
            0
        }
    }

    fn reset(&mut self, active: usize)
        ensures
            forall|l: Link| final(self).lookup(l) == 0,
    {
        let mut i: usize = 0;
        while i < self.results.len()
            invariant
                i <= self.results@.len(),
                forall|j: int| 0 <= j < i ==> (#[trigger] self.results@[j])@.len() == 0,
            decreases self.results@.len() - i,
        {
            self.results[i].clear();
            i = i + 1;
        }
        while self.results.len() < active
            invariant
                forall|j: int| 0 <= j < self.results@.len() ==> (#[trigger] self.results@[j])@.len() == 0,
            decreases active - self.results@.len(),
        {
            self.results.push(Vec::new());
        }
    }

    pub fn get(&self, link: Link) -> (r: u32)
        ensures
            r == self.lookup(link),
    {
        if link.node < self.results.len() && link.port < self.results[link.node].len() {
            self.results[link.node][link.port]
        } else {
            0
        }
    }

    pub fn set(&mut self, link: Link, register: u32)
        ensures
            forall|l: Link| #[trigger] final(self).lookup(l) == if l == link {
                register
            } else {
                old(self).lookup(l)
            },
    {
        while self.results.len() <= link.node
            invariant
                forall|l: Link| #[trigger] self.lookup(l) == old(self).lookup(l),
            decreases link.node + 1 - self.results@.len(),
        {
            let ghost before = *self;
            self.results.push(Vec::new());
            assert forall|l: Link| #[trigger] self.lookup(l) == before.lookup(l) by {
                if l.node < before.results@.len() {
                    assert(self.results@[l.node as int] == before.results@[l.node as int]);
                }
            }
        }
        while self.results[link.node].len() <= link.port
            invariant
                link.node < self.results@.len(),
                forall|l: Link| #[trigger] self.lookup(l) == old(self).lookup(l),
            decreases link.port + 1 - self.results@[link.node as int]@.len(),
        {
            let ghost before = *self;
            self.results[link.node].push(0);
            assert forall|l: Link| #[trigger] self.lookup(l) == before.lookup(l) by {
                if l.node != link.node && l.node < before.results@.len() {
                    assert(self.results@[l.node as int] == before.results@[l.node as int]);
                }
                if l.node == link.node && l.port < before.results@[l.node as int]@.len() {
                    assert(self.results@[l.node as int]@[l.port as int] == before.results@[l.node as int]@[l.port as int]);
                }
            }
        }
        let ghost before = *self;
        self.results[link.node].set(link.port, register);
        assert forall|l: Link| #[trigger] self.lookup(l) == if l == link {
            register
        } else {
            before.lookup(l)
        } by {
            if l.node != link.node && l.node < before.results@.len() {
                assert(self.results@[l.node as int] == before.results@[l.node as int]);
            }
            if l.node == link.node && l.port != link.port && l.port < before.results@[l.node as int]@.len() {
                assert(self.results@[l.node as int]@[l.port as int] == before.results@[l.node as int]@[l.port as int]);
            }
        }
    }
}

/// A reference-counted register file keyed to the graph's links.
pub struct Registers {
    successors: Vec<Vec<usize>>,
    assigned: ResultMap,
    remaining: Vec<usize>,
}

impl Registers {
    pub fn new() -> (r: Registers)
        ensures
            r.wf(),
            r.counts().len() == 0,
    {
        Registers { successors: Vec::new(), assigned: ResultMap::new(), remaining: Vec::new() }
    }

    /// Register indices fit in 32 bits, and every link names an existing
    /// register or none yet (register 0 by default).
    pub open spec fn wf(&self) -> bool {
        &&& self.counts().len() <= u32::MAX
        &&& forall|l: Link| #[trigger] self.map().lookup(l) < self.counts().len() || self.map().lookup(l) == 0
    }

    /// How many reads are left of the value each register holds.
    pub closed spec fn counts(&self) -> Seq<usize> {
        self.remaining@
    }

    /// The live readers of each node.
    pub closed spec fn readers(&self) -> Seq<Vec<usize>> {
        self.successors@
    }

    pub closed spec fn map(&self) -> ResultMap {
        self.assigned
    }

    /// How many live parameter slots read `link`, saturated.
    pub open spec fn references(&self, g: Seq<NodeView>, link: Link) -> usize {
        if link.node < self.readers().len() {
            clamp(reads(g, self.readers()[link.node as int]@, link))
        } else {
            0
        }
    }

    /// Indexes the readers of the nodes live from `roots` and empties the file.
    pub fn reset(&mut self, nodes: &Nodes, roots: &[usize])
        ensures
            final(self).wf(),
            final(self).counts().len() == 0,
            forall|l: Link| final(self).map().lookup(l) == 0,
            final(self).readers().len() == nodes@.len(),
            forall|x: int| 0 <= x < nodes@.len() ==> (#[trigger] final(self).readers()[x]@).no_duplicates(),
            forall|x: int, s: usize| 0 <= x < nodes@.len() ==> (#[trigger] final(self).readers()[x]@.contains(s) <==> s
                < nodes@.len() && reachable(nodes@, roots@, s) && reads_from(nodes@, s, x as usize)),
    {
        let order = reverse_topological(nodes, roots);
        self.successors = successors(nodes, &order);
        proof {
            assert forall|s: usize| order@.contains(s) <==> s < nodes@.len() && reachable(nodes@, roots@, s) by {
                if order@.contains(s) {
                    let i = choose|i: int| 0 <= i < order@.len() && order@[i] == s;
                    assert(reachable(nodes@, roots@, order@[i]));
                }
                if s < nodes@.len() && reachable(nodes@, roots@, s) {
                    assert(reachable(nodes@, roots@, (s as int) as usize));
                }
            }
        }
        self.assigned.reset(nodes.len());
        self.remaining.clear();
    }

    pub fn assigned(&self) -> (r: &ResultMap)
        ensures
            *r == self.map(),
    {
        &self.assigned
    }

    /// The reads left of each register's value.
    pub fn remaining(&self) -> (r: &Vec<usize>)
        ensures
            r@ == self.counts(),
    {
        &self.remaining
    }

    pub fn register_count(&self) -> (r: usize)
        ensures
            r == self.counts().len(),
    {
        self.remaining.len()
    }

    fn references_count(&self, nodes: &Nodes, value: Link) -> (r: usize)
        ensures
            r == self.references(nodes@, value),
    {
        if value.node >= self.successors.len() {
            return 0;
        }
        let list = &self.successors[value.node];
        let mut count: usize = 0;
        let mut i: usize = 0;
        while i < list.len()
            invariant
                i <= list@.len(),
                count == clamp(reads(nodes@, list@.take(i as int), value)),
            decreases list@.len() - i,
        {
            let s = list[i];
            assert(list@.take(i + 1).drop_last() =~= list@.take(i as int));
            if s < nodes.len() {
                let parameters = &nodes.get(s).parameters;
                let ghost base = reads(nodes@, list@.take(i as int), value);
                let mut k: usize = 0;
                while k < parameters.len()
                    invariant
                        k <= parameters@.len(),
                        count == clamp(base + matches_in(parameters@.take(k as int), value)),
                    decreases parameters@.len() - k,
                {
                    assert(parameters@.take(k + 1).drop_last() =~= parameters@.take(k as int));
                    if parameters[k] == value {
                        count = count.saturating_add(1);
                    }
                    k = k + 1;
                }
                assert(parameters@.take(k as int) =~= parameters@);
            }
            i = i + 1;
        }
        assert(list@.take(i as int) =~= list@);
        count
    }

    /// The lowest free register, or a new one. With all 2^32 - 1 registers
    /// busy, the last one is handed out again.
    fn next_available(&mut self) -> (r: u32)
        requires
            old(self).wf(),
        ensures
            final(self).wf(),
            final(self).readers() == old(self).readers(),
            final(self).map() == old(self).map(),
            (r as int) < final(self).counts().len(),
            ({
                let c = old(self).counts();
                if exists|i: int| 0 <= i < c.len() && c[i] == 0 {
                    c[r as int] == 0 && (forall|i: int| 0 <= i < r ==> c[i] != 0) && final(self).counts() == c
                } else if c.len() < u32::MAX {
                    r == c.len() && final(self).counts() == c.push(0)
                } else {
                    r == u32::MAX - 1 && final(self).counts() == c
                }
            }),
    {
        let mut i: usize = 0;
        while i < self.remaining.len()
            invariant
                i <= self.remaining@.len(),
                old(self).wf(),
                self.remaining@.len() <= u32::MAX,
                self.remaining@ == old(self).remaining@,
                self.successors == old(self).successors,
                self.assigned == old(self).assigned,
                forall|j: int| 0 <= j < i ==> self.remaining@[j] != 0,
            decreases self.remaining@.len() - i,
        {
            if self.remaining[i] == 0 {
                proof {
                    lemma_wf_grow(*old(self), *self);
                }
                return i as u32;
            }
            i = i + 1;
        }
        if self.remaining.len() < u32::MAX as usize {
            self.remaining.push(0);
            proof {
                lemma_wf_grow(*old(self), *self);
            }
            (self.remaining.len() - 1) as u32
        } else {
            proof {
                lemma_wf_grow(*old(self), *self);
            }
            (u32::MAX - 1) as u32
        }
    }

    /// The register of `link`, consuming one of its reads. A count that is
    /// already zero stays zero.
    pub fn fetch(&mut self, link: Link) -> (r: u32)
        requires
            old(self).wf(),
        ensures
            final(self).wf(),
            final(self).readers() == old(self).readers(),
            final(self).map() == old(self).map(),
            fetched(*old(self), link, *final(self), r),
            r == old(self).map().lookup(link),
            final(self).counts() == if (r as int) < old(self).counts().len() && old(self).counts()[r as int] > 0 {
                old(self).counts().update(r as int, (old(self).counts()[r as int] - 1) as usize)
            } else {
                old(self).counts()
            },
    {
        let register = self.assigned.get(link);
        let index = register as usize;
        if index < self.remaining.len() && self.remaining[index] > 0 {
            let count = self.remaining[index];
            self.remaining.set(index, count - 1);
        }
        proof {
            lemma_wf_grow(*old(self), *self);
        }
        register
    }

    /// Hands `register` to `link` and adds the reads of `link` to its count.
    pub fn reuse(&mut self, nodes: &Nodes, link: Link, register: u32)
        requires
            old(self).wf(),
            (register as int) < old(self).counts().len() || register == 0,
        ensures
            final(self).wf(),
            final(self).readers() == old(self).readers(),
            forall|l: Link| #[trigger] final(self).map().lookup(l) == if l == link {
                register
            } else {
                old(self).map().lookup(l)
            },
            final(self).counts() == if (register as int) < old(self).counts().len() {
                old(self).counts().update(register as int, clamp((old(self).counts()[register as int] + old(self).references(nodes@, link)) as nat))
            } else {
                old(self).counts()
            },
            reused(*old(self), nodes@, link, register, *final(self)),
    {
        let index = register as usize;
        self.assigned.set(link, register);
        let count = self.references_count(nodes, link);
        if index < self.remaining.len() {
            let total = self.remaining[index].saturating_add(count);
            self.remaining.set(index, total);
        }
        proof {
            assert forall|l: Link| #[trigger] self.map().lookup(l) < self.counts().len() || self.map().lookup(l) == 0 by {
                assert(old(self).map().lookup(l) < old(self).counts().len() || old(self).map().lookup(l) == 0);
            }
        }
    }

    /// Gives `link` the lowest free register, or a new one.
    pub fn reserve(&mut self, nodes: &Nodes, link: Link) -> (r: u32)
        requires
            old(self).wf(),
        ensures
            final(self).wf(),
            final(self).readers() == old(self).readers(),
            forall|l: Link| #[trigger] final(self).map().lookup(l) == if l == link {
                r
            } else {
                old(self).map().lookup(l)
            },
            reserved(old(self).counts(), r, old(self).references(nodes@, link), final(self).counts()),
            reserved_for(*old(self), nodes@, link, *final(self), r),
    {
        let ghost c = self.counts();
        let ghost refs = self.references(nodes@, link);
        let register = self.next_available();
        assert(self.references(nodes@, link) == refs);
        self.reuse(nodes, link, register);
        proof {
            assert(clamp((0 + refs) as nat) == refs);
            if !(exists|i: int| 0 <= i < c.len() && c[i] == 0) && c.len() < u32::MAX {
                assert(c.push(0).update(c.len() as int, refs) =~= c.push(refs));
            }
        }
        register
    }

    /// Reuses `preferred` for `link` if it is free, else reserves.
    pub fn reuse_or_reserve(&mut self, nodes: &Nodes, link: Link, preferred: u32) -> (r: u32)
        requires
            old(self).wf(),
        ensures
            final(self).wf(),
            final(self).readers() == old(self).readers(),
            forall|l: Link| #[trigger] final(self).map().lookup(l) == if l == link {
                r
            } else {
                old(self).map().lookup(l)
            },
            if (preferred as int) < old(self).counts().len() && old(self).counts()[preferred as int] == 0 {
                r == preferred && final(self).counts() == old(self).counts().update(preferred as int, old(self).references(nodes@, link))
            } else {
                reserved(old(self).counts(), r, old(self).references(nodes@, link), final(self).counts())
            },
            kept_or_reserved(*old(self), nodes@, link, preferred, *final(self), r),
    {
        let index = preferred as usize;
        if index < self.remaining.len() && self.remaining[index] == 0 {
            self.reuse(nodes, link, preferred);
            preferred
        } else {
            self.reserve(nodes, link)
        }
    }
}

} // verus!
