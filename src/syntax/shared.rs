use vstd::prelude::*;

verus! {

broadcast use vstd::std_specs::vec::group_vec_axioms;

/// An instruction of the tree form: a loop over a block, or a run of one
/// operation with its count.
#[derive(Debug)]
pub enum Bop {
    Loop(Vec<Bop>),
    DataPointer(i32),
    DataValue(i32),
    Output(u32),
    Input(u32),
}

/// The mathematical form of a `Bop`.
pub enum BopView {
    Loop(Seq<BopView>),
    DataPointer(i32),
    DataValue(i32),
    Output(u32),
    Input(u32),
}

pub open spec fn bop_view(b: Bop) -> BopView
    decreases b, 0nat,
{
    match b {
        Bop::Loop(v) => BopView::Loop(bops_view(v@, v@.len() as int)),
        Bop::DataPointer(a) => BopView::DataPointer(a),
        Bop::DataValue(a) => BopView::DataValue(a),
        Bop::Output(a) => BopView::Output(a),
        Bop::Input(a) => BopView::Input(a),
    }
}

/// The views of the first `n` elements of `s`.
pub open spec fn bops_view(s: Seq<Bop>, n: int) -> Seq<BopView>
    decreases s, n,
{
    if n <= 0 || n > s.len() {
        Seq::empty()
    } else {
        bops_view(s, n - 1).push(bop_view(s[n - 1]))
    }
}

/// The views of all of `s`.
pub open spec fn bops(s: Seq<Bop>) -> Seq<BopView> {
    bops_view(s, s.len() as int)
}

pub proof fn lemma_bops_index(s: Seq<Bop>, n: int)
    requires
        0 <= n <= s.len(),
    ensures
        bops_view(s, n).len() == n,
        forall|i: int| 0 <= i < n ==> #[trigger] bops_view(s, n)[i] == bop_view(s[i]),
    decreases n,
{
    if n > 0 {
        lemma_bops_index(s, n - 1);
    }
}

/// How deeply loops nest in `b`.
pub open spec fn depth(b: BopView) -> nat
    decreases b, 0nat,
{
    match b {
        BopView::Loop(inner) => 1 + depth_of(inner, inner.len() as int),
        _ => 0,
    }
}

/// How deeply loops nest in the first `n` elements of `s`.
pub open spec fn depth_of(s: Seq<BopView>, n: int) -> nat
    decreases s, n,
{
    if n <= 0 || n > s.len() {
        0
    } else {
        let rest = depth_of(s, n - 1);
        let here = depth(s[n - 1]);
        if rest >= here {
            rest
        } else {
            here
        }
    }
}

pub open spec fn depth_all(s: Seq<BopView>) -> nat {
    depth_of(s, s.len() as int)
}

pub proof fn lemma_depth_element(s: Seq<BopView>, n: int, i: int)
    requires
        0 <= i < n <= s.len(),
    ensures
        depth(s[i]) <= depth_of(s, n),
    decreases n,
{
    if i < n - 1 {
        lemma_depth_element(s, n - 1, i);
    }
}

pub proof fn lemma_depth_bound(s: Seq<BopView>, n: int, d: nat)
    requires
        0 <= n <= s.len(),
        forall|i: int| 0 <= i < n ==> depth(#[trigger] s[i]) <= d,
    ensures
        depth_of(s, n) <= d,
    decreases n,
{
    if n > 0 {
        lemma_depth_bound(s, n - 1, d);
    }
}

/// Two runs of the same operation add up, while the sum fits.
pub open spec fn merged(a: BopView, b: BopView) -> Option<BopView> {
    match (a, b) {
        (BopView::DataPointer(x), BopView::DataPointer(y)) => if i32::MIN <= x + y <= i32::MAX {
            Some(BopView::DataPointer((x + y) as i32))
        } else {
            None
        },
        (BopView::DataValue(x), BopView::DataValue(y)) => if i32::MIN <= x + y <= i32::MAX {
            Some(BopView::DataValue((x + y) as i32))
        } else {
            None
        },
        (BopView::Output(x), BopView::Output(y)) => if x + y <= u32::MAX {
            Some(BopView::Output((x + y) as u32))
        } else {
            None
        },
        (BopView::Input(x), BopView::Input(y)) => if x + y <= u32::MAX {
            Some(BopView::Input((x + y) as u32))
        } else {
            None
        },
        _ => None,
    }
}

impl Bop {
    /// The run of `self` then `other` as one instruction, when both are runs
    /// of the same operation whose total fits.
    pub fn merge(&self, other: &Self) -> (r: Option<Self>)
        ensures
            match r {
                Some(b) => merged(bop_view(*self), bop_view(*other)) == Some(bop_view(b)),
                None => merged(bop_view(*self), bop_view(*other)) is None,
            },
    {
        match (self, other) {
            (Bop::DataPointer(a), Bop::DataPointer(b)) => match a.checked_add(*b) {
                Some(c) => Some(Bop::DataPointer(c)),
                None => None,
            },
            (Bop::DataValue(a), Bop::DataValue(b)) => match a.checked_add(*b) {
                Some(c) => Some(Bop::DataValue(c)),
                None => None,
            },
            (Bop::Output(a), Bop::Output(b)) => match a.checked_add(*b) {
                Some(c) => Some(Bop::Output(c)),
                None => None,
            },
            (Bop::Input(a), Bop::Input(b)) => match a.checked_add(*b) {
                Some(c) => Some(Bop::Input(c)),
                None => None,
            },
            _ => None,
        }
    }
}

/// A deep copy of `b`.
pub fn copy_bop(b: &Bop) -> (r: Bop)
    ensures
        bop_view(r) == bop_view(*b),
    decreases b, 0nat,
{
    match b {
        Bop::Loop(v) => Bop::Loop(copy_bops(v)),
        Bop::DataPointer(a) => Bop::DataPointer(*a),
        Bop::DataValue(a) => Bop::DataValue(*a),
        Bop::Output(a) => Bop::Output(*a),
        Bop::Input(a) => Bop::Input(*a),
    }
}

/// A deep copy of `v`.
pub fn copy_bops(v: &Vec<Bop>) -> (r: Vec<Bop>)
    ensures
        bops(r@) == bops(v@),
    decreases v, 1nat,
{
    let mut r: Vec<Bop> = Vec::new();
    let mut i: usize = 0;
    while i < v.len()
        invariant
            i <= v@.len(),
            r@.len() == i,
            forall|k: int| 0 <= k < i ==> bop_view(#[trigger] r@[k]) == bop_view(v@[k]),
        decreases v@.len() - i,
    {
        proof {
            assert(decreases_to!(v => v@[i as int]));
        }
        let b = copy_bop(&v[i]);
        r.push(b);
        i = i + 1;
    }
    proof {
        lemma_bops_index(r@, r@.len() as int);
        lemma_bops_index(v@, v@.len() as int);
        assert(bops(r@) =~= bops(v@));
    }
    r
}

} // verus!
