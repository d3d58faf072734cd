use vstd::prelude::*;

use crate::syntax::shared::{bop_view, bops, lemma_bops_index, Bop, BopView};

verus! {

broadcast use vstd::std_specs::vec::group_vec_axioms;

/// Which operation `b` runs: 1 pointer, 2 value, 3 output, 4 input; 0 for a loop.
pub open spec fn kind(b: BopView) -> int {
    match b {
        BopView::Loop(_) => 0,
        BopView::DataPointer(_) => 1,
        BopView::DataValue(_) => 2,
        BopView::Output(_) => 3,
        BopView::Input(_) => 4,
    }
}

/// The count of a run.
pub open spec fn count(b: BopView) -> int {
    match b {
        BopView::Loop(_) => 0,
        BopView::DataPointer(a) => a as int,
        BopView::DataValue(a) => a as int,
        BopView::Output(a) => a as int,
        BopView::Input(a) => a as int,
    }
}

/// `sum + v` in the count's type, wrapping: 32-bit signed for pointer and
/// value runs, 32-bit unsigned for output and input runs.
pub open spec fn add_run(k: int, sum: int, v: int) -> int {
    let x = sum + v;
    if k <= 2 {
        if x > i32::MAX {
            x - 0x1_0000_0000
        } else if x < i32::MIN {
            x + 0x1_0000_0000
        } else {
            x
        }
    } else if x > u32::MAX {
        x - 0x1_0000_0000
    } else {
        x
    }
}

/// The run of operation `k` with count `sum`.
pub open spec fn make(k: int, sum: int) -> BopView {
    if k == 1 {
        BopView::DataPointer(sum as i32)
    } else if k == 2 {
        BopView::DataValue(sum as i32)
    } else if k == 3 {
        BopView::Output(sum as u32)
    } else {
        BopView::Input(sum as u32)
    }
}

/// Reading a list left to right: what was emitted, and the open run (its
/// operation, 0 for none, and its count so far).
pub struct Summing {
    pub out: Seq<BopView>,
    pub open: int,
    pub sum: int,
}

/// The emitted list once the open run is closed; a run that sums to zero
/// leaves nothing.
pub open spec fn flush(st: Summing) -> Seq<BopView> {
    if st.open != 0 && st.sum != 0 {
        st.out.push(make(st.open, st.sum))
    } else {
        st.out
    }
}

/// The state after the first `n` elements of `s`.
pub open spec fn summing(s: Seq<BopView>, n: int) -> Summing
    decreases s, 0nat, n,
{
    if n <= 0 || n > s.len() {
        Summing { out: Seq::empty(), open: 0, sum: 0 }
    } else {
        let st = summing(s, n - 1);
        let e = s[n - 1];
        match e {
            BopView::Loop(inner) => Summing { out: flush(st).push(BopView::Loop(sum_runs(inner))), open: 0, sum: 0 },
            _ => if kind(e) == st.open {
                Summing { out: st.out, open: st.open, sum: add_run(st.open, st.sum, count(e)) }
            } else {
                Summing { out: flush(st), open: kind(e), sum: add_run(kind(e), 0, count(e)) }
            },
        }
    }
}

/// Each maximal run of one operation becomes a single instruction with the
/// summed count (none when the sum is zero); loop bodies are summed too.
pub open spec fn sum_runs(s: Seq<BopView>) -> Seq<BopView>
    decreases s, 1nat, 0int,
{
    flush(summing(s, s.len() as int))
}

proof fn lemma_bops_push(s: Seq<Bop>, b: Bop)
    ensures
        bops(s.push(b)) == bops(s).push(bop_view(b)),
{
    lemma_bops_index(s.push(b), (s.len() + 1) as int);
    lemma_bops_index(s, s.len() as int);
    assert(bops(s.push(b)) =~= bops(s).push(bop_view(b)));
}

/// Closes a run of operation `k` with count `num`: pushes it unless zero.
fn push_run(opt: &mut Vec<Bop>, k: u8, signed: i32, unsigned: u32)
    requires
        1 <= k <= 4,
    ensures
        bops(final(opt)@) == flush(Summing {
            out: bops(old(opt)@),
            open: k as int,
            sum: if k <= 2 { signed as int } else { unsigned as int },
        }),
{
    let ghost before = opt@;
    let b = if k == 1 {
        if signed == 0 {
            return;
        }
        Bop::DataPointer(signed)
    } else if k == 2 {
        if signed == 0 {
            return;
        }
        Bop::DataValue(signed)
    } else if k == 3 {
        if unsigned == 0 {
            return;
        }
        Bop::Output(unsigned)
    } else {
        if unsigned == 0 {
            return;
        }
        Bop::Input(unsigned)
    };
    opt.push(b);
    proof {
        lemma_bops_push(before, b);
    }
}

/// The operation of a run instruction, 0 for a loop.
fn kind_of(b: &Bop) -> (r: u8)
    ensures
        r as int == kind(bop_view(*b)),
{
    match b {
        Bop::Loop(_) => 0,
        Bop::DataPointer(_) => 1,
        Bop::DataValue(_) => 2,
        Bop::Output(_) => 3,
        Bop::Input(_) => 4,
    }
}

/// Sums the run of operation `k` that starts at `index`; returns where it ends.
fn fold_consecutive(opt: &mut Vec<Bop>, norm: &[Bop], index: usize, k: u8) -> (r: usize)
    requires
        1 <= k <= 4,
        index < norm@.len(),
        kind(bop_view(norm@[index as int])) == k,
        ({
            let st = summing(bops(norm@), index as int);
            bops(old(opt)@) == flush(st) && st.open != k
        }),
    ensures
        index < r <= norm@.len(),
        r < norm@.len() ==> kind(bop_view(norm@[r as int])) != k,
        bops(final(opt)@) == flush(summing(bops(norm@), r as int)),
        summing(bops(norm@), r as int).open == k,
{
    let ghost source = bops(norm@);
    proof {
        lemma_bops_index(norm@, norm@.len() as int);
    }
    let mut signed: i32 = 0;
    let mut unsigned: u32 = 0;
    let mut i: usize = index;
    while i < norm.len()
        invariant
            index <= i <= norm@.len(),
            index < norm@.len(),
            source == bops(norm@),
            source.len() == norm@.len(),
            forall|j: int| 0 <= j < norm@.len() ==> #[trigger] source[j] == bop_view(norm@[j]),
            1 <= k <= 4,
            kind(source[index as int]) == k,
            bops(opt@) == flush(summing(source, index as int)),
            summing(source, index as int).open != k,
            i > index ==> ({
                let st = summing(source, i as int);
                st.open == k && st.out == bops(opt@) && st.sum == if k <= 2 { signed as int } else { unsigned as int }
            }),
            i == index ==> signed == 0 && unsigned == 0,
            forall|j: int| index <= j < i ==> kind(#[trigger] source[j]) == k,
        ensures
            i > index,
            i < norm@.len() ==> kind(source[i as int]) != k,
            ({
                let st = summing(source, i as int);
                st.open == k && st.out == bops(opt@) && st.sum == if k <= 2 { signed as int } else { unsigned as int }
            }),
        decreases norm@.len() - i,
    {
        let here = kind_of(&norm[i]);
        if here != k {
            break;
        }
        match &norm[i] {
            Bop::DataPointer(a) => signed = signed.wrapping_add(*a),
            Bop::DataValue(a) => signed = signed.wrapping_add(*a),
            Bop::Output(a) => unsigned = unsigned.wrapping_add(*a),
            Bop::Input(a) => unsigned = unsigned.wrapping_add(*a),
            Bop::Loop(_) => {},
        }
        i = i + 1;
    }
    push_run(opt, k, signed, unsigned);
    i
}

/// Sums the runs of `norm`, and of every loop body in it.
pub fn fold_instruction_list(norm: &[Bop]) -> (r: Vec<Bop>)
    ensures
        bops(r@) == sum_runs(bops(norm@)),
    decreases norm@,
{
    let ghost source = bops(norm@);
    proof {
        lemma_bops_index(norm@, norm@.len() as int);
    }
    let mut opt: Vec<Bop> = Vec::new();
    let mut index: usize = 0;
    while index < norm.len()
        invariant
            index <= norm@.len(),
            source == bops(norm@),
            source.len() == norm@.len(),
            forall|j: int| 0 <= j < norm@.len() ==> #[trigger] source[j] == bop_view(norm@[j]),
            bops(opt@) == flush(summing(source, index as int)),
            index < norm@.len() ==> summing(source, index as int).open != kind(source[index as int])
                || summing(source, index as int).open == 0,
        decreases norm@.len() - index,
    {
        let k = kind_of(&norm[index]);
        if k == 0 {
            index = fold_loop(&mut opt, norm, index);
        } else {
            index = fold_consecutive(&mut opt, norm, index, k);
        }
    }
    opt
}

fn fold_loop(opt: &mut Vec<Bop>, norm: &[Bop], index: usize) -> (r: usize)
    requires
        index < norm@.len(),
        kind(bop_view(norm@[index as int])) == 0,
        bops(old(opt)@) == flush(summing(bops(norm@), index as int)),
    ensures
        r == index + 1,
        bops(final(opt)@) == flush(summing(bops(norm@), r as int)),
        summing(bops(norm@), r as int).open == 0,
    decreases norm@, 0nat,
{
    proof {
        lemma_bops_index(norm@, norm@.len() as int);
    }
    match &norm[index] {
        Bop::Loop(lp) => {
            proof {
                assert(decreases_to!(norm@ => lp@));
            }
            let sub_opt = fold_instruction_list(lp);
            let ghost before = opt@;
            let b = Bop::Loop(sub_opt);
            opt.push(b);
            proof {
                lemma_bops_push(before, b);
            }
        },
        _ => {},
    }
    index + 1
}

} // verus!
