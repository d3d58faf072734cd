use vstd::prelude::*;

use super::shared::{
    bop_view, bops, copy_bop, depth, depth_all, depth_of, lemma_bops_index, lemma_depth_bound, lemma_depth_element, merged, Bop,
    BopView,
};

verus! {

/// One left-to-right pass over the first `n` instructions of `s`: a run
/// joins the run before it when the two merge, and each loop body is folded
/// to its own fixed point. `fuel` bounds the loop nesting that is entered.
pub open spec fn fold_pass(s: Seq<BopView>, n: int, fuel: nat) -> Seq<BopView>
    decreases fuel, 0nat, n,
{
    if n <= 0 || n > s.len() {
        Seq::empty()
    } else {
        let acc = fold_pass(s, n - 1, fuel);
        let v = s[n - 1];
        match v {
            BopView::Loop(inner) => if fuel == 0 {
                acc.push(v)
            } else {
                acc.push(BopView::Loop(fold_runs(inner, (fuel - 1) as nat, inner.len() + 1)))
            },
            _ => if acc.len() > 0 && merged(acc.last(), v) is Some {
                acc.drop_last().push(merged(acc.last(), v)->Some_0)
            } else {
                acc.push(v)
            },
        }
    }
}

/// Passes over `s` until one no longer shortens it; the list that pass
/// started from is the result. At most `k` passes are made.
pub open spec fn fold_runs(s: Seq<BopView>, fuel: nat, k: nat) -> Seq<BopView>
    decreases fuel, 1nat, k,
{
    if k == 0 {
        s
    } else {
        let u = fold_pass(s, s.len() as int, fuel);
        if u.len() == s.len() {
            s
        } else {
            fold_runs(u, fuel, (k - 1) as nat)
        }
    }
}

/// What folding `s` yields, with fuel enough for its deepest loop.
pub open spec fn folded(s: Seq<BopView>) -> Seq<BopView> {
    fold_runs(s, depth_all(s), s.len() + 1)
}

proof fn lemma_bops_push(s: Seq<Bop>, b: Bop)
    ensures
        bops(s.push(b)) == bops(s).push(bop_view(b)),
{
    lemma_bops_index(s.push(b), (s.len() + 1) as int);
    lemma_bops_index(s, s.len() as int);
    assert(bops(s.push(b)) =~= bops(s).push(bop_view(b)));
}

proof fn lemma_bops_set_last(s: Seq<Bop>, b: Bop)
    requires
        s.len() > 0,
    ensures
        bops(s.update(s.len() - 1, b)) == bops(s).drop_last().push(bop_view(b)),
{
    lemma_bops_index(s.update(s.len() - 1, b), s.len() as int);
    lemma_bops_index(s, s.len() as int);
    assert(bops(s.update(s.len() - 1, b)) =~= bops(s).drop_last().push(bop_view(b)));
}

fn fold_instruction_list(norm: &[Bop], Ghost(fuel): Ghost<nat>) -> (r: Vec<Bop>)
    requires
        depth_all(bops(norm@)) <= fuel,
    ensures
        bops(r@) == fold_pass(bops(norm@), norm@.len() as int, fuel),
        depth_all(bops(r@)) <= fuel,
        r@.len() <= norm@.len(),
    decreases fuel, 0nat, 0nat,
{
    let ghost source = bops(norm@);
    proof {
        lemma_bops_index(norm@, norm@.len() as int);
    }
    let mut opt: Vec<Bop> = Vec::new();
    let mut i: usize = 0;
    while i < norm.len()
        invariant
            i <= norm@.len(),
            source == bops(norm@),
            source.len() == norm@.len(),
            forall|k: int| 0 <= k < norm@.len() ==> #[trigger] source[k] == bop_view(norm@[k]),
            depth_all(source) <= fuel,
            bops(opt@) == fold_pass(source, i as int, fuel),
            opt@.len() <= i,
            forall|k: int| 0 <= k < opt@.len() ==> depth(bop_view(#[trigger] opt@[k])) <= fuel,
        decreases norm@.len() - i,
    {
        proof {
            lemma_depth_element(source, source.len() as int, i as int);
            lemma_bops_index(opt@, opt@.len() as int);
        }
        let ghost acc = bops(opt@);
        match &norm[i] {
            Bop::Loop(v) => {
                proof {
                    lemma_bops_index(v@, v@.len() as int);
                }
                let inner = fold_runs_exec(v, Ghost((fuel - 1) as nat));
                let ghost before = opt@;
                let folded_loop = Bop::Loop(inner);
                opt.push(folded_loop);
                proof {
                    lemma_bops_push(before, folded_loop);
                }
            },
            _ => {
                let n = opt.len();
                let joined = if n > 0 {
                    opt[n - 1].merge(&norm[i])
                } else {
                    None
                };
                match joined {
                    Some(new) => {
                        let ghost before = opt@;
                        proof {
                            assert(acc.last() == bop_view(before[n - 1]));
                        }
                        opt.set(n - 1, new);
                        proof {
                            lemma_bops_set_last(before, new);
                        }
                    },
                    None => {
                        let ghost before = opt@;
                        proof {
                            if n > 0 {
                                assert(acc.last() == bop_view(before[n - 1]));
                            }
                        }
                        let copy = copy_bop(&norm[i]);
                        opt.push(copy);
                        proof {
                            lemma_bops_push(before, copy);
                        }
                    },
                }
            },
        }
        i = i + 1;
    }
    proof {
        lemma_bops_index(opt@, opt@.len() as int);
        lemma_depth_bound(bops(opt@), opt@.len() as int, fuel);
    }
    opt
}

fn fold_runs_exec(norm: &[Bop], Ghost(fuel): Ghost<nat>) -> (r: Vec<Bop>)
    requires
        depth_all(bops(norm@)) <= fuel,
    ensures
        bops(r@) == fold_runs(bops(norm@), fuel, norm@.len() + 1),
        depth_all(bops(r@)) <= fuel,
    decreases fuel, 1nat, 0nat,
{
    proof {
        lemma_bops_index(norm@, norm@.len() as int);
    }
    let first = fold_instruction_list(norm, Ghost(fuel));
    proof {
        lemma_bops_index(first@, first@.len() as int);
    }
    if first.len() == norm.len() {
        let mut copy: Vec<Bop> = Vec::new();
        let mut i: usize = 0;
        while i < norm.len()
            invariant
                i <= norm@.len(),
                copy@.len() == i,
                forall|k: int| 0 <= k < i ==> bop_view(#[trigger] copy@[k]) == bop_view(norm@[k]),
            decreases norm@.len() - i,
        {
            copy.push(copy_bop(&norm[i]));
            i = i + 1;
        }
        proof {
            lemma_bops_index(copy@, copy@.len() as int);
            assert(bops(copy@) =~= bops(norm@));
        }
        return copy;
    }
    let mut result = first;
    let ghost k: nat = norm@.len() as nat;
    proof {
        lemma_bops_index(result@, result@.len() as int);
    }
    loop
        invariant
            fold_runs(bops(norm@), fuel, norm@.len() + 1) == fold_runs(bops(result@), fuel, k),
            k >= result@.len() + 1,
            depth_all(bops(result@)) <= fuel,
        decreases result@.len(),
    {
        proof {
            lemma_bops_index(result@, result@.len() as int);
        }
        let new = fold_instruction_list(&result, Ghost(fuel));
        proof {
            lemma_bops_index(new@, new@.len() as int);
        }
        if new.len() == result.len() {
            return result;
        }
        result = new;
        proof {
            k = (k - 1) as nat;
        }
    }
}

/// Folds runs of equal operations until a pass no longer shortens the
/// list. Loop bodies are folded within each pass.
pub fn fold_bf_code(norm: &[Bop]) -> (r: Vec<Bop>)
    ensures
        bops(r@) == folded(bops(norm@)),
{
    proof {
        lemma_bops_index(norm@, norm@.len() as int);
    }
    fold_runs_exec(norm, Ghost(depth_all(bops(norm@))))
}

} // verus!
