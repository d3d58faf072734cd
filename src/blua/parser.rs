use vstd::prelude::*;

use crate::syntax::shared::{bop_view, bops, lemma_bops_index, Bop, BopView};

verus! {

broadcast use vstd::std_specs::vec::group_vec_axioms;

/// Why the tree parser stopped: the input ended, a `]` closed the current
/// block, input was left after the top level, or a `[` (at the offset
/// given) was never closed.
#[derive(Debug, Clone, Copy, PartialEq, Eq, Structural)]
pub enum Error {
    Eof,
    Closed,
    NotEof(usize),
    NotClosed(usize),
}

/// The instruction at position `p`, skipping comment characters, and the
/// position after it.
pub open spec fn instruction_at(src: Seq<(usize, char)>, p: int) -> (Result<BopView, Error>, int)
    decreases src.len() - p, 1nat,
{
    if p < 0 || p >= src.len() {
        (Err(Error::Eof), p)
    } else {
        let c = src[p].1;
        if c == '>' {
            (Ok(BopView::DataPointer(1)), p + 1)
        } else if c == '<' {
            (Ok(BopView::DataPointer(-1i32)), p + 1)
        } else if c == '+' {
            (Ok(BopView::DataValue(1)), p + 1)
        } else if c == '-' {
            (Ok(BopView::DataValue(-1i32)), p + 1)
        } else if c == '.' {
            (Ok(BopView::Output(1)), p + 1)
        } else if c == ',' {
            (Ok(BopView::Input(1)), p + 1)
        } else if c == '[' {
            let (r, q) = loop_at(src, p);
            match r {
                Ok(body) => (Ok(BopView::Loop(body)), q + 1),
                Err(e) => (Err(e), q),
            }
        } else if c == ']' {
            (Err(Error::Closed), p)
        } else {
            instruction_at(src, p + 1)
        }
    }
}

/// The loop whose `[` is at position `p`: its body, ending at the position
/// of its `]`.
pub open spec fn loop_at(src: Seq<(usize, char)>, p: int) -> (Result<Seq<BopView>, Error>, int)
    decreases src.len() - p, 0nat,
{
    if p < 0 || p >= src.len() {
        (Err(Error::Eof), p)
    } else {
        let (r, q) = block_at(src, p + 1);
        match r {
            Err(e) => (Err(e), q),
            Ok(body) => if 0 <= q < src.len() && src[q].1 == ']' {
                (Ok(body), q)
            } else {
                (Err(Error::NotClosed(src[p].0)), q)
            },
        }
    }
}

/// The instructions from position `p` up to the end of input or a `]`.
pub open spec fn block_at(src: Seq<(usize, char)>, p: int) -> (Result<Seq<BopView>, Error>, int)
    decreases src.len() - p, 2nat,
{
    if p < 0 || p > src.len() {
        (Ok(Seq::empty()), p)
    } else {
        let (r, q) = instruction_at(src, p);
        match r {
            Ok(b) => if p < q <= src.len() {
                let (rest, q2) = block_at(src, q);
                match rest {
                    Ok(bs) => (Ok(seq![b] + bs), q2),
                    Err(e) => (Err(e), q2),
                }
            } else {
                (Ok(seq![b]), q)
            },
            Err(Error::NotClosed(i)) => (Err(Error::NotClosed(i)), q),
            Err(_) => (Ok(Seq::empty()), q),
        }
    }
}

/// The tree that `src` parses to, or why it does not.
pub open spec fn ast(src: Seq<(usize, char)>) -> Result<Seq<BopView>, Error> {
    let (r, q) = block_at(src, 0);
    match r {
        Err(e) => Err(e),
        Ok(bs) => if q < src.len() {
            Err(Error::NotEof(src[q].0))
        } else {
            Ok(bs)
        },
    }
}

fn bf_instruction(code: &[(usize, char)], p: &mut usize) -> (r: Result<Bop, Error>)
    requires
        *old(p) <= code@.len(),
    ensures
        *final(p) <= code@.len(),
        *final(p) >= *old(p),
        *final(p) as int == instruction_at(code@, *old(p) as int).1,
        match r {
            Ok(b) => instruction_at(code@, *old(p) as int).0 == Ok::<BopView, Error>(bop_view(b)) && *final(p) > *old(p),
            Err(e) => instruction_at(code@, *old(p) as int).0 == Err::<BopView, Error>(e),
        },
    decreases code@.len() - *old(p), 1nat,
{
    let ghost start = *p as int;
    loop
        invariant
            start == *old(p),
            start <= *p <= code@.len(),
            instruction_at(code@, start) == instruction_at(code@, *p as int),
        decreases code@.len() - *p,
    {
        if *p >= code.len() {
            return Err(Error::Eof);
        }
        let (index, c) = code[*p];
        let value = if c == '>' {
            Bop::DataPointer(1)
        } else if c == '<' {
            Bop::DataPointer(-1)
        } else if c == '+' {
            Bop::DataValue(1)
        } else if c == '-' {
            Bop::DataValue(-1)
        } else if c == '.' {
            Bop::Output(1)
        } else if c == ',' {
            Bop::Input(1)
        } else if c == '[' {
            let body = bf_loop(code, p, index)?;
            Bop::Loop(body)
        } else if c == ']' {
            return Err(Error::Closed);
        } else {
            *p = *p + 1;
            continue;
        };
        *p = *p + 1;
        return Ok(value);
    }
}

fn bf_loop(code: &[(usize, char)], p: &mut usize, index: usize) -> (r: Result<Vec<Bop>, Error>)
    requires
        *old(p) < code@.len(),
        code@[*old(p) as int].0 == index,
    ensures
        *final(p) < code@.len() || (r is Err && *final(p) <= code@.len()),
        *final(p) as int == loop_at(code@, *old(p) as int).1,
        *final(p) >= *old(p),
        match r {
            Ok(body) => loop_at(code@, *old(p) as int).0 == Ok::<Seq<BopView>, Error>(bops(body@)),
            Err(e) => loop_at(code@, *old(p) as int).0 == Err::<Seq<BopView>, Error>(e),
        },
    decreases code@.len() - *old(p), 0nat,
{
    let n = code.len();
    *p = *p + 1;
    let block = bf_block(code, p)?;
    if *p < code.len() && code[*p].1 == ']' {
        Ok(block)
    } else {
        Err(Error::NotClosed(index))
    }
}

fn bf_block(code: &[(usize, char)], p: &mut usize) -> (r: Result<Vec<Bop>, Error>)
    requires
        *old(p) <= code@.len(),
    ensures
        *final(p) <= code@.len(),
        *final(p) >= *old(p),
        *final(p) as int == block_at(code@, *old(p) as int).1,
        match r {
            Ok(body) => block_at(code@, *old(p) as int).0 == Ok::<Seq<BopView>, Error>(bops(body@)),
            Err(e) => block_at(code@, *old(p) as int).0 == Err::<Seq<BopView>, Error>(e),
        },
    decreases code@.len() - *old(p), 2nat,
{
    let ghost start = *p as int;
    let mut block: Vec<Bop> = Vec::new();
    proof {
        lemma_bops_index(block@, 0);
        let (r, q) = block_at(code@, start);
        if r is Ok {
            assert(bops(block@) + r->Ok_0 =~= r->Ok_0);
        }
    }
    loop
        invariant_except_break
            block_at(code@, start) == prepend(bops(block@), block_at(code@, *p as int)),
        invariant
            start == *old(p),
            start <= *p <= code@.len(),
        ensures
            block_at(code@, start) == (Ok::<Seq<BopView>, Error>(bops(block@)), *p as int),
        decreases code@.len() - *p,
    {
        let ghost before = block@;
        match bf_instruction(code, p) {
            Ok(i) => {
                block.push(i);
                proof {
                    lemma_bops_index(before, before.len() as int);
                    lemma_bops_index(block@, block@.len() as int);
                    assert(bops(block@) =~= bops(before).push(bop_view(i)));
                    let (rest, q2) = block_at(code@, *p as int);
                    if rest is Ok {
                        assert(bops(before) + (seq![bop_view(i)] + rest->Ok_0) =~= bops(block@) + rest->Ok_0);
                    }
                }
            },
            Err(Error::NotClosed(i)) => {
                return Err(Error::NotClosed(i));
            },
            Err(_) => {
                proof {
                    assert(bops(block@) + Seq::<BopView>::empty() =~= bops(block@));
                }
                break;
            },
        }
    }
    Ok(block)
}

/// Puts `acc` in front of a parsed block.
pub open spec fn prepend(acc: Seq<BopView>, parsed: (Result<Seq<BopView>, Error>, int)) -> (Result<Seq<BopView>, Error>, int) {
    match parsed.0 {
        Ok(bs) => (Ok(acc + bs), parsed.1),
        Err(e) => (Err(e), parsed.1),
    }
}

/// Parses `code`, a sequence of (byte offset, character) pairs, into a
/// tree; characters other than the eight operators are skipped.
pub fn bf_code_to_ast(code: &[(usize, char)]) -> (r: Result<Vec<Bop>, Error>)
    ensures
        match r {
            Ok(body) => ast(code@) == Ok::<Seq<BopView>, Error>(bops(body@)),
            Err(e) => ast(code@) == Err::<Seq<BopView>, Error>(e),
        },
{
    let mut p: usize = 0;
    let block = bf_block(code, &mut p)?;
    if p < code.len() {
        Err(Error::NotEof(code[p].0))
    } else {
        Ok(block)
    }
}

} // verus!
