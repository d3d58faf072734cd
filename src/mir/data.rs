use vstd::prelude::*;

verus! {

/// A linear program: body 0 is the top level, and each branch arm or loop
/// body is a body of its own, named by index from a `Select` or `Repeat`.
#[derive(Debug)]
pub struct Program {
    bodies: Vec<Vec<Instruction>>,
    locals: usize,
}

/// One register instruction. `Select` runs the body of the arm its condition
/// names (the last arm for any larger value); `Repeat` runs its body until
/// the condition reads zero.
#[derive(Debug, PartialEq, Eq)]
pub enum Instruction {
    Memory { result: u32 },
    IO { result: u32 },
    Integer { result: u32, value: u64 },
    Move { from: u32, to: u32 },
    Add { result: u32, lhs: u32, rhs: u32 },
    Sub { result: u32, lhs: u32, rhs: u32 },
    Load { result: u32, pointer: u32, state: u32 },
    Store { pointer: u32, value: u32, state: u32 },
    Ask { result: u32, state: u32 },
    Tell { value: u32, state: u32 },
    Select { condition: u32, code: Vec<usize> },
    Repeat { code: usize, condition: u32 },
}

/// The bodies that an instruction found in body `i` nests lie after `i`
/// and exist.
pub open spec fn nests_forward(insn: Instruction, i: int, len: int) -> bool {
    match insn {
        Instruction::Select { code, .. } => forall|k: int| 0 <= k < code@.len() ==> i < #[trigger] code@[k] < len,
        Instruction::Repeat { code, .. } => i < code < len,
        _ => true,
    }
}

/// Every body nests only bodies after it, so printing a body terminates.
pub open spec fn bodies_nest(bodies: Seq<Vec<Instruction>>) -> bool {
    forall|i: int, j: int| 0 <= i < bodies.len() && 0 <= j < bodies[i]@.len() ==> nests_forward(#[trigger] bodies[i]@[j], i, bodies.len() as int)
}

/// Slot `k` of `insn` names body `b`.
pub open spec fn insn_names(insn: Instruction, k: int, b: int) -> bool {
    match insn {
        Instruction::Select { code, .. } => 0 <= k < code@.len() && code@[k] as int == b,
        Instruction::Repeat { code, .. } => k == 0 && code as int == b,
        _ => false,
    }
}

/// Instruction `j` of body `i` names body `b` in slot `k`.
pub open spec fn names_at(bodies: Seq<Vec<Instruction>>, i: int, j: int, k: int, b: int) -> bool {
    0 <= i < bodies.len() && 0 <= j < bodies[i]@.len() && insn_names(bodies[i]@[j], k, b)
}

/// Some instruction names body `b`.
pub open spec fn named(bodies: Seq<Vec<Instruction>>, b: int) -> bool {
    exists|i: int, j: int, k: int| #[trigger] names_at(bodies, i, j, k, b)
}

/// No body is named by two instructions, or twice by one.
pub open spec fn named_once(bodies: Seq<Vec<Instruction>>) -> bool {
    forall|i1: int, j1: int, k1: int, i2: int, j2: int, k2: int, b: int|
        #[trigger] names_at(bodies, i1, j1, k1, b) && #[trigger] names_at(bodies, i2, j2, k2, b) ==> i1 == i2 && j1 == j2 && k1 == k2
}

/// Register `r` is one of the first `bound` registers, or register 0.
pub open spec fn register_ok(r: u32, bound: nat) -> bool {
    (r as int) < bound || r == 0
}

/// Every register that `insn` names is below `bound`, or is register 0.
pub open spec fn names_below(insn: Instruction, bound: nat) -> bool {
    match insn {
        Instruction::Memory { result } => register_ok(result, bound),
        Instruction::IO { result } => register_ok(result, bound),
        Instruction::Integer { result, .. } => register_ok(result, bound),
        Instruction::Move { from, to } => register_ok(from, bound) && register_ok(to, bound),
        Instruction::Add { result, lhs, rhs } => register_ok(result, bound) && register_ok(lhs, bound) && register_ok(rhs, bound),
        Instruction::Sub { result, lhs, rhs } => register_ok(result, bound) && register_ok(lhs, bound) && register_ok(rhs, bound),
        Instruction::Load { result, pointer, state } => register_ok(result, bound) && register_ok(pointer, bound) && register_ok(
            state,
            bound,
        ),
        Instruction::Store { pointer, value, state } => register_ok(pointer, bound) && register_ok(value, bound) && register_ok(
            state,
            bound,
        ),
        Instruction::Ask { result, state } => register_ok(result, bound) && register_ok(state, bound),
        Instruction::Tell { value, state } => register_ok(value, bound) && register_ok(state, bound),
        Instruction::Select { condition, .. } => register_ok(condition, bound),
        Instruction::Repeat { condition, .. } => register_ok(condition, bound),
    }
}

/// Every instruction of every body names only registers below `bound`, or
/// register 0.
pub open spec fn registers_below(bodies: Seq<Vec<Instruction>>, bound: nat) -> bool {
    forall|b: int, j: int| 0 <= b < bodies.len() && 0 <= j < bodies[b]@.len() ==> names_below(#[trigger] bodies[b]@[j], bound)
}

impl Program {
    /// A program of `bodies` using `locals` registers.
    pub fn new(bodies: Vec<Vec<Instruction>>, locals: usize) -> (r: Program)
        ensures
            r.body_list() == bodies@,
            r.local_count() == locals,
    {
        Program { bodies, locals }
    }

    pub fn bodies(&self) -> (r: &Vec<Vec<Instruction>>)
        ensures
            r@ == self.body_list(),
    {
        &self.bodies
    }

    pub fn locals(&self) -> (r: usize)
        ensures
            r == self.local_count(),
    {
        self.locals
    }

    pub closed spec fn body_list(&self) -> Seq<Vec<Instruction>> {
        self.bodies@
    }

    pub closed spec fn local_count(&self) -> usize {
        self.locals
    }
}

} // verus!
