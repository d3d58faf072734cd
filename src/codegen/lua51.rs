use vstd::prelude::*;
use vstd::string::StringExecFns;

use crate::mir::data::{Instruction, Program};

use super::tab::{decimal, local, tabs, write_decimal, write_local, Tab};

verus! {

/// The text of body `index`, each instruction on its own indented line.
pub open spec fn lua_block(bodies: Seq<Vec<Instruction>>, tab: nat, index: int) -> Seq<char>
    decreases bodies.len() - index, 3nat, 0nat,
{
    if 0 <= index < bodies.len() {
        lua_lines(bodies, tab, index, bodies[index]@.len() as int)
    } else {
        Seq::empty()
    }
}

/// The first `n` instructions of body `index`.
pub open spec fn lua_lines(bodies: Seq<Vec<Instruction>>, tab: nat, index: int, n: int) -> Seq<char>
    decreases bodies.len() - index, 2nat, n,
{
    if 0 <= index < bodies.len() && 0 < n <= bodies[index]@.len() {
        lua_lines(bodies, tab, index, n - 1) + tabs(tab) + lua_insn(bodies, tab, index, bodies[index]@[n - 1])
    } else {
        Seq::empty()
    }
}

/// A nested body, printed one level deeper; only a later body is nested.
pub open spec fn lua_nested(bodies: Seq<Vec<Instruction>>, tab: nat, index: int, code: usize) -> Seq<char>
    decreases bodies.len() - index, 0nat, 0nat,
{
    if index < code < bodies.len() {
        lua_block(bodies, tab + 1, code as int)
    } else {
        Seq::empty()
    }
}

/// The `if ... then ... else` arms for the first `k` bodies of `code`; each
/// `else` runs into the next `if`, making an `elseif`.
pub open spec fn lua_arms(bodies: Seq<Vec<Instruction>>, tab: nat, index: int, condition: u32, code: Seq<usize>, k: int) -> Seq<char>
    decreases bodies.len() - index, 0nat, k + 1,
{
    if k <= 0 || k > code.len() {
        Seq::empty()
    } else {
        lua_arms(bodies, tab, index, condition, code, k - 1) + "if "@ + local(condition as nat) + " == "@ + decimal((k - 1) as nat)
            + " then\n"@ + lua_nested(bodies, tab, index, code[k - 1]) + tabs(tab) + "else"@
    }
}

/// Memory: a table whose missing cells read as zero.
pub open spec fn lua_memory() -> Seq<char> {
    "setmetatable({}, { __index = function() return 0 end })"@
}

/// The io state: one byte out, one byte in. At the end of input `ask`
/// raises an error (`io.read` gives `nil`, which `string.byte` rejects), so a
/// program that reads past its input stops there.
pub open spec fn lua_io() -> Seq<char> {
    "{ tell = function(n) io.write(string.char(n)) end, ask = function() return string.byte(io.read(1)) end }"@
}

/// One instruction of body `index`, after its indentation.
pub open spec fn lua_insn(bodies: Seq<Vec<Instruction>>, tab: nat, index: int, insn: Instruction) -> Seq<char>
    decreases bodies.len() - index, 1nat, 0nat,
{
    match insn {
        Instruction::Memory { result } => local(result as nat) + " = "@ + lua_memory() + "\n"@,
        Instruction::IO { result } => local(result as nat) + " = "@ + lua_io() + "\n"@,
        Instruction::Integer { result, value } => local(result as nat) + " = "@ + decimal(value as nat) + "\n"@,
        Instruction::Move { from, to } => local(to as nat) + " = "@ + local(from as nat) + "\n"@,
        Instruction::Add { result, lhs, rhs } => local(result as nat) + " = "@ + local(lhs as nat) + " + "@ + local(rhs as nat) + "\n"@,
        Instruction::Sub { result, lhs, rhs } => local(result as nat) + " = "@ + local(lhs as nat) + " - "@ + local(rhs as nat) + "\n"@,
        Instruction::Load { result, pointer, state } => local(result as nat) + " = "@ + local(state as nat) + "["@ + local(pointer as nat)
            + "]\n"@,
        Instruction::Store { pointer, value, state } => local(state as nat) + "["@ + local(pointer as nat) + "] = "@ + local(value as nat)
            + "\n"@,
        Instruction::Ask { result, state } => local(result as nat) + " = "@ + local(state as nat) + ".ask()\n"@,
        Instruction::Tell { value, state } => local(state as nat) + ".tell("@ + local(value as nat) + ")\n"@,
        Instruction::Select { condition, code } => if code@.len() == 0 {
            Seq::empty()
        } else {
            lua_arms(bodies, tab, index, condition, code@, code@.len() - 1) + "\n"@ + lua_nested(bodies, tab, index, code@.last())
                + tabs(tab) + "end\n"@
        },
        Instruction::Repeat { code, condition } => "repeat\n"@ + lua_nested(bodies, tab, index, code) + tabs(tab) + "until "@
            + local(condition as nat) + " == 0\n"@,
    }
}

/// The declarations of registers `0..n`, one per line.
pub open spec fn lua_locals(n: nat) -> Seq<char>
    decreases n,
{
    if n == 0 {
        Seq::empty()
    } else {
        lua_locals((n - 1) as nat) + "local "@ + local((n - 1) as nat) + "\n"@
    }
}

/// The whole Lua 5.1 chunk for `program`.
pub open spec fn lua_program(program: Program) -> Seq<char> {
    lua_locals(program.local_count() as nat) + lua_block(program.body_list(), 0, 0)
}

fn write_nested(out: &mut String, tab: Tab, bodies: &Vec<Vec<Instruction>>, index: usize, code: usize)
    requires
        tab.depth() + bodies@.len() < usize::MAX + index,
    ensures
        final(out)@ == old(out)@ + lua_nested(bodies@, tab.depth(), index as int, code),
    decreases bodies@.len() - index, 0nat, 0nat,
{
    if index < code && code < bodies.len() {
        write_block(out, tab.add(), bodies, code);
    }
}

fn write_arms(out: &mut String, tab: Tab, bodies: &Vec<Vec<Instruction>>, index: usize, condition: u32, code: &Vec<usize>, k: usize)
    requires
        tab.depth() + bodies@.len() < usize::MAX + index,
        k <= code@.len(),
    ensures
        final(out)@ == old(out)@ + lua_arms(bodies@, tab.depth(), index as int, condition, code@, k as int),
    decreases bodies@.len() - index, 0nat, k + 1,
{
    if k == 0 {
        return;
    }
    write_arms(out, tab, bodies, index, condition, code, k - 1);
    let ghost a = out@;
    out.append("if ");
    write_local(out, condition as u64);
    out.append(" == ");
    write_decimal(out, (k - 1) as u64);
    out.append(" then\n");
    write_nested(out, tab, bodies, index, code[k - 1]);
    tab.write_to(out);
    out.append("else");
    assert(out@ =~= a + "if "@ + local(condition as nat) + " == "@ + decimal((k - 1) as nat) + " then\n"@
        + lua_nested(bodies@, tab.depth(), index as int, code@[k - 1]) + tabs(tab.depth()) + "else"@);
}

#[verifier::rlimit(30)]
fn write_insn(out: &mut String, tab: Tab, bodies: &Vec<Vec<Instruction>>, index: usize, insn: &Instruction)
    requires
        tab.depth() + bodies@.len() < usize::MAX + index,
    ensures
        final(out)@ == old(out)@ + lua_insn(bodies@, tab.depth(), index as int, *insn),
    decreases bodies@.len() - index, 1nat, 0nat,
{
    let ghost o = out@;
    match insn {
        Instruction::Memory { result } => {
            write_local(out, *result as u64);
            out.append(" = ");
            out.append("setmetatable({}, { __index = function() return 0 end })");
            out.append("\n");
            assert(out@ =~= o + lua_insn(bodies@, tab.depth(), index as int, *insn));
        },
        Instruction::IO { result } => {
            write_local(out, *result as u64);
            out.append(" = ");
            out.append("{ tell = function(n) io.write(string.char(n)) end, ask = function() return string.byte(io.read(1)) end }");
            out.append("\n");
            assert(out@ =~= o + lua_insn(bodies@, tab.depth(), index as int, *insn));
        },
        Instruction::Integer { result, value } => {
            write_local(out, *result as u64);
            out.append(" = ");
            write_decimal(out, *value);
            out.append("\n");
            assert(out@ =~= o + lua_insn(bodies@, tab.depth(), index as int, *insn));
        },
        Instruction::Move { from, to } => {
            write_local(out, *to as u64);
            out.append(" = ");
            write_local(out, *from as u64);
            out.append("\n");
            assert(out@ =~= o + lua_insn(bodies@, tab.depth(), index as int, *insn));
        },
        Instruction::Add { result, lhs, rhs } => {
            write_local(out, *result as u64);
            out.append(" = ");
            write_local(out, *lhs as u64);
            out.append(" + ");
            write_local(out, *rhs as u64);
            out.append("\n");
            assert(out@ =~= o + lua_insn(bodies@, tab.depth(), index as int, *insn));
        },
        Instruction::Sub { result, lhs, rhs } => {
            write_local(out, *result as u64);
            out.append(" = ");
            write_local(out, *lhs as u64);
            out.append(" - ");
            write_local(out, *rhs as u64);
            out.append("\n");
            assert(out@ =~= o + lua_insn(bodies@, tab.depth(), index as int, *insn));
        },
        Instruction::Load { result, pointer, state } => {
            write_local(out, *result as u64);
            out.append(" = ");
            write_local(out, *state as u64);
            out.append("[");
            write_local(out, *pointer as u64);
            out.append("]\n");
            assert(out@ =~= o + lua_insn(bodies@, tab.depth(), index as int, *insn));
        },
        Instruction::Store { pointer, value, state } => {
            write_local(out, *state as u64);
            out.append("[");
            write_local(out, *pointer as u64);
            out.append("] = ");
            write_local(out, *value as u64);
            out.append("\n");
            assert(out@ =~= o + lua_insn(bodies@, tab.depth(), index as int, *insn));
        },
        Instruction::Ask { result, state } => {
            write_local(out, *result as u64);
            out.append(" = ");
            write_local(out, *state as u64);
            out.append(".ask()\n");
            assert(out@ =~= o + lua_insn(bodies@, tab.depth(), index as int, *insn));
        },
        Instruction::Tell { value, state } => {
            write_local(out, *state as u64);
            out.append(".tell(");
            write_local(out, *value as u64);
            out.append(")\n");
            assert(out@ =~= o + lua_insn(bodies@, tab.depth(), index as int, *insn));
        },
        Instruction::Select { condition, code } => {
            if code.len() > 0 {
                write_arms(out, tab, bodies, index, *condition, code, code.len() - 1);
                out.append("\n");
                write_nested(out, tab, bodies, index, code[code.len() - 1]);
                tab.write_to(out);
                out.append("end\n");
            }
            assert(out@ =~= o + lua_insn(bodies@, tab.depth(), index as int, *insn));
        },
        Instruction::Repeat { code, condition } => {
            out.append("repeat\n");
            write_nested(out, tab, bodies, index, *code);
            tab.write_to(out);
            out.append("until ");
            write_local(out, *condition as u64);
            out.append(" == 0\n");
            assert(out@ =~= o + lua_insn(bodies@, tab.depth(), index as int, *insn));
        },
    }
}

fn write_block(out: &mut String, tab: Tab, bodies: &Vec<Vec<Instruction>>, index: usize)
    requires
        tab.depth() + bodies@.len() < usize::MAX + index,
        index < bodies@.len(),
    ensures
        final(out)@ == old(out)@ + lua_block(bodies@, tab.depth(), index as int),
    decreases bodies@.len() - index, 3nat, 0nat,
{
    let body = &bodies[index];
    let mut k: usize = 0;
    while k < body.len()
        invariant
            tab.depth() + bodies@.len() < usize::MAX + index,
            index < bodies@.len(),
            body == bodies@[index as int],
            k <= body@.len(),
            out@ == old(out)@ + lua_lines(bodies@, tab.depth(), index as int, k as int),
        decreases body@.len() - k,
    {
        tab.write_to(out);
        write_insn(out, tab, bodies, index, &body[k]);
        assert(out@ =~= old(out)@ + lua_lines(bodies@, tab.depth(), index as int, k + 1));
        k = k + 1;
    }
}

/// Appends the Lua 5.1 rendering of `program` to `out`: registers are
/// locals, memory is a table that reads zero where nothing was stored.
pub fn write(out: &mut String, program: &Program)
    requires
        program.body_list().len() + 2 < usize::MAX,
    ensures
        final(out)@ == old(out)@ + lua_program(*program),
{
    let mut index: usize = 0;
    while index < program.locals()
        invariant
            index <= program.local_count(),
            out@ == old(out)@ + lua_locals(index as nat),
        decreases program.local_count() - index,
    {
        out.append("local ");
        write_local(out, index as u64);
        out.append("\n");
        assert(out@ =~= old(out)@ + lua_locals((index + 1) as nat));
        index = index + 1;
    }
    let bodies = program.bodies();
    if bodies.len() > 0 {
        write_block(out, Tab::new(0), bodies, 0);
    }
    assert(out@ =~= old(out)@ + lua_program(*program));
}

} // verus!
