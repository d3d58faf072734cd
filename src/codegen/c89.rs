use vstd::prelude::*;
use vstd::string::StringExecFns;

use crate::mir::data::{Instruction, Program};

use super::tab::{decimal, local, tabs, write_decimal, write_local, Tab};

verus! {

/// The text of body `index`, each instruction on its own indented line.
pub open spec fn c_block(bodies: Seq<Vec<Instruction>>, tab: nat, index: int) -> Seq<char>
    decreases bodies.len() - index, 3nat, 0nat,
{
    if 0 <= index < bodies.len() {
        c_lines(bodies, tab, index, bodies[index]@.len() as int)
    } else {
        Seq::empty()
    }
}

/// The first `n` instructions of body `index`.
pub open spec fn c_lines(bodies: Seq<Vec<Instruction>>, tab: nat, index: int, n: int) -> Seq<char>
    decreases bodies.len() - index, 2nat, n,
{
    if 0 <= index < bodies.len() && 0 < n <= bodies[index]@.len() {
        c_lines(bodies, tab, index, n - 1) + tabs(tab) + c_insn(bodies, tab, index, bodies[index]@[n - 1])
    } else {
        Seq::empty()
    }
}

/// A nested body, printed one level deeper; only a later body is nested.
pub open spec fn c_nested(bodies: Seq<Vec<Instruction>>, tab: nat, index: int, code: usize) -> Seq<char>
    decreases bodies.len() - index, 0nat, 0nat,
{
    if index < code < bodies.len() {
        c_block(bodies, tab + 1, code as int)
    } else {
        Seq::empty()
    }
}

/// The `case` arms of a `switch` for the first `k` bodies of `code`.
pub open spec fn c_cases(bodies: Seq<Vec<Instruction>>, tab: nat, index: int, code: Seq<usize>, k: int) -> Seq<char>
    decreases bodies.len() - index, 0nat, k + 1,
{
    if k <= 0 || k > code.len() {
        Seq::empty()
    } else {
        c_cases(bodies, tab, index, code, k - 1) + tabs(tab) + "case "@ + decimal((k - 1) as nat) + ":\n"@
            + c_nested(bodies, tab, index, code[k - 1]) + tabs(tab) + "break;\n"@
    }
}

/// One instruction of body `index`, after its indentation.
pub open spec fn c_insn(bodies: Seq<Vec<Instruction>>, tab: nat, index: int, insn: Instruction) -> Seq<char>
    decreases bodies.len() - index, 1nat, 0nat,
{
    match insn {
        Instruction::Memory { result } => local(result as nat) + " = 4096;\n"@,
        Instruction::IO { result } => local(result as nat) + " = 0; /* io state is no-op in C */\n"@,
        Instruction::Integer { result, value } => local(result as nat) + " = "@ + decimal(value as nat) + ";\n"@,
        Instruction::Move { from, to } => local(to as nat) + " = "@ + local(from as nat) + ";\n"@,
        Instruction::Add { result, lhs, rhs } => local(result as nat) + " = "@ + local(lhs as nat) + " + "@ + local(rhs as nat) + ";\n"@,
        Instruction::Sub { result, lhs, rhs } => local(result as nat) + " = "@ + local(lhs as nat) + " - "@ + local(rhs as nat) + ";\n"@,
        Instruction::Load { result, pointer, state } => local(result as nat) + " = memory["@ + local(pointer as nat) + " + "@
            + local(state as nat) + "];\n"@,
        Instruction::Store { pointer, value, state } => "memory["@ + local(pointer as nat) + " + "@ + local(state as nat) + "] = "@
            + local(value as nat) + ";\n"@,
        Instruction::Ask { result, .. } => local(result as nat) + " = fgetc(stdin);\n"@,
        Instruction::Tell { value, .. } => "fputc("@ + local(value as nat) + ", stdout);\n"@,
        Instruction::Select { condition, code } => if code@.len() == 0 {
            Seq::empty()
        } else {
            "switch ("@ + local(condition as nat) + ") {\n"@ + c_cases(bodies, tab, index, code@, code@.len() - 1) + tabs(tab)
                + "default:\n"@ + c_nested(bodies, tab, index, code@.last()) + tabs(tab) + "}\n"@
        },
        Instruction::Repeat { code, condition } => "do {\n"@ + c_nested(bodies, tab, index, code) + tabs(tab) + "} while ("@
            + local(condition as nat) + ");\n"@,
    }
}

/// The declarations of registers `0..n`, one per line.
pub open spec fn c_locals(tab: nat, n: nat) -> Seq<char>
    decreases n,
{
    if n == 0 {
        Seq::empty()
    } else {
        c_locals(tab, (n - 1) as nat) + tabs(tab) + "uint32_t "@ + local((n - 1) as nat) + ";\n"@
    }
}

/// The whole C89 source file for `program`.
pub open spec fn c_program(program: Program) -> Seq<char> {
    "#include <stdint.h>\n"@ + "#include <stdio.h>\n\n"@ + "int main() {\n"@ + tabs(1) + "uint8_t memory[8192] = { 0 };\n"@
        + c_locals(1, program.local_count() as nat) + c_block(program.body_list(), 1, 0) + tabs(1) + "return 0;\n"@ + "}\n"@
}

fn write_nested(out: &mut String, tab: Tab, bodies: &Vec<Vec<Instruction>>, index: usize, code: usize)
    requires
        tab.depth() + bodies@.len() < usize::MAX + index,
    ensures
        final(out)@ == old(out)@ + c_nested(bodies@, tab.depth(), index as int, code),
    decreases bodies@.len() - index, 0nat, 0nat,
{
    if index < code && code < bodies.len() {
        write_block(out, tab.add(), bodies, code);
    }
}

fn write_cases(out: &mut String, tab: Tab, bodies: &Vec<Vec<Instruction>>, index: usize, code: &Vec<usize>, k: usize)
    requires
        tab.depth() + bodies@.len() < usize::MAX + index,
        k <= code@.len(),
    ensures
        final(out)@ == old(out)@ + c_cases(bodies@, tab.depth(), index as int, code@, k as int),
    decreases bodies@.len() - index, 0nat, k + 1,
{
    if k == 0 {
        return;
    }
    write_cases(out, tab, bodies, index, code, k - 1);
    let ghost a = out@;
    tab.write_to(out);
    out.append("case ");
    write_decimal(out, (k - 1) as u64);
    out.append(":\n");
    write_nested(out, tab, bodies, index, code[k - 1]);
    tab.write_to(out);
    out.append("break;\n");
    assert(out@ =~= a + tabs(tab.depth()) + "case "@ + decimal((k - 1) as nat) + ":\n"@
        + c_nested(bodies@, tab.depth(), index as int, code@[k - 1]) + tabs(tab.depth()) + "break;\n"@);
}

#[verifier::rlimit(30)]
fn write_insn(out: &mut String, tab: Tab, bodies: &Vec<Vec<Instruction>>, index: usize, insn: &Instruction)
    requires
        tab.depth() + bodies@.len() < usize::MAX + index,
    ensures
        final(out)@ == old(out)@ + c_insn(bodies@, tab.depth(), index as int, *insn),
    decreases bodies@.len() - index, 1nat, 0nat,
{
    let ghost o = out@;
    match insn {
        Instruction::Memory { result } => {
            write_local(out, *result as u64);
            out.append(" = 4096;\n");
            assert(out@ =~= o + c_insn(bodies@, tab.depth(), index as int, *insn));
        },
        Instruction::IO { result } => {
            write_local(out, *result as u64);
            out.append(" = 0; /* io state is no-op in C */\n");
            assert(out@ =~= o + c_insn(bodies@, tab.depth(), index as int, *insn));
        },
        Instruction::Integer { result, value } => {
            write_local(out, *result as u64);
            out.append(" = ");
            write_decimal(out, *value);
            out.append(";\n");
            assert(out@ =~= o + c_insn(bodies@, tab.depth(), index as int, *insn));
        },
        Instruction::Move { from, to } => {
            write_local(out, *to as u64);
            out.append(" = ");
            write_local(out, *from as u64);
            out.append(";\n");
            assert(out@ =~= o + c_insn(bodies@, tab.depth(), index as int, *insn));
        },
        Instruction::Add { result, lhs, rhs } => {
            write_local(out, *result as u64);
            out.append(" = ");
            write_local(out, *lhs as u64);
            out.append(" + ");
            write_local(out, *rhs as u64);
            out.append(";\n");
            assert(out@ =~= o + c_insn(bodies@, tab.depth(), index as int, *insn));
        },
        Instruction::Sub { result, lhs, rhs } => {
            write_local(out, *result as u64);
            out.append(" = ");
            write_local(out, *lhs as u64);
            out.append(" - ");
            write_local(out, *rhs as u64);
            out.append(";\n");
            assert(out@ =~= o + c_insn(bodies@, tab.depth(), index as int, *insn));
        },
        Instruction::Load { result, pointer, state } => {
            write_local(out, *result as u64);
            out.append(" = memory[");
            write_local(out, *pointer as u64);
            out.append(" + ");
            write_local(out, *state as u64);
            out.append("];\n");
            assert(out@ =~= o + c_insn(bodies@, tab.depth(), index as int, *insn));
        },
        Instruction::Store { pointer, value, state } => {
            out.append("memory[");
            write_local(out, *pointer as u64);
            out.append(" + ");
            write_local(out, *state as u64);
            out.append("] = ");
            write_local(out, *value as u64);
            out.append(";\n");
            assert(out@ =~= o + c_insn(bodies@, tab.depth(), index as int, *insn));
        },
        Instruction::Ask { result, .. } => {
            write_local(out, *result as u64);
            out.append(" = fgetc(stdin);\n");
            assert(out@ =~= o + c_insn(bodies@, tab.depth(), index as int, *insn));
        },
        Instruction::Tell { value, .. } => {
            out.append("fputc(");
            write_local(out, *value as u64);
            out.append(", stdout);\n");
            assert(out@ =~= o + c_insn(bodies@, tab.depth(), index as int, *insn));
        },
        Instruction::Select { condition, code } => {
            if code.len() > 0 {
                out.append("switch (");
                write_local(out, *condition as u64);
                out.append(") {\n");
                write_cases(out, tab, bodies, index, code, code.len() - 1);
                tab.write_to(out);
                out.append("default:\n");
                write_nested(out, tab, bodies, index, code[code.len() - 1]);
                tab.write_to(out);
                out.append("}\n");
            }
            assert(out@ =~= o + c_insn(bodies@, tab.depth(), index as int, *insn));
        },
        Instruction::Repeat { code, condition } => {
            out.append("do {\n");
            write_nested(out, tab, bodies, index, *code);
            tab.write_to(out);
            out.append("} while (");
            write_local(out, *condition as u64);
            out.append(");\n");
            assert(out@ =~= o + c_insn(bodies@, tab.depth(), index as int, *insn));
        },
    }
}

fn write_block(out: &mut String, tab: Tab, bodies: &Vec<Vec<Instruction>>, index: usize)
    requires
        tab.depth() + bodies@.len() < usize::MAX + index,
        index < bodies@.len(),
    ensures
        final(out)@ == old(out)@ + c_block(bodies@, tab.depth(), index as int),
    decreases bodies@.len() - index, 3nat, 0nat,
{
    let body = &bodies[index];
    let mut k: usize = 0;
    while k < body.len()
        invariant
            tab.depth() + bodies@.len() < usize::MAX + index,
            index < bodies@.len(),
            body == bodies@[index as int],
            k <= body@.len(),
            out@ == old(out)@ + c_lines(bodies@, tab.depth(), index as int, k as int),
        decreases body@.len() - k,
    {
        tab.write_to(out);
        write_insn(out, tab, bodies, index, &body[k]);
        assert(out@ =~= old(out)@ + c_lines(bodies@, tab.depth(), index as int, k + 1));
        k = k + 1;
    }
}

/// Appends the C89 rendering of `program` to `out`: a `main` with an
/// 8192-byte tape whose pointer starts at the middle.
///
/// At the end of input, `Ask` yields what `fgetc` returns there: `EOF`
/// widened to the 32-bit register, so all ones, and stored to a cell as 255.
pub fn write(out: &mut String, program: &Program)
    requires
        program.body_list().len() + 2 < usize::MAX,
    ensures
        final(out)@ == old(out)@ + c_program(*program),
{
    let tab = Tab::new(1);
    out.append("#include <stdint.h>\n");
    out.append("#include <stdio.h>\n\n");
    out.append("int main() {\n");
    tab.write_to(out);
    out.append("uint8_t memory[8192] = { 0 };\n");
    let ghost a = out@;
    let mut index: usize = 0;
    while index < program.locals()
        invariant
            index <= program.local_count(),
            tab.depth() == 1,
            out@ == a + c_locals(1, index as nat),
        decreases program.local_count() - index,
    {
        tab.write_to(out);
        out.append("uint32_t ");
        write_local(out, index as u64);
        out.append(";\n");
        assert(out@ =~= a + c_locals(1, (index + 1) as nat));
        index = index + 1;
    }
    let bodies = program.bodies();
    if bodies.len() > 0 {
        write_block(out, tab, bodies, 0);
    }
    tab.write_to(out);
    out.append("return 0;\n");
    out.append("}\n");
    assert(out@ =~= old(out)@ + c_program(*program));
}

} // verus!
