use telepathy::codegen::{c89, lua51};
use telepathy::hir::parser::{ParseData, ParseError, Parser};
use telepathy::hir::rewrite::{optimize, Rewrites};
use telepathy::mir::data::{Instruction, Program};
use telepathy::mir::sequencer::Sequencer;

fn parse(text: &str) -> Result<ParseData, ParseError> {
    let source: Vec<(usize, char)> = text.char_indices().collect();
    Parser::new().parse(&source)
}

fn lower(text: &str, rewrites: Rewrites) -> Program {
    let mut data = parse(text).expect("source parses");
    let roots = data.roots();
    optimize(data.nodes_mut(), &roots, rewrites);
    Sequencer::new().sequence(&data)
}

const NONE: Rewrites = Rewrites { constant_fold: false, load_store_elide: false };
const ALL: Rewrites = Rewrites { constant_fold: true, load_store_elide: true };

fn configurations() -> Vec<Rewrites> {
    vec![
        NONE,
        Rewrites { constant_fold: true, load_store_elide: false },
        Rewrites { constant_fold: false, load_store_elide: true },
        ALL,
    ]
}

/// Runs a program the way its C89 rendering does: 32-bit registers, a
/// byte tape of 8192 cells, `fgetc` giving all ones at the end of input.
fn execute(program: &Program, input: &[u8]) -> Vec<u8> {
    let mut registers = vec![0u32; program.locals()];
    let mut memory = vec![0u8; 8192];
    let mut output = Vec::new();
    let mut position = 0;
    run_body(program, 0, &mut registers, &mut memory, input, &mut position, &mut output);
    output
}

fn run_body(
    program: &Program,
    index: usize,
    registers: &mut Vec<u32>,
    memory: &mut Vec<u8>,
    input: &[u8],
    position: &mut usize,
    output: &mut Vec<u8>,
) {
    for insn in program.bodies()[index].iter() {
        match insn {
            Instruction::Memory { result } => registers[*result as usize] = 4096,
            Instruction::IO { result } => registers[*result as usize] = 0,
            Instruction::Integer { result, value } => registers[*result as usize] = *value as u32,
            Instruction::Move { from, to } => registers[*to as usize] = registers[*from as usize],
            Instruction::Add { result, lhs, rhs } => {
                registers[*result as usize] = registers[*lhs as usize].wrapping_add(registers[*rhs as usize])
            }
            Instruction::Sub { result, lhs, rhs } => {
                registers[*result as usize] = registers[*lhs as usize].wrapping_sub(registers[*rhs as usize])
            }
            Instruction::Load { result, pointer, state } => {
                let address = registers[*pointer as usize].wrapping_add(registers[*state as usize]) as usize;
                registers[*result as usize] = memory[address] as u32;
            }
            Instruction::Store { pointer, value, state } => {
                let address = registers[*pointer as usize].wrapping_add(registers[*state as usize]) as usize;
                memory[address] = registers[*value as usize] as u8;
            }
            Instruction::Ask { result, .. } => {
                registers[*result as usize] = if *position < input.len() {
                    *position += 1;
                    input[*position - 1] as u32
                } else {
                    u32::MAX
                };
            }
            Instruction::Tell { value, .. } => output.push(registers[*value as usize] as u8),
            Instruction::Select { condition, code } => {
                let choice = registers[*condition as usize] as usize;
                let arm = if choice < code.len() - 1 { code[choice] } else { code[code.len() - 1] };
                run_body(program, arm, registers, memory, input, position, output);
            }
            Instruction::Repeat { code, condition } => loop {
                run_body(program, *code, registers, memory, input, position, output);
                if registers[*condition as usize] == 0 {
                    break;
                }
            },
        }
    }
}

fn count(program: &Program, wanted: fn(&Instruction) -> bool) -> usize {
    program.bodies().iter().map(|body| body.iter().filter(|insn| wanted(insn)).count()).sum()
}

#[test]
fn empty_source_lowers_to_io_only() {
    let program = lower("", NONE);
    assert_eq!(program.bodies().len(), 1);
    assert_eq!(program.bodies()[0], vec![Instruction::IO { result: 0 }]);
    let mut text = String::new();
    c89::write(&mut text, &program);
    assert!(text.starts_with("#include <stdint.h>\n#include <stdio.h>\n\nint main() {\n"));
    assert!(text.ends_with("\treturn 0;\n}\n"));
}

#[test]
fn increment_then_output_without_rewrites() {
    let program = lower("+.", NONE);
    let body = &program.bodies()[0];
    let kinds: Vec<&str> = body
        .iter()
        .filter_map(|insn| match insn {
            Instruction::Memory { .. } => Some("Memory"),
            Instruction::IO { .. } => Some("IO"),
            Instruction::Integer { .. } => Some("Integer"),
            Instruction::Load { .. } => Some("Load"),
            Instruction::Add { .. } => Some("Add"),
            Instruction::Store { .. } => Some("Store"),
            Instruction::Tell { .. } => Some("Tell"),
            _ => None,
        })
        .collect();
    assert_eq!(kinds, vec!["IO", "Memory", "Integer", "Load", "Integer", "Add", "Store", "Load", "Tell"]);
    assert_eq!(execute(&program, &[]), vec![1]);
}

#[test]
fn increment_then_output_with_each_family() {
    let folded = lower("+.", Rewrites { constant_fold: true, load_store_elide: false });
    assert_eq!(count(&folded, |i| matches!(i, Instruction::Add { .. })), 1);
    assert_eq!(count(&folded, |i| matches!(i, Instruction::Load { .. })), 2);
    let elided = lower("+.", Rewrites { constant_fold: false, load_store_elide: true });
    assert_eq!(count(&elided, |i| matches!(i, Instruction::Load { .. })), 1);
    assert_eq!(execute(&folded, &[]), vec![1]);
    assert_eq!(execute(&elided, &[]), vec![1]);
}

#[test]
fn clear_loop_is_a_branch_around_a_loop() {
    let program = lower("+++[-].", NONE);
    assert_eq!(count(&program, |i| matches!(i, Instruction::Select { .. })), 1);
    assert_eq!(count(&program, |i| matches!(i, Instruction::Repeat { .. })), 1);
    assert_eq!(execute(&program, &[]), vec![0]);
    let plain = lower("[-]", NONE);
    let mut text = String::new();
    c89::write(&mut text, &plain);
    assert!(text.contains("switch (loc_"));
    assert!(text.contains("default:\n"));
    assert!(text.contains("do {\n"));
    assert!(text.contains("} while (loc_"));
}

#[test]
fn three_increments_fold_into_one_read() {
    let program = lower("+++.", ALL);
    assert_eq!(count(&program, |i| matches!(i, Instruction::Load { .. })), 1);
    assert_eq!(count(&program, |i| matches!(i, Instruction::Store { .. })), 0);
    assert_eq!(execute(&program, &[]), vec![3]);
    let looped = lower("+[+.[-]]", ALL);
    assert_eq!(execute(&looped, &[]), vec![2]);
}

#[test]
fn input_alone_writes_nothing() {
    for rewrites in configurations() {
        let program = lower(",", rewrites);
        assert_eq!(count(&program, |i| matches!(i, Instruction::Ask { .. })), 1);
        assert_eq!(execute(&program, &[0x41]), Vec::<u8>::new());
    }
}

#[test]
fn echo_under_every_configuration() {
    for rewrites in configurations() {
        let program = lower(",.", rewrites);
        assert_eq!(execute(&program, &[0x41]), vec![0x41]);
        assert_eq!(execute(&program, &[0x7f]), vec![0x7f]);
    }
}

#[test]
fn unmatched_closing_bracket_reports_offset() {
    let mut parser = Parser::new();
    let source: Vec<(usize, char)> = "+-.]".char_indices().collect();
    match parser.parse(&source) {
        Err(ParseError::TooManyClosingBrackets { offset }) => assert_eq!(offset, 3),
        _ => panic!("expected an unmatched bracket"),
    }
    let again: Vec<(usize, char)> = "+.".char_indices().collect();
    let data = parser.parse(&again).expect("parser is reusable");
    let program = Sequencer::new().sequence(&data);
    assert_eq!(execute(&program, &[]), vec![1]);
}

#[test]
fn unclosed_bracket_is_reported() {
    assert!(matches!(parse("[[]"), Err(ParseError::TooFewClosingBrackets)));
    assert!(matches!(parse("]["), Err(ParseError::TooManyClosingBrackets { offset: 0 })));
    assert!(parse("[[]][]").is_ok());
}

#[test]
fn comments_do_not_change_the_graph() {
    let plain = lower("+[->+<]>.", NONE);
    let commented = lower("add + loop [ - > + < ] done > print .", NONE);
    assert_eq!(plain.bodies(), commented.bodies());
    assert_eq!(plain.locals(), commented.locals());
}

#[test]
fn rewrites_keep_output() {
    let sources = ["++>+++[<+>-]<.", "+++[>++<-]>.>.", "++[>+[>+<-]<-]>>.", "+-+-+.", ",+.,-.", "+>+<[>.<-]"];
    for source in sources {
        let expected = execute(&lower(source, NONE), &[5, 9]);
        for rewrites in configurations() {
            assert_eq!(execute(&lower(source, rewrites), &[5, 9]), expected, "{}", source);
        }
    }
}

#[test]
fn lua_output_declares_locals_and_loops() {
    let program = lower("+[-]", NONE);
    let mut text = String::new();
    lua51::write(&mut text, &program);
    assert!(text.starts_with("local loc_0\n"));
    assert!(text.contains("setmetatable({}, { __index = function() return 0 end })"));
    assert!(text.contains("repeat\n"));
    assert!(text.contains(" == 0\n"));
    assert!(text.contains("else\n"));
}

#[test]
fn empty_program_prints_exactly() {
    let program = lower("", ALL);
    let mut c = String::new();
    c89::write(&mut c, &program);
    assert_eq!(
        c,
        "#include <stdint.h>\n#include <stdio.h>\n\nint main() {\n\tuint8_t memory[8192] = { 0 };\n\tuint32_t loc_0;\n\tloc_0 = 0; /* io state is no-op in C */\n\treturn 0;\n}\n"
    );
    let mut lua = String::new();
    lua51::write(&mut lua, &program);
    assert_eq!(
        lua,
        "local loc_0\nloc_0 = { tell = function(n) io.write(string.char(n)) end, ask = function() return string.byte(io.read(1)) end }\n"
    );
}

#[test]
fn large_literals_print_in_decimal() {
    let program = Program::new(vec![vec![Instruction::Integer { result: 12, value: 18446744073709551615 }]], 13);
    let mut c = String::new();
    c89::write(&mut c, &program);
    assert!(c.contains("\tloc_12 = 18446744073709551615;\n"));
    assert!(c.contains("\tuint32_t loc_12;\n"));
}
