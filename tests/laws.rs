use telepathy::hir::data::{Node, Operation, Simple};
use telepathy::hir::parser::{ParseError, Parser};
use telepathy::hir::rewrite::{optimize, Rewrites};
use telepathy::hir::visit::reverse_topological;
use telepathy::mir::data::Instruction;
use telepathy::mir::sequencer::Sequencer;

fn strings(alphabet: &[char], len: usize) -> Vec<String> {
    let mut all = vec![String::new()];
    for _ in 0..len {
        let mut next = Vec::new();
        for s in &all {
            for c in alphabet {
                let mut t = s.clone();
                t.push(*c);
                next.push(t);
            }
        }
        all.extend(next.clone());
        all.retain(|s| s.len() <= len);
        all.sort();
        all.dedup();
    }
    all
}

/// The offset of the first `]` that closes nothing, and the final depth.
fn bracket_summary(text: &str) -> (Option<usize>, i64) {
    let mut depth = 0i64;
    for (i, c) in text.char_indices() {
        if c == '[' {
            depth += 1;
        } else if c == ']' {
            depth -= 1;
            if depth < 0 {
                return (Some(i), depth);
            }
        }
    }
    (None, depth)
}

#[test]
fn parser_accepts_exactly_the_balanced_sources() {
    for text in strings(&['[', ']', '+', '.'], 6) {
        let source: Vec<(usize, char)> = text.char_indices().collect();
        let result = Parser::new().parse(&source);
        match bracket_summary(&text) {
            (Some(offset), _) => {
                assert!(matches!(result, Err(ParseError::TooManyClosingBrackets { offset: o }) if o == offset), "{}", text)
            }
            (None, 0) => assert!(result.is_ok(), "{}", text),
            (None, _) => assert!(matches!(result, Err(ParseError::TooFewClosingBrackets)), "{}", text),
        }
    }
}

fn is_hole(node: &Node) -> bool {
    matches!(node.operation, Operation::Simple(Simple::NoOp)) && node.parameters.is_empty()
}

#[test]
fn sweep_keeps_only_closed_live_nodes() {
    for text in ["", "+.", "+++[-]>.", ",[.,]", "++[>++<-]>.", "+-<>."] {
        for rewrites in [
            Rewrites { constant_fold: false, load_store_elide: false },
            Rewrites { constant_fold: true, load_store_elide: true },
        ] {
            let source: Vec<(usize, char)> = text.char_indices().collect();
            let mut data = Parser::new().parse(&source).expect("parses");
            let roots = data.roots();
            optimize(data.nodes_mut(), &roots, rewrites);
            let nodes = data.nodes();
            assert!(!is_hole(nodes.get(roots[0])));
            for id in 0..nodes.len() {
                let node = nodes.get(id);
                for link in node.parameters.iter() {
                    assert!(link.node < nodes.len());
                    assert!(!is_hole(nodes.get(link.node)), "{} reads a hole", id);
                }
            }
        }
    }
}

#[test]
fn rewriting_reaches_a_fixed_point() {
    let rewrites = Rewrites { constant_fold: true, load_store_elide: true };
    for text in ["+++++-----.", "[[[-]]]", ">>>><<<<.", "+[->+<]>[-<+>]<."] {
        let source: Vec<(usize, char)> = text.char_indices().collect();
        let mut data = Parser::new().parse(&source).expect("parses");
        let roots = data.roots();
        optimize(data.nodes_mut(), &roots, rewrites);
        let before = data.nodes().len();
        optimize(data.nodes_mut(), &roots, rewrites);
        assert_eq!(data.nodes().len(), before);
    }
}

#[test]
fn pointer_moves_fold_to_literals() {
    let source: Vec<(usize, char)> = ">>>><<.".char_indices().collect();
    let mut data = Parser::new().parse(&source).expect("parses");
    let roots = data.roots();
    optimize(data.nodes_mut(), &roots, Rewrites { constant_fold: true, load_store_elide: false });
    let nodes = data.nodes();
    let live_arithmetic = (0..nodes.len())
        .filter(|&id| matches!(nodes.get(id).operation, Operation::Simple(Simple::Add) | Operation::Simple(Simple::Sub)))
        .count();
    assert_eq!(live_arithmetic, 0);
    let two = (0..nodes.len()).any(|id| matches!(nodes.get(id).operation, Operation::Simple(Simple::Integer { value: 2 })));
    assert!(two);
}

#[test]
fn every_read_is_consumed_in_straight_line_code() {
    for text in ["", "+.", ",.", "+>++<-.>.", ",+>,-<.>.", "+-+-+."] {
        let source: Vec<(usize, char)> = text.char_indices().collect();
        let data = Parser::new().parse(&source).expect("parses");
        let mut sequencer = Sequencer::new();
        let program = sequencer.sequence(&data);
        let counts = sequencer.registers().remaining();
        assert_eq!(counts.len(), program.locals());
        assert!(counts.iter().all(|&c| c == 0), "{}: {:?}", text, counts);
    }
}

#[test]
fn every_read_is_consumed_in_loops_too() {
    for text in ["+[-]", "+[->+<]>.", ",[.,]", "++[>++[>+<-]<-]>>.", "[[[]]]"] {
        let source: Vec<(usize, char)> = text.char_indices().collect();
        let data = Parser::new().parse(&source).expect("parses");
        let mut sequencer = Sequencer::new();
        sequencer.sequence(&data);
        let counts = sequencer.registers().remaining();
        assert!(counts.iter().all(|&c| c == 0), "{}: {:?}", text, counts);
    }
}

#[test]
fn walk_order_puts_dependencies_first() {
    use_order(&["+.", "+[->+<]>.", ",[.[-],]", "[[[]]]", "++[>++[>+<-]<-]>>."]);
}

fn use_order(texts: &[&str]) {
    for text in texts {
        let source: Vec<(usize, char)> = text.char_indices().collect();
        let data = Parser::new().parse(&source).expect("parses");
        let nodes = data.nodes();
        let order = reverse_topological(nodes, &data.roots());
        for (i, &id) in order.iter().enumerate() {
            for p in nodes.predecessors(id) {
                let j = order.iter().position(|&x| x == p).expect("dependency is live");
                assert!(j < i, "{}: {} before {}", text, id, p);
            }
        }
    }
}

#[test]
fn each_nested_body_is_named_once() {
    for text in ["[-]", "+[->+<]>.", ",[.,]", "++[>++[>+<-]<-]>>.", "[[[]]][]"] {
        let source: Vec<(usize, char)> = text.char_indices().collect();
        let data = Parser::new().parse(&source).expect("parses");
        let program = Sequencer::new().sequence(&data);
        let mut uses = vec![0usize; program.bodies().len()];
        for body in program.bodies() {
            for insn in body.iter() {
                match insn {
                    Instruction::Select { code, .. } => code.iter().for_each(|&b| uses[b] += 1),
                    Instruction::Repeat { code, .. } => uses[*code] += 1,
                    _ => {}
                }
            }
        }
        assert_eq!(uses[0], 0);
        assert!(uses[1..].iter().all(|&u| u == 1), "{}: {:?}", text, uses);
    }
}

#[test]
fn elision_feeds_the_stored_value_to_the_output() {
    let source: Vec<(usize, char)> = "+.".char_indices().collect();
    let mut data = Parser::new().parse(&source).expect("parses");
    let roots = data.roots();
    optimize(data.nodes_mut(), &roots, Rewrites { constant_fold: false, load_store_elide: true });
    let nodes = data.nodes();
    let tell = nodes.get(roots[0]);
    assert!(matches!(tell.operation, Operation::Simple(Simple::Tell)));
    let value = tell.parameters[1];
    assert!(matches!(nodes.get(value.node).operation, Operation::Simple(Simple::Add)));
    let loads = (0..nodes.len()).filter(|&id| matches!(nodes.get(id).operation, Operation::Simple(Simple::Load))).count();
    assert_eq!(loads, 1);
}
