use telepathy::blua::optimizer::fold_instruction_list;
use telepathy::blua::parser::{bf_code_to_ast, Error};
use telepathy::syntax::shared::Bop;

fn show(list: &[Bop]) -> String {
    let mut text = String::new();
    for b in list {
        match b {
            Bop::Loop(inner) => text.push_str(&format!("[{}]", show(inner))),
            Bop::DataPointer(n) => text.push_str(&format!("p{n} ")),
            Bop::DataValue(n) => text.push_str(&format!("v{n} ")),
            Bop::Output(n) => text.push_str(&format!("o{n} ")),
            Bop::Input(n) => text.push_str(&format!("i{n} ")),
        }
    }
    text
}

fn tree(text: &str) -> Result<Vec<Bop>, Error> {
    let code: Vec<(usize, char)> = text.char_indices().collect();
    bf_code_to_ast(&code)
}

#[test]
fn tree_parser_builds_nested_loops() {
    assert_eq!(show(&tree("+[->+<]x.").unwrap()), "v1 [v-1 p1 v1 p-1 ]o1 ");
    assert_eq!(show(&tree("").unwrap()), "");
    assert_eq!(show(&tree("[[]],").unwrap()), "[[]]i1 ");
}

#[test]
fn tree_parser_reports_each_error() {
    assert!(matches!(tree("+]+"), Err(Error::NotEof(1))));
    assert!(matches!(tree("+[+"), Err(Error::NotClosed(1))));
    assert!(matches!(tree("[[]"), Err(Error::NotClosed(0))));
    assert!(matches!(tree("ab]"), Err(Error::NotEof(2))));
}

#[test]
fn runs_are_summed_and_zero_runs_vanish() {
    let list = tree("++><[--]..,").unwrap();
    assert_eq!(show(&fold_instruction_list(&list)), "v2 [v-2 ]o2 i1 ");
    let cancelling = tree("+-><").unwrap();
    assert_eq!(show(&fold_instruction_list(&cancelling)), "");
}
