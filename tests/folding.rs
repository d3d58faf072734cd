use telepathy::syntax::optimizer::fold_bf_code;
use telepathy::syntax::shared::Bop;

fn show(list: &[Bop]) -> String {
    let mut text = String::new();
    for b in list {
        match b {
            Bop::Loop(inner) => text.push_str(&format!("[{}]", show(inner))),
            Bop::DataPointer(n) => text.push_str(&format!("p{n} ")),
            Bop::DataValue(n) => text.push_str(&format!("v{n} ")),
            Bop::Output(n) => text.push_str(&format!("o{n} ")),
            Bop::Input(n) => text.push_str(&format!("i{n} ")),
        }
    }
    text
}

#[test]
fn merge_adds_runs_of_one_operation() {
    assert!(matches!(Bop::DataValue(2).merge(&Bop::DataValue(-5)), Some(Bop::DataValue(-3))));
    assert!(matches!(Bop::Output(1).merge(&Bop::Output(1)), Some(Bop::Output(2))));
    assert!(Bop::Output(1).merge(&Bop::Input(1)).is_none());
    assert!(Bop::Loop(vec![]).merge(&Bop::Loop(vec![])).is_none());
    assert!(Bop::DataPointer(i32::MAX).merge(&Bop::DataPointer(1)).is_none());
}

#[test]
fn folding_joins_neighbours() {
    let list = vec![Bop::DataValue(1), Bop::DataValue(1), Bop::DataPointer(1), Bop::DataPointer(-1), Bop::Output(1)];
    assert_eq!(show(&fold_bf_code(&list)), "v2 p0 o1 ");
}

#[test]
fn folding_enters_loops_when_the_top_level_shrinks() {
    let list = vec![
        Bop::DataValue(1),
        Bop::DataValue(1),
        Bop::Loop(vec![Bop::DataValue(-1), Bop::DataValue(-1), Bop::DataPointer(1)]),
    ];
    assert_eq!(show(&fold_bf_code(&list)), "v2 [v-2 p1 ]");
}

#[test]
fn folding_keeps_a_list_that_does_not_shrink() {
    let list = vec![Bop::Loop(vec![Bop::DataValue(1), Bop::DataValue(1)])];
    assert_eq!(show(&fold_bf_code(&list)), "[v1 v1 ]");
    assert_eq!(show(&fold_bf_code(&[])), "");
}
