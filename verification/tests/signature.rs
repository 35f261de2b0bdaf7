use rustimo::signature::{check_cell, is_ui_type, notebook_cells, plan_cell, CellSignature, OutputShape};
use rustimo::source::InputShape;

#[test]
fn a_cell_reads_its_reference_inputs() {
    let plan = plan_cell("fn filtered(data: &Vec<u32>, limit: &Ui<u32>) -> Vec<u32> { vec![] }").unwrap();
    assert_eq!(plan.name, "filtered");
    assert_eq!(plan.refs, vec!["data".to_owned(), "limit".to_owned()]);
    assert!(!plan.is_signal);
}

#[test]
fn a_cell_of_type_ui_is_a_signal() {
    assert!(plan_cell("fn limit() -> Ui<u32> { todo() }").unwrap().is_signal);
    assert!(plan_cell("fn limit() -> rustimo::Ui<u32> { todo() }").unwrap().is_signal);
    assert!(!plan_cell("fn limit() -> Ui { todo() }").unwrap().is_signal);
    assert!(!plan_cell("fn limit() -> Ui<'static> { todo() }").unwrap().is_signal);
    assert!(!plan_cell("fn limit() -> &Ui<u32> { todo() }").unwrap().is_signal);
}

#[test]
fn cells_that_break_the_rules_are_refused() {
    assert_eq!(
        plan_cell("async fn a() -> u32 { 1 }").err().unwrap(),
        "cells must be synchronous functions without type or lifetime parameters"
    );
    assert_eq!(
        plan_cell("fn a<T>() -> u32 { 1 }").err().unwrap(),
        "cells must be synchronous functions without type or lifetime parameters"
    );
    assert_eq!(plan_cell("fn a() { }").err().unwrap(), "a cell needs a return type");
    assert_eq!(
        plan_cell("fn a(x: u32) -> u32 { x }").err().unwrap(),
        "cell inputs must be shared references, such as data: &DataFrame"
    );
    assert_eq!(
        plan_cell("fn a(x: &mut u32) -> u32 { *x }").err().unwrap(),
        "mutable cross-cell references are unsupported"
    );
    assert_eq!(
        plan_cell("fn a((x, y): &(u32, u32)) -> u32 { *x }").err().unwrap(),
        "cell inputs must have simple names"
    );
    assert!(plan_cell("not a function").is_err());
}

#[test]
fn the_first_bad_input_is_reported() {
    let sig = CellSignature {
        name: "c".to_owned(),
        is_async: false,
        generic_params: 0,
        output: OutputShape::Other,
        inputs: vec![
            InputShape::Typed { name: Some("a".to_owned()), reference: Some(false) },
            InputShape::Receiver,
            InputShape::Typed { name: None, reference: None },
        ],
    };
    assert_eq!(check_cell(&sig).err().unwrap(), "cell methods are unsupported");
}

#[test]
fn ui_needs_a_type_argument() {
    let ui = OutputShape::Path { last: "Ui".to_owned(), angle_arguments: Some(vec![false, true]) };
    assert!(is_ui_type(&ui));
    let lifetime_only = OutputShape::Path { last: "Ui".to_owned(), angle_arguments: Some(vec![false]) };
    assert!(!is_ui_type(&lifetime_only));
    let other = OutputShape::Path { last: "Vec".to_owned(), angle_arguments: Some(vec![true]) };
    assert!(!is_ui_type(&other));
}

#[test]
fn a_notebook_lists_at_least_one_cell() {
    assert_eq!(notebook_cells("data, limit, filtered,").unwrap(), vec!["data", "limit", "filtered"]);
    assert_eq!(notebook_cells("").err().unwrap(), "a notebook needs cells");
    assert!(notebook_cells("data limit").is_err());
}
