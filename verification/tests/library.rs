use rustimo::text::{decimal_string, parse_unsigned, split_words, trimmed};
use rustimo::{
    CellDescriptor, CellExecution, Notebook, ReactiveGraph, RefSpec, RuntimeError, StateVault, Ui,
    View, WidgetKind,
};

type Run = fn(&StateVault<u32>) -> Result<CellExecution<u32>, RuntimeError>;
type Update = fn(&StateVault<u32>, serde_json::Value) -> Result<(u32, View), RuntimeError>;
type Initial = fn(&StateVault<u32>) -> Result<View, RuntimeError>;
type Descriptor = CellDescriptor<Run, Update, Initial>;

fn one(_: &StateVault<u32>) -> Result<CellExecution<u32>, RuntimeError> {
    Ok(CellExecution::new(1, None))
}

fn sum(vault: &StateVault<u32>) -> Result<CellExecution<u32>, RuntimeError> {
    let a = *vault.get("a")?;
    let b = *vault.get("b")?;
    Ok(CellExecution::new(a + b, Some(View::text(format!("{}", a + b)))))
}

fn sum_b_c(vault: &StateVault<u32>) -> Result<CellExecution<u32>, RuntimeError> {
    Ok(CellExecution::new(*vault.get("b")? + *vault.get("c")?, None))
}

fn fails(_: &StateVault<u32>) -> Result<CellExecution<u32>, RuntimeError> {
    Err(RuntimeError::new("failed", "no value".to_owned(), Some("a")))
}

fn set_number(_: &StateVault<u32>, raw: serde_json::Value) -> Result<(u32, View), RuntimeError> {
    let n: u32 = serde_json::from_value(raw)
        .map_err(|e| RuntimeError::new("invalid_signal", e.to_string(), Some("b")))?;
    Ok((n, View::markdown(format!("**{n}**"))))
}

fn number_view(vault: &StateVault<u32>) -> Result<View, RuntimeError> {
    Ok(View::text(format!("{}", vault.get("b")?)))
}

fn cell(name: &'static str, refs: &[&'static str], run: Run) -> Descriptor {
    CellDescriptor {
        name,
        refs: refs
            .iter()
            .map(|r| RefSpec { name: r, expected_type: "u32" })
            .collect(),
        result_type: "u32",
        run,
        update_signal: None,
        initial_view: None,
    }
}

fn input(name: &'static str) -> Descriptor {
    let mut d = cell(name, &[], one);
    d.update_signal = Some(set_number);
    d.initial_view = Some(number_view);
    d
}

#[test]
fn the_order_takes_ready_cells_by_name() {
    let cells = vec![cell("sum", &["b", "a"], sum), cell("b", &[], one), cell("a", &[], one)];
    let graph = ReactiveGraph::new(&cells).unwrap();
    assert_eq!(graph.order(), &["a".to_owned(), "b".to_owned(), "sum".to_owned()]);
    assert_eq!(graph.descendants("a"), vec!["sum".to_owned()]);
    assert!(graph.descendants("sum").is_empty());
    assert!(graph.descendants("missing").is_empty());
}

#[test]
fn descendants_follow_every_path_in_order() {
    let cells = vec![
        cell("d", &["b", "c"], one),
        cell("c", &["a"], one),
        cell("b", &["a"], one),
        cell("a", &[], one),
        cell("e", &[], one),
    ];
    let graph = ReactiveGraph::new(&cells).unwrap();
    assert_eq!(graph.order(), &["a", "b", "c", "d", "e"].map(String::from));
    assert_eq!(graph.descendants("a"), vec!["b", "c", "d"]);
    assert_eq!(graph.descendants("c"), vec!["d"]);
}

#[test]
fn graph_errors_name_the_problem() {
    let dup = ReactiveGraph::new(&[cell("a", &[], one), cell("a", &[], one)]).err().unwrap();
    assert_eq!(dup.code, "duplicate_definition");
    assert_eq!(dup.message, "'a' is defined by more than one cell");
    assert_eq!(dup.cell.as_deref(), Some("a"));

    let unknown = ReactiveGraph::new(&[cell("a", &["zz"], one)]).err().unwrap();
    assert_eq!(unknown.code, "unknown_reference");
    assert_eq!(unknown.message, "'a' needs undefined cell 'zz'");

    let mut wrong = cell("b", &["a"], one);
    wrong.refs[0].expected_type = "String";
    let mismatch = ReactiveGraph::new(&[cell("a", &[], one), wrong]).err().unwrap();
    assert_eq!(mismatch.code, "type_mismatch");
    assert_eq!(mismatch.message, "'b' expects 'a' as String, but it produces u32");

    let cycle = ReactiveGraph::new(&[cell("c", &[], one), cell("b", &["a"], one), cell("a", &["b"], one)])
        .err()
        .unwrap();
    assert_eq!(cycle.code, "cycle");
    assert_eq!(cycle.message, "cell dependency cycle involves: a, b");
    assert_eq!(cycle.cell.as_deref(), Some("a"));
    assert_eq!(cycle.to_string(), "cycle: cell dependency cycle involves: a, b");
}

#[test]
fn a_signal_reruns_only_its_consumers() {
    let cells = vec![input("b"), cell("a", &[], one), cell("sum", &["a", "b"], sum), cell("other", &[], one)];
    let mut notebook = Notebook::new(cells).unwrap();
    assert_eq!(notebook.run_all().unwrap(), vec!["a", "b", "other", "sum"]);
    let state = notebook.snapshot();
    assert_eq!(state.cells[0].status.as_str(), "success");
    assert!(matches!(&state.cells[0].view, View::Text(t) if t == "1"));
    assert!(matches!(&state.cells[2].view, View::Text(t) if t == "2"));
    assert_eq!(notebook.set_signal("b", serde_json::Value::from(5)).unwrap(), vec!["sum"]);
    assert_eq!(*notebook.get("sum").unwrap(), 6);
    let state = notebook.snapshot();
    assert!(matches!(&state.cells[0].view, View::Markdown(t) if t == "**5**"));
    let counts: Vec<u64> = state.cells.iter().map(|c| c.run_count).collect();
    assert_eq!(counts, vec![1, 1, 2, 1]);
}

#[test]
fn signals_need_a_known_widget_cell() {
    let mut notebook = Notebook::new(vec![input("b"), cell("a", &[], one)]).unwrap();
    notebook.run_all().unwrap();
    let unknown = notebook.set_signal("zz", serde_json::Value::from(1)).unwrap_err();
    assert_eq!(unknown.code, "unknown_cell");
    assert_eq!(unknown.message, "unknown cell 'zz'");
    let plain = notebook.set_signal("a", serde_json::Value::from(1)).unwrap_err();
    assert_eq!(plain.code, "not_a_signal");
    assert_eq!(plain.message, "'a' is not a UI cell");
    let refused = notebook.set_signal("b", serde_json::Value::from("x")).unwrap_err();
    assert_eq!(refused.code, "invalid_signal");
    assert_eq!(*notebook.get("b").unwrap(), 1);
    assert_eq!(notebook.run_from("zz").unwrap_err().code, "unknown_cell");
}

#[test]
fn a_failure_blocks_the_cells_below_it() {
    let cells = vec![cell("a", &[], one), cell("sum", &["a", "b"], sum), cell("b", &[], one)];
    let mut notebook = Notebook::new(cells).unwrap();
    notebook.run_all().unwrap();
    assert_eq!(*notebook.get("sum").unwrap(), 2);

    let failing = vec![cell("a", &[], fails), cell("sum", &["a", "b"], sum), cell("b", &[], one)];
    let mut notebook = Notebook::new(failing).unwrap();
    let error = notebook.run_all().unwrap_err();
    assert_eq!(error.code, "failed");
    let state = notebook.snapshot();
    assert_eq!(state.cells[0].status.as_str(), "error");
    assert_eq!(state.cells[1].status.as_str(), "blocked");
    assert_eq!(
        state.cells[1].error.as_ref().unwrap().message,
        "'sum' cannot run while 'a' has an error"
    );
    assert_eq!(state.cells[1].error.as_ref().unwrap().code, "blocked_by_parent");
    assert_eq!(state.cells[2].status.as_str(), "idle");
    assert!(notebook.get("a").is_err());
    assert_eq!(notebook.get("sum").unwrap_err().message, "cell 'sum' has no current value");
}

#[test]
fn running_from_a_cell_reruns_everything_below_it() {
    let mut notebook = Notebook::new(vec![input("b"), cell("sum", &["b", "c"], sum_b_c), cell("c", &["b"], one)]).unwrap();
    notebook.run_all().unwrap();
    assert_eq!(notebook.run_from("b").unwrap(), vec!["b", "c", "sum"]);
    let state = notebook.snapshot();
    assert_eq!(state.cells.iter().map(|c| c.run_count).collect::<Vec<_>>(), vec![2, 2, 2]);
    assert!(state.cells.iter().all(|c| c.status.as_str() == "success"));
}

#[test]
fn the_vault_gives_back_what_was_stored() {
    let mut vault: StateVault<u32> = StateVault::new();
    assert!(!vault.contains("a"));
    assert_eq!(vault.get("a").unwrap_err().code, "missing_value");
    vault.insert("a", 1);
    vault.insert("b", 2);
    vault.insert("a", 3);
    assert_eq!(*vault.get("a").unwrap(), 3);
    assert_eq!(*vault.get("b").unwrap(), 2);
    vault.remove("a");
    assert!(!vault.contains("a"));
    assert!(vault.contains("b"));
    let empty: StateVault<u32> = StateVault::default();
    assert!(!empty.contains("b"));
}

#[test]
fn a_slider_refuses_values_outside_its_range() {
    let mut ui = Ui::slider("limit", 0u32, 30u32, 15u32).step(5).label("Minimum");
    assert_eq!(ui.name(), "limit");
    assert_eq!(ui.caption(), "Minimum");
    assert!(matches!(ui.kind(), WidgetKind::Slider));
    assert_eq!(ui.kind().as_str(), "slider");
    assert_eq!(ui.bounds(), &Some((0, 30)));
    assert_eq!(ui.step_size(), &Some(5));
    let error = ui.set_value(31).unwrap_err();
    assert_eq!(error.code, "invalid_signal");
    assert_eq!(error.message, "value for 'limit' is outside the slider range");
    assert_eq!(ui.value(), 15);
    ui.set_value(30).unwrap();
    assert_eq!(ui.value(), 30);
    let copy = ui.clone();
    assert_eq!(copy.value(), 30);
    assert_eq!(copy.name(), "limit");
}

#[test]
fn text_and_checkbox_widgets_take_any_value() {
    let mut text = Ui::text("title", "Report").label("Title");
    assert_eq!(text.value(), "Report");
    assert_eq!(text.kind().as_str(), "text");
    text.set_value("Other".to_owned()).unwrap();
    assert_eq!(text.value(), "Other");
    let mut check = Ui::checkbox("details", false);
    assert_eq!(check.kind().as_str(), "checkbox");
    check.set_value(true).unwrap();
    assert!(check.value());
}

#[test]
fn a_widget_must_carry_its_cells_name() {
    let ui = Ui::slider("other_name", 0u32, 30u32, 15u32);
    let error = ui.check_name("mismatched_name").unwrap_err();
    assert_eq!(error.code, "signal_name_mismatch");
    assert_eq!(error.message, "UI element 'other_name' must use cell name 'mismatched_name'");
    assert!(ui.check_name("other_name").is_ok());
}

#[test]
fn views_and_errors_copy_exactly() {
    let view = View::Widget(serde_json::Value::from(vec![1, 2]));
    match view.clone() {
        View::Widget(w) => assert_eq!(w, serde_json::Value::from(vec![1, 2])),
        _ => panic!("the copy is a widget"),
    }
    let error = RuntimeError::new("code", "message".to_owned(), None);
    let copy = error.clone();
    assert_eq!(copy.code, "code");
    assert_eq!(copy.cell, None);
    assert_eq!(copy.to_string(), "code: message");
}

#[test]
fn text_helpers_follow_str() {
    let chars: Vec<char> = " \u{3000}a b\tc \n".chars().collect();
    assert_eq!(trimmed(&chars).into_iter().collect::<String>(), "a b\tc");
    let words: Vec<String> = split_words(&chars).into_iter().map(|w| w.into_iter().collect()).collect();
    assert_eq!(words, vec!["a", "b", "c"]);
    let digits: Vec<char> = "65535".chars().collect();
    assert_eq!(parse_unsigned(&digits, 65535), Some(65535));
    assert_eq!(parse_unsigned(&digits, 65534), None);
    assert_eq!(parse_unsigned(&"+7".chars().collect(), 9), Some(7));
    assert_eq!(parse_unsigned(&"+".chars().collect(), 9), None);
    assert_eq!(parse_unsigned(&"".chars().collect(), 9), None);
    assert_eq!(decimal_string(0), "0");
    assert_eq!(decimal_string(1200), "1200");
    assert_eq!(decimal_string(usize::MAX), usize::MAX.to_string());
}

#[test]
fn a_notebook_is_refused_with_its_graphs_error() {
    let sets: Vec<fn() -> Vec<Descriptor>> = vec![
        || vec![cell("a", &[], one), cell("a", &[], one)],
        || vec![cell("a", &["zz"], one)],
        || vec![cell("c", &[], one), cell("b", &["a"], one), cell("a", &["b"], one)],
    ];
    for make in sets {
        let from_graph = ReactiveGraph::new(&make()).err().unwrap();
        let from_notebook = Notebook::<u32, Run, Update, Initial>::new(make()).err().unwrap();
        assert_eq!(from_notebook.code, from_graph.code);
        assert_eq!(from_notebook.message, from_graph.message);
        assert_eq!(from_notebook.cell, from_graph.cell);
    }
    let notebook = Notebook::<u32, Run, Update, Initial>::new(vec![cell("b", &["a"], one), cell("a", &[], one)]).unwrap();
    let graph = ReactiveGraph::new(&[cell("b", &["a"], one), cell("a", &[], one)]).unwrap();
    assert_eq!(notebook.snapshot().topo_order, graph.order().to_vec());
    assert!(notebook.snapshot().cells.iter().all(|c| c.status.as_str() == "idle" && c.run_count == 0));
    assert!(notebook.get("a").is_err());
}

#[test]
fn a_widget_keeps_the_last_signal_it_took() {
    let mut ui = Ui::slider("limit", 0u32, 30u32, 15u32);
    ui.set_json(Ok(20)).unwrap();
    assert_eq!(ui.value(), 20);
    let undecoded = ui.set_json(Err("invalid type: string \"x\", expected u32".to_owned())).unwrap_err();
    assert_eq!(undecoded.code, "invalid_signal");
    assert_eq!(undecoded.message, "invalid type: string \"x\", expected u32");
    assert_eq!(undecoded.cell.as_deref(), Some("limit"));
    assert_eq!(ui.value(), 20);
    let outside = ui.set_json(Ok(31)).unwrap_err();
    assert_eq!(outside.code, "invalid_signal");
    assert_eq!(outside.message, "value for 'limit' is outside the slider range");
    assert_eq!(ui.value(), 20);
    ui.set_json(Ok(0)).unwrap();
    assert_eq!(ui.value(), 0);
    ui.set_json(Ok(30)).unwrap();
    assert_eq!(ui.value(), 30);
    assert_eq!(ui.value(), 30);
    let untouched = Ui::slider("limit", 0u32, 30u32, 15u32);
    assert_eq!(untouched.value(), 15);
}

#[test]
fn running_from_a_cell_leaves_the_others_alone() {
    let cells = vec![cell("a", &[], one), cell("b", &[], one), cell("sum", &["a", "b"], sum), cell("other", &[], one)];
    let mut notebook = Notebook::new(cells).unwrap();
    notebook.run_all().unwrap();
    let before = notebook.snapshot();
    assert_eq!(notebook.run_from("a").unwrap(), vec!["a", "sum"]);
    let after = notebook.snapshot();
    for k in [1usize, 3] {
        assert_eq!(after.cells[k].run_count, before.cells[k].run_count);
        assert_eq!(after.cells[k].status.as_str(), before.cells[k].status.as_str());
        assert_eq!(after.cells[k].execution_time_us, before.cells[k].execution_time_us);
    }
    assert_eq!(after.cells[0].run_count, 2);
    assert_eq!(after.cells[2].run_count, 2);
    assert_eq!(*notebook.get("b").unwrap(), 1);
    assert_eq!(*notebook.get("other").unwrap(), 1);
}

#[test]
fn a_signal_leaves_the_cells_it_does_not_reach_alone() {
    let cells = vec![input("b"), cell("a", &[], one), cell("sum", &["a", "b"], sum), cell("other", &[], one)];
    let mut notebook = Notebook::new(cells).unwrap();
    notebook.run_all().unwrap();
    let before = notebook.snapshot();
    assert_eq!(notebook.set_signal("b", serde_json::Value::from(7)).unwrap(), vec!["sum"]);
    let after = notebook.snapshot();
    for k in [1usize, 3] {
        assert_eq!(after.cells[k].run_count, before.cells[k].run_count);
        assert_eq!(after.cells[k].status.as_str(), before.cells[k].status.as_str());
        assert_eq!(after.cells[k].execution_time_us, before.cells[k].execution_time_us);
    }
    assert_eq!(after.cells[0].run_count, before.cells[0].run_count);
    assert_eq!(after.cells[0].status.as_str(), "success");
    assert!(matches!(&after.cells[0].view, View::Markdown(t) if t == "**7**"));
    assert_eq!(after.cells[2].run_count, before.cells[2].run_count + 1);
    assert_eq!(*notebook.get("b").unwrap(), 7);
    assert_eq!(*notebook.get("a").unwrap(), 1);
    assert_eq!(*notebook.get("other").unwrap(), 1);
    assert_eq!(*notebook.get("sum").unwrap(), 8);
}
