use std::cell::Cell;
use std::rc::Rc;

use rustimo::{
    CellDescriptor, CellExecution, CellSnapshot, Notebook, RefSpec, RuntimeError, StateVault, Ui,
    View,
};

/// The values the cells of these tests produce.
enum CellValue {
    Numbers(Vec<u32>),
    Number(u32),
    Size(usize),
    Text(String),
    Slider(Ui<u32>),
    TextField(Ui<String>),
    Checkbox(Ui<bool>),
}

type Code = fn(&StateVault<CellValue>) -> Result<CellExecution<CellValue>, RuntimeError>;
type Run = Box<dyn Fn(&StateVault<CellValue>) -> Result<CellExecution<CellValue>, RuntimeError>>;
type Update = fn(&StateVault<CellValue>, serde_json::Value) -> Result<(CellValue, View), RuntimeError>;
type Initial = fn(&StateVault<CellValue>) -> Result<View, RuntimeError>;
type Descriptor = CellDescriptor<Run, Update, Initial>;
type Book = Notebook<CellValue, Run, Update, Initial>;

fn mismatch(name: &str, expected: &str) -> RuntimeError {
    RuntimeError::new(
        "type_mismatch",
        format!("value of '{name}' is not {expected}"),
        Some(name),
    )
}

fn numbers<'a>(vault: &'a StateVault<CellValue>, name: &str) -> Result<&'a Vec<u32>, RuntimeError> {
    match vault.get(name)? {
        CellValue::Numbers(v) => Ok(v),
        _ => Err(mismatch(name, "Vec<u32>")),
    }
}

fn number(vault: &StateVault<CellValue>, name: &str) -> Result<u32, RuntimeError> {
    match vault.get(name)? {
        CellValue::Number(v) => Ok(*v),
        _ => Err(mismatch(name, "u32")),
    }
}

fn slider<'a>(vault: &'a StateVault<CellValue>, name: &str) -> Result<&'a Ui<u32>, RuntimeError> {
    match vault.get(name)? {
        CellValue::Slider(ui) => Ok(ui),
        _ => Err(mismatch(name, "Ui<u32>")),
    }
}

fn text_field<'a>(vault: &'a StateVault<CellValue>, name: &str) -> Result<&'a Ui<String>, RuntimeError> {
    match vault.get(name)? {
        CellValue::TextField(ui) => Ok(ui),
        _ => Err(mismatch(name, "Ui<String>")),
    }
}

fn checkbox<'a>(vault: &'a StateVault<CellValue>, name: &str) -> Result<&'a Ui<bool>, RuntimeError> {
    match vault.get(name)? {
        CellValue::Checkbox(ui) => Ok(ui),
        _ => Err(mismatch(name, "Ui<bool>")),
    }
}

fn widget_view(name: &str) -> View {
    View::Widget(serde_json::Value::String(name.to_owned()))
}

fn invalid_signal(name: &str, error: serde_json::Error) -> RuntimeError {
    RuntimeError::new("invalid_signal", error.to_string(), Some(name))
}

fn cell(name: &'static str, refs: Vec<(&'static str, &'static str)>, result_type: &'static str, run: Code) -> Descriptor {
    CellDescriptor {
        name,
        refs: refs
            .into_iter()
            .map(|(name, expected_type)| RefSpec { name, expected_type })
            .collect(),
        result_type,
        run: Box::new(run),
        update_signal: None,
        initial_view: None,
    }
}

/// How many times the code of a cell was called.
#[derive(Clone, Default)]
struct Runs(Rc<Cell<usize>>);

impl Runs {
    fn load(&self) -> usize {
        self.0.get()
    }
}

/// The same cell, counting each call of its code in `runs`.
fn counted(mut descriptor: Descriptor, runs: &Runs) -> Descriptor {
    let code = descriptor.run;
    let runs = runs.clone();
    descriptor.run = Box::new(move |vault: &StateVault<CellValue>| {
        runs.0.set(runs.0.get() + 1);
        code(vault)
    });
    descriptor
}

fn signal(mut descriptor: Descriptor, update: Update, initial: Initial) -> Descriptor {
    descriptor.update_signal = Some(update);
    descriptor.initial_view = Some(initial);
    descriptor
}

fn run_data(_: &StateVault<CellValue>) -> Result<CellExecution<CellValue>, RuntimeError> {
    Ok(CellExecution::new(CellValue::Numbers(vec![10, 20, 30]), None))
}

fn data() -> Descriptor {
    cell("data", vec![], "Vec<u32>", run_data)
}

fn run_limit(_: &StateVault<CellValue>) -> Result<CellExecution<CellValue>, RuntimeError> {
    let ui = Ui::slider("limit", 0u32, 30u32, 15u32).step(5).label("Minimum");
    ui.check_name("limit")?;
    Ok(CellExecution::new(CellValue::Slider(ui), None))
}

fn update_limit(vault: &StateVault<CellValue>, raw: serde_json::Value) -> Result<(CellValue, View), RuntimeError> {
    let mut ui = slider(vault, "limit")?.clone();
    let value: u32 = serde_json::from_value(raw).map_err(|e| invalid_signal("limit", e))?;
    ui.set_value(value)?;
    Ok((CellValue::Slider(ui), widget_view("limit")))
}

fn initial_limit(vault: &StateVault<CellValue>) -> Result<View, RuntimeError> {
    slider(vault, "limit")?;
    Ok(widget_view("limit"))
}

fn limit() -> Descriptor {
    signal(
        cell("limit", vec![], "Ui<u32>", run_limit),
        update_limit,
        initial_limit,
    )
}

fn run_filtered(vault: &StateVault<CellValue>) -> Result<CellExecution<CellValue>, RuntimeError> {
    let data = numbers(vault, "data")?;
    let limit = slider(vault, "limit")?;
    let result: Vec<u32> = data
        .iter()
        .copied()
        .filter(|value| *value >= limit.value())
        .collect();
    let view = View::text(format!("{} values", result.len()));
    Ok(CellExecution::new(CellValue::Numbers(result), Some(view)))
}

fn filtered() -> Descriptor {
    cell(
        "filtered",
        vec![
            ("data", "Vec<u32>"),
            ("limit", "Ui<u32>"),
        ],
        "Vec<u32>",
        run_filtered,
    )
}

fn run_other(_: &StateVault<CellValue>) -> Result<CellExecution<CellValue>, RuntimeError> {
    Ok(CellExecution::new(CellValue::Number(42), None))
}

fn other() -> Descriptor {
    cell("other", vec![], "u32", run_other)
}

fn run_wrong(vault: &StateVault<CellValue>) -> Result<CellExecution<CellValue>, RuntimeError> {
    match vault.get("data")? {
        CellValue::Text(text) => Ok(CellExecution::new(CellValue::Size(text.len()), None)),
        _ => Err(mismatch("data", "String")),
    }
}

fn wrong() -> Descriptor {
    cell(
        "wrong",
        vec![("data", "String")],
        "usize",
        run_wrong,
    )
}

fn run_a(vault: &StateVault<CellValue>) -> Result<CellExecution<CellValue>, RuntimeError> {
    Ok(CellExecution::new(CellValue::Number(number(vault, "b")?), None))
}

fn run_b(vault: &StateVault<CellValue>) -> Result<CellExecution<CellValue>, RuntimeError> {
    Ok(CellExecution::new(CellValue::Number(number(vault, "a")?), None))
}

fn a() -> Descriptor {
    cell("a", vec![("b", "u32")], "u32", run_a)
}

fn b() -> Descriptor {
    cell("b", vec![("a", "u32")], "u32", run_b)
}

/// A cell whose code panics: the runner reports the panic, as the
/// application's runners do after catching it.
fn run_panics(_: &StateVault<CellValue>) -> Result<CellExecution<CellValue>, RuntimeError> {
    Err(RuntimeError::new("panic", "deliberate panic".to_owned(), Some("panics")))
}

fn panics() -> Descriptor {
    cell("panics", vec![], "u32", run_panics)
}

fn run_fails_on_signal(vault: &StateVault<CellValue>) -> Result<CellExecution<CellValue>, RuntimeError> {
    let limit = slider(vault, "limit")?;
    if limit.value() >= 25 {
        return Err(RuntimeError::new(
            "panic",
            "signal caused a panic".to_owned(),
            Some("fails_on_signal"),
        ));
    }
    Ok(CellExecution::new(CellValue::Number(limit.value()), None))
}

fn fails_on_signal() -> Descriptor {
    cell(
        "fails_on_signal",
        vec![("limit", "Ui<u32>")],
        "u32",
        run_fails_on_signal,
    )
}

fn run_child(vault: &StateVault<CellValue>) -> Result<CellExecution<CellValue>, RuntimeError> {
    Ok(CellExecution::new(CellValue::Number(number(vault, "fails_on_signal")? + 1), None))
}

fn child() -> Descriptor {
    cell(
        "child",
        vec![("fails_on_signal", "u32")],
        "u32",
        run_child,
    )
}

fn run_mismatched_name(_: &StateVault<CellValue>) -> Result<CellExecution<CellValue>, RuntimeError> {
    let ui = Ui::slider("other_name", 0u32, 30u32, 15u32);
    ui.check_name("mismatched_name")?;
    Ok(CellExecution::new(CellValue::Slider(ui), None))
}

fn mismatched_name() -> Descriptor {
    cell("mismatched_name", vec![], "Ui<u32>", run_mismatched_name)
}

fn run_title(_: &StateVault<CellValue>) -> Result<CellExecution<CellValue>, RuntimeError> {
    let ui = Ui::text("title", "Report").label("Title");
    ui.check_name("title")?;
    Ok(CellExecution::new(CellValue::TextField(ui), None))
}

fn update_title(vault: &StateVault<CellValue>, raw: serde_json::Value) -> Result<(CellValue, View), RuntimeError> {
    let mut ui = text_field(vault, "title")?.clone();
    let value: String = serde_json::from_value(raw).map_err(|e| invalid_signal("title", e))?;
    ui.set_value(value)?;
    Ok((CellValue::TextField(ui), widget_view("title")))
}

fn initial_title(vault: &StateVault<CellValue>) -> Result<View, RuntimeError> {
    text_field(vault, "title")?;
    Ok(widget_view("title"))
}

fn title() -> Descriptor {
    signal(
        cell("title", vec![], "Ui<String>", run_title),
        update_title,
        initial_title,
    )
}

fn run_details(_: &StateVault<CellValue>) -> Result<CellExecution<CellValue>, RuntimeError> {
    let ui = Ui::checkbox("details", false).label("Details");
    ui.check_name("details")?;
    Ok(CellExecution::new(CellValue::Checkbox(ui), None))
}

fn update_details(vault: &StateVault<CellValue>, raw: serde_json::Value) -> Result<(CellValue, View), RuntimeError> {
    let mut ui = checkbox(vault, "details")?.clone();
    let value: bool = serde_json::from_value(raw).map_err(|e| invalid_signal("details", e))?;
    ui.set_value(value)?;
    Ok((CellValue::Checkbox(ui), widget_view("details")))
}

fn initial_details(vault: &StateVault<CellValue>) -> Result<View, RuntimeError> {
    checkbox(vault, "details")?;
    Ok(widget_view("details"))
}

fn details() -> Descriptor {
    signal(
        cell("details", vec![], "Ui<bool>", run_details),
        update_details,
        initial_details,
    )
}

fn run_summary(vault: &StateVault<CellValue>) -> Result<CellExecution<CellValue>, RuntimeError> {
    let title = text_field(vault, "title")?;
    let details = checkbox(vault, "details")?;
    Ok(CellExecution::new(
        CellValue::Text(format!("{}: {}", title.value(), details.value())),
        None,
    ))
}

fn summary() -> Descriptor {
    cell(
        "summary",
        vec![
            ("title", "Ui<String>"),
            ("details", "Ui<bool>"),
        ],
        "String",
        run_summary,
    )
}

fn notebook(cells: Vec<Descriptor>) -> Result<Book, RuntimeError> {
    Notebook::new(cells)
}

fn find<'a>(cells: &'a [CellSnapshot], name: &str) -> &'a CellSnapshot {
    cells.iter().find(|cell| cell.name == name).unwrap()
}

fn runs(notebook: &Book, name: &str) -> u64 {
    find(&notebook.snapshot().cells, name).run_count
}

fn numbers_of(notebook: &Book, name: &str) -> Vec<u32> {
    match notebook.get(name).unwrap() {
        CellValue::Numbers(v) => v.clone(),
        _ => panic!("not a list of numbers"),
    }
}

fn text_of(notebook: &Book, name: &str) -> String {
    match notebook.get(name).unwrap() {
        CellValue::Text(t) => t.clone(),
        _ => panic!("not a text"),
    }
}

#[test]
fn slider_runs_only_descendants_without_compiling_or_recreating_it() {
    let (data_runs, limit_runs, filter_runs, other_runs) = (Runs::default(), Runs::default(), Runs::default(), Runs::default());
    let mut notebook = notebook(vec![
        counted(data(), &data_runs),
        counted(limit(), &limit_runs),
        counted(filtered(), &filter_runs),
        counted(other(), &other_runs),
    ])
    .unwrap();
    notebook.run_all().unwrap();
    let state = notebook.snapshot();
    assert_eq!(
        state
            .cells
            .iter()
            .map(|cell| cell.name.as_str())
            .collect::<Vec<_>>(),
        vec!["data", "limit", "filtered", "other"]
    );
    assert!(
        state.topo_order.iter().position(|cell| cell == "data")
            < state.topo_order.iter().position(|cell| cell == "filtered")
    );
    assert_eq!(numbers_of(&notebook, "filtered"), vec![20, 30]);

    let executed = notebook
        .set_signal("limit", serde_json::Value::from(25))
        .unwrap();
    assert_eq!(executed, vec!["filtered"]);
    assert_eq!(numbers_of(&notebook, "filtered"), vec![30]);
    assert_eq!(data_runs.load(), 1);
    assert_eq!(limit_runs.load(), 1);
    assert_eq!(filter_runs.load(), 2);
    assert_eq!(other_runs.load(), 1);
    assert_eq!(find(&notebook.snapshot().cells, "limit").run_count, 1);
}

#[test]
fn invalid_graphs_are_errors() {
    let duplicate = notebook(vec![data(), data()]);
    assert_eq!(duplicate.err().unwrap().code, "duplicate_definition");
    assert_eq!(notebook(vec![a(), b()]).err().unwrap().code, "cycle");
    assert_eq!(notebook(vec![data(), wrong()]).err().unwrap().code, "type_mismatch");
}

#[test]
fn invalid_slider_value_keeps_previous_state() {
    let mut notebook = notebook(vec![limit()]).unwrap();
    notebook.run_all().unwrap();
    assert_eq!(
        notebook
            .set_signal("limit", serde_json::Value::from(50))
            .unwrap_err()
            .code,
        "invalid_signal"
    );
    match notebook.get("limit").unwrap() {
        CellValue::Slider(ui) => assert_eq!(ui.value(), 15),
        _ => panic!("limit is not a slider"),
    }
}

#[test]
fn a_panic_is_reported_on_its_cell() {
    let mut notebook = notebook(vec![panics()]).unwrap();
    assert_eq!(notebook.run_all().unwrap_err().code, "panic");
    let state = notebook.snapshot();
    assert_eq!(state.cells[0].status.as_str(), "error");
}

#[test]
fn an_error_invalidates_descendant_values() {
    let mut notebook = notebook(vec![limit(), fails_on_signal(), child()]).unwrap();
    notebook.run_all().unwrap();
    match notebook.get("child").unwrap() {
        CellValue::Number(n) => assert_eq!(n, &16),
        _ => panic!("child is not a number"),
    }
    assert_eq!(
        notebook
            .set_signal("limit", serde_json::Value::from(25))
            .unwrap_err()
            .code,
        "panic"
    );
    let child_state = find(&notebook.snapshot().cells, "child").clone();
    assert_eq!(child_state.status.as_str(), "blocked");
    assert!(notebook.get("child").is_err());
}

#[test]
fn a_signal_must_use_its_producing_cell_name() {
    let mut notebook = notebook(vec![mismatched_name()]).unwrap();
    assert_eq!(notebook.run_all().unwrap_err().code, "signal_name_mismatch");
}

#[test]
fn text_and_checkbox_rerun_only_their_consumer() {
    let (summary_runs, other_runs) = (Runs::default(), Runs::default());
    let mut notebook = notebook(vec![
        title(),
        details(),
        counted(summary(), &summary_runs),
        counted(other(), &other_runs),
    ])
    .unwrap();
    notebook.run_all().unwrap();
    assert_eq!(text_of(&notebook, "summary"), "Report: false");

    assert_eq!(
        notebook
            .set_signal("title", serde_json::Value::from("New title"))
            .unwrap(),
        vec!["summary"]
    );
    assert_eq!(
        notebook
            .set_signal("details", serde_json::Value::from(true))
            .unwrap(),
        vec!["summary"]
    );
    assert_eq!(text_of(&notebook, "summary"), "New title: true");
    assert_eq!(summary_runs.load(), 3);
    assert_eq!(other_runs.load(), 1);
    assert_eq!(
        notebook
            .set_signal("details", serde_json::Value::from("yes"))
            .unwrap_err()
            .code,
        "invalid_signal"
    );
    match notebook.get("details").unwrap() {
        CellValue::Checkbox(ui) => assert!(ui.value()),
        _ => panic!("details is not a checkbox"),
    }
}

#[test]
fn running_a_cell_runs_its_descendants_but_not_independent_cells() {
    let (data_runs, limit_runs, filter_runs, other_runs) = (Runs::default(), Runs::default(), Runs::default(), Runs::default());
    let mut notebook = notebook(vec![
        counted(data(), &data_runs),
        counted(limit(), &limit_runs),
        counted(filtered(), &filter_runs),
        counted(other(), &other_runs),
    ])
    .unwrap();
    notebook.run_all().unwrap();
    let executed = notebook.run_from("data").unwrap();
    assert_eq!(executed, vec!["data", "filtered"]);
    assert_eq!(data_runs.load(), 2);
    assert_eq!(filter_runs.load(), 2);
    assert_eq!(limit_runs.load(), 1);
    assert_eq!(other_runs.load(), 1);
    assert_eq!(runs(&notebook, "data"), 2);
    assert_eq!(runs(&notebook, "filtered"), 2);
    assert_eq!(runs(&notebook, "limit"), 1);
    assert_eq!(runs(&notebook, "other"), 1);
}
