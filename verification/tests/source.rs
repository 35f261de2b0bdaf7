use rustimo::source::{cells_from_functions, parse_cells, replace_cell, replace_cell_in, FnShape, InputShape, AttrPath};

#[test]
fn utf8_cell_replacement_preserves_other_rust_source() {
    let file = "use rustimo::cell;\n\n#[cell]\nfn data() -> String {\n    \"Привіт\".into()\n}\n\nfn main() { println!(\"data\"); }\n";
    let cells = parse_cells(file).unwrap();
    assert_eq!(cells.len(), 1);
    assert_eq!(cells[0].name, "data");
    assert_eq!(cells[0].line, 3);
    assert!(cells[0].source.starts_with("#[cell]"));
    let updated = replace_cell(
        file,
        "data",
        "#[cell]\nfn data() -> String { \"Змінено\".into() }",
    )
    .unwrap();
    assert!(updated.contains("Змінено"));
    assert!(updated.ends_with("fn main() { println!(\"data\"); }\n"));
}

const NOTEBOOK: &str = "use rustimo::{cell, Ui};\n\n#[cell]\nfn data() -> Vec<u32> {\n    vec![1, 2, 3]\n}\n\n/// The cut-off.\n#[rustimo::cell]\nfn limit() -> Ui<u32> {\n    Ui::slider(\"limit\", 0, 3, 1)\n}\n\nfn helper(x: u32) -> u32 { x }\n\n#[cell]\nfn filtered(data: &Vec<u32>, limit: &Ui<u32>, scale: u32) -> Vec<u32> {\n    data.clone()\n}\n";

#[test]
fn cells_are_found_in_file_order_with_their_reference_inputs() {
    let cells = parse_cells(NOTEBOOK).unwrap();
    let names: Vec<&str> = cells.iter().map(|c| c.name.as_str()).collect();
    assert_eq!(names, vec!["data", "limit", "filtered"]);
    assert_eq!(cells[0].line, 3);
    assert_eq!(cells[1].line, 8);
    assert!(cells[1].source.starts_with("/// The cut-off.\n#[rustimo::cell]"));
    assert!(cells[1].source.ends_with("Ui::slider(\"limit\", 0, 3, 1)\n}"));
    assert_eq!(cells[2].refs, vec!["data".to_owned(), "limit".to_owned()]);
    assert!(cells[0].refs.is_empty());
    for cell in &cells {
        assert_eq!(&NOTEBOOK[cell.start..cell.end], cell.source);
    }
}

#[test]
fn a_file_that_is_not_rust_is_an_error() {
    assert!(parse_cells("fn broken( {").is_err());
}

#[test]
fn an_unknown_cell_cannot_be_replaced() {
    assert_eq!(
        replace_cell(NOTEBOOK, "missing", "#[cell]\nfn missing() -> u32 { 1 }").unwrap_err(),
        "unknown source cell 'missing'"
    );
}

#[test]
fn replacing_a_cell_with_its_own_text_changes_nothing() {
    let cells = parse_cells(NOTEBOOK).unwrap();
    for cell in &cells {
        let same = replace_cell_in(NOTEBOOK, &cells, &cell.name, &cell.source).unwrap();
        assert_eq!(same, NOTEBOOK);
    }
}

#[test]
fn replacing_a_cell_keeps_the_text_around_it() {
    let updated = replace_cell(NOTEBOOK, "limit", "#[cell]\nfn limit() -> u32 { 2 }").unwrap();
    let start = NOTEBOOK.find("/// The cut-off.").unwrap();
    let end = NOTEBOOK.find("\n\nfn helper").unwrap();
    assert_eq!(
        updated,
        format!("{}#[cell]\nfn limit() -> u32 {{ 2 }}{}", &NOTEBOOK[..start], &NOTEBOOK[end..])
    );
}

fn shape(name: &str, cell: bool, start: usize, end: usize) -> FnShape {
    FnShape {
        name: name.to_owned(),
        attributes: if cell {
            vec![AttrPath { leading_colon: false, segments: vec!["cell".to_owned()] }]
        } else {
            vec![AttrPath { leading_colon: false, segments: vec!["inline".to_owned()] }]
        },
        first_attribute_start: Some(start),
        item_start: start,
        body_end: end,
        inputs: vec![
            InputShape::Typed { name: Some("a".to_owned()), reference: Some(false) },
            InputShape::Typed { name: Some("b".to_owned()), reference: None },
            InputShape::Typed { name: None, reference: Some(false) },
        ],
    }
}

#[test]
fn only_cell_attributes_make_cells() {
    let source = "abcdef\nghij";
    let items = vec![
        Some(shape("one", true, 0, 3)),
        None,
        Some(shape("two", false, 3, 5)),
        Some(shape("three", true, 7, 11)),
    ];
    let cells = cells_from_functions(source, &items).unwrap();
    assert_eq!(cells.len(), 2);
    assert_eq!(cells[0].source, "abc");
    assert_eq!(cells[1].source, "ghij");
    assert_eq!(cells[1].line, 2);
    assert_eq!(cells[0].refs, vec!["a".to_owned()]);
}

#[test]
fn a_leading_colon_makes_a_path_that_is_not_the_cell_attribute() {
    let mut f = shape("one", true, 0, 3);
    f.attributes = vec![AttrPath { leading_colon: true, segments: vec!["cell".to_owned()] }];
    let mut g = shape("two", true, 3, 6);
    g.attributes = vec![AttrPath {
        leading_colon: true,
        segments: vec!["rustimo".to_owned(), "cell".to_owned()],
    }];
    let cells = cells_from_functions("abcdef", &vec![Some(f), Some(g)]).unwrap();
    assert_eq!(cells.len(), 1);
    assert_eq!(cells[0].name, "two");
}

#[test]
fn a_span_that_cuts_a_character_is_an_error() {
    let source = "ж = 1";
    let items = vec![Some(shape("x", true, 1, 3))];
    assert_eq!(
        cells_from_functions(source, &items).err().unwrap(),
        "cell source span is unavailable"
    );
    let past_end = vec![Some(shape("x", true, 0, 40))];
    assert!(cells_from_functions(source, &past_end).is_err());
}
