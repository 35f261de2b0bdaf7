use rustimo::editor::{
    editable_example, editor_bind,
    diagnostic_of, parse_diagnostics, signals_to_replay, WidgetEntry, save_cell, save_decision, split_byte_lines, BuildDiagnostic,
    BuildState, CellSave, CompilerEvent, CompilerSpan, SaveDecision, SourceStatus, StartupAction, startup_step,
};

#[test]
fn compiler_error_keeps_primary_source_location() {
    let event = br#"{"reason":"compiler-message","message":{"level":"error","message":"cannot find value `x`","spans":[{"is_primary":true,"file_name":"examples/basic.rs","line_start":7}]}}"#;
    let diagnostics = parse_diagnostics(event);
    assert_eq!(diagnostics.len(), 1);
    assert_eq!(diagnostics[0].file.as_deref(), Some("examples/basic.rs"));
    assert_eq!(diagnostics[0].line, Some(7));
}

#[test]
fn only_error_messages_become_diagnostics() {
    let lines = [
        r#"{"reason":"compiler-artifact","message":{"level":"error","message":"x","spans":[]}}"#,
        r#"{"reason":"compiler-message","message":{"level":"warning","message":"unused","spans":[]}}"#,
        "not json",
        r#"{"reason":"compiler-message","message":{"level":"error","message":"mismatched types","spans":[{"is_primary":false,"file_name":"a.rs","line_start":1},{"is_primary":true,"file_name":"b.rs","line_start":9}]}}"#,
        r#"{"reason":"compiler-message","message":{"level":"error","message":"no spans"}}"#,
        r#"{"reason":"compiler-message","message":{"level":"error","message":"no primary","spans":[{"file_name":"c.rs","line_start":2}]}}"#,
    ];
    let output = lines.join("\n") + "\n";
    let diagnostics = parse_diagnostics(output.as_bytes());
    assert_eq!(diagnostics.len(), 2);
    assert_eq!(diagnostics[0].message, "mismatched types");
    assert_eq!(diagnostics[0].file.as_deref(), Some("b.rs"));
    assert_eq!(diagnostics[0].line, Some(9));
    assert_eq!(diagnostics[1].message, "no primary");
    assert_eq!(diagnostics[1].file, None);
    assert_eq!(diagnostics[1].line, None);
}

#[test]
fn a_compiler_event_is_read_field_by_field() {
    let event = CompilerEvent {
        reason: Some("compiler-message".to_owned()),
        level: Some("error".to_owned()),
        message: Some("boom".to_owned()),
        spans: Some(vec![CompilerSpan {
            is_primary: Some(true),
            file_name: None,
            line_start: Some(3),
        }]),
    };
    let d = diagnostic_of(&event).unwrap();
    assert_eq!(d.message, "boom");
    assert_eq!(d.file, None);
    assert_eq!(d.line, Some(3));
    let mut warning = event;
    warning.level = Some("warning".to_owned());
    assert!(diagnostic_of(&warning).is_none());
}

#[test]
fn output_is_split_at_every_newline() {
    let lines = split_byte_lines(b"a\n\nbc\n");
    assert_eq!(lines, vec![b"a".to_vec(), vec![], b"bc".to_vec(), vec![]]);
    assert_eq!(split_byte_lines(b""), vec![Vec::<u8>::new()]);
}

fn diagnostic(message: &str) -> BuildDiagnostic {
    BuildDiagnostic { message: message.to_owned(), file: None, line: None }
}

#[test]
fn a_failed_build_marks_the_source_stale() {
    let mut state = BuildState::new();
    assert_eq!(state.status.as_str(), "building");
    assert!(!state.build_finished(false, vec![], "  error: linker failed \n"));
    assert!(state.status == SourceStatus::Stale);
    assert_eq!(state.diagnostics.len(), 1);
    assert_eq!(state.diagnostics[0].message, "error: linker failed");

    let mut state = BuildState::new();
    assert!(!state.build_finished(false, vec![diagnostic("mismatched types")], "ignored"));
    assert_eq!(state.diagnostics.len(), 1);
    assert_eq!(state.diagnostics[0].message, "mismatched types");
    assert_eq!(state.status.as_str(), "stale");
}

#[test]
fn a_good_build_is_current_once_its_worker_runs() {
    let mut state = BuildState::new();
    assert!(state.build_finished(true, vec![], ""));
    assert!(state.status == SourceStatus::Building);
    state.worker_started();
    assert_eq!(state.status.as_str(), "current");
    assert!(state.diagnostics.is_empty());
    state.begin();
    assert!(state.status == SourceStatus::Building);
    assert!(state.build_finished(true, vec![], ""));
    state.worker_failed("new notebook worker did not become ready".to_owned());
    assert!(state.status == SourceStatus::Stale);
    assert_eq!(state.diagnostics[0].message, "new notebook worker did not become ready");
}

#[test]
fn a_stale_source_shows_successful_cells_as_stale() {
    let mut state = BuildState::new();
    state.build_finished(false, vec![diagnostic("e")], "");
    assert_eq!(state.shown_status("success"), "stale");
    assert_eq!(state.shown_status("error"), "error");
    state.worker_started();
    assert_eq!(state.shown_status("success"), "success");
}

#[test]
fn saves_are_written_only_over_the_text_they_were_made_on() {
    assert!(save_decision("a", "b", "c") == SaveDecision::Conflict);
    assert!(save_decision("a", "a", "a") == SaveDecision::Unchanged);
    assert!(save_decision("a", "a", "c") == SaveDecision::Write);
}

#[test]
fn saving_a_cell_replaces_only_that_cell() {
    let source = "#[cell]\nfn x() -> u32 { 1 }\n\n#[cell]\nfn y(x: &u32) -> u32 { *x }\n";
    assert!(matches!(save_cell(source, "old", "x", "#[cell]\nfn x() -> u32 { 2 }"), CellSave::Conflict));
    match save_cell(source, source, "x", "#[cell]\nfn x() -> u32 { 2 }") {
        CellSave::Write(updated) => assert_eq!(
            updated,
            "#[cell]\nfn x() -> u32 { 2 }\n\n#[cell]\nfn y(x: &u32) -> u32 { *x }\n"
        ),
        _ => panic!("the cell should be written"),
    }
    assert!(matches!(
        save_cell(source, source, "x", "#[cell]\nfn x() -> u32 { 1 }"),
        CellSave::Unchanged(_)
    ));
    match save_cell(source, source, "z", "") {
        CellSave::Rejected(reason) => assert_eq!(reason, "unknown source cell 'z'"),
        _ => panic!("an unknown cell is rejected"),
    }
}

#[test]
fn only_widget_entries_with_a_name_and_value_replay() {
    let entries = vec![
        WidgetEntry { kind: Some("widget".to_owned()), name: Some("a".to_owned()), value: Some(serde_json::Value::from(1)) },
        WidgetEntry { kind: Some("text".to_owned()), name: Some("b".to_owned()), value: Some(serde_json::Value::from(2)) },
        WidgetEntry { kind: Some("widget".to_owned()), name: None, value: Some(serde_json::Value::from(3)) },
        WidgetEntry { kind: None, name: Some("d".to_owned()), value: Some(serde_json::Value::from(4)) },
    ];
    let signals = signals_to_replay(entries);
    assert_eq!(signals, vec![("a".to_owned(), serde_json::Value::from(1))]);
}

#[test]
fn only_rust_files_in_the_examples_directory_are_edited() {
    assert_eq!(editable_example("/w/examples/basic.rs", "/w/examples").unwrap(), "basic");
    assert_eq!(editable_example("/w/examples/basic.rs", "/w/examples/").unwrap(), "basic");
    let outside = "the first editor version accepts a .rs file in crates/rustimo/examples";
    assert_eq!(editable_example("/w/other/basic.rs", "/w/examples").unwrap_err(), outside);
    assert_eq!(editable_example("/w/examples/basic.txt", "/w/examples").unwrap_err(), outside);
    assert_eq!(editable_example("/w/examples/sub/basic.rs", "/w/examples").unwrap_err(), outside);
    assert!(editor_bind(true).is_ok());
    assert_eq!(editor_bind(false).unwrap_err(), "editor must bind to localhost");
}

#[test]
fn a_starting_worker_is_kept_only_once_it_answers() {
    assert!(matches!(startup_step(true, false, false), StartupAction::Wait));
    assert!(matches!(startup_step(true, false, true), StartupAction::Keep));
    match startup_step(true, true, false) {
        StartupAction::Abandon { timed_out, message } => {
            assert!(!timed_out);
            assert_eq!(message, "new notebook worker exited before it became ready");
        }
        _ => panic!("an ended worker is given up"),
    }
    match startup_step(false, false, false) {
        StartupAction::Abandon { timed_out, message } => {
            assert!(timed_out);
            assert_eq!(message, "new notebook worker did not become ready");
        }
        _ => panic!("the wait ends at the deadline"),
    }
}
