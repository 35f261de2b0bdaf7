//! Reactive notebook cells: a validated dependency graph, a value store and
//! a runtime that reruns exactly the cells that depend on a change.
//!
//! - `graph`: the dependency graph and the order cells run in.
//! - `runtime`: cells, their snapshots and the notebook that runs them.
//! - `state`, `ui`, `display`, `error`: values, widgets, views and errors.
//! - `source`: the `#[cell]` functions of a Rust file, and replacing one.
//! - `signature`: the rules a cell function must follow.
//! - `http`: request and response framing for the notebook and editor servers.
//! - `editor`: build diagnostics, build status and when a save is written.
//! - `text`: character-level helpers shared by the others.
use vstd::prelude::*;

pub mod display;
pub mod editor;
pub mod error;
pub mod graph;
pub mod http;
pub mod runtime;
pub mod signature;
pub mod source;
pub mod state;
pub mod text;
pub mod ui;

pub use display::View;
pub use editor::BuildDiagnostic;
pub use source::SourceCell;
pub use error::RuntimeError;

pub use runtime::{CellDescriptor, CellExecution, CellSnapshot, CellStatus, Notebook, NotebookSnapshot, RefSpec};
pub use state::StateVault;
pub use ui::{Ui, WidgetKind};
pub use graph::ReactiveGraph;

verus! {
} // verus!
