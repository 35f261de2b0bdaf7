# rustimo

A reactive Rust notebook library, verified with Verus. Cells are named
functions; a cell's shared-reference parameters name the cells it reads. The
library validates the dependency graph, runs cells in dependency order, and
reruns exactly the cells below a changed widget or cell.

Layout:

- `src/` — the verified library (see the module list in `src/lib.rs`).
- `tests/` — tests of the library, run against the compiled crate.
- `app/` — the `rustimo edit` program: the HTTP servers, the Cargo build
  supervisor, JSON forms of the library's values, and the code that runs a
  cell's function with its output captured and its panics caught.

The browser page is read at run time from `frontend.html` beside the
package.
