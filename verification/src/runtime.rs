//! Cell descriptors and the notebook runtime.
//!
//! A notebook holds its cells in registration order, the validated graph,
//! the current value of every cell and a snapshot of each cell's state.
//! Running a cell records its value and view on success; on failure it
//! forgets the cell's value and blocks every cell that depends on it.
use vstd::prelude::*;

use crate::display;
use crate::error::RuntimeError;
use crate::graph::{accepts, dep_edge, lemma_no_self_reach, lemma_reached_in_order, names_of, rejects, valid_cells, ReactiveGraph};
use crate::state::StateVault;
use crate::text::{push_str, str_eq};

verus! {

/// A cross-cell input: the producing cell's name and the type the consumer expects.
pub struct RefSpec {
    pub name: &'static str,
    pub expected_type: &'static str,
}

impl RefSpec {
    pub fn clone(&self) -> (r: Self)
        ensures
            r == *self,
    {
        RefSpec { name: self.name, expected_type: self.expected_type }
    }
}

/// A registered cell: its name, its inputs, the type it produces and the
/// code that runs it (`run`), applies a widget signal (`update_signal`,
/// which gives the widget's new value and view) and renders a widget when
/// the cell displays nothing itself (`initial_view`).
pub struct CellDescriptor<R, U, I> {
    pub name: &'static str,
    pub refs: Vec<RefSpec>,
    pub result_type: &'static str,
    pub run: R,
    pub update_signal: Option<U>,
    pub initial_view: Option<I>,
}

/// What a successful run produced: the cell's value and what it displayed.
pub struct CellExecution<V> {
    pub value: V,
    pub view: Option<display::View>,
}

impl<V> CellExecution<V> {
    pub fn new(value: V, view: Option<display::View>) -> (e: Self)
        ensures
            e.value == value,
            e.view == view,
    {
        CellExecution { value, view }
    }
}

/// Where a cell stands.
pub enum CellStatus {
    Idle,
    Stale,
    Success,
    Error,
    Blocked,
}

impl CellStatus {
    /// The status word the browser shows.
    pub fn as_str(&self) -> (s: &'static str)
        ensures
            s@ == match self {
                CellStatus::Idle => "idle"@,
                CellStatus::Stale => "stale"@,
                CellStatus::Success => "success"@,
                CellStatus::Error => "error"@,
                CellStatus::Blocked => "blocked"@,
            },
    {
        proof {
            reveal_strlit("idle");
            reveal_strlit("stale");
            reveal_strlit("success");
            reveal_strlit("error");
            reveal_strlit("blocked");
        }
        match self {
            CellStatus::Idle => "idle",
            CellStatus::Stale => "stale",
            CellStatus::Success => "success",
            CellStatus::Error => "error",
            CellStatus::Blocked => "blocked",
        }
    }

    pub fn clone(&self) -> (s: Self)
        ensures
            s == *self,
    {
        match self {
            CellStatus::Idle => CellStatus::Idle,
            CellStatus::Stale => CellStatus::Stale,
            CellStatus::Success => CellStatus::Success,
            CellStatus::Error => CellStatus::Error,
            CellStatus::Blocked => CellStatus::Blocked,
        }
    }
}

/// The state of one cell as the browser shows it.
pub struct CellSnapshot {
    pub name: String,
    pub status: CellStatus,
    pub view: display::View,
    pub run_count: u64,
    pub execution_time_us: u128,
    pub error: Option<RuntimeError>,
}

impl CellSnapshot {
    pub fn clone(&self) -> (s: Self)
        ensures
            s == *self,
    {
        let error = match &self.error {
            Some(e) => Some(e.clone()),
            None => None,
        };
        CellSnapshot {
            name: self.name.clone(),
            status: self.status.clone(),
            view: self.view.clone(),
            run_count: self.run_count,
            execution_time_us: self.execution_time_us,
            error,
        }
    }
}

/// Every cell's state in registration order, and the order cells run in.
pub struct NotebookSnapshot {
    pub cells: Vec<CellSnapshot>,
    pub topo_order: Vec<String>,
}

#[verifier::external_type_specification]
#[verifier::external_body]
pub struct ExInstant(std::time::Instant);

/// `Instant::now`: the moment a run starts. Nothing is stated of it.
#[verifier::external_body]
fn clock_start() -> std::time::Instant {
    std::time::Instant::now()
}

/// `Instant::elapsed`: the time since `start`. Nothing is stated of it: it
/// depends on the clock.
#[verifier::external_body]
fn time_since(start: &std::time::Instant) -> core::time::Duration {
    start.elapsed()
}

/// `Duration::as_micros`: the whole microseconds of a duration. Nothing is
/// stated of it.
#[verifier::external_body]
fn whole_micros(duration: &core::time::Duration) -> u128 {
    duration.as_micros()
}

// ---------------------------------------------------------------------------
// The specification of one run
// ---------------------------------------------------------------------------

/// The state a run changes: the value store and the cells' snapshots.
pub type NbState<V> = (StateVault<V>, Seq<CellSnapshot>);

pub open spec fn blocked_message(child: Seq<char>, parent: Seq<char>) -> Seq<char> {
    "'"@ + child + "' cannot run while '"@ + parent + "' has an error"@
}

pub open spec fn unknown_cell_message(name: Seq<char>) -> Seq<char> {
    "unknown cell '"@ + name + "'"@
}

pub open spec fn not_a_signal_message(name: Seq<char>) -> Seq<char> {
    "'"@ + name + "' is not a UI cell"@
}

/// `new` is `old` after a successful run that displayed `view` and took `t` microseconds.
pub open spec fn success_snap(old: CellSnapshot, new: CellSnapshot, view: display::View, t: u128) -> bool {
    &&& new.name == old.name
    &&& new.status == CellStatus::Success
    &&& new.view == view
    &&& new.run_count == old.run_count + 1
    &&& new.execution_time_us == t
    &&& new.error is None
}

/// `new` is `old` after a failed run with error `e` that took `t` microseconds.
pub open spec fn error_snap(old: CellSnapshot, new: CellSnapshot, e: RuntimeError, t: u128) -> bool {
    &&& new.name == old.name
    &&& new.status == CellStatus::Error
    &&& new.view == display::View::Empty
    &&& new.run_count == old.run_count
    &&& new.execution_time_us == t
    &&& new.error == Some(e)
}

/// `new` is `old` blocked because its ancestor `parent` failed.
pub open spec fn blocked_snap(old: CellSnapshot, new: CellSnapshot, parent: Seq<char>) -> bool {
    &&& new.name == old.name
    &&& new.status == CellStatus::Blocked
    &&& new.view == display::View::Empty
    &&& new.run_count == old.run_count
    &&& new.execution_time_us == old.execution_time_us
    &&& new.error matches Some(b) && b.is("blocked_by_parent"@, blocked_message(old.name@, parent), Some(old.name@))
}

/// `post` is `pre` with only snapshot `i` replaced.
pub open spec fn only_changed(pre: Seq<CellSnapshot>, post: Seq<CellSnapshot>, i: int) -> bool {
    &&& post.len() == pre.len()
    &&& forall|j: int| 0 <= j < pre.len() && j != i ==> post[j] == pre[j]
}

/// A successful run of cell `i`: the value is stored and the snapshot records `view`.
pub open spec fn run_succeeded<V, R, U, I>(
    d: Seq<CellDescriptor<R, U, I>>,
    pre: NbState<V>,
    i: int,
    value: V,
    view: display::View,
    t: u128,
    post: NbState<V>,
) -> bool {
    &&& post.0@ == pre.0@.insert(d[i].name@, value)
    &&& only_changed(pre.1, post.1, i)
    &&& success_snap(pre.1[i], post.1[i], view, t)
}

/// A failed run of cell `i` with error `e`: its value and those of all its
/// descendants are forgotten, it shows the error and the descendants are blocked.
pub open spec fn run_failed<V, R, U, I>(
    d: Seq<CellDescriptor<R, U, I>>,
    g: ReactiveGraph,
    pre: NbState<V>,
    i: int,
    e: RuntimeError,
    t: u128,
    post: NbState<V>,
) -> bool {
    let name = d[i].name@;
    &&& post.0@ == pre.0@.remove_keys(Set::new(|x: Seq<char>| x == name || g.reaches(name, x)))
    &&& post.1.len() == pre.1.len()
    &&& error_snap(pre.1[i], post.1[i], e, t)
    &&& forall|j: int| 0 <= j < pre.1.len() && j != i ==> if g.reaches(name, d[j].name@) {
        blocked_snap(pre.1[j], post.1[j], name)
    } else {
        post.1[j] == pre.1[j]
    }
}

/// One run of cell `i`, given what its code returned (`o`) and how long it took (`t`).
pub open spec fn step_with<V, R, U, I>(
    d: Seq<CellDescriptor<R, U, I>>,
    g: ReactiveGraph,
    pre: NbState<V>,
    i: int,
    o: Result<CellExecution<V>, RuntimeError>,
    t: u128,
    post: NbState<V>,
    res: Result<(), RuntimeError>,
) -> bool where I: Fn(&StateVault<V>) -> Result<display::View, RuntimeError> {
    match o {
        Ok(out) => match out.view {
            Some(v) => res is Ok && run_succeeded(d, pre, i, out.value, v, t, post),
            None => match d[i].initial_view {
                None => res is Ok && run_succeeded(d, pre, i, out.value, display::View::Empty, t, post),
                Some(f) => {
                    &&& post.0@ == pre.0@.insert(d[i].name@, out.value)
                    &&& exists|vr: Result<display::View, RuntimeError>| {
                        &&& call_ensures(f, (&post.0,), vr)
                        &&& match vr {
                            Ok(v) => res is Ok && only_changed(pre.1, post.1, i) && success_snap(pre.1[i], post.1[i], v, t),
                            Err(e) => res == Err::<(), RuntimeError>(e) && post.1 == pre.1,
                        }
                    }
                },
            },
        },
        Err(e) => res == Err::<(), RuntimeError>(e) && run_failed(d, g, pre, i, e, t, post),
    }
}

/// One run of cell `i` from `pre` to `post`, ending with `res`.
pub open spec fn step<V, R, U, I>(
    d: Seq<CellDescriptor<R, U, I>>,
    g: ReactiveGraph,
    pre: NbState<V>,
    i: int,
    post: NbState<V>,
    res: Result<(), RuntimeError>,
) -> bool where
    R: Fn(&StateVault<V>) -> Result<CellExecution<V>, RuntimeError>,
    I: Fn(&StateVault<V>) -> Result<display::View, RuntimeError>,
 {
    exists|o: Result<CellExecution<V>, RuntimeError>, t: u128|
        call_ensures(d[i].run, (&pre.0,), o) && step_with(d, g, pre, i, o, t, post, res)
}

/// The result of the `t`-th of `m` runs whose last one ended with `res`.
pub open spec fn step_result(t: int, m: int, res: Result<(), RuntimeError>) -> Result<(), RuntimeError> {
    if t == m - 1 {
        res
    } else {
        Ok(())
    }
}

/// Running the cells `cells` one after another through `states`, stopping at
/// the first error, which is `res`.
pub open spec fn run_trace<V, R, U, I>(
    d: Seq<CellDescriptor<R, U, I>>,
    g: ReactiveGraph,
    states: Seq<NbState<V>>,
    cells: Seq<int>,
    res: Result<(), RuntimeError>,
) -> bool where
    R: Fn(&StateVault<V>) -> Result<CellExecution<V>, RuntimeError>,
    I: Fn(&StateVault<V>) -> Result<display::View, RuntimeError>,
 {
    let m = states.len() - 1;
    &&& states.len() >= 1
    &&& m <= cells.len()
    &&& forall|t: int| 0 <= t < m ==> #[trigger] step(d, g, states[t], cells[t], states[t + 1], step_result(t, m, res))
    &&& res is Ok ==> m == cells.len()
    &&& res is Err ==> m >= 1
}


/// The position of the cell named `x`.
pub open spec fn position_of<R, U, I>(d: Seq<CellDescriptor<R, U, I>>, x: Seq<char>) -> int {
    choose|j: int| 0 <= j < d.len() && d[j].name@ == x
}

/// The positions of the cells named in `xs`.
pub open spec fn positions_of<R, U, I>(d: Seq<CellDescriptor<R, U, I>>, xs: Seq<Seq<char>>) -> Seq<int> {
    Seq::new(xs.len(), |t: int| position_of(d, xs[t]))
}

/// `post` is `pre` with every cell named in `xs` marked stale.
pub open spec fn marked_stale<R, U, I>(d: Seq<CellDescriptor<R, U, I>>, pre: Seq<CellSnapshot>, post: Seq<CellSnapshot>, xs: Seq<Seq<char>>) -> bool {
    &&& post.len() == pre.len()
    &&& forall|j: int| 0 <= j < pre.len() ==> if xs.contains(d[j].name@) {
        post[j] == (CellSnapshot { status: CellStatus::Stale, ..pre[j] })
    } else {
        post[j] == pre[j]
    }
}

/// `post` is `pre` with the view of cell `i` replaced by `view`.
pub open spec fn view_replaced(pre: Seq<CellSnapshot>, post: Seq<CellSnapshot>, i: int, view: display::View) -> bool {
    &&& only_changed(pre, post, i)
    &&& post[i] == (CellSnapshot { view: view, ..pre[i] })
}

/// Cell `j` is the same in `post` as in `pre`: its snapshot, and its value
/// in the store (or the absence of one).
pub open spec fn keeps_cell<V, R, U, I>(d: Seq<CellDescriptor<R, U, I>>, pre: NbState<V>, post: NbState<V>, j: int) -> bool {
    &&& post.1[j] == pre.1[j]
    &&& post.0@.contains_key(d[j].name@) == pre.0@.contains_key(d[j].name@)
    &&& pre.0@.contains_key(d[j].name@) ==> post.0@[d[j].name@] == pre.0@[d[j].name@]
}

/// After a signal to cell `i` that stored `v` and showed `view`: cell `i`
/// has its new view (status, run count and error as before) and its new
/// value, and every cell other than `i` and those in `ds` is as it was.
pub open spec fn signal_kept_rest<V, R, U, I>(
    d: Seq<CellDescriptor<R, U, I>>,
    ds: Seq<Seq<char>>,
    pre: NbState<V>,
    post: NbState<V>,
    i: int,
    v: V,
    view: display::View,
) -> bool {
    &&& post.1[i] == (CellSnapshot { view: view, ..pre.1[i] })
    &&& post.0@.contains_key(d[i].name@)
    &&& post.0@[d[i].name@] == v
    &&& forall|j: int| 0 <= j < d.len() && j != i && !ds.contains(d[j].name@) ==> #[trigger] keeps_cell(d, pre, post, j)
}

/// The names of `r`.
pub open spec fn names_in(r: Seq<String>) -> Seq<Seq<char>> {
    Seq::new(r.len(), |t: int| r[t]@)
}

/// `res` carries the error of `r`, or nothing when `r` succeeded.
pub open spec fn same_outcome<T>(r: Result<T, RuntimeError>, res: Result<(), RuntimeError>) -> bool {
    match r {
        Ok(_) => res is Ok,
        Err(e) => res == Err::<(), RuntimeError>(e),
    }
}


/// Filtering a sequence without repeats gives a sequence without repeats.
pub proof fn lemma_filter_distinct<A>(s: Seq<A>, p: spec_fn(A) -> bool)
    requires
        s.no_duplicates(),
    ensures
        s.filter(p).no_duplicates(),
    decreases s.len(),
{
    reveal_with_fuel(Seq::filter, 1);
    if s.len() > 0 {
        let rest = s.drop_last();
        assert(rest.no_duplicates()) by {
            assert forall|a: int, b: int| 0 <= a < rest.len() && 0 <= b < rest.len() && a != b implies rest[a] != rest[b] by {}
        }
        lemma_filter_distinct(rest, p);
        if p(s.last()) {
            let f = rest.filter(p);
            assert(!f.contains(s.last())) by {
                if f.contains(s.last()) {
                    rest.lemma_filter_contains_rev(p, s.last());
                    let u = choose|u: int| 0 <= u < rest.len() && rest[u] == s.last();
                }
            }
            assert forall|a: int, b: int| 0 <= a < f.push(s.last()).len() && 0 <= b < f.push(s.last()).len() && a != b
                implies f.push(s.last())[a] != f.push(s.last())[b] by {}
        }
    }
}

/// One run of a cell leaves the run count of every other cell as it was,
/// and the number of cells too.
pub proof fn lemma_step_keeps_other_run_counts<V, R, U, I>(
    d: Seq<CellDescriptor<R, U, I>>,
    g: ReactiveGraph,
    pre: NbState<V>,
    i: int,
    post: NbState<V>,
    res: Result<(), RuntimeError>,
    j: int,
)
    where
        R: Fn(&StateVault<V>) -> Result<CellExecution<V>, RuntimeError>,
        I: Fn(&StateVault<V>) -> Result<display::View, RuntimeError>,
    requires
        step(d, g, pre, i, post, res),
        0 <= i < pre.1.len(),
        0 <= j < pre.1.len(),
        j != i,
    ensures
        post.1.len() == pre.1.len(),
        post.1[j].run_count == pre.1[j].run_count,
{
}

proof fn lemma_trace_prefix_keeps_run_count<V, R, U, I>(
    d: Seq<CellDescriptor<R, U, I>>,
    g: ReactiveGraph,
    states: Seq<NbState<V>>,
    cells: Seq<int>,
    res: Result<(), RuntimeError>,
    j: int,
    k: int,
)
    where
        R: Fn(&StateVault<V>) -> Result<CellExecution<V>, RuntimeError>,
        I: Fn(&StateVault<V>) -> Result<display::View, RuntimeError>,
    requires
        run_trace(d, g, states, cells, res),
        forall|t: int| 0 <= t < cells.len() ==> 0 <= #[trigger] cells[t] < states[0].1.len(),
        0 <= j < states[0].1.len(),
        forall|t: int| 0 <= t < cells.len() ==> #[trigger] cells[t] != j,
        0 <= k < states.len(),
    ensures
        states[k].1.len() == states[0].1.len(),
        states[k].1[j].run_count == states[0].1[j].run_count,
    decreases k,
{
    if k > 0 {
        let m = states.len() - 1;
        let t = k - 1;
        lemma_trace_prefix_keeps_run_count(d, g, states, cells, res, j, t);
        lemma_step_keeps_other_run_counts(
            d,
            g,
            states[t],
            cells[t],
            states[t + 1],
            step_result(t, m, res),
            j,
        );
    }
}

/// `post` is the snapshot `pre` after one more successful run.
pub open spec fn ran_once(pre: CellSnapshot, post: CellSnapshot) -> bool {
    &&& post.name == pre.name
    &&& post.status == CellStatus::Success
    &&& post.run_count == pre.run_count + 1
    &&& post.error is None
}

/// Every cell named in `xs` has run once more, successfully.
pub open spec fn all_ran_once<R, U, I>(d: Seq<CellDescriptor<R, U, I>>, xs: Seq<Seq<char>>, pre: Seq<CellSnapshot>, post: Seq<CellSnapshot>) -> bool {
    forall|j: int| 0 <= j < d.len() && xs.contains(d[j].name@) ==> #[trigger] ran_once(pre[j], post[j])
}

/// A run of one cell that ended without error changed only that cell's
/// snapshot, which records one more successful run.
proof fn lemma_ok_step<V, R, U, I>(
    d: Seq<CellDescriptor<R, U, I>>,
    g: ReactiveGraph,
    pre: NbState<V>,
    i: int,
    post: NbState<V>,
    res: Result<(), RuntimeError>,
)
    where
        R: Fn(&StateVault<V>) -> Result<CellExecution<V>, RuntimeError>,
        I: Fn(&StateVault<V>) -> Result<display::View, RuntimeError>,
    requires
        step(d, g, pre, i, post, res),
        res is Ok,
        0 <= i < pre.1.len(),
    ensures
        only_changed(pre.1, post.1, i),
        ran_once(pre.1[i], post.1[i]),
{
    let (o, t) = choose|o: Result<CellExecution<V>, RuntimeError>, t: u128|
        call_ensures(d[i].run, (&pre.0,), o) && step_with(d, g, pre, i, o, t, post, res);
    if let Ok(out) = o {
        if out.view is None {
            if let Some(f) = d[i].initial_view {
                let vr = choose|vr: Result<display::View, RuntimeError>| {
                    &&& call_ensures(f, (&post.0,), vr)
                    &&& match vr {
                        Ok(v) => only_changed(pre.1, post.1, i) && success_snap(pre.1[i], post.1[i], v, t),
                        Err(e) => res == Err::<(), RuntimeError>(e) && post.1 == pre.1,
                    }
                };
            }
        }
    }
}

/// In a run of distinct cells that ended without error, cell `cells[u]` is
/// untouched before its turn and, from its turn on, has run once more.
proof fn lemma_ok_trace_prefix<V, R, U, I>(
    d: Seq<CellDescriptor<R, U, I>>,
    g: ReactiveGraph,
    states: Seq<NbState<V>>,
    cells: Seq<int>,
    res: Result<(), RuntimeError>,
    u: int,
    k: int,
)
    where
        R: Fn(&StateVault<V>) -> Result<CellExecution<V>, RuntimeError>,
        I: Fn(&StateVault<V>) -> Result<display::View, RuntimeError>,
    requires
        run_trace(d, g, states, cells, res),
        res is Ok,
        forall|t: int| 0 <= t < cells.len() ==> 0 <= #[trigger] cells[t] < states[0].1.len(),
        0 <= u < cells.len(),
        forall|t: int| 0 <= t < cells.len() && t != u ==> #[trigger] cells[t] != cells[u],
        0 <= k < states.len(),
    ensures
        states[k].1.len() == states[0].1.len(),
        k <= u ==> states[k].1[cells[u]] == states[0].1[cells[u]],
        k > u ==> ran_once(states[0].1[cells[u]], states[k].1[cells[u]]),
    decreases k,
{
    if k > 0 {
        let m = states.len() - 1;
        let t = k - 1;
        lemma_ok_trace_prefix(d, g, states, cells, res, u, t);
        assert(step(d, g, states[t], cells[t], states[t + 1], step_result(t, m, res)));
        lemma_ok_step(d, g, states[t], cells[t], states[t + 1], step_result(t, m, res));
    }
}

/// Running a list of cells leaves the run count of every cell outside the
/// list as it was: only the cells that run are counted.
pub proof fn lemma_trace_keeps_other_run_counts<V, R, U, I>(
    d: Seq<CellDescriptor<R, U, I>>,
    g: ReactiveGraph,
    states: Seq<NbState<V>>,
    cells: Seq<int>,
    res: Result<(), RuntimeError>,
    j: int,
)
    where
        R: Fn(&StateVault<V>) -> Result<CellExecution<V>, RuntimeError>,
        I: Fn(&StateVault<V>) -> Result<display::View, RuntimeError>,
    requires
        run_trace(d, g, states, cells, res),
        forall|t: int| 0 <= t < cells.len() ==> 0 <= #[trigger] cells[t] < states[0].1.len(),
        0 <= j < states[0].1.len(),
        forall|t: int| 0 <= t < cells.len() ==> #[trigger] cells[t] != j,
    ensures
        states.last().1.len() == states[0].1.len(),
        states.last().1[j].run_count == states[0].1[j].run_count,
{
    lemma_trace_prefix_keeps_run_count(d, g, states, cells, res, j, states.len() - 1);
}

/// A failed run forgets the value of the cell and of every cell that depends
/// on it, and shows each of those cells as blocked by it.
pub proof fn lemma_failure_invalidates_descendants<V, R, U, I>(
    d: Seq<CellDescriptor<R, U, I>>,
    g: ReactiveGraph,
    pre: NbState<V>,
    i: int,
    e: RuntimeError,
    t: u128,
    post: NbState<V>,
    j: int,
)
    requires
        run_failed(d, g, pre, i, e, t, post),
        0 <= i < pre.1.len(),
        0 <= j < pre.1.len(),
        j != i,
        g.reaches(d[i].name@, d[j].name@),
    ensures
        !post.0@.contains_key(d[i].name@),
        !post.0@.contains_key(d[j].name@),
        post.1[i].status == CellStatus::Error,
        post.1[j].status == CellStatus::Blocked,
        post.1[j].run_count == pre.1[j].run_count,
{
}

/// One run of cell `i` leaves untouched every other cell that it does not
/// reach: its snapshot, and its value in the store.
pub proof fn lemma_step_keeps_unreached<V, R, U, I>(
    d: Seq<CellDescriptor<R, U, I>>,
    g: ReactiveGraph,
    pre: NbState<V>,
    i: int,
    post: NbState<V>,
    res: Result<(), RuntimeError>,
    j: int,
)
    where
        R: Fn(&StateVault<V>) -> Result<CellExecution<V>, RuntimeError>,
        I: Fn(&StateVault<V>) -> Result<display::View, RuntimeError>,
    requires
        step(d, g, pre, i, post, res),
        0 <= i < pre.1.len(),
        0 <= j < pre.1.len(),
        j != i,
        d[j].name@ != d[i].name@,
        !g.reaches(d[i].name@, d[j].name@),
    ensures
        post.1.len() == pre.1.len(),
        post.1[j] == pre.1[j],
        post.0@.contains_key(d[j].name@) == pre.0@.contains_key(d[j].name@),
        pre.0@.contains_key(d[j].name@) ==> post.0@[d[j].name@] == pre.0@[d[j].name@],
{
    let (o, t) = choose|o: Result<CellExecution<V>, RuntimeError>, t: u128|
        call_ensures(d[i].run, (&pre.0,), o) && step_with(d, g, pre, i, o, t, post, res);
    if let Err(e) = o {
        let gone = Set::new(|x: Seq<char>| x == d[i].name@ || g.reaches(d[i].name@, x));
        assert(!gone.contains(d[j].name@));
    }
}

proof fn lemma_trace_prefix_keeps_unreached<V, R, U, I>(
    d: Seq<CellDescriptor<R, U, I>>,
    g: ReactiveGraph,
    states: Seq<NbState<V>>,
    cells: Seq<int>,
    res: Result<(), RuntimeError>,
    j: int,
    k: int,
)
    where
        R: Fn(&StateVault<V>) -> Result<CellExecution<V>, RuntimeError>,
        I: Fn(&StateVault<V>) -> Result<display::View, RuntimeError>,
    requires
        run_trace(d, g, states, cells, res),
        0 <= j < states[0].1.len(),
        forall|t: int|
            0 <= t < cells.len() ==> 0 <= #[trigger] cells[t] < states[0].1.len() && cells[t] != j
                && d[cells[t]].name@ != d[j].name@ && !g.reaches(d[cells[t]].name@, d[j].name@),
        0 <= k < states.len(),
    ensures
        states[k].1.len() == states[0].1.len(),
        states[k].1[j] == states[0].1[j],
        states[k].0@.contains_key(d[j].name@) == states[0].0@.contains_key(d[j].name@),
        states[0].0@.contains_key(d[j].name@) ==> states[k].0@[d[j].name@] == states[0].0@[d[j].name@],
    decreases k,
{
    if k > 0 {
        let m = states.len() - 1;
        let t = k - 1;
        lemma_trace_prefix_keeps_unreached(d, g, states, cells, res, j, t);
        assert(step(d, g, states[t], cells[t], states[t + 1], step_result(t, m, res)));
        lemma_step_keeps_unreached(d, g, states[t], cells[t], states[t + 1], step_result(t, m, res), j);
    }
}

/// Running a list of cells leaves untouched every cell that is not in the
/// list and that no cell of the list reaches: its snapshot and its value.
pub proof fn lemma_trace_keeps_unreached<V, R, U, I>(
    d: Seq<CellDescriptor<R, U, I>>,
    g: ReactiveGraph,
    states: Seq<NbState<V>>,
    cells: Seq<int>,
    res: Result<(), RuntimeError>,
    j: int,
)
    where
        R: Fn(&StateVault<V>) -> Result<CellExecution<V>, RuntimeError>,
        I: Fn(&StateVault<V>) -> Result<display::View, RuntimeError>,
    requires
        run_trace(d, g, states, cells, res),
        0 <= j < states[0].1.len(),
        forall|t: int|
            0 <= t < cells.len() ==> 0 <= #[trigger] cells[t] < states[0].1.len() && cells[t] != j
                && d[cells[t]].name@ != d[j].name@ && !g.reaches(d[cells[t]].name@, d[j].name@),
    ensures
        states.last().1[j] == states[0].1[j],
        states.last().0@.contains_key(d[j].name@) == states[0].0@.contains_key(d[j].name@),
        states[0].0@.contains_key(d[j].name@) ==> states.last().0@[d[j].name@] == states[0].0@[d[j].name@],
{
    lemma_trace_prefix_keeps_unreached(d, g, states, cells, res, j, states.len() - 1);
}

/// Running the cells named in `run` leaves cell `j` as it was when no cell of
/// the list is `j` or reaches it: its snapshot and its value.
proof fn lemma_named_trace_keeps<V, R, U, I>(
    d: Seq<CellDescriptor<R, U, I>>,
    g: ReactiveGraph,
    run: Seq<Seq<char>>,
    states: Seq<NbState<V>>,
    res: Result<(), RuntimeError>,
    j: int,
)
    where
        R: Fn(&StateVault<V>) -> Result<CellExecution<V>, RuntimeError>,
        I: Fn(&StateVault<V>) -> Result<display::View, RuntimeError>,
    requires
        run_trace(d, g, states, positions_of(d, run), res),
        states[0].1.len() == d.len(),
        forall|x: Seq<char>| #[trigger] run.contains(x) ==> exists|k: int| 0 <= k < d.len() && d[k].name@ == x,
        0 <= j < d.len(),
        forall|x: Seq<char>| #[trigger] run.contains(x) ==> x != d[j].name@ && !g.reaches(x, d[j].name@),
    ensures
        keeps_cell(d, states[0], states.last(), j),
{
    let cells = positions_of(d, run);
    assert forall|t: int| 0 <= t < cells.len() implies 0 <= #[trigger] cells[t] < states[0].1.len()
        && cells[t] != j && d[cells[t]].name@ != d[j].name@ && !g.reaches(d[cells[t]].name@, d[j].name@) by {
        assert(run.contains(run[t]));
        let k = choose|k: int| 0 <= k < d.len() && d[k].name@ == run[t];
        assert(d[cells[t]].name@ == run[t]);
    }
    lemma_trace_keeps_unreached(d, g, states, cells, res, j);
}

/// A cell that `name` does not reach, other than `name`, is neither in the
/// list of the cells below `name` nor reached from one of them.
proof fn lemma_below_misses(g: ReactiveGraph, name: Seq<char>, ds: Seq<Seq<char>>, y: Seq<char>)
    requires
        g.wf(),
        ds == g.order_names().filter(|s: Seq<char>| g.reaches(name, s)),
        y != name,
        !ds.contains(y),
    ensures
        !g.reaches(name, y),
        forall|x: Seq<char>| #[trigger] ds.contains(x) ==> x != y && !g.reaches(x, y),
{
    if g.reaches(name, y) {
        crate::graph::lemma_reached_in_order(&g, name, y);
        let u = choose|u: int| 0 <= u < g.order_names().len() && g.order_names()[u] == y;
        g.order_names().lemma_filter_contains(|s: Seq<char>| g.reaches(name, s), u);
    }
    assert forall|x: Seq<char>| #[trigger] ds.contains(x) implies x != y && !g.reaches(x, y) by {
        g.order_names().lemma_filter_contains_rev(|s: Seq<char>| g.reaches(name, s), x);
        if g.reaches(x, y) {
            crate::graph::lemma_reaches_transitive(&g, name, x, y);
        }
    }
}

/// No cell below `name` is `name` or reaches it.
proof fn lemma_below_misses_self(g: ReactiveGraph, name: Seq<char>, ds: Seq<Seq<char>>)
    requires
        g.wf(),
        ds == g.order_names().filter(|s: Seq<char>| g.reaches(name, s)),
    ensures
        forall|x: Seq<char>| #[trigger] ds.contains(x) ==> x != name && !g.reaches(x, name),
{
    lemma_no_self_reach(&g, name);
    assert forall|x: Seq<char>| #[trigger] ds.contains(x) implies x != name && !g.reaches(x, name) by {
        g.order_names().lemma_filter_contains_rev(|s: Seq<char>| g.reaches(name, s), x);
        if g.reaches(x, name) {
            crate::graph::lemma_reaches_transitive(&g, name, x, name);
        }
    }
}

/// Marking a list of cells stale and running them leaves the run count of
/// every cell outside the list as it was.
pub proof fn lemma_stale_run_keeps_unrelated_run_counts<V, R, U, I>(
    d: Seq<CellDescriptor<R, U, I>>,
    g: ReactiveGraph,
    before: Seq<CellSnapshot>,
    listed: Seq<Seq<char>>,
    states: Seq<NbState<V>>,
    res: Result<(), RuntimeError>,
    j: int,
)
    where
        R: Fn(&StateVault<V>) -> Result<CellExecution<V>, RuntimeError>,
        I: Fn(&StateVault<V>) -> Result<display::View, RuntimeError>,
    requires
        before.len() == d.len(),
        marked_stale(d, before, states[0].1, listed),
        run_trace(d, g, states, positions_of(d, listed), res),
        forall|x: Seq<char>| #[trigger] listed.contains(x) ==> exists|k: int| 0 <= k < d.len() && d[k].name@ == x,
        0 <= j < d.len(),
        !listed.contains(d[j].name@),
    ensures
        states.last().1[j].run_count == before[j].run_count,
{
    let cells = positions_of(d, listed);
    assert forall|t: int| 0 <= t < cells.len() implies 0 <= #[trigger] cells[t] < states[0].1.len() && cells[t] != j by {
        assert(listed.contains(listed[t]));
        let k = choose|k: int| 0 <= k < d.len() && d[k].name@ == listed[t];
    }
    lemma_trace_keeps_other_run_counts(d, g, states, cells, res, j);
}

/// A signal reruns nothing but the cells that depend on it: after the signal
/// cell's view is replaced, the cells downstream are marked stale and run,
/// and every other cell (the signal's own included) keeps its run count.
pub proof fn lemma_signal_keeps_unrelated_run_counts<V, R, U, I>(
    d: Seq<CellDescriptor<R, U, I>>,
    g: ReactiveGraph,
    before: Seq<CellSnapshot>,
    shown: Seq<CellSnapshot>,
    i: int,
    view: display::View,
    downstream: Seq<Seq<char>>,
    states: Seq<NbState<V>>,
    res: Result<(), RuntimeError>,
    j: int,
)
    where
        R: Fn(&StateVault<V>) -> Result<CellExecution<V>, RuntimeError>,
        I: Fn(&StateVault<V>) -> Result<display::View, RuntimeError>,
    requires
        before.len() == d.len(),
        view_replaced(before, shown, i, view),
        marked_stale(d, shown, states[0].1, downstream),
        run_trace(d, g, states, positions_of(d, downstream), res),
        forall|x: Seq<char>| #[trigger] downstream.contains(x) ==> exists|k: int| 0 <= k < d.len() && d[k].name@ == x,
        0 <= j < d.len(),
        !downstream.contains(d[j].name@),
    ensures
        states.last().1[j].run_count == before[j].run_count,
{
    lemma_stale_run_keeps_unrelated_run_counts(d, g, shown, downstream, states, res, j);
}

// ---------------------------------------------------------------------------
// The notebook
// ---------------------------------------------------------------------------

/// The code of every cell can be called on any value store.
pub open spec fn callable<V, R, U, I>(d: Seq<CellDescriptor<R, U, I>>) -> bool where
    R: Fn(&StateVault<V>) -> Result<CellExecution<V>, RuntimeError>,
    U: Fn(&StateVault<V>, serde_json::Value) -> Result<(V, display::View), RuntimeError>,
    I: Fn(&StateVault<V>) -> Result<display::View, RuntimeError>,
 {
    &&& forall|i: int, s: StateVault<V>| 0 <= i < d.len() ==> #[trigger] call_requires(d[i].run, (&s,))
    &&& forall|i: int, s: StateVault<V>, j: serde_json::Value| 0 <= i < d.len() && d[i].update_signal is Some
        ==> #[trigger] call_requires(d[i].update_signal.unwrap(), (&s, j))
    &&& forall|i: int, s: StateVault<V>| 0 <= i < d.len() && d[i].initial_view is Some
        ==> #[trigger] call_requires(d[i].initial_view.unwrap(), (&s,))
}

/// A notebook of cells producing values of type `V`.
pub struct Notebook<V, R, U, I> {
    descriptors: Vec<CellDescriptor<R, U, I>>,
    graph: ReactiveGraph,
    vault: StateVault<V>,
    snapshots: Vec<CellSnapshot>,
}

impl<V, R, U, I> Notebook<V, R, U, I> where
    R: Fn(&StateVault<V>) -> Result<CellExecution<V>, RuntimeError>,
    U: Fn(&StateVault<V>, serde_json::Value) -> Result<(V, display::View), RuntimeError>,
    I: Fn(&StateVault<V>) -> Result<display::View, RuntimeError>,
 {
    /// The registered cells, in registration order.
    pub closed spec fn cells(&self) -> Seq<CellDescriptor<R, U, I>> {
        self.descriptors@
    }

    /// The validated graph.
    pub closed spec fn graph(&self) -> ReactiveGraph {
        self.graph
    }

    /// The current values.
    pub closed spec fn vault(&self) -> StateVault<V> {
        self.vault
    }

    /// The snapshots, in registration order.
    pub closed spec fn snaps(&self) -> Seq<CellSnapshot> {
        self.snapshots@
    }

    /// The store and the snapshots together.
    pub open spec fn state(&self) -> NbState<V> {
        (self.vault(), self.snaps())
    }

    /// The notebook's invariant: one snapshot per cell, distinct names, a
    /// graph over exactly these cells and their references, and callable code.
    pub closed spec fn wf(&self) -> bool {
        let d = self.descriptors@;
        let ns = names_of(d);
        &&& self.snapshots@.len() == d.len()
        &&& forall|a: int, b: int| 0 <= a < d.len() && 0 <= b < d.len() && a != b ==> ns[a] != ns[b]
        &&& forall|i: int| 0 <= i < d.len() ==> (#[trigger] self.snapshots@[i]).name@ == ns[i]
        &&& self.graph.wf()
        &&& forall|x: Seq<char>| self.graph.order_names().contains(x) <==> ns.contains(x)
        &&& forall|p: Seq<char>, c: Seq<char>| self.graph.edge(p, c) <==> dep_edge(d, p, c)
        &&& callable::<V, R, U, I>(d)
    }


    /// A notebook over `cells` with no values yet and every cell idle, or
    /// the first problem that makes the cells invalid.
    pub fn new(cells: Vec<CellDescriptor<R, U, I>>) -> (r: Result<Self, RuntimeError>)
        requires
            callable::<V, R, U, I>(cells@),
        ensures
            r is Ok <==> valid_cells(cells@),
            match r {
                Ok(nb) => {
                    &&& nb.wf()
                    &&& nb.cells() == cells@
                    &&& accepts(cells@, nb.graph())
                    &&& nb.vault()@ == Map::<Seq<char>, V>::empty()
                    &&& nb.snaps().len() == cells@.len()
                    &&& forall|i: int| 0 <= i < cells@.len() ==> {
                        let s = #[trigger] nb.snaps()[i];
                        &&& s.name@ == cells@[i].name@
                        &&& s.status == CellStatus::Idle
                        &&& s.view == display::View::Empty
                        &&& s.run_count == 0
                        &&& s.execution_time_us == 0
                        &&& s.error is None
                    }
                },
                Err(e) => rejects(cells@, e),
            },
    {
        let graph = ReactiveGraph::new(cells.as_slice())?;
        let mut snapshots: Vec<CellSnapshot> = Vec::new();
        let mut i: usize = 0;
        while i < cells.len()
            invariant
                i <= cells@.len(),
                snapshots@.len() == i,
                forall|j: int| 0 <= j < i ==> {
                    let s = #[trigger] snapshots@[j];
                    &&& s.name@ == cells@[j].name@
                    &&& s.status == CellStatus::Idle
                    &&& s.view == display::View::Empty
                    &&& s.run_count == 0
                    &&& s.execution_time_us == 0
                    &&& s.error is None
                },
            decreases cells@.len() - i,
        {
            snapshots.push(CellSnapshot {
                name: cells[i].name.to_owned(),
                status: CellStatus::Idle,
                view: display::View::Empty,
                run_count: 0,
                execution_time_us: 0,
                error: None,
            });
            i = i + 1;
        }
        let nb = Notebook { descriptors: cells, graph, vault: StateVault::new(), snapshots };
        proof {
            let d = nb.descriptors@;
            let ns = names_of(d);
            crate::graph::lemma_no_duplicate_distinct(ns);
            assert forall|x: Seq<char>| nb.graph.order_names().contains(x) <==> ns.contains(x) by {
                if nb.graph.order_names().contains(x) {
                    let k = choose|k: int| 0 <= k < nb.graph.order_names().len() && nb.graph.order_names()[k] == x;
                }
            }
        }
        Ok(nb)
    }

    /// Runs cell `i` once: see `step`.
    #[verifier::rlimit(50)]
    fn execute(&mut self, i: usize) -> (res: Result<(), RuntimeError>)
        requires
            old(self).wf(),
            i < old(self).cells().len(),
            old(self).snaps()[i as int].run_count < u64::MAX,
        ensures
            final(self).wf(),
            final(self).cells() == old(self).cells(),
            final(self).graph() == old(self).graph(),
            step(old(self).cells(), old(self).graph(), old(self).state(), i as int, final(self).state(), res),
            final(self).snaps().len() == old(self).snaps().len(),
            forall|j: int| 0 <= j < old(self).snaps().len() && j != i ==> #[trigger] final(self).snaps()[j].run_count == old(self).snaps()[j].run_count,
    {
        let ghost pre = self.state();
        let ghost d = self.descriptors@;
        let ghost g = self.graph;
        let name = self.descriptors[i].name;
        let started = clock_start();
        let result = (self.descriptors[i].run)(&self.vault);
        let elapsed = whole_micros(&time_since(&started));
        let ghost o = result;
        match result {
            Ok(output) => {
                let CellExecution { value, view } = output;
                self.vault.insert(name, value);
                let shown = match view {
                    Some(v) => v,
                    None => match &self.descriptors[i].initial_view {
                        Some(make_view) => {
                            let made = (*make_view)(&self.vault);
                            match made {
                                Ok(v) => v,
                                Err(e) => {
                                    proof {
                                        let post = self.state();
                                        assert(step_with(d, g, pre, i as int, o, elapsed, self.state(), Err(e)));
                                    }
                                    return Err(e);
                                }
                            }
                        },
                        None => display::View::Empty,
                    },
                };
                let ghost before_snaps = self.snapshots@;
                let old_snap = &self.snapshots[i];
                let snap = CellSnapshot {
                    name: old_snap.name.clone(),
                    status: CellStatus::Success,
                    view: shown,
                    run_count: old_snap.run_count + 1,
                    execution_time_us: elapsed,
                    error: None,
                };
                self.snapshots.set(i, snap);
                proof {
                    let post = self.state();
                    if o->Ok_0.view is Some {
                    } else if d[i as int].initial_view is None {
                    } else {
                        assert(call_ensures(d[i as int].initial_view.unwrap(), (&post.0,), Ok::<display::View, RuntimeError>(shown)));
                    }
                    assert(step_with(d, g, pre, i as int, o, elapsed, self.state(), Ok(())));
                }
                Ok(())
            },
            Err(error) => {
                self.vault.remove(name);
                let old_snap = &self.snapshots[i];
                let snap = CellSnapshot {
                    name: old_snap.name.clone(),
                    status: CellStatus::Error,
                    view: display::View::Empty,
                    run_count: old_snap.run_count,
                    execution_time_us: elapsed,
                    error: Some(error.clone()),
                };
                self.snapshots.set(i, snap);
                let kids = self.graph.descendants(name);
                let ghost ks = Seq::new(kids@.len(), |t: int| kids@[t]@);
                let ghost after_error = self.snapshots@;
                proof {
                    lemma_no_self_reach(&g, name@);
                }
                let mut t: usize = 0;
                while t < kids.len()
                    invariant
                        self.descriptors@ == d,
                        self.graph == g,
                        g.wf(),
                        t <= kids@.len(),
                        ks == Seq::new(kids@.len(), |t: int| kids@[t]@),
                        ks == g.order_names().filter(|s: Seq<char>| g.reaches(name@, s)),
                        name@ == d[i as int].name@,
                        i < d.len(),
                        self.snapshots@.len() == d.len(),
                        forall|a: int, b: int| 0 <= a < d.len() && 0 <= b < d.len() && a != b ==> names_of(d)[a] != names_of(d)[b],
                        forall|j: int| 0 <= j < d.len() ==> (#[trigger] pre.1[j]).name@ == names_of(d)[j],
                        forall|x: Seq<char>| g.order_names().contains(x) <==> names_of(d).contains(x),
                        self.vault@ == pre.0@.remove(name@).remove_keys(ks.take(t as int).to_set()),
                        error_snap(pre.1[i as int], self.snapshots@[i as int], error, elapsed),
                        forall|j: int| 0 <= j < d.len() && j != i ==> if ks.take(t as int).contains(d[j].name@) {
                            blocked_snap(pre.1[j], self.snapshots@[j], name@)
                        } else {
                            self.snapshots@[j] == pre.1[j]
                        },
                        !g.reaches(name@, name@),
                    decreases kids@.len() - t,
                {
                    let child = kids[t].as_str();
                    let found = self.find_cell(child);
                    proof {
                        assert(ks[t as int] == child@);
                        g.order_names().lemma_filter_contains_rev(|s: Seq<char>| g.reaches(name@, s), child@);
                    }
                    let j = match found {
                        Some(j) => j,
                        None => {
                            return Err(error);
                        }
                    };
                    self.vault.remove(child);
                    let old_snap = &self.snapshots[j];
                    let mut m = String::new();
                    push_str(&mut m, "'");
                    push_str(&mut m, child);
                    push_str(&mut m, "' cannot run while '");
                    push_str(&mut m, name);
                    push_str(&mut m, "' has an error");
                    let snap = CellSnapshot {
                        name: old_snap.name.clone(),
                        status: CellStatus::Blocked,
                        view: display::View::Empty,
                        run_count: old_snap.run_count,
                        execution_time_us: old_snap.execution_time_us,
                        error: Some(RuntimeError::new("blocked_by_parent", m, Some(child))),
                    };
                    let ghost before_snaps = self.snapshots@;
                    self.snapshots.set(j, snap);
                    proof {
                        // The blocked cell is a descendant, never the failed cell itself.
                        broadcast use vstd::seq_lib::group_filter_ensures;
                        assert(g.reaches(name@, child@)) by {
                            let u = choose|u: int| 0 <= u < ks.len() && ks[u] == child@;
                        }
                        assert(ks.take(t + 1).to_set() =~= ks.take(t as int).to_set().insert(child@)) by {
                            broadcast use vstd::seq_lib::group_seq_properties;
                        }
                        assert forall|jj: int| 0 <= jj < d.len() && jj != i implies if ks.take(t + 1).contains(d[jj].name@) {
                            blocked_snap(pre.1[jj], self.snapshots@[jj], name@)
                        } else {
                            self.snapshots@[jj] == pre.1[jj]
                        } by {
                            if jj == j {
                                assert(ks.take(t + 1).contains(d[jj].name@)) by {
                                    assert(ks.take(t + 1)[t as int] == child@);
                                }
                            } else {
                                assert(names_of(d)[jj] == d[jj].name@);
                                assert(names_of(d)[j as int] == d[j as int].name@);
                                assert(ks.take(t + 1).contains(d[jj].name@) == ks.take(t as int).contains(d[jj].name@)) by {
                                    broadcast use vstd::seq_lib::group_seq_properties;
                                }
                            }
                        }
                    }
                    t = t + 1;
                }
                proof {
                    assert(ks.take(kids@.len() as int) =~= ks);
                    let dead = Set::new(|x: Seq<char>| x == name@ || g.reaches(name@, x));
                    assert forall|x: Seq<char>| ks.contains(x) <==> (g.order_names().contains(x) && g.reaches(name@, x)) by {
                        broadcast use vstd::seq_lib::group_filter_ensures;
                        if ks.contains(x) {
                            g.order_names().lemma_filter_contains_rev(|s: Seq<char>| g.reaches(name@, s), x);
                            let u = choose|u: int| 0 <= u < ks.len() && ks[u] == x;
                        }
                        if g.order_names().contains(x) && g.reaches(name@, x) {
                            let u = choose|u: int| 0 <= u < g.order_names().len() && g.order_names()[u] == x;
                            g.order_names().lemma_filter_contains(|s: Seq<char>| g.reaches(name@, s), u);
                        }
                    }
                    assert forall|x: Seq<char>| g.reaches(name@, x) implies ks.contains(x) by {
                        lemma_reached_in_order(&g, name@, x);
                    }
                    assert forall|jj: int| 0 <= jj < pre.1.len() && jj != i implies if g.reaches(name@, d[jj].name@) {
                        blocked_snap(pre.1[jj], self.snapshots@[jj], name@)
                    } else {
                        self.snapshots@[jj] == pre.1[jj]
                    } by {}
                    let nm = d[i as int].name@;
                    let post = self.state();
                    assert(post.0@ == pre.0@.remove_keys(Set::new(|x: Seq<char>| x == nm || g.reaches(nm, x))));
                    assert(forall|j: int| 0 <= j < pre.1.len() && j != i ==> if g.reaches(nm, d[j].name@) {
                        blocked_snap(pre.1[j], post.1[j], nm)
                    } else {
                        post.1[j] == pre.1[j]
                    });
                    assert(step_with(d, g, pre, i as int, o, elapsed, self.state(), Err(error)));
                }
                Err(error)
            },
        }
    }


    /// Runs the cells at `cells` in turn, stopping at the first error.
    fn run_cells(&mut self, cells: &Vec<usize>) -> (res: Result<(), RuntimeError>)
        requires
            old(self).wf(),
            forall|t: int| 0 <= t < cells@.len() ==> #[trigger] cells@[t] < old(self).cells().len(),
            cells@.no_duplicates(),
            forall|j: int| 0 <= j < old(self).snaps().len() ==> #[trigger] old(self).snaps()[j].run_count < u64::MAX,
        ensures
            final(self).wf(),
            final(self).cells() == old(self).cells(),
            final(self).graph() == old(self).graph(),
            exists|states: Seq<NbState<V>>| {
                &&& states.len() >= 1
                &&& states[0] == old(self).state()
                &&& states.last() == final(self).state()
                &&& run_trace(old(self).cells(), old(self).graph(), states, Seq::new(cells@.len(), |t: int| cells@[t] as int), res)
            },
    {
        let ghost d = self.descriptors@;
        let ghost g = self.graph;
        let ghost start = self.state();
        let ghost cs = Seq::new(cells@.len(), |t: int| cells@[t] as int);
        let ghost mut states: Seq<NbState<V>> = seq![self.state()];
        let ghost start_snaps = self.snapshots@;
        let mut t: usize = 0;
        while t < cells.len()
            invariant
                self.wf(),
                self.descriptors@ == d,
                self.graph == g,
                d == old(self).cells(),
                g == old(self).graph(),
                start == old(self).state(),
                forall|u: int| 0 <= u < cells@.len() ==> #[trigger] cells@[u] < d.len(),
                cells@.no_duplicates(),
                cs == Seq::new(cells@.len(), |t: int| cells@[t] as int),
                t <= cells@.len(),
                states.len() == t + 1,
                states[0] == start,
                states.last() == self.state(),
                forall|u: int| 0 <= u < t ==> #[trigger] step(d, g, states[u], cs[u], states[u + 1], Ok(())),
                self.snapshots@.len() == start_snaps.len(),
                forall|j: int| 0 <= j < start_snaps.len() ==> #[trigger] start_snaps[j].run_count < u64::MAX,
                forall|u: int| t <= u < cells@.len() ==> #[trigger] self.snapshots@[cells@[u] as int].run_count
                    == start_snaps[cells@[u] as int].run_count,
            decreases cells@.len() - t,
        {
            let ghost before = self.state();
            let r = self.execute(cells[t]);
            proof {
                let prev = states;
                states = states.push(self.state());
                assert forall|u: int| t + 1 <= u < cells@.len() implies #[trigger] self.snapshots@[cells@[u] as int].run_count
                    == start_snaps[cells@[u] as int].run_count by {}
                assert forall|u: int| 0 <= u < t implies #[trigger] step(d, g, states[u], cs[u], states[u + 1], Ok(())) by {}
            }
            let ghost rr = r;
            match r {
                Err(e) => {
                    proof {
                        let m = t + 1;
                        assert forall|u: int| 0 <= u < m implies #[trigger] step(d, g, states[u], cs[u], states[u + 1], step_result(u, m, Err(e))) by {}
                        assert(states.len() >= 1 && states[0] == old(self).state() && states.last() == self.state()
                            && run_trace(old(self).cells(), old(self).graph(), states, Seq::new(cells@.len(), |t: int| cells@[t] as int), Err(e)));
                    }
                    return Err(e);
                }
                Ok(()) => {
                    proof {
                        assert forall|u: int| 0 <= u < t + 1 implies #[trigger] step(d, g, states[u], cs[u], states[u + 1], Ok(())) by {
                            if u == t {
                                assert(rr->Ok_0 == ());
                            }
                        }
                    }
                }
            }
            t = t + 1;
        }
        proof {
            let m = cells@.len() as int;
            assert forall|u: int| 0 <= u < m implies #[trigger] step(d, g, states[u], cs[u], states[u + 1], step_result(u, m, Ok(()))) by {}
            assert(states.len() >= 1 && states[0] == old(self).state() && states.last() == self.state()
                && run_trace(old(self).cells(), old(self).graph(), states, Seq::new(cells@.len(), |t: int| cells@[t] as int), Ok(())));
        }
        Ok(())
    }

    /// The positions of the cells named in `names`, all of which are cells.
    fn positions(&self, names: &Vec<String>) -> (r: Vec<usize>)
        requires
            self.wf(),
            forall|t: int| 0 <= t < names@.len() ==> names_of(self.cells()).contains(#[trigger] names@[t]@),
        ensures
            r@.len() == names@.len(),
            forall|t: int| 0 <= t < r@.len() ==> #[trigger] r@[t] < self.cells().len()
                && self.cells()[r@[t] as int].name@ == names@[t]@,
            Seq::new(r@.len(), |t: int| r@[t] as int) == positions_of(self.cells(), names_in(names@)),
            names_in(names@).no_duplicates() ==> r@.no_duplicates(),
    {
        let ghost d = self.descriptors@;
        let mut r: Vec<usize> = Vec::new();
        let mut t: usize = 0;
        while t < names.len()
            invariant
                self.wf(),
                d == self.descriptors@,
                forall|t: int| 0 <= t < names@.len() ==> names_of(d).contains(#[trigger] names@[t]@),
                t <= names@.len(),
                r@.len() == t,
                forall|u: int| 0 <= u < t ==> #[trigger] r@[u] < d.len() && d[r@[u] as int].name@ == names@[u]@
                    && r@[u] as int == position_of(d, names@[u]@),
            decreases names@.len() - t,
        {
            let found = self.find_cell(names[t].as_str());
            match found {
                Some(j) => {
                    proof {
                        let p = position_of(d, names@[t as int]@);
                        assert(names_of(d)[j as int] == names_of(d)[p]);
                    }
                    r.push(j);
                }
                None => {
                }
            }
            t = t + 1;
        }
        proof {
            if names_in(names@).no_duplicates() {
                assert forall|a: int, b: int| 0 <= a < r@.len() && 0 <= b < r@.len() && a != b implies r@[a] != r@[b] by {
                    assert(names_in(names@)[a] != names_in(names@)[b]);
                }
            }
        }
        r
    }

    /// Runs every cell in the graph's order, stopping at the first error;
    /// on success, returns that order.
    pub fn run_all(&mut self) -> (r: Result<Vec<String>, RuntimeError>)
        requires
            old(self).wf(),
            forall|j: int| 0 <= j < old(self).snaps().len() ==> #[trigger] old(self).snaps()[j].run_count < u64::MAX,
        ensures
            final(self).wf(),
            final(self).cells() == old(self).cells(),
            final(self).graph() == old(self).graph(),
            r matches Ok(order) ==> names_in(order@) == old(self).graph().order_names(),
            exists|states: Seq<NbState<V>>, res: Result<(), RuntimeError>| {
                &&& same_outcome(r, res)
                &&& states.len() >= 1
                &&& states[0] == old(self).state()
                &&& states.last() == final(self).state()
                &&& run_trace(old(self).cells(), old(self).graph(), states,
                    positions_of(old(self).cells(), old(self).graph().order_names()), res)
            },
    {
        let ghost d = self.descriptors@;
        let order_slice = self.graph.order();
        let mut order: Vec<String> = Vec::new();
        let mut t: usize = 0;
        while t < order_slice.len()
            invariant
                t <= order_slice@.len(),
                order@.len() == t,
                forall|u: int| 0 <= u < t ==> (#[trigger] order@[u])@ == order_slice@[u]@,
            decreases order_slice@.len() - t,
        {
            order.push(order_slice[t].clone());
            t = t + 1;
        }
        proof {
            assert(names_in(order@) =~= self.graph.order_names());
            crate::graph::lemma_order_distinct(&self.graph);
            assert forall|t: int| 0 <= t < order@.len() implies names_of(d).contains(#[trigger] order@[t]@) by {
                assert(self.graph.order_names()[t] == order@[t]@);
            }
        }
        let cells = self.positions(&order);
        let res = self.run_cells(&cells);
        match res {
            Ok(()) => Ok(order),
            Err(e) => Err(e),
        }
    }


    /// Marks the cells at `cells`, named `names`, stale.
    fn mark_stale(&mut self, cells: &Vec<usize>, Ghost(names): Ghost<Seq<Seq<char>>>)
        requires
            old(self).wf(),
            cells@.len() == names.len(),
            forall|t: int| 0 <= t < cells@.len() ==> #[trigger] cells@[t] < old(self).cells().len()
                && old(self).cells()[cells@[t] as int].name@ == names[t],
        ensures
            final(self).wf(),
            final(self).cells() == old(self).cells(),
            final(self).graph() == old(self).graph(),
            final(self).vault() == old(self).vault(),
            marked_stale(old(self).cells(), old(self).snaps(), final(self).snaps(), names),
            forall|j: int| 0 <= j < old(self).snaps().len() ==> #[trigger] final(self).snaps()[j].run_count == old(self).snaps()[j].run_count,
    {
        let ghost d = self.descriptors@;
        let ghost pre = self.snapshots@;
        let mut t: usize = 0;
        while t < cells.len()
            invariant
                self.wf(),
                self.descriptors@ == d,
                d == old(self).cells(),
                pre == old(self).snaps(),
                self.graph == old(self).graph(),
                self.vault == old(self).vault(),
                cells@.len() == names.len(),
                forall|t: int| 0 <= t < cells@.len() ==> #[trigger] cells@[t] < d.len() && d[cells@[t] as int].name@ == names[t],
                t <= cells@.len(),
                marked_stale(d, pre, self.snapshots@, names.take(t as int)),
            decreases cells@.len() - t,
        {
            let j = cells[t];
            let cur = &self.snapshots[j];
            let error = match &cur.error {
                Some(e) => Some(e.clone()),
                None => None,
            };
            let snap = CellSnapshot {
                name: cur.name.clone(),
                status: CellStatus::Stale,
                view: cur.view.clone(),
                run_count: cur.run_count,
                execution_time_us: cur.execution_time_us,
                error,
            };
            let ghost before = self.snapshots@;
            self.snapshots.set(j, snap);
            proof {
                let ghost nt = names.take(t + 1);
                assert forall|k: int| 0 <= k < pre.len() implies if nt.contains(d[k].name@) {
                    self.snapshots@[k] == (CellSnapshot { status: CellStatus::Stale, ..pre[k] })
                } else {
                    self.snapshots@[k] == pre[k]
                } by {
                    broadcast use vstd::seq_lib::group_seq_properties;
                    if k == j as int {
                        assert(nt.contains(d[k].name@));
                    }
                }
            }
            t = t + 1;
        }
        proof {
            assert(names.take(cells@.len() as int) =~= names);
        }
    }

    /// Runs cell `name` and then every cell that depends on it, in order,
    /// marking them all stale first; stops at the first error. On success,
    /// returns the cells it ran.
    pub fn run_from(&mut self, name: &str) -> (r: Result<Vec<String>, RuntimeError>)
        requires
            old(self).wf(),
            forall|j: int| 0 <= j < old(self).snaps().len() ==> #[trigger] old(self).snaps()[j].run_count < u64::MAX,
        ensures
            final(self).wf(),
            final(self).cells() == old(self).cells(),
            final(self).graph() == old(self).graph(),
            !names_of(old(self).cells()).contains(name@) ==> (r matches Err(e)
                && e.is("unknown_cell"@, unknown_cell_message(name@), Some(name@))
                && final(self).state() == old(self).state()),
            names_of(old(self).cells()).contains(name@) ==> {
                let g = old(self).graph();
                let run = seq![name@] + g.order_names().filter(|s: Seq<char>| g.reaches(name@, s));
                &&& r matches Ok(order) ==> names_in(order@) == run
                &&& exists|states: Seq<NbState<V>>, res: Result<(), RuntimeError>| {
                    &&& same_outcome(r, res)
                    &&& states.len() >= 1
                    &&& states[0].0 == old(self).vault()
                    &&& marked_stale(old(self).cells(), old(self).snaps(), states[0].1, run)
                    &&& states.last() == final(self).state()
                    &&& run_trace(old(self).cells(), g, states, positions_of(old(self).cells(), run), res)
                }
                &&& forall|j: int| 0 <= j < old(self).cells().len() && !run.contains(old(self).cells()[j].name@)
                    ==> #[trigger] keeps_cell(old(self).cells(), old(self).state(), final(self).state(), j)
                &&& r is Ok ==> all_ran_once(old(self).cells(), run, old(self).snaps(), final(self).snaps())
            },
    {
        let ghost g = self.graph;
        let ghost d = self.descriptors@;
        match self.find_cell(name) {
            None => {
                let mut m = String::new();
                push_str(&mut m, "unknown cell '");
                push_str(&mut m, name);
                push_str(&mut m, "'");
                return Err(RuntimeError::new("unknown_cell", m, Some(name)));
            },
            Some(j) => {
                proof {
                    assert(names_of(d)[j as int] == name@);
                }
            },
        }
        let kids = self.graph.descendants(name);
        let mut order: Vec<String> = Vec::new();
        order.push(name.to_owned());
        let mut t: usize = 0;
        while t < kids.len()
            invariant
                t <= kids@.len(),
                names_in(order@) =~= seq![name@] + names_in(kids@).take(t as int),
            decreases kids@.len() - t,
        {
            let ghost before = names_in(order@);
            order.push(kids[t].clone());
            proof {
                assert(names_in(order@) =~= before.push(kids@[t as int]@));
            }
            t = t + 1;
        }
        let ghost ds = g.order_names().filter(|s: Seq<char>| g.reaches(name@, s));
        proof {
            crate::graph::lemma_order_distinct(&g);
            lemma_filter_distinct(g.order_names(), |s: Seq<char>| g.reaches(name@, s));
            lemma_no_self_reach(&g, name@);
            assert(!ds.contains(name@)) by {
                if ds.contains(name@) {
                    let u = choose|u: int| 0 <= u < ds.len() && ds[u] == name@;
                    broadcast use vstd::seq_lib::group_filter_ensures;
                }
            }
            assert(names_in(order@).no_duplicates()) by {
                let run = names_in(order@);
                assert forall|a: int, b: int| 0 <= a < run.len() && 0 <= b < run.len() && a != b implies run[a] != run[b] by {}
            }
            assert forall|t: int| 0 <= t < order@.len() implies names_of(d).contains(#[trigger] order@[t]@) by {
                assert(names_in(order@)[t] == order@[t]@);
                if t == 0 {
                } else {
                    g.order_names().lemma_filter_contains_rev(|s: Seq<char>| g.reaches(name@, s), ds[t - 1]);
                }
            }
        }
        let cells = self.positions(&order);
        proof {
            assert forall|t: int| 0 <= t < cells@.len() implies #[trigger] cells@[t] < d.len()
                && d[cells@[t] as int].name@ == names_in(order@)[t] by {}
        }
        let ghost before_mark = self.state();
        self.mark_stale(&cells, Ghost(names_in(order@)));
        let ghost marked = self.state();
        let res = self.run_cells(&cells);
        proof {
            let run = names_in(order@);
            assert(run == seq![name@] + g.order_names().filter(|s: Seq<char>| g.reaches(name@, s)));
            let st = choose|states: Seq<NbState<V>>| {
                &&& states.len() >= 1
                &&& states[0] == marked
                &&& states.last() == self.state()
                &&& run_trace(d, g, states, Seq::new(cells@.len(), |t: int| cells@[t] as int), res)
            };
            assert(Seq::new(cells@.len(), |t: int| cells@[t] as int) =~= positions_of(d, run));
            assert forall|x: Seq<char>| #[trigger] run.contains(x) implies exists|k: int| 0 <= k < d.len() && d[k].name@ == x by {
                let t = choose|t: int| 0 <= t < run.len() && run[t] == x;
                assert(names_of(d).contains(order@[t]@));
                let k = choose|k: int| 0 <= k < names_of(d).len() && names_of(d)[k] == x;
                assert(d[k].name@ == x);
            }
            assert forall|j: int| 0 <= j < d.len() && !run.contains(d[j].name@)
                implies #[trigger] keeps_cell(d, old(self).state(), self.state(), j) by {
                assert(run[0] == name@);
                assert(!ds.contains(d[j].name@)) by {
                    if ds.contains(d[j].name@) {
                        let w = choose|w: int| 0 <= w < ds.len() && ds[w] == d[j].name@;
                        assert(run[w + 1] == d[j].name@);
                    }
                }
                lemma_below_misses(g, name@, ds, d[j].name@);
                assert forall|x: Seq<char>| #[trigger] run.contains(x) implies x != d[j].name@ && !g.reaches(x, d[j].name@) by {
                    let w = choose|w: int| 0 <= w < run.len() && run[w] == x;
                    if w > 0 {
                        assert(ds.contains(ds[w - 1]));
                    }
                }
                lemma_named_trace_keeps(d, g, run, st, res, j);
            }
            if res is Ok {
                let cs = positions_of(d, run);
                assert(run_trace(d, g, st, cs, res));
                assert forall|t: int| 0 <= t < cs.len() implies 0 <= #[trigger] cs[t] < st[0].1.len()
                    && d[cs[t]].name@ == run[t] by {
                    assert(run.contains(run[t]));
                }
                assert forall|j: int| 0 <= j < d.len() && run.contains(d[j].name@)
                    implies #[trigger] ran_once(old(self).snaps()[j], self.snaps()[j]) by {
                    let u = choose|u: int| 0 <= u < run.len() && run[u] == d[j].name@;
                    assert(d[cs[u]].name@ == run[u]);
                    assert(names_of(d)[cs[u]] == names_of(d)[j]);
                    assert(cs[u] == j);
                    assert forall|t: int| 0 <= t < cs.len() && t != u implies #[trigger] cs[t] != cs[u] by {
                        assert(d[cs[t]].name@ == run[t]);
                        assert(run[t] != run[u]);
                    }
                    lemma_ok_trace_prefix(d, g, st, cs, res, u, st.len() - 1);
                }
                assert(all_ran_once(d, run, old(self).snaps(), self.snaps()));
            }
        }
        match res {
            Ok(()) => Ok(order),
            Err(e) => Err(e),
        }
    }


    /// Applies a widget signal to cell `name`: the widget's code gives its
    /// new value and view, then every cell that depends on it is marked
    /// stale and run in order, stopping at the first error. A refused signal
    /// leaves the notebook unchanged. On success, returns the cells it ran.
    #[verifier::spinoff_prover]
    #[verifier::rlimit(40)]
    pub fn set_signal(&mut self, name: &str, value: serde_json::Value) -> (r: Result<Vec<String>, RuntimeError>)
        requires
            old(self).wf(),
            forall|j: int| 0 <= j < old(self).snaps().len() ==> #[trigger] old(self).snaps()[j].run_count < u64::MAX,
        ensures
            final(self).wf(),
            final(self).cells() == old(self).cells(),
            final(self).graph() == old(self).graph(),
            !names_of(old(self).cells()).contains(name@) ==> (r matches Err(e)
                && e.is("unknown_cell"@, unknown_cell_message(name@), Some(name@))
                && final(self).state() == old(self).state()),
            names_of(old(self).cells()).contains(name@) ==> {
                let d = old(self).cells();
                let g = old(self).graph();
                let i = position_of(d, name@);
                let ds = g.order_names().filter(|s: Seq<char>| g.reaches(name@, s));
                match d[i].update_signal {
                    None => r matches Err(e) && e.is("not_a_signal"@, not_a_signal_message(name@), Some(name@))
                        && final(self).state() == old(self).state(),
                    Some(u) => exists|o: Result<(V, display::View), RuntimeError>| {
                        &&& call_ensures(u, (&old(self).vault(), value), o)
                        &&& match o {
                            Err(e) => r == Err::<Vec<String>, RuntimeError>(e) && final(self).state() == old(self).state(),
                            Ok((v, view)) => {
                                &&& r matches Ok(order) ==> names_in(order@) == ds
                                &&& exists|states: Seq<NbState<V>>, res: Result<(), RuntimeError>, shown: Seq<CellSnapshot>| {
                                    &&& same_outcome(r, res)
                                    &&& states.len() >= 1
                                    &&& states[0].0@ == old(self).vault()@.insert(name@, v)
                                    &&& view_replaced(old(self).snaps(), shown, i, view)
                                    &&& marked_stale(d, shown, states[0].1, ds)
                                    &&& states.last() == final(self).state()
                                    &&& run_trace(d, g, states, positions_of(d, ds), res)
                                }
                                &&& signal_kept_rest(d, ds, old(self).state(), final(self).state(), i, v, view)
                                &&& r is Ok ==> all_ran_once(d, ds, old(self).snaps(), final(self).snaps())
                            },
                        }
                    },
                }
            },
    {
        let ghost g = self.graph;
        let ghost d = self.descriptors@;
        let ghost pre = self.state();
        let i = match self.find_cell(name) {
            None => {
                let mut m = String::new();
                push_str(&mut m, "unknown cell '");
                push_str(&mut m, name);
                push_str(&mut m, "'");
                return Err(RuntimeError::new("unknown_cell", m, Some(name)));
            },
            Some(i) => i,
        };
        proof {
            assert(names_of(d)[i as int] == name@);
            let p = position_of(d, name@);
            assert(names_of(d)[p] == names_of(d)[i as int]);
        }
        let outcome = match &self.descriptors[i].update_signal {
            None => {
                let mut m = String::new();
                push_str(&mut m, "'");
                push_str(&mut m, name);
                push_str(&mut m, "' is not a UI cell");
                return Err(RuntimeError::new("not_a_signal", m, Some(name)));
            },
            Some(update) => (*update)(&self.vault, value),
        };
        let ghost o = outcome;
        let (v, view) = match outcome {
            Err(e) => {
                return Err(e);
            },
            Ok(pair) => pair,
        };
        self.vault.insert(name, v);
        let cur = &self.snapshots[i];
        let error = match &cur.error {
            Some(e) => Some(e.clone()),
            None => None,
        };
        let snap = CellSnapshot {
            name: cur.name.clone(),
            status: cur.status.clone(),
            view,
            run_count: cur.run_count,
            execution_time_us: cur.execution_time_us,
            error,
        };
        self.snapshots.set(i, snap);
        let ghost shown = self.snapshots@;
        let order = self.graph.descendants(name);
        let ghost ds = g.order_names().filter(|s: Seq<char>| g.reaches(name@, s));
        proof {
            crate::graph::lemma_order_distinct(&g);
            lemma_filter_distinct(g.order_names(), |s: Seq<char>| g.reaches(name@, s));
            assert forall|t: int| 0 <= t < order@.len() implies names_of(d).contains(#[trigger] order@[t]@) by {
                g.order_names().lemma_filter_contains_rev(|s: Seq<char>| g.reaches(name@, s), ds[t]);
            }
        }
        let cells = self.positions(&order);
        proof {
            assert forall|t: int| 0 <= t < cells@.len() implies #[trigger] cells@[t] < d.len()
                && d[cells@[t] as int].name@ == names_in(order@)[t] by {}
        }
        self.mark_stale(&cells, Ghost(names_in(order@)));
        let ghost marked = self.state();
        let res = self.run_cells(&cells);
        let ghost g_res = res;
        let result = match res {
            Ok(()) => Ok(order),
            Err(e) => Err(e),
        };
        proof {
            let st = choose|states: Seq<NbState<V>>| {
                &&& states.len() >= 1
                &&& states[0] == marked
                &&& states.last() == self.state()
                &&& run_trace(d, g, states, Seq::new(cells@.len(), |t: int| cells@[t] as int), g_res)
            };
            assert(same_outcome(result, g_res) && st.len() >= 1 && st[0].0@ == pre.0@.insert(name@, o->Ok_0.0)
                && view_replaced(pre.1, shown, i as int, o->Ok_0.1) && marked_stale(d, shown, st[0].1, ds)
                && st.last() == self.state() && run_trace(d, g, st, positions_of(d, ds), g_res));
            let v0 = o->Ok_0.0;
            let view0 = o->Ok_0.1;
            assert(exists|states: Seq<NbState<V>>, res: Result<(), RuntimeError>, shown: Seq<CellSnapshot>| {
                &&& same_outcome(result, res)
                &&& states.len() >= 1
                &&& states[0].0@ == old(self).vault()@.insert(name@, v0)
                &&& view_replaced(old(self).snaps(), shown, i as int, view0)
                &&& marked_stale(d, shown, states[0].1, ds)
                &&& states.last() == self.state()
                &&& run_trace(d, g, states, positions_of(d, ds), res)
            });
            assert(names_in(order@) == ds);
            assert forall|x: Seq<char>| #[trigger] ds.contains(x) implies exists|k: int| 0 <= k < d.len() && d[k].name@ == x by {
                let t = choose|t: int| 0 <= t < ds.len() && ds[t] == x;
                assert(names_of(d).contains(order@[t]@));
                let k = choose|k: int| 0 <= k < names_of(d).len() && names_of(d)[k] == x;
                assert(d[k].name@ == x);
            }
            lemma_below_misses_self(g, name@, ds);
            lemma_named_trace_keeps(d, g, ds, st, g_res, i as int);
            assert forall|j: int| 0 <= j < d.len() && j != i && !ds.contains(d[j].name@)
                implies #[trigger] keeps_cell(d, old(self).state(), self.state(), j) by {
                assert(names_of(d)[j] != names_of(d)[i as int]);
                lemma_below_misses(g, name@, ds, d[j].name@);
                lemma_named_trace_keeps(d, g, ds, st, g_res, j);
            }
            assert(signal_kept_rest(d, ds, old(self).state(), self.state(), i as int, v0, view0));
            if g_res is Ok {
                let cs = positions_of(d, ds);
                assert forall|t: int| 0 <= t < cs.len() implies 0 <= #[trigger] cs[t] < st[0].1.len()
                    && d[cs[t]].name@ == ds[t] by {
                    assert(ds.contains(ds[t]));
                }
                assert forall|j: int| 0 <= j < d.len() && ds.contains(d[j].name@)
                    implies #[trigger] ran_once(old(self).snaps()[j], self.snaps()[j]) by {
                    let u = choose|u: int| 0 <= u < ds.len() && ds[u] == d[j].name@;
                    assert(d[cs[u]].name@ == ds[u]);
                    assert(names_of(d)[cs[u]] == names_of(d)[j]);
                    assert(cs[u] == j);
                    assert(j != i);
                    assert forall|t: int| 0 <= t < cs.len() && t != u implies #[trigger] cs[t] != cs[u] by {
                        assert(d[cs[t]].name@ == ds[t]);
                        assert(ds[t] != ds[u]);
                    }
                    lemma_ok_trace_prefix(d, g, st, cs, g_res, u, st.len() - 1);
                }
                assert(all_ran_once(d, ds, old(self).snaps(), self.snaps()));
            }
            let u = d[i as int].update_signal.unwrap();
            assert(match o {
                Err(e) => result == Err::<Vec<String>, RuntimeError>(e) && self.state() == old(self).state(),
                Ok((v, view)) => {
                    &&& result matches Ok(order) ==> names_in(order@) == ds
                    &&& exists|states: Seq<NbState<V>>, res: Result<(), RuntimeError>, shown: Seq<CellSnapshot>| {
                        &&& same_outcome(result, res)
                        &&& states.len() >= 1
                        &&& states[0].0@ == old(self).vault()@.insert(name@, v)
                        &&& view_replaced(old(self).snaps(), shown, i as int, view)
                        &&& marked_stale(d, shown, states[0].1, ds)
                        &&& states.last() == self.state()
                        &&& run_trace(d, g, states, positions_of(d, ds), res)
                    }
                    &&& signal_kept_rest(d, ds, old(self).state(), self.state(), i as int, v, view)
                    &&& result is Ok ==> all_ran_once(d, ds, old(self).snaps(), self.snaps())
                },
            });
            assert(names_of(old(self).cells()).contains(name@) ==> {
                let d = old(self).cells();
                let g = old(self).graph();
                let i = position_of(d, name@);
                let ds = g.order_names().filter(|s: Seq<char>| g.reaches(name@, s));
                match d[i].update_signal {
                    None => result matches Err(e) && e.is("not_a_signal"@, not_a_signal_message(name@), Some(name@))
                        && self.state() == old(self).state(),
                    Some(u) => exists|o: Result<(V, display::View), RuntimeError>| {
                        &&& call_ensures(u, (&old(self).vault(), value), o)
                        &&& match o {
                            Err(e) => result == Err::<Vec<String>, RuntimeError>(e) && self.state() == old(self).state(),
                            Ok((v, view)) => {
                                &&& result matches Ok(order) ==> names_in(order@) == ds
                                &&& exists|states: Seq<NbState<V>>, res: Result<(), RuntimeError>, shown: Seq<CellSnapshot>| {
                                    &&& same_outcome(result, res)
                                    &&& states.len() >= 1
                                    &&& states[0].0@ == old(self).vault()@.insert(name@, v)
                                    &&& view_replaced(old(self).snaps(), shown, i, view)
                                    &&& marked_stale(d, shown, states[0].1, ds)
                                    &&& states.last() == self.state()
                                    &&& run_trace(d, g, states, positions_of(d, ds), res)
                                }
                                &&& signal_kept_rest(d, ds, old(self).state(), self.state(), i, v, view)
                                &&& result is Ok ==> all_ran_once(d, ds, old(self).snaps(), self.snaps())
                            },
                        }
                    },
                }
            });
        }
        result
    }

    /// The current value of `name`, or a `missing_value` error.
    pub fn get(&self, name: &str) -> (r: Result<&V, RuntimeError>)
        ensures
            match r {
                Ok(v) => self.vault()@.contains_key(name@) && *v == self.vault()@[name@],
                Err(e) => !self.vault()@.contains_key(name@)
                    && e.is("missing_value"@, crate::state::missing_message(name@), Some(name@)),
            },
    {
        self.vault.get(name)
    }

    /// Every cell's state in registration order, and the graph's order.
    pub fn snapshot(&self) -> (s: NotebookSnapshot)
        requires
            self.wf(),
        ensures
            s.cells@ == self.snaps(),
            names_in(s.topo_order@) == self.graph().order_names(),
    {
        let mut cells: Vec<CellSnapshot> = Vec::new();
        let mut t: usize = 0;
        while t < self.snapshots.len()
            invariant
                t <= self.snapshots@.len(),
                cells@ =~= self.snapshots@.take(t as int),
            decreases self.snapshots@.len() - t,
        {
            cells.push(self.snapshots[t].clone());
            t = t + 1;
        }
        let order_slice = self.graph.order();
        let mut topo: Vec<String> = Vec::new();
        let mut u: usize = 0;
        while u < order_slice.len()
            invariant
                u <= order_slice@.len(),
                topo@.len() == u,
                forall|k: int| 0 <= k < u ==> (#[trigger] topo@[k])@ == order_slice@[k]@,
            decreases order_slice@.len() - u,
        {
            topo.push(order_slice[u].clone());
            u = u + 1;
        }
        NotebookSnapshot { cells, topo_order: topo }
    }

    /// The position of the cell named `name`.
    fn find_cell(&self, name: &str) -> (r: Option<usize>)
        ensures
            r matches Some(i) ==> i < self.descriptors@.len() && self.descriptors@[i as int].name@ == name@,
            r is None ==> !names_of(self.descriptors@).contains(name@),
    {
        let mut i: usize = 0;
        while i < self.descriptors.len()
            invariant
                i <= self.descriptors@.len(),
                forall|j: int| 0 <= j < i ==> self.descriptors@[j].name@ != name@,
            decreases self.descriptors@.len() - i,
        {
            if str_eq(self.descriptors[i].name, name) {
                return Some(i);
            }
            i = i + 1;
        }
        proof {
            if names_of(self.descriptors@).contains(name@) {
                let j = choose|j: int| 0 <= j < names_of(self.descriptors@).len() && names_of(self.descriptors@)[j] == name@;
            }
        }
        None
    }
}

} // verus!
