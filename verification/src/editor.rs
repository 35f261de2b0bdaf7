//! The editor's rules: which compiler messages become diagnostics, what the
//! build status is after each step of a rebuild, and when a save is written.
use vstd::prelude::*;

use vstd::string::StringSliceAdditionalSpecFns;

use crate::source::{replace_cell, replace_outcome};
use crate::text::{chars_of, str_eq, string_of, trim, trimmed};

verus! {

/// A compiler error shown in the editor, with the file and line of its
/// primary span when it has one.
pub struct BuildDiagnostic {
    pub message: String,
    pub file: Option<String>,
    pub line: Option<u64>,
}

impl BuildDiagnostic {
    pub open spec fn parts(&self) -> (Seq<char>, Option<Seq<char>>, Option<u64>) {
        (
            self.message@,
            match self.file {
                Some(f) => Some(f@),
                None => None,
            },
            self.line,
        )
    }

    pub fn clone(&self) -> (d: Self)
        ensures
            d == *self,
    {
        let file = match &self.file {
            Some(f) => Some(f.clone()),
            None => None,
        };
        BuildDiagnostic { message: self.message.clone(), file, line: self.line }
    }
}

/// A span of a compiler message: whether it is the primary one, its file
/// and its first line (each `None` when absent or of another JSON type).
pub struct CompilerSpan {
    pub is_primary: Option<bool>,
    pub file_name: Option<String>,
    pub line_start: Option<u64>,
}

/// What the editor reads of one JSON line of `cargo build
/// --message-format=json`: the `reason`, and the `level`, text and `spans`
/// of its `message` (each `None` when absent or of another JSON type).
pub struct CompilerEvent {
    pub reason: Option<String>,
    pub level: Option<String>,
    pub message: Option<String>,
    pub spans: Option<Vec<CompilerSpan>>,
}

/// The fields of the JSON value that the line holds, or `None` when the line
/// is not JSON.
pub uninterp spec fn compiler_event_of(line: Seq<u8>) -> Option<CompilerEvent>;

/// `serde_json::from_slice` of one line, then `Value::get`, `Value::pointer`
/// and the `as_str`, `as_bool`, `as_u64` and `as_array` readers for the
/// fields the editor uses. The result depends on the line alone.
#[verifier::external_body]
fn compiler_event(line: &[u8]) -> (r: Option<CompilerEvent>)
    ensures
        r == compiler_event_of(line@),
{
    let event: serde_json::Value = serde_json::from_slice(line).ok()?;
    let text = |pointer: &str| event.pointer(pointer)?.as_str().map(str::to_owned);
    let spans = event.pointer("/message/spans").and_then(serde_json::Value::as_array);
    Some(CompilerEvent {
        reason: text("/reason"),
        level: text("/message/level"),
        message: text("/message/message"),
        spans: spans.map(|spans| spans.iter().map(|span| CompilerSpan {
            is_primary: span.pointer("/is_primary").and_then(serde_json::Value::as_bool),
            file_name: span.pointer("/file_name").and_then(serde_json::Value::as_str).map(str::to_owned),
            line_start: span.pointer("/line_start").and_then(serde_json::Value::as_u64),
        }).collect()),
    })
}

pub open spec fn opt_view(s: Option<String>) -> Option<Seq<char>> {
    match s {
        Some(t) => Some(t@),
        None => None,
    }
}

/// The first span marked primary.
pub open spec fn primary_span(spans: Seq<CompilerSpan>) -> Option<CompilerSpan>
    decreases spans.len(),
{
    if spans.len() == 0 {
        None
    } else if spans[0].is_primary == Some(true) {
        Some(spans[0])
    } else {
        primary_span(spans.drop_first())
    }
}

/// The diagnostic a compiler event makes: only a `compiler-message` of level
/// `error` with a text and a list of spans makes one; its file and line are
/// those of the first primary span.
pub open spec fn diagnostic_parts(e: CompilerEvent) -> Option<(Seq<char>, Option<Seq<char>>, Option<u64>)> {
    if opt_view(e.reason) == Some("compiler-message"@) && opt_view(e.level) == Some("error"@)
        && e.spans is Some && e.message is Some {
        match primary_span(e.spans.unwrap()@) {
            Some(span) => Some((e.message.unwrap()@, opt_view(span.file_name), span.line_start)),
            None => Some((e.message.unwrap()@, None, None)),
        }
    } else {
        None
    }
}

fn optional_text(s: &Option<String>, expected: &str) -> (r: bool)
    ensures
        r == (opt_view(*s) == Some(expected@)),
{
    match s {
        Some(t) => str_eq(t.as_str(), expected),
        None => false,
    }
}

fn clone_text(s: &Option<String>) -> (r: Option<String>)
    ensures
        opt_view(r) == opt_view(*s),
{
    match s {
        Some(t) => Some(t.clone()),
        None => None,
    }
}

/// The diagnostic a compiler event makes, if any.
pub fn diagnostic_of(event: &CompilerEvent) -> (r: Option<BuildDiagnostic>)
    ensures
        match r {
            Some(d) => diagnostic_parts(*event) == Some(d.parts()),
            None => diagnostic_parts(*event) is None,
        },
{
    if !(optional_text(&event.reason, "compiler-message") && optional_text(&event.level, "error")) {
        return None;
    }
    let (spans, text) = match (&event.spans, &event.message) {
        (Some(spans), Some(text)) => (spans, text),
        _ => {
            return None;
        },
    };
    let mut i: usize = 0;
    assert(spans@.skip(0) =~= spans@);
    while i < spans.len()
        invariant
            event.spans == Some(*spans),
            event.message == Some(*text),
            opt_view(event.reason) == Some("compiler-message"@),
            opt_view(event.level) == Some("error"@),
            i <= spans@.len(),
            primary_span(spans@) == primary_span(spans@.skip(i as int)),
        decreases spans@.len() - i,
    {
        assert(spans@.skip(i as int).drop_first() =~= spans@.skip(i + 1));
        if let Some(true) = spans[i].is_primary {
            return Some(
                BuildDiagnostic {
                    message: text.clone(),
                    file: clone_text(&spans[i].file_name),
                    line: spans[i].line_start,
                },
            );
        }
        i = i + 1;
    }
    Some(BuildDiagnostic { message: text.clone(), file: None, line: None })
}

/// Splitting at `\n` (`<[u8]>::split`), where `current` is the part of a
/// line already read.
pub open spec fn byte_lines_from(s: Seq<u8>, current: Seq<u8>) -> Seq<Seq<u8>>
    decreases s.len(),
{
    if s.len() == 0 {
        seq![current]
    } else if s[0] == 10u8 {
        seq![current] + byte_lines_from(s.drop_first(), seq![])
    } else {
        byte_lines_from(s.drop_first(), current.push(s[0]))
    }
}

/// The pieces between newlines; there is always at least one.
pub open spec fn byte_lines(s: Seq<u8>) -> Seq<Seq<u8>> {
    byte_lines_from(s, seq![])
}

/// Lines put back together with a newline between each two.
pub open spec fn joined_lines(ls: Seq<Seq<u8>>) -> Seq<u8>
    decreases ls.len(),
{
    if ls.len() == 0 {
        Seq::empty()
    } else if ls.len() == 1 {
        ls[0]
    } else {
        ls[0] + seq![10u8] + joined_lines(ls.drop_first())
    }
}

proof fn lemma_byte_lines_from_parts(s: Seq<u8>, current: Seq<u8>)
    requires
        forall|i: int| 0 <= i < current.len() ==> current[i] != 10u8,
    ensures
        byte_lines_from(s, current).len() >= 1,
        joined_lines(byte_lines_from(s, current)) == current + s,
        forall|k: int, i: int| 0 <= k < byte_lines_from(s, current).len() && 0 <= i < byte_lines_from(s, current)[k].len()
            ==> #[trigger] byte_lines_from(s, current)[k][i] != 10u8,
    decreases s.len(),
{
    if s.len() == 0 {
        assert(current + s =~= current);
    } else if s[0] == 10u8 {
        let rest = byte_lines_from(s.drop_first(), seq![]);
        lemma_byte_lines_from_parts(s.drop_first(), seq![]);
        let all = seq![current] + rest;
        assert(all.drop_first() =~= rest);
        assert(all[0] == current);
        assert(joined_lines(rest) == seq![] + s.drop_first());
        assert(current + seq![10u8] + (Seq::<u8>::empty() + s.drop_first()) =~= current + s);
        assert forall|k: int, i: int| 0 <= k < all.len() && 0 <= i < all[k].len() implies #[trigger] all[k][i] != 10u8 by {
            if k > 0 {
                assert(all[k] == rest[k - 1]);
            }
        }
    } else {
        lemma_byte_lines_from_parts(s.drop_first(), current.push(s[0]));
        assert(current.push(s[0]) + s.drop_first() =~= current + s);
    }
}

/// Splitting output into lines loses and adds nothing: no line holds a
/// newline, and putting the lines back together with newlines between them
/// gives the output back.
pub proof fn lemma_byte_lines_rejoin(s: Seq<u8>)
    ensures
        byte_lines(s).len() >= 1,
        joined_lines(byte_lines(s)) == s,
        forall|k: int, i: int| 0 <= k < byte_lines(s).len() && 0 <= i < byte_lines(s)[k].len()
            ==> #[trigger] byte_lines(s)[k][i] != 10u8,
{
    lemma_byte_lines_from_parts(s, seq![]);
    assert(Seq::<u8>::empty() + s =~= s);
}

pub open spec fn byte_views(v: Seq<Vec<u8>>) -> Seq<Seq<u8>> {
    v.map_values(|w: Vec<u8>| w@)
}

/// The bytes split at each newline.
pub fn split_byte_lines(s: &[u8]) -> (r: Vec<Vec<u8>>)
    ensures
        byte_views(r@) == byte_lines(s@),
{
    let n = s.len();
    let mut out: Vec<Vec<u8>> = Vec::new();
    let mut current: Vec<u8> = Vec::new();
    let mut i: usize = 0;
    assert(s@.skip(0) =~= s@);
    while i < n
        invariant
            n == s@.len(),
            i <= n,
            byte_views(out@) + byte_lines_from(s@.skip(i as int), current@) == byte_lines(s@),
        decreases n - i,
    {
        let ghost rest = s@.skip(i as int);
        let ghost before = byte_views(out@);
        assert(rest.drop_first() =~= s@.skip(i + 1));
        if s[i] == 10u8 {
            let line = current;
            out.push(line);
            current = Vec::new();
            assert(before + (seq![line@] + byte_lines_from(s@.skip(i + 1), seq![])) =~= before.push(
                line@,
            ) + byte_lines_from(s@.skip(i + 1), seq![]));
        } else {
            current.push(s[i]);
        }
        i = i + 1;
    }
    let ghost before = byte_views(out@);
    let line = current;
    out.push(line);
    out
}

/// The diagnostics that the events make, in order.
pub open spec fn diagnostics_from(events: Seq<Option<CompilerEvent>>) -> Seq<
    (Seq<char>, Option<Seq<char>>, Option<u64>),
>
    decreases events.len(),
{
    if events.len() == 0 {
        Seq::empty()
    } else {
        let before = diagnostics_from(events.drop_last());
        match events.last() {
            Some(e) => match diagnostic_parts(e) {
                Some(d) => before.push(d),
                None => before,
            },
            None => before,
        }
    }
}

/// The events of two runs of output, one after the other, give the
/// diagnostics of the first and then those of the second: each line makes
/// its own diagnostic whatever the lines around it.
pub proof fn lemma_diagnostics_append(a: Seq<Option<CompilerEvent>>, b: Seq<Option<CompilerEvent>>)
    ensures
        diagnostics_from(a + b) == diagnostics_from(a) + diagnostics_from(b),
    decreases b.len(),
{
    if b.len() == 0 {
        assert(a + b =~= a);
        assert(diagnostics_from(a) + diagnostics_from(b) =~= diagnostics_from(a));
    } else {
        assert((a + b).drop_last() =~= a + b.drop_last());
        assert((a + b).last() == b.last());
        lemma_diagnostics_append(a, b.drop_last());
        match b.last() {
            Some(e) => match diagnostic_parts(e) {
                Some(d) => {
                    assert(diagnostics_from(a) + diagnostics_from(b.drop_last()).push(d) =~= (
                    diagnostics_from(a) + diagnostics_from(b.drop_last())).push(d));
                },
                None => {},
            },
            None => {},
        }
    }
}

/// A line makes exactly one diagnostic when it holds an error-level
/// `compiler-message` with a message and spans: its message, and the file
/// and line of its first primary span; any other line makes none.
pub proof fn lemma_diagnostics_one(ev: Option<CompilerEvent>)
    ensures
        (ev matches Some(e) && e.reason is Some && e.reason.unwrap()@ == "compiler-message"@
            && e.level is Some && e.level.unwrap()@ == "error"@ && e.spans is Some && e.message is Some)
            ==> {
            let e = ev.unwrap();
            &&& diagnostics_from(seq![ev]).len() == 1
            &&& diagnostics_from(seq![ev])[0].0 == e.message.unwrap()@
            &&& match primary_span(e.spans.unwrap()@) {
                Some(span) => diagnostics_from(seq![ev])[0].1 == opt_view(span.file_name)
                    && diagnostics_from(seq![ev])[0].2 == span.line_start,
                None => diagnostics_from(seq![ev])[0].1 is None && diagnostics_from(seq![ev])[0].2 is None,
            }
        },
        !(ev matches Some(e) && e.reason is Some && e.reason.unwrap()@ == "compiler-message"@
            && e.level is Some && e.level.unwrap()@ == "error"@ && e.spans is Some && e.message is Some)
            ==> diagnostics_from(seq![ev]).len() == 0,
{
    assert(seq![ev].drop_last() =~= Seq::<Option<CompilerEvent>>::empty());
    assert(seq![ev].last() == ev);
    assert(diagnostics_from(Seq::<Option<CompilerEvent>>::empty()).len() == 0);
    assert(diagnostics_from(seq![ev]) == match ev {
        Some(e) => match diagnostic_parts(e) {
            Some(d) => diagnostics_from(Seq::<Option<CompilerEvent>>::empty()).push(d),
            None => diagnostics_from(Seq::<Option<CompilerEvent>>::empty()),
        },
        None => diagnostics_from(Seq::<Option<CompilerEvent>>::empty()),
    });
}

/// The span a diagnostic points at is the first span marked primary, and
/// there is none when no span is marked primary.
pub proof fn lemma_primary_span_is_first(spans: Seq<CompilerSpan>)
    ensures
        primary_span(spans) matches Some(s) ==> exists|i: int| 0 <= i < spans.len() && spans[i] == s
            && spans[i].is_primary == Some(true)
            && forall|j: int| 0 <= j < i ==> (#[trigger] spans[j]).is_primary != Some(true),
        primary_span(spans) is None ==> forall|j: int| 0 <= j < spans.len() ==> (#[trigger] spans[j]).is_primary != Some(true),
    decreases spans.len(),
{
    if spans.len() > 0 {
        let rest = spans.drop_first();
        lemma_primary_span_is_first(rest);
        if spans[0].is_primary != Some(true) {
            if let Some(s) = primary_span(spans) {
                let i = choose|i: int| 0 <= i < rest.len() && rest[i] == s && rest[i].is_primary == Some(true)
                    && forall|j: int| 0 <= j < i ==> (#[trigger] rest[j]).is_primary != Some(true);
                assert(spans[i + 1] == s);
                assert forall|j: int| 0 <= j < i + 1 implies (#[trigger] spans[j]).is_primary != Some(true) by {
                    if j > 0 {
                        assert(spans[j] == rest[j - 1]);
                    }
                }
            } else {
                assert forall|j: int| 0 <= j < spans.len() implies (#[trigger] spans[j]).is_primary != Some(true) by {
                    if j > 0 {
                        assert(spans[j] == rest[j - 1]);
                    }
                }
            }
        } else {
            assert(spans[0] == primary_span(spans)->Some_0);
        }
    }
}

pub open spec fn diagnostic_views(v: Seq<BuildDiagnostic>) -> Seq<
    (Seq<char>, Option<Seq<char>>, Option<u64>),
> {
    v.map_values(|d: BuildDiagnostic| d.parts())
}

/// The compiler errors in the output of `cargo build --message-format=json`:
/// one per line that holds an error-level `compiler-message`.
pub fn parse_diagnostics(stdout: &[u8]) -> (r: Vec<BuildDiagnostic>)
    ensures
        diagnostic_views(r@) == diagnostics_from(
            byte_lines(stdout@).map_values(|line: Seq<u8>| compiler_event_of(line)),
        ),
{
    let lines = split_byte_lines(stdout);
    let ghost events = byte_lines(stdout@).map_values(|line: Seq<u8>| compiler_event_of(line));
    let mut out: Vec<BuildDiagnostic> = Vec::new();
    let mut i: usize = 0;
    while i < lines.len()
        invariant
            i <= lines@.len(),
            byte_views(lines@) == byte_lines(stdout@),
            events == byte_lines(stdout@).map_values(|line: Seq<u8>| compiler_event_of(line)),
            diagnostic_views(out@) == diagnostics_from(events.take(i as int)),
        decreases lines@.len() - i,
    {
        assert(events.take(i + 1).drop_last() =~= events.take(i as int));
        let event = compiler_event(lines[i].as_slice());
        if let Some(e) = &event {
            if let Some(d) = diagnostic_of(e) {
                let ghost before = diagnostic_views(out@);
                out.push(d);
            }
        }
        i = i + 1;
    }
    assert(events.take(events.len() as int) =~= events);
    out
}

/// Where the editor's source stands against the notebook that runs.
#[derive(PartialEq, Eq, Structural, Clone, Copy)]
pub enum SourceStatus {
    /// A build of the saved source is under way.
    Building,
    /// The running notebook was built from the saved source.
    Current,
    /// The saved source did not build; the running notebook is older.
    Stale,
}

impl SourceStatus {
    pub open spec fn text(self) -> Seq<char> {
        match self {
            SourceStatus::Building => "building"@,
            SourceStatus::Current => "current"@,
            SourceStatus::Stale => "stale"@,
        }
    }

    /// The name the page shows.
    pub fn as_str(&self) -> (s: &'static str)
        ensures
            s@ == self.text(),
    {
        match self {
            SourceStatus::Building => "building",
            SourceStatus::Current => "current",
            SourceStatus::Stale => "stale",
        }
    }
}

/// The build status the editor shows beside the source, and the diagnostics
/// of the last build.
pub struct BuildState {
    pub status: SourceStatus,
    pub diagnostics: Vec<BuildDiagnostic>,
}

impl BuildState {
    /// Before the first build.
    pub fn new() -> (b: Self)
        ensures
            b.status == SourceStatus::Building,
            b.diagnostics@.len() == 0,
    {
        BuildState { status: SourceStatus::Building, diagnostics: Vec::new() }
    }

    /// A changed source has been written; its build starts.
    pub fn begin(&mut self)
        ensures
            final(self).status == SourceStatus::Building,
            final(self).diagnostics@.len() == 0,
    {
        self.status = SourceStatus::Building;
        self.diagnostics = Vec::new();
    }

    /// The build finished, successfully or not, with these compiler errors
    /// and this standard error output. Returns whether a new worker is to be
    /// started. A failed build marks the source stale; when it reported no
    /// compiler error, its trimmed standard error becomes the one diagnostic.
    pub fn build_finished(&mut self, success: bool, diagnostics: Vec<BuildDiagnostic>, stderr: &str) -> (start: bool)
        ensures
            start == success,
            success ==> final(self).status == old(self).status && final(self).diagnostics@
                == diagnostics@,
            !success ==> final(self).status == SourceStatus::Stale,
            !success && diagnostics@.len() > 0 ==> final(self).diagnostics@ == diagnostics@,
            !success && diagnostics@.len() == 0 ==> diagnostic_views(final(self).diagnostics@)
                == seq![(trim(stderr@), None::<Seq<char>>, None::<u64>)],
    {
        self.diagnostics = diagnostics;
        if success {
            return true;
        }
        if self.diagnostics.len() == 0 {
            let text = trimmed(&chars_of(stderr));
            let d = BuildDiagnostic { message: string_of(&text), file: None, line: None };
            self.diagnostics.push(d);
        }
        self.status = SourceStatus::Stale;
        false
    }

    /// The new worker could not be started: the reason becomes a diagnostic
    /// and the source is stale.
    pub fn worker_failed(&mut self, message: String)
        ensures
            final(self).status == SourceStatus::Stale,
            diagnostic_views(final(self).diagnostics@) == diagnostic_views(
                old(self).diagnostics@,
            ).push((message@, None::<Seq<char>>, None::<u64>)),
    {
        let ghost before = diagnostic_views(self.diagnostics@);
        let d = BuildDiagnostic { message, file: None, line: None };
        self.diagnostics.push(d);
        self.status = SourceStatus::Stale;
    }

    /// The new worker runs: the source is current and has no diagnostics.
    pub fn worker_started(&mut self)
        ensures
            final(self).status == SourceStatus::Current,
            final(self).diagnostics@.len() == 0,
    {
        self.status = SourceStatus::Current;
        self.diagnostics = Vec::new();
    }

    /// The status a cell is shown with: while the source is stale, a cell
    /// that ran successfully is shown as stale.
    pub fn shown_status(&self, status: &str) -> (r: String)
        ensures
            r@ == (if self.status == SourceStatus::Stale && status@ == "success"@ {
                "stale"@
            } else {
                status@
            }),
    {
        if self.status == SourceStatus::Stale && str_eq(status, "success") {
            "stale".to_owned()
        } else {
            status.to_owned()
        }
    }
}

/// What saving the whole source does.
#[derive(PartialEq, Eq, Structural)]
pub enum SaveDecision {
    /// The file changed since the page loaded it: nothing is written.
    Conflict,
    /// The text is the file's own: nothing is written or built.
    Unchanged,
    /// The text is written and built.
    Write,
}

/// Whether a save of `updated`, made on a page that loaded `base`, is
/// written over the file's `current` text.
pub fn save_decision(current: &str, base: &str, updated: &str) -> (r: SaveDecision)
    ensures
        r == (if current@ != base@ {
            SaveDecision::Conflict
        } else if current@ == updated@ {
            SaveDecision::Unchanged
        } else {
            SaveDecision::Write
        }),
{
    if !str_eq(current, base) {
        SaveDecision::Conflict
    } else if str_eq(current, updated) {
        SaveDecision::Unchanged
    } else {
        SaveDecision::Write
    }
}

/// What saving one cell does.
pub enum CellSave {
    /// The file changed since the page loaded it.
    Conflict,
    /// The cell could not be replaced; the reason.
    Rejected(String),
    /// The new text leaves the file as it was.
    Unchanged(String),
    /// The file's new text, to be written and built.
    Write(String),
}

/// Saving `replacement` as the text of cell `name`, from a page that loaded
/// `base`, over the file's `current` text: a conflict when the file changed
/// since the page loaded it; otherwise the replacement of the first cell of
/// that name, which is written when it changes the file, or the reason it
/// cannot be made.
pub fn save_cell(current: &str, base: &str, name: &str, replacement: &str) -> (r: CellSave)
    ensures
        r is Conflict <==> current@ != base@,
        current@ == base@ ==> match replace_outcome(current@, name@, replacement@) {
            Err(e) => r matches CellSave::Rejected(m) && m@ == e,
            Ok(u) => if u == current@ {
                r matches CellSave::Unchanged(t) && t@ == u
            } else {
                r matches CellSave::Write(t) && t@ == u
            },
        },
{
    if !str_eq(current, base) {
        return CellSave::Conflict;
    }
    match replace_cell(current, name, replacement) {
        Err(e) => CellSave::Rejected(e),
        Ok(updated) => {
            if str_eq(updated.as_str(), current) {
                CellSave::Unchanged(updated)
            } else {
                CellSave::Write(updated)
            }
        },
    }
}

/// What the editor reads of one cell of a notebook's state, to carry its
/// widget over to a new worker: the kind of its view, and the `name` and
/// `value` of the widget the view describes.
pub struct WidgetEntry {
    pub kind: Option<String>,
    pub name: Option<String>,
    pub value: Option<serde_json::Value>,
}

/// The widget's signal an entry gives: the name and value of a `widget` view.
pub open spec fn entry_signal(e: WidgetEntry) -> Option<(Seq<char>, serde_json::Value)> {
    if opt_view(e.kind) == Some("widget"@) && e.name is Some && e.value is Some {
        Some((e.name.unwrap()@, e.value.unwrap()))
    } else {
        None
    }
}

/// The signals that the entries give, in order.
pub open spec fn entry_signals(entries: Seq<WidgetEntry>) -> Seq<(Seq<char>, serde_json::Value)>
    decreases entries.len(),
{
    if entries.len() == 0 {
        Seq::empty()
    } else {
        let before = entry_signals(entries.drop_last());
        match entry_signal(entries.last()) {
            Some(x) => before.push(x),
            None => before,
        }
    }
}

/// Replaying the entries of two lists one after the other sends the signals
/// of the first list and then those of the second: each entry gives its
/// signal whatever the entries around it.
pub proof fn lemma_entry_signals_append(a: Seq<WidgetEntry>, b: Seq<WidgetEntry>)
    ensures
        entry_signals(a + b) == entry_signals(a) + entry_signals(b),
    decreases b.len(),
{
    if b.len() == 0 {
        assert(a + b =~= a);
        assert(entry_signals(a) + entry_signals(b) =~= entry_signals(a));
    } else {
        assert((a + b).drop_last() =~= a + b.drop_last());
        assert((a + b).last() == b.last());
        lemma_entry_signals_append(a, b.drop_last());
        match entry_signal(b.last()) {
            Some(x) => {
                assert(entry_signals(a) + entry_signals(b.drop_last()).push(x) =~= (entry_signals(a)
                    + entry_signals(b.drop_last())).push(x));
            },
            None => {},
        }
    }
}

/// One entry gives exactly one signal, its widget's name and value, when
/// its view is a widget with a name and a value, and nothing otherwise.
pub proof fn lemma_entry_signals_one(e: WidgetEntry)
    ensures
        (e.kind is Some && e.kind.unwrap()@ == "widget"@ && e.name is Some && e.value is Some)
            ==> entry_signals(seq![e]) == seq![(e.name.unwrap()@, e.value.unwrap())],
        !(e.kind is Some && e.kind.unwrap()@ == "widget"@ && e.name is Some && e.value is Some)
            ==> entry_signals(seq![e]).len() == 0,
{
    assert(seq![e].drop_last() =~= Seq::<WidgetEntry>::empty());
    assert(seq![e].last() == e);
    assert(entry_signals(Seq::<WidgetEntry>::empty()) == Seq::<(Seq<char>, serde_json::Value)>::empty());
    assert(entry_signals(seq![e]) == match entry_signal(e) {
        Some(x) => Seq::<(Seq<char>, serde_json::Value)>::empty().push(x),
        None => Seq::<(Seq<char>, serde_json::Value)>::empty(),
    });
    assert(Seq::<(Seq<char>, serde_json::Value)>::empty().push((e.name.unwrap()@, e.value.unwrap()))
        =~= seq![(e.name.unwrap()@, e.value.unwrap())]);
}

/// Every widget entry is replayed: the number of signals is the number of
/// entries whose view is a widget with a name and a value.
pub proof fn lemma_entry_signals_count(entries: Seq<WidgetEntry>)
    ensures
        entry_signals(entries).len() == entries.filter(
            |e: WidgetEntry| e.kind is Some && e.kind.unwrap()@ == "widget"@ && e.name is Some && e.value is Some,
        ).len(),
    decreases entries.len(),
{
    let p = |e: WidgetEntry| e.kind is Some && e.kind.unwrap()@ == "widget"@ && e.name is Some && e.value is Some;
    if entries.len() == 0 {
        assert(entries.filter(p) =~= Seq::<WidgetEntry>::empty());
    } else {
        lemma_entry_signals_count(entries.drop_last());
        reveal_with_fuel(Seq::filter, 1);
        assert(entries.drop_last().push(entries.last()) =~= entries);
        lemma_entry_signals_one(entries.last());
        assert(entries.filter(p) == {
            let f = entries.drop_last().filter(p);
            if p(entries.last()) { f.push(entries.last()) } else { f }
        });
    }
}

/// The widget signals to send again: the name and value of every cell whose
/// view is a widget, in order.
pub fn signals_to_replay(entries: Vec<WidgetEntry>) -> (r: Vec<(String, serde_json::Value)>)
    ensures
        r@.map_values(|x: (String, serde_json::Value)| (x.0@, x.1)) == entry_signals(entries@),
{
    let ghost all = entries@;
    let mut out: Vec<(String, serde_json::Value)> = Vec::new();
    let rest = entries;
    let mut i: usize = 0;
    let n = rest.len();
    while i < n
        invariant
            n == all.len(),
            i <= n,
            out@.map_values(|x: (String, serde_json::Value)| (x.0@, x.1)) == entry_signals(all.take(i as int)),
            rest@ == all,
        decreases n - i,
    {
        assert(all.take(i + 1).drop_last() =~= all.take(i as int));
        let e = &rest[i];
        let ghost before = out@.map_values(|x: (String, serde_json::Value)| (x.0@, x.1));
        let widget = match &e.kind {
            Some(kind) => str_eq(kind.as_str(), "widget"),
            None => false,
        };
        if widget {
            if let (Some(name), Some(value)) = (&e.name, &e.value) {
                let pair = (name.clone(), crate::display::clone_json(value));
                out.push(pair);
            }
        }
        i = i + 1;
    }
    assert(all.take(n as int) =~= all);
    out
}

/// What `std::path::Path::parent` gives for a path, as text.
pub uninterp spec fn path_parent(path: Seq<char>) -> Option<Seq<char>>;

/// What `std::path::Path::extension` gives for a path, as text.
pub uninterp spec fn path_extension(path: Seq<char>) -> Option<Seq<char>>;

/// What `std::path::Path::file_stem` gives for a path, as text.
pub uninterp spec fn path_stem(path: Seq<char>) -> Option<Seq<char>>;

/// Whether `std::path::Path`'s `==` holds of two paths (it compares their
/// components).
pub uninterp spec fn same_path(a: Seq<char>, b: Seq<char>) -> bool;

/// `Path::parent`, as text (`Path::to_str`).
#[verifier::external_body]
fn parent_of(path: &str) -> (r: Option<String>)
    ensures
        opt_view(r) == path_parent(path@),
{
    std::path::Path::new(path).parent().and_then(|parent| parent.to_str()).map(str::to_owned)
}

/// `Path::extension`, as text (`OsStr::to_str`).
#[verifier::external_body]
fn extension_of(path: &str) -> (r: Option<String>)
    ensures
        opt_view(r) == path_extension(path@),
{
    std::path::Path::new(path).extension().and_then(|ext| ext.to_str()).map(str::to_owned)
}

/// `Path::file_stem`, as text (`OsStr::to_str`).
#[verifier::external_body]
fn stem_of(path: &str) -> (r: Option<String>)
    ensures
        opt_view(r) == path_stem(path@),
{
    std::path::Path::new(path).file_stem().and_then(|stem| stem.to_str()).map(str::to_owned)
}

/// `Path`'s `==`.
#[verifier::external_body]
fn paths_equal(a: &str, b: &str) -> (r: bool)
    ensures
        r == same_path(a@, b@),
{
    std::path::Path::new(a) == std::path::Path::new(b)
}

/// `file` is a `.rs` file directly in `dir`.
pub open spec fn in_examples(file: Seq<char>, dir: Seq<char>) -> bool {
    &&& match path_parent(file) {
        Some(parent) => same_path(parent, dir),
        None => false,
    }
    &&& path_extension(file) == Some("rs"@)
}

pub open spec fn outside_examples_message() -> Seq<char> {
    "the first editor version accepts a .rs file in crates/rustimo/examples"@
}

/// The name of the example the editor may edit at `file`: the file must be
/// a `.rs` file directly in `examples_dir`, and its stem is the example's
/// name. Both paths are taken as the program has made them canonical.
pub fn editable_example(file: &str, examples_dir: &str) -> (r: Result<String, String>)
    ensures
        !in_examples(file@, examples_dir@) ==> (r matches Err(m) && m@
            == outside_examples_message()),
        in_examples(file@, examples_dir@) ==> match path_stem(file@) {
            Some(stem) => r matches Ok(name) && name@ == stem,
            None => r matches Err(m) && m@ == "invalid example name"@,
        },
{
    let in_examples = match parent_of(file) {
        Some(parent) => paths_equal(parent.as_str(), examples_dir),
        None => false,
    };
    let is_rust = match extension_of(file) {
        Some(extension) => str_eq(extension.as_str(), "rs"),
        None => false,
    };
    if !in_examples || !is_rust {
        return Err("the first editor version accepts a .rs file in crates/rustimo/examples".to_owned());
    }
    match stem_of(file) {
        Some(stem) => Ok(stem),
        None => Err("invalid example name".to_owned()),
    }
}

/// The editor serves only on a loopback address.
pub fn editor_bind(is_loopback: bool) -> (r: Result<(), String>)
    ensures
        r is Ok <==> is_loopback,
        r matches Err(m) ==> m@ == "editor must bind to localhost"@,
{
    if is_loopback {
        Ok(())
    } else {
        Err("editor must bind to localhost".to_owned())
    }
}

/// What to do next while waiting for a newly started worker.
pub enum StartupAction {
    /// Look again after a short pause.
    Wait,
    /// The worker answered: it replaces the old one.
    Keep,
    /// Stop the worker and report `message`; `timed_out` when time ran out.
    Abandon { timed_out: bool, message: String },
}

/// One look at a starting worker: `before_deadline` tells whether time is
/// left, `exited` whether its process has ended, and `answered` whether it
/// answered a request for its state. A worker that ended is given up, one
/// that answers is kept, and after the deadline the wait is over.
pub fn startup_step(before_deadline: bool, exited: bool, answered: bool) -> (a: StartupAction)
    ensures
        !before_deadline ==> (a matches StartupAction::Abandon { timed_out, message }
            && timed_out && message@ == "new notebook worker did not become ready"@),
        before_deadline && exited ==> (a matches StartupAction::Abandon { timed_out, message }
            && !timed_out && message@ == "new notebook worker exited before it became ready"@),
        before_deadline && !exited ==> (answered ==> a is Keep) && (!answered ==> a is Wait),
{
    if !before_deadline {
        StartupAction::Abandon { timed_out: true, message: "new notebook worker did not become ready".to_owned() }
    } else if exited {
        StartupAction::Abandon { timed_out: false, message: "new notebook worker exited before it became ready".to_owned() }
    } else if answered {
        StartupAction::Keep
    } else {
        StartupAction::Wait
    }
}

} // verus!
