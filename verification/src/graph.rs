//! The validated dependency graph of a notebook.
//!
//! A cell's name is its definition; each of its references names a cell it
//! reads. Validation rejects duplicate names, references to unknown cells,
//! references that expect another type than the producer makes, and cycles.
//! Cells run in the topological order that always takes the smallest
//! (code point order) name among the cells whose inputs are all ready.
use vstd::prelude::*;

use crate::error::{opt_chars, RuntimeError};
use crate::runtime::CellDescriptor;
use crate::text::{chars_eq, chars_lt, chars_of, lemma_seq_lt_asymmetric, lemma_seq_lt_irreflexive, lemma_seq_lt_total, lemma_seq_lt_transitive, push_str, seq_lt};

verus! {

// ---------------------------------------------------------------------------
// The specification of validation
// ---------------------------------------------------------------------------

/// The names of the cells, in registration order.
pub open spec fn names_of<R, U, I>(cells: Seq<CellDescriptor<R, U, I>>) -> Seq<Seq<char>> {
    Seq::new(cells.len(), |i: int| cells[i].name@)
}

/// Some name is registered twice.
pub open spec fn has_duplicate(ns: Seq<Seq<char>>) -> bool {
    exists|a: int, b: int| 0 <= a < b < ns.len() && ns[a] == ns[b]
}

/// `j` is the first position whose name repeats an earlier one.
pub open spec fn is_first_duplicate(ns: Seq<Seq<char>>, j: int) -> bool {
    &&& 0 <= j < ns.len()
    &&& exists|a: int| 0 <= a < j && ns[a] == ns[j]
    &&& !has_duplicate(ns.take(j))
}

/// Some cell produces the value named `name` with type `ty`.
pub open spec fn produces<R, U, I>(cells: Seq<CellDescriptor<R, U, I>>, name: Seq<char>, ty: Seq<char>) -> bool {
    exists|p: int| 0 <= p < cells.len() && cells[p].name@ == name && cells[p].result_type@ == ty
}

/// Some cell is named `name`.
pub open spec fn defines<R, U, I>(cells: Seq<CellDescriptor<R, U, I>>, name: Seq<char>) -> bool {
    exists|p: int| 0 <= p < cells.len() && cells[p].name@ == name
}

/// Reference `k` of cell `i` names a cell that produces the expected type.
pub open spec fn ref_ok<R, U, I>(cells: Seq<CellDescriptor<R, U, I>>, i: int, k: int) -> bool {
    produces(cells, cells[i].refs@[k].name@, cells[i].refs@[k].expected_type@)
}

/// `(i, k)` is a reference position.
pub open spec fn ref_pos<R, U, I>(cells: Seq<CellDescriptor<R, U, I>>, i: int, k: int) -> bool {
    0 <= i < cells.len() && 0 <= k < cells[i].refs@.len()
}

/// `(i2, k2)` comes before `(i, k)` in registration order.
pub open spec fn lex_before(i2: int, k2: int, i: int, k: int) -> bool {
    i2 < i || (i2 == i && k2 < k)
}

/// Every reference before `(i, k)` is satisfied.
pub open spec fn refs_ok_before<R, U, I>(cells: Seq<CellDescriptor<R, U, I>>, i: int, k: int) -> bool {
    forall|i2: int, k2: int| ref_pos(cells, i2, k2) && lex_before(i2, k2, i, k) ==> ref_ok(cells, i2, k2)
}

/// Every reference is satisfied.
pub open spec fn all_refs_ok<R, U, I>(cells: Seq<CellDescriptor<R, U, I>>) -> bool {
    refs_ok_before(cells, cells.len() as int, 0)
}

/// `(i, k)` is the first unsatisfied reference.
pub open spec fn is_first_bad_ref<R, U, I>(cells: Seq<CellDescriptor<R, U, I>>, i: int, k: int) -> bool {
    ref_pos(cells, i, k) && !ref_ok(cells, i, k) && refs_ok_before(cells, i, k)
}

/// Cell `c` reads the value of cell `p`.
pub open spec fn dep_edge<R, U, I>(cells: Seq<CellDescriptor<R, U, I>>, p: Seq<char>, c: Seq<char>) -> bool {
    exists|i: int, k: int| ref_pos(cells, i, k) && cells[i].name@ == c && cells[i].refs@[k].name@ == p
}

/// `x` can run next after the cells in `placed`: all of its inputs are placed.
pub open spec fn available<R, U, I>(cells: Seq<CellDescriptor<R, U, I>>, placed: Seq<Seq<char>>, x: Seq<char>) -> bool {
    &&& names_of(cells).contains(x)
    &&& !placed.contains(x)
    &&& forall|p: Seq<char>| dep_edge(cells, p, x) ==> placed.contains(p)
}

/// Each cell of `order` is the smallest name available at its turn.
pub open spec fn greedy_order<R, U, I>(cells: Seq<CellDescriptor<R, U, I>>, order: Seq<Seq<char>>) -> bool {
    forall|k: int| 0 <= k < order.len() ==> {
        &&& available(cells, order.take(k), #[trigger] order[k])
        &&& forall|y: Seq<char>| available(cells, order.take(k), y) ==> y == order[k] || seq_lt(order[k], y)
    }
}

/// No cell is available after `order`.
pub open spec fn stuck<R, U, I>(cells: Seq<CellDescriptor<R, U, I>>, order: Seq<Seq<char>>) -> bool {
    forall|y: Seq<char>| !available(cells, order, y)
}

/// `s` is strictly increasing in code point order.
pub open spec fn strictly_sorted(s: Seq<Seq<char>>) -> bool {
    forall|a: int, b: int| 0 <= a < b < s.len() ==> seq_lt(s[a], s[b])
}

/// Names joined by `", "`.
pub open spec fn join_names(ns: Seq<Seq<char>>) -> Seq<char>
    decreases ns.len(),
{
    if ns.len() == 0 {
        Seq::empty()
    } else if ns.len() == 1 {
        ns[0]
    } else {
        join_names(ns.drop_last()) + ", "@ + ns.last()
    }
}

pub open spec fn duplicate_message(name: Seq<char>) -> Seq<char> {
    "'"@ + name + "' is defined by more than one cell"@
}

pub open spec fn unknown_message(cell: Seq<char>, reference: Seq<char>) -> Seq<char> {
    "'"@ + cell + "' needs undefined cell '"@ + reference + "'"@
}

pub open spec fn mismatch_message(cell: Seq<char>, reference: Seq<char>, expected: Seq<char>, actual: Seq<char>) -> Seq<char> {
    "'"@ + cell + "' expects '"@ + reference + "' as "@ + expected + ", but it produces "@ + actual
}

pub open spec fn cycle_message(involved: Seq<Seq<char>>) -> Seq<char> {
    "cell dependency cycle involves: "@ + join_names(involved)
}

/// The error reported for the first unsatisfied reference `(i, k)`.
pub open spec fn bad_ref_error<R, U, I>(cells: Seq<CellDescriptor<R, U, I>>, i: int, k: int, e: RuntimeError) -> bool {
    let cell = cells[i].name@;
    let r = cells[i].refs@[k];
    if !defines(cells, r.name@) {
        e.is("unknown_reference"@, unknown_message(cell, r.name@), Some(cell))
    } else {
        exists|p: int| 0 <= p < cells.len() && cells[p].name@ == r.name@
            && e.is("type_mismatch"@, mismatch_message(cell, r.name@, r.expected_type@, cells[p].result_type@), Some(cell))
    }
}

/// `order` is a complete greedy run: it stops only when nothing is available.
pub open spec fn greedy_run<R, U, I>(cells: Seq<CellDescriptor<R, U, I>>, order: Seq<Seq<char>>) -> bool {
    greedy_order(cells, order) && stuck(cells, order)
}

/// `order` holds every cell.
pub open spec fn covers_all<R, U, I>(cells: Seq<CellDescriptor<R, U, I>>, order: Seq<Seq<char>>) -> bool {
    forall|x: Seq<char>| names_of(cells).contains(x) ==> order.contains(x)
}

/// The cells form a valid notebook: distinct names, satisfied references, no cycle.
pub open spec fn valid_cells<R, U, I>(cells: Seq<CellDescriptor<R, U, I>>) -> bool {
    &&& !has_duplicate(names_of(cells))
    &&& all_refs_ok(cells)
    &&& exists|order: Seq<Seq<char>>| greedy_run(cells, order) && covers_all(cells, order)
}

/// `g` is the graph of the valid cells `cells`.
pub open spec fn accepts<R, U, I>(cells: Seq<CellDescriptor<R, U, I>>, g: ReactiveGraph) -> bool {
    &&& !has_duplicate(names_of(cells))
    &&& all_refs_ok(cells)
    &&& g.wf()
    &&& greedy_run(cells, g.order_names())
    &&& covers_all(cells, g.order_names())
    &&& forall|p: Seq<char>, c: Seq<char>| g.edge(p, c) <==> dep_edge(cells, p, c)
}

/// `e` reports the first problem with `cells`: a duplicate name, else the
/// first unsatisfied reference, else the cells caught in a cycle.
pub open spec fn rejects<R, U, I>(cells: Seq<CellDescriptor<R, U, I>>, e: RuntimeError) -> bool {
    let ns = names_of(cells);
    if has_duplicate(ns) {
        exists|j: int| is_first_duplicate(ns, j) && e.is("duplicate_definition"@, duplicate_message(ns[j]), Some(ns[j]))
    } else if !all_refs_ok(cells) {
        exists|i: int, k: int| is_first_bad_ref(cells, i, k) && bad_ref_error(cells, i, k, e)
    } else {
        exists|order: Seq<Seq<char>>, involved: Seq<Seq<char>>| {
            &&& greedy_run(cells, order)
            &&& !covers_all(cells, order)
            &&& strictly_sorted(involved)
            &&& forall|x: Seq<char>| involved.contains(x) <==> (ns.contains(x) && !order.contains(x))
            &&& e.is("cycle"@, cycle_message(involved), Some(involved[0]))
        }
    }
}

/// The greedy run is determined by the cells: two greedy runs are equal.
pub proof fn lemma_greedy_run_unique<R, U, I>(cells: Seq<CellDescriptor<R, U, I>>, o1: Seq<Seq<char>>, o2: Seq<Seq<char>>)
    requires
        greedy_run(cells, o1),
        greedy_run(cells, o2),
    ensures
        o1 == o2,
{
    let m = if o1.len() < o2.len() { o1.len() as int } else { o2.len() as int };
    lemma_greedy_prefix_equal(cells, o1, o2, m);
    if o1.len() > o2.len() {
        assert(o1.take(m) =~= o2);
        assert(!available(cells, o2, o1[m]));
    } else if o2.len() > o1.len() {
        assert(o2.take(m) =~= o1);
        assert(!available(cells, o1, o2[m]));
    } else {
        assert(o2.take(m) =~= o2);
    }
}

proof fn lemma_greedy_prefix_equal<R, U, I>(cells: Seq<CellDescriptor<R, U, I>>, o1: Seq<Seq<char>>, o2: Seq<Seq<char>>, k: int)
    requires
        greedy_order(cells, o1),
        greedy_order(cells, o2),
        0 <= k <= o1.len(),
        k <= o2.len(),
    ensures
        o1.take(k) == o2.take(k),
    decreases k,
{
    if k > 0 {
        lemma_greedy_prefix_equal(cells, o1, o2, k - 1);
        let p = o1.take(k - 1);
        if o1[k - 1] != o2[k - 1] {
            lemma_seq_lt_asymmetric(o1[k - 1], o2[k - 1]);
        }
    }
}

/// Two strictly sorted lists with the same names are the same list.
proof fn lemma_sorted_unique(s1: Seq<Seq<char>>, s2: Seq<Seq<char>>)
    requires
        strictly_sorted(s1),
        strictly_sorted(s2),
        forall|x: Seq<char>| s1.contains(x) <==> s2.contains(x),
    ensures
        s1 == s2,
    decreases s1.len(),
{
    if s1.len() == 0 {
        if s2.len() > 0 {
            assert(s2.contains(s2[0]));
        }
        assert(s1 =~= s2);
    } else {
        assert(s1.contains(s1[0]));
        let b = choose|b: int| 0 <= b < s2.len() && s2[b] == s1[0];
        assert(s2.contains(s2[0]));
        let a = choose|a: int| 0 <= a < s1.len() && s1[a] == s2[0];
        if a > 0 && b > 0 {
            lemma_seq_lt_asymmetric(s1[0], s2[0]);
        }
        if a > 0 && b == 0 {
            lemma_seq_lt_irreflexive(s1[0]);
        }
        if a == 0 && b > 0 {
            lemma_seq_lt_irreflexive(s2[0]);
        }
        let t1 = s1.drop_first();
        let t2 = s2.drop_first();
        assert forall|x: Seq<char>| t1.contains(x) <==> t2.contains(x) by {
            if t1.contains(x) {
                let u = choose|u: int| 0 <= u < t1.len() && t1[u] == x;
                assert(s1[u + 1] == x);
                lemma_seq_lt_irreflexive(x);
                assert(s2.contains(x));
                let w = choose|w: int| 0 <= w < s2.len() && s2[w] == x;
                if w == 0 {
                    assert(seq_lt(s1[0], s1[u + 1]));
                }
                assert(t2[w - 1] == x);
            }
            if t2.contains(x) {
                let u = choose|u: int| 0 <= u < t2.len() && t2[u] == x;
                assert(s2[u + 1] == x);
                lemma_seq_lt_irreflexive(x);
                assert(s1.contains(x));
                let w = choose|w: int| 0 <= w < s1.len() && s1[w] == x;
                if w == 0 {
                    assert(seq_lt(s2[0], s2[u + 1]));
                }
                assert(t1[w - 1] == x);
            }
        }
        lemma_sorted_unique(t1, t2);
        assert(s1 =~= seq![s1[0]] + t1);
        assert(s2 =~= seq![s2[0]] + t2);
    }
}

/// Validation finds one error for a set of cells: any two errors that
/// refuse the same cells have the same code, message and cell. So a
/// notebook is refused with exactly the error its graph is refused with.
pub proof fn lemma_rejects_unique<R, U, I>(cells: Seq<CellDescriptor<R, U, I>>, e1: RuntimeError, e2: RuntimeError)
    requires
        rejects(cells, e1),
        rejects(cells, e2),
    ensures
        e1.code@ == e2.code@,
        e1.message@ == e2.message@,
        opt_chars(e1.cell) == opt_chars(e2.cell),
{
    let ns = names_of(cells);
    if has_duplicate(ns) {
        let j1 = choose|j: int| is_first_duplicate(ns, j) && e1.is("duplicate_definition"@, duplicate_message(ns[j]), Some(ns[j]));
        let j2 = choose|j: int| is_first_duplicate(ns, j) && e2.is("duplicate_definition"@, duplicate_message(ns[j]), Some(ns[j]));
        if j1 < j2 {
            let a = choose|a: int| 0 <= a < j1 && ns[a] == ns[j1];
            assert(ns.take(j2)[a] == ns.take(j2)[j1]);
        } else if j2 < j1 {
            let a = choose|a: int| 0 <= a < j2 && ns[a] == ns[j2];
            assert(ns.take(j1)[a] == ns.take(j1)[j2]);
        }
    } else if !all_refs_ok(cells) {
        let (i1, k1) = choose|i: int, k: int| is_first_bad_ref(cells, i, k) && bad_ref_error(cells, i, k, e1);
        let (i2, k2) = choose|i: int, k: int| is_first_bad_ref(cells, i, k) && bad_ref_error(cells, i, k, e2);
        if lex_before(i1, k1, i2, k2) {
            assert(ref_ok(cells, i1, k1));
        } else if lex_before(i2, k2, i1, k1) {
            assert(ref_ok(cells, i2, k2));
        }
        assert(i1 == i2 && k1 == k2);
        let r = cells[i1].refs@[k1];
        if defines(cells, r.name@) {
            let p1 = choose|p: int| 0 <= p < cells.len() && cells[p].name@ == r.name@
                && e1.is("type_mismatch"@, mismatch_message(cells[i1].name@, r.name@, r.expected_type@, cells[p].result_type@), Some(cells[i1].name@));
            let p2 = choose|p: int| 0 <= p < cells.len() && cells[p].name@ == r.name@
                && e2.is("type_mismatch"@, mismatch_message(cells[i1].name@, r.name@, r.expected_type@, cells[p].result_type@), Some(cells[i1].name@));
            if p1 < p2 {
                assert(ns[p1] == ns[p2]);
            } else if p2 < p1 {
                assert(ns[p2] == ns[p1]);
            }
        }
    } else {
        let (o1, v1) = choose|order: Seq<Seq<char>>, involved: Seq<Seq<char>>| {
            &&& greedy_run(cells, order)
            &&& !covers_all(cells, order)
            &&& strictly_sorted(involved)
            &&& forall|x: Seq<char>| involved.contains(x) <==> (ns.contains(x) && !order.contains(x))
            &&& e1.is("cycle"@, cycle_message(involved), Some(involved[0]))
        };
        let (o2, v2) = choose|order: Seq<Seq<char>>, involved: Seq<Seq<char>>| {
            &&& greedy_run(cells, order)
            &&& !covers_all(cells, order)
            &&& strictly_sorted(involved)
            &&& forall|x: Seq<char>| involved.contains(x) <==> (ns.contains(x) && !order.contains(x))
            &&& e2.is("cycle"@, cycle_message(involved), Some(involved[0]))
        };
        lemma_greedy_run_unique(cells, o1, o2);
        lemma_sorted_unique(v1, v2);
    }
}

/// Validation accepts a set of cells with one graph order and one set of
/// edges: any two graphs that accept the same cells agree on both.
pub proof fn lemma_accepts_unique<R, U, I>(cells: Seq<CellDescriptor<R, U, I>>, g1: ReactiveGraph, g2: ReactiveGraph)
    requires
        accepts(cells, g1),
        accepts(cells, g2),
    ensures
        g1.order_names() == g2.order_names(),
        forall|p: Seq<char>, c: Seq<char>| g1.edge(p, c) <==> g2.edge(p, c),
{
    lemma_greedy_run_unique(cells, g1.order_names(), g2.order_names());
}

// ---------------------------------------------------------------------------
// Small executable helpers
// ---------------------------------------------------------------------------

/// Whether `v` holds `x`.
fn vec_contains(v: &Vec<usize>, x: usize) -> (r: bool)
    ensures
        r == v@.contains(x),
{
    let mut i: usize = 0;
    while i < v.len()
        invariant
            i <= v@.len(),
            forall|j: int| 0 <= j < i ==> v@[j] != x,
        decreases v@.len() - i,
    {
        if v[i] == x {
            return true;
        }
        i = i + 1;
    }
    false
}

/// The position of the key equal to `key`, if any.
fn find_key(keys: &Vec<Vec<char>>, key: &Vec<char>) -> (r: Option<usize>)
    ensures
        r matches Some(x) ==> x < keys@.len() && keys@[x as int]@ == key@,
        r is None ==> forall|x: int| 0 <= x < keys@.len() ==> keys@[x]@ != key@,
{
    let mut x: usize = 0;
    while x < keys.len()
        invariant
            x <= keys@.len(),
            forall|y: int| 0 <= y < x ==> keys@[y]@ != key@,
        decreases keys@.len() - x,
    {
        if chars_eq(&keys[x], key) {
            return Some(x);
        }
        x = x + 1;
    }
    None
}

/// The first position whose key repeats an earlier one.
fn first_duplicate(keys: &Vec<Vec<char>>) -> (r: Option<usize>)
    ensures
        r matches Some(j) ==> is_first_duplicate(keys@.map_values(|k: Vec<char>| k@), j as int),
        r is None ==> !has_duplicate(keys@.map_values(|k: Vec<char>| k@)),
{
    let ghost ns = keys@.map_values(|k: Vec<char>| k@);
    let mut j: usize = 0;
    while j < keys.len()
        invariant
            ns == keys@.map_values(|k: Vec<char>| k@),
            j <= keys@.len(),
            !has_duplicate(ns.take(j as int)),
        decreases keys@.len() - j,
    {
        let mut a: usize = 0;
        while a < j
            invariant
                ns == keys@.map_values(|k: Vec<char>| k@),
                j < keys@.len(),
                a <= j,
                !has_duplicate(ns.take(j as int)),
                forall|b: int| 0 <= b < a ==> ns[b] != ns[j as int],
            decreases j - a,
        {
            if chars_eq(&keys[a], &keys[j]) {
                assert(ns[a as int] == ns[j as int]);
                return Some(j);
            }
            a = a + 1;
        }
        assert(!has_duplicate(ns.take(j + 1))) by {
            assert forall|a: int, b: int| 0 <= a < b < j + 1 implies #[trigger] ns.take(j + 1)[a] != #[trigger] ns.take(j + 1)[b] by {}
        }
        j = j + 1;
    }
    assert(ns.take(keys@.len() as int) =~= ns);
    None
}

/// The edges recorded from the references before `(i, k)`.
pub open spec fn edge_before<R, U, I>(cells: Seq<CellDescriptor<R, U, I>>, p: Seq<char>, c: Seq<char>, i: int, k: int) -> bool {
    exists|i2: int, k2: int|
        ref_pos(cells, i2, k2) && lex_before(i2, k2, i, k) && #[trigger] cells[i2].name@ == c
            && #[trigger] cells[i2].refs@[k2].name@ == p
}

/// Adjacency lists over `n` cells: children and parents mirror each other,
/// hold indices below `n` and never repeat an entry.
pub open spec fn links_wf(children: Seq<Vec<usize>>, parents: Seq<Vec<usize>>, n: int) -> bool {
    &&& children.len() == n
    &&& parents.len() == n
    &&& forall|x: int| 0 <= x < n ==> (#[trigger] children[x])@.no_duplicates()
    &&& forall|x: int| 0 <= x < n ==> (#[trigger] parents[x])@.no_duplicates()
    &&& forall|x: int, j: int| 0 <= x < n && 0 <= j < children[x]@.len() ==> #[trigger] children[x]@[j] < n
    &&& forall|x: int, j: int| 0 <= x < n && 0 <= j < parents[x]@.len() ==> #[trigger] parents[x]@[j] < n
    &&& forall|x: int, y: int| 0 <= x < n && 0 <= y < n ==>
        (children[x]@.contains(y as usize) <==> parents[y]@.contains(x as usize))
}

/// The names are pairwise different.
pub open spec fn distinct_names(ns: Seq<Seq<char>>) -> bool {
    forall|a: int, b: int| 0 <= a < ns.len() && 0 <= b < ns.len() && a != b ==> ns[a] != ns[b]
}

pub proof fn lemma_no_duplicate_distinct(ns: Seq<Seq<char>>)
    requires
        !has_duplicate(ns),
    ensures
        distinct_names(ns),
{
    assert forall|a: int, b: int| 0 <= a < ns.len() && 0 <= b < ns.len() && a != b implies ns[a] != ns[b] by {}
}

proof fn lemma_push_contains(s: Seq<usize>, a: usize, b: usize)
    ensures
        s.push(a).contains(b) == (s.contains(b) || a == b),
{
    if s.contains(b) {
        let j = choose|j: int| 0 <= j < s.len() && s[j] == b;
        assert(s.push(a)[j] == b);
    }
    if s.push(a).contains(b) && a != b {
        let j = choose|j: int| 0 <= j < s.push(a).len() && s.push(a)[j] == b;
    }
    assert(s.push(a)[s.len() as int] == a);
}

fn unknown_reference_error(cell: &str, reference: &str) -> (e: RuntimeError)
    ensures
        e.is("unknown_reference"@, unknown_message(cell@, reference@), Some(cell@)),
{
    let mut m = String::new();
    push_str(&mut m, "'");
    push_str(&mut m, cell);
    push_str(&mut m, "' needs undefined cell '");
    push_str(&mut m, reference);
    push_str(&mut m, "'");
    RuntimeError::new("unknown_reference", m, Some(cell))
}

fn type_mismatch_error(cell: &str, reference: &str, expected: &str, actual: &str) -> (e: RuntimeError)
    ensures
        e.is("type_mismatch"@, mismatch_message(cell@, reference@, expected@, actual@), Some(cell@)),
{
    let mut m = String::new();
    push_str(&mut m, "'");
    push_str(&mut m, cell);
    push_str(&mut m, "' expects '");
    push_str(&mut m, reference);
    push_str(&mut m, "' as ");
    push_str(&mut m, expected);
    push_str(&mut m, ", but it produces ");
    push_str(&mut m, actual);
    RuntimeError::new("type_mismatch", m, Some(cell))
}

/// Checks every reference in registration order and records the edges.
fn link_refs<R, U, I>(cells: &[CellDescriptor<R, U, I>], keys: &Vec<Vec<char>>) -> (r: Result<
    (Vec<Vec<usize>>, Vec<Vec<usize>>),
    RuntimeError,
>)
    requires
        keys@.len() == cells@.len(),
        forall|x: int| 0 <= x < keys@.len() ==> (#[trigger] keys@[x])@ == cells@[x].name@,
        distinct_names(names_of(cells@)),
    ensures
        r matches Err(e) ==> exists|i: int, k: int| is_first_bad_ref(cells@, i, k) && bad_ref_error(cells@, i, k, e),
        r matches Ok((children, parents)) ==> {
            &&& all_refs_ok(cells@)
            &&& links_wf(children@, parents@, cells@.len() as int)
            &&& forall|x: int, y: int| 0 <= x < cells@.len() && 0 <= y < cells@.len() ==>
                (children@[x]@.contains(y as usize) <==> dep_edge(cells@, cells@[x].name@, cells@[y].name@))
        },
{
    let n = cells.len();
    let ghost c = cells@;
    let mut children: Vec<Vec<usize>> = Vec::new();
    let mut parents: Vec<Vec<usize>> = Vec::new();
    let mut x: usize = 0;
    while x < n
        invariant
            x <= n,
            n == c.len(),
            children@.len() == x,
            parents@.len() == x,
            forall|y: int| 0 <= y < x ==> (#[trigger] children@[y])@ == Seq::<usize>::empty(),
            forall|y: int| 0 <= y < x ==> (#[trigger] parents@[y])@ == Seq::<usize>::empty(),
        decreases n - x,
    {
        children.push(Vec::new());
        parents.push(Vec::new());
        x = x + 1;
    }
    assert forall|p: Seq<char>, q: Seq<char>| !edge_before(c, p, q, 0, 0) by {}
    let mut i: usize = 0;
    while i < n
        invariant
            c == cells@,
            n == c.len(),
            i <= n,
            keys@.len() == n,
            forall|x: int| 0 <= x < keys@.len() ==> (#[trigger] keys@[x])@ == c[x].name@,
            distinct_names(names_of(c)),
            refs_ok_before(c, i as int, 0),
            links_wf(children@, parents@, n as int),
            forall|x: int, y: int| 0 <= x < n && 0 <= y < n ==>
                (children@[x]@.contains(y as usize) <==> edge_before(c, c[x].name@, c[y].name@, i as int, 0)),
        decreases n - i,
    {
        let refs = &cells[i].refs;
        let mut k: usize = 0;
        while k < refs.len()
            invariant
                c == cells@,
                n == c.len(),
                i < n,
                refs == c[i as int].refs,
                k <= refs@.len(),
                keys@.len() == n,
                forall|x: int| 0 <= x < keys@.len() ==> (#[trigger] keys@[x])@ == c[x].name@,
                distinct_names(names_of(c)),
                refs_ok_before(c, i as int, k as int),
                links_wf(children@, parents@, n as int),
                forall|x: int, y: int| 0 <= x < n && 0 <= y < n ==>
                    (children@[x]@.contains(y as usize) <==> edge_before(c, c[x].name@, c[y].name@, i as int, k as int)),
            decreases refs@.len() - k,
        {
            let reference = &refs[k];
            let rkey = chars_of(reference.name);
            let found = find_key(keys, &rkey);
            match found {
                None => {
                    proof {
                        assert(!defines(c, reference.name@)) by {
                            if defines(c, reference.name@) {
                                let p = choose|p: int| 0 <= p < c.len() && c[p].name@ == reference.name@;
                                assert(keys@[p]@ == c[p].name@);
                            }
                        }
                        assert(is_first_bad_ref(c, i as int, k as int));
                    }
                    return Err(unknown_reference_error(cells[i].name, reference.name));
                }
                Some(p) => {
                    let ekey = chars_of(reference.expected_type);
                    let akey = chars_of(cells[p].result_type);
                    if !chars_eq(&ekey, &akey) {
                        proof {
                            assert(!ref_ok(c, i as int, k as int)) by {
                                if ref_ok(c, i as int, k as int) {
                                    let q = choose|q: int| 0 <= q < c.len() && c[q].name@ == reference.name@
                                        && c[q].result_type@ == reference.expected_type@;
                                    assert(names_of(c)[q] == names_of(c)[p as int]);
                                }
                            }
                            assert(is_first_bad_ref(c, i as int, k as int));
                        }
                        return Err(type_mismatch_error(cells[i].name, reference.name, reference.expected_type, cells[p].result_type));
                    }
                    proof {
                        assert forall|i2: int, k2: int| ref_pos(c, i2, k2) && lex_before(i2, k2, i as int, k + 1)
                            implies ref_ok(c, i2, k2) by {
                            if !(i2 == i && k2 == k) {
                                assert(lex_before(i2, k2, i as int, k as int));
                            }
                        }
                    }
                    let ghost old_children = children@;
                    let ghost old_parents = parents@;
                    if !vec_contains(&parents[i], p) {
                        parents[i].push(p);
                        children[p].push(i);
                        proof {
                            assert forall|x: int, y: int| 0 <= x < n && 0 <= y < n implies
                                (children@[x]@.contains(y as usize) <==> parents@[y]@.contains(x as usize)) by {
                                if x == p && y == i {
                                    lemma_push_contains(old_children[x]@, i, y as usize);
                                    lemma_push_contains(old_parents[y]@, p, x as usize);
                                } else if x == p {
                                    lemma_push_contains(old_children[x]@, i, y as usize);
                                } else if y == i {
                                    lemma_push_contains(old_parents[y]@, p, x as usize);
                                }
                            }
                            assert forall|x: int, j: int| 0 <= x < n && 0 <= j < children@[x]@.len() implies
                                #[trigger] children@[x]@[j] < n by {}
                            assert forall|x: int, j: int| 0 <= x < n && 0 <= j < parents@[x]@.len() implies
                                #[trigger] parents@[x]@[j] < n by {}
                            assert forall|x: int| 0 <= x < n implies (#[trigger] children@[x])@.no_duplicates() by {
                                if x == p {
                                    assert(!old_children[x]@.contains(i));
                                }
                            }
                            assert forall|x: int| 0 <= x < n implies (#[trigger] parents@[x])@.no_duplicates() by {}
                        }
                    }
                    proof {
                        assert forall|x: int| 0 <= x < n implies
                            (#[trigger] children@[x])@ == old_children[x]@
                            || (x == p && children@[x]@ == old_children[x]@.push(i)) by {}
                        assert forall|x: int, y: int| 0 <= x < n && 0 <= y < n implies
                            (children@[x]@.contains(y as usize) <==> edge_before(c, c[x].name@, c[y].name@, i as int, k + 1)) by {
                            if children@[x]@ != old_children[x]@ {
                                lemma_push_contains(old_children[x]@, i, y as usize);
                            }
                            if edge_before(c, c[x].name@, c[y].name@, i as int, k + 1)
                                && !edge_before(c, c[x].name@, c[y].name@, i as int, k as int) {
                                let (i2, k2) = choose|i2: int, k2: int|
                                    ref_pos(c, i2, k2) && lex_before(i2, k2, i as int, k + 1) && #[trigger] c[i2].name@ == c[y].name@
                                        && #[trigger] c[i2].refs@[k2].name@ == c[x].name@;
                                assert(names_of(c)[y] == names_of(c)[i as int]);
                                assert(names_of(c)[x] == names_of(c)[p as int]);
                                if old_parents[i as int]@.contains(p) {
                                    lemma_push_contains(old_children[x]@, i, y as usize);
                                } else {
                                    lemma_push_contains(old_children[x]@, i, y as usize);
                                }
                            }
                            if edge_before(c, c[x].name@, c[y].name@, i as int, k as int) {
                                let (i2, k2) = choose|i2: int, k2: int|
                                    ref_pos(c, i2, k2) && lex_before(i2, k2, i as int, k as int) && #[trigger] c[i2].name@ == c[y].name@
                                        && #[trigger] c[i2].refs@[k2].name@ == c[x].name@;
                            }
                            if children@[x]@.contains(y as usize) && !old_children[x]@.contains(y as usize) {
                                assert(x == p && y == i) by {
                                    if x != p {
                                    } else if y != i {
                                        lemma_push_contains(old_children[x]@, i, y as usize);
                                    }
                                }
                            }
                        }
                    }
                }
            }
            k = k + 1;
        }
        proof {
            assert forall|x: int, y: int| 0 <= x < n && 0 <= y < n implies
                (children@[x]@.contains(y as usize) <==> edge_before(c, c[x].name@, c[y].name@, i + 1, 0)) by {
                let p = c[x].name@;
                let q = c[y].name@;
                if edge_before(c, p, q, i + 1, 0) {
                    let (i2, k2) = choose|i2: int, k2: int|
                        ref_pos(c, i2, k2) && lex_before(i2, k2, i + 1, 0) && #[trigger] c[i2].name@ == q
                            && #[trigger] c[i2].refs@[k2].name@ == p;
                }
                if edge_before(c, p, q, i as int, k as int) {
                    let (i2, k2) = choose|i2: int, k2: int|
                        ref_pos(c, i2, k2) && lex_before(i2, k2, i as int, k as int) && #[trigger] c[i2].name@ == q
                            && #[trigger] c[i2].refs@[k2].name@ == p;
                }
            }
            assert forall|i2: int, k2: int| ref_pos(c, i2, k2) && lex_before(i2, k2, i + 1, 0) implies ref_ok(c, i2, k2) by {
                assert(lex_before(i2, k2, i as int, k as int));
            }
        }
        i = i + 1;
    }
    proof {
        assert forall|x: int, y: int| 0 <= x < n && 0 <= y < n implies
            (children@[x]@.contains(y as usize) <==> dep_edge(c, c[x].name@, c[y].name@)) by {
            if dep_edge(c, c[x].name@, c[y].name@) {
                let (i2, k2) = choose|i2: int, k2: int|
                    ref_pos(c, i2, k2) && c[i2].name@ == c[y].name@ && c[i2].refs@[k2].name@ == c[x].name@;
            }
            if edge_before(c, c[x].name@, c[y].name@, n as int, 0) {
                let (i2, k2) = choose|i2: int, k2: int|
                    ref_pos(c, i2, k2) && lex_before(i2, k2, n as int, 0) && #[trigger] c[i2].name@ == c[y].name@
                        && #[trigger] c[i2].refs@[k2].name@ == c[x].name@;
            }
        }
    }
    Ok((children, parents))
}


/// Cell `y` can run after the cells at the indices in `placed`.
pub open spec fn avail_idx(parents: Seq<Vec<usize>>, placed: Seq<usize>, y: int) -> bool {
    &&& 0 <= y < parents.len()
    &&& !placed.contains(y as usize)
    &&& forall|j: int| 0 <= j < parents[y]@.len() ==> placed.contains(#[trigger] parents[y]@[j])
}

/// The keys as character sequences.
pub open spec fn key_seqs(keys: Seq<Vec<char>>) -> Seq<Seq<char>> {
    keys.map_values(|k: Vec<char>| k@)
}

/// Each index of `order` is the smallest-named available cell at its turn.
pub open spec fn greedy_idx(keys: Seq<Vec<char>>, parents: Seq<Vec<usize>>, order: Seq<usize>) -> bool {
    forall|k: int| 0 <= k < order.len() ==> {
        &&& avail_idx(parents, order.take(k), #[trigger] order[k] as int)
        &&& forall|y: int| avail_idx(parents, order.take(k), y) ==> y == order[k] || seq_lt(keys[order[k] as int]@, keys[y]@)
    }
}

/// Every parent index at `y` is placed.
fn parents_placed(placed: &Vec<bool>, ps: &Vec<usize>) -> (r: bool)
    requires
        forall|j: int| 0 <= j < ps@.len() ==> #[trigger] ps@[j] < placed@.len(),
    ensures
        r == forall|j: int| 0 <= j < ps@.len() ==> placed@[#[trigger] ps@[j] as int],
{
    let mut j: usize = 0;
    while j < ps.len()
        invariant
            j <= ps@.len(),
            forall|j: int| 0 <= j < ps@.len() ==> #[trigger] ps@[j] < placed@.len(),
            forall|t: int| 0 <= t < j ==> placed@[#[trigger] ps@[t] as int],
        decreases ps@.len() - j,
    {
        if !placed[ps[j]] {
            return false;
        }
        j = j + 1;
    }
    true
}

fn falses(n: usize) -> (v: Vec<bool>)
    ensures
        v@.len() == n,
        forall|i: int| 0 <= i < n ==> !v@[i],
{
    let mut v: Vec<bool> = Vec::new();
    while v.len() < n
        invariant
            v@.len() <= n,
            forall|i: int| 0 <= i < v@.len() ==> !v@[i],
        decreases n - v@.len(),
    {
        v.push(false);
    }
    v
}

/// Index `y` is not placed and, when `check_parents` holds, all its parents are.
pub open spec fn ready_at(parents: Seq<Vec<usize>>, placed: Seq<bool>, check_parents: bool, y: int) -> bool {
    &&& 0 <= y < placed.len()
    &&& !placed[y]
    &&& check_parents ==> forall|j: int| 0 <= j < parents[y]@.len() ==> placed[#[trigger] parents[y]@[j] as int]
}

/// The ready index with the smallest key.
fn smallest_ready(keys: &Vec<Vec<char>>, parents: &Vec<Vec<usize>>, placed: &Vec<bool>, check_parents: bool) -> (r: Option<usize>)
    requires
        keys@.len() == parents@.len(),
        placed@.len() == keys@.len(),
        forall|x: int, j: int| 0 <= x < parents@.len() && 0 <= j < parents@[x]@.len() ==> #[trigger] parents@[x]@[j] < parents@.len(),
        forall|a: int, b: int| 0 <= a < keys@.len() && 0 <= b < keys@.len() && a != b ==> keys@[a]@ != keys@[b]@,
    ensures
        r matches Some(b) ==> ready_at(parents@, placed@, check_parents, b as int) && forall|y: int|
            ready_at(parents@, placed@, check_parents, y) ==> y == b || seq_lt(keys@[b as int]@, keys@[y]@),
        r is None ==> forall|y: int| !ready_at(parents@, placed@, check_parents, y),
{
    let n = keys.len();
    let mut best: Option<usize> = None;
    let mut y: usize = 0;
    while y < n
        invariant
            n == keys@.len(),
            keys@.len() == parents@.len(),
            placed@.len() == n,
            y <= n,
            forall|x: int, j: int| 0 <= x < parents@.len() && 0 <= j < parents@[x]@.len() ==> #[trigger] parents@[x]@[j] < parents@.len(),
            forall|a: int, b: int| 0 <= a < keys@.len() && 0 <= b < keys@.len() && a != b ==> keys@[a]@ != keys@[b]@,
            best matches Some(b) ==> b < y && ready_at(parents@, placed@, check_parents, b as int) && forall|z: int|
                0 <= z < y && ready_at(parents@, placed@, check_parents, z) ==> z == b || seq_lt(keys@[b as int]@, keys@[z]@),
            best is None ==> forall|z: int| 0 <= z < y ==> !ready_at(parents@, placed@, check_parents, z),
        decreases n - y,
    {
        if !placed[y] && (!check_parents || parents_placed(placed, &parents[y])) {
            match best {
                None => {
                    best = Some(y);
                }
                Some(b) => {
                    if chars_lt(&keys[y], &keys[b]) {
                        proof {
                            assert forall|z: int| 0 <= z < y + 1 && ready_at(parents@, placed@, check_parents, z)
                                implies z == y || seq_lt(keys@[y as int]@, keys@[z]@) by {
                                if z != y && z != b {
                                    lemma_seq_lt_transitive(keys@[y as int]@, keys@[b as int]@, keys@[z]@);
                                }
                            }
                        }
                        best = Some(y);
                    } else {
                        proof {
                            lemma_seq_lt_total(keys@[y as int]@, keys@[b as int]@);
                        }
                    }
                }
            }
        }
        y = y + 1;
    }
    best
}

/// Places cells one at a time, always the smallest-named one whose parents
/// are all placed, until none is left that can run.
fn place_greedily(keys: &Vec<Vec<char>>, parents: &Vec<Vec<usize>>) -> (r: (Vec<usize>, Vec<bool>))
    requires
        keys@.len() == parents@.len(),
        forall|x: int, j: int| 0 <= x < parents@.len() && 0 <= j < parents@[x]@.len() ==> #[trigger] parents@[x]@[j] < parents@.len(),
        forall|a: int, b: int| 0 <= a < keys@.len() && 0 <= b < keys@.len() && a != b ==> keys@[a]@ != keys@[b]@,
    ensures
        r.1@.len() == keys@.len(),
        forall|y: int| 0 <= y < keys@.len() ==> (r.1@[y] <==> r.0@.contains(y as usize)),
        forall|t: int| 0 <= t < r.0@.len() ==> #[trigger] r.0@[t] < keys@.len(),
        r.0@.no_duplicates(),
        greedy_idx(keys@, parents@, r.0@),
        forall|y: int| !avail_idx(parents@, r.0@, y),
{
    let n = keys.len();
    let mut placed = falses(n);
    let mut order: Vec<usize> = Vec::new();
    loop
        invariant
            n == keys@.len(),
            keys@.len() == parents@.len(),
            forall|x: int, j: int| 0 <= x < parents@.len() && 0 <= j < parents@[x]@.len() ==> #[trigger] parents@[x]@[j] < parents@.len(),
            forall|a: int, b: int| 0 <= a < keys@.len() && 0 <= b < keys@.len() && a != b ==> keys@[a]@ != keys@[b]@,
            placed@.len() == n,
            forall|y: int| 0 <= y < n ==> (placed@[y] <==> order@.contains(y as usize)),
            forall|t: int| 0 <= t < order@.len() ==> #[trigger] order@[t] < n,
            order@.no_duplicates(),
            order@.len() <= n,
            greedy_idx(keys@, parents@, order@),
        ensures
            placed@.len() == n,
            forall|y: int| 0 <= y < n ==> (placed@[y] <==> order@.contains(y as usize)),
            forall|t: int| 0 <= t < order@.len() ==> #[trigger] order@[t] < n,
            order@.no_duplicates(),
            greedy_idx(keys@, parents@, order@),
            forall|y: int| !avail_idx(parents@, order@, y),
        decreases n - order@.len(),
    {
        let best = smallest_ready(keys, parents, &placed, true);
        proof {
            assert forall|y: int| 0 <= y < n implies
                (avail_idx(parents@, order@, y) <==> ready_at(parents@, placed@, true, y)) by {
                if avail_idx(parents@, order@, y) {
                    assert forall|j: int| 0 <= j < parents@[y]@.len() implies placed@[#[trigger] parents@[y]@[j] as int] by {}
                }
                if ready_at(parents@, placed@, true, y) {
                    assert forall|j: int| 0 <= j < parents@[y]@.len() implies order@.contains(#[trigger] parents@[y]@[j]) by {}
                }
            }
        }
        match best {
            None => {
                break;
            }
            Some(b) => {
                let ghost old_order = order@;
                proof {
                    // Every placed index is below n and distinct, so fewer than n are placed.
                    lemma_distinct_bounded_len(old_order, n as int, b);
                }
                placed.set(b, true);
                order.push(b);
                proof {
                    assert(order@.take(old_order.len() as int) =~= old_order);
                    assert forall|k: int| 0 <= k < order@.len() implies {
                        &&& avail_idx(parents@, order@.take(k), #[trigger] order@[k] as int)
                        &&& forall|y: int| avail_idx(parents@, order@.take(k), y) ==> y == order@[k] || seq_lt(keys@[order@[k] as int]@, keys@[y]@)
                    } by {
                        if k < old_order.len() {
                            assert(order@.take(k) =~= old_order.take(k));
                        }
                    }
                    assert forall|y: int| 0 <= y < n implies (placed@[y] <==> order@.contains(y as usize)) by {
                        lemma_push_contains(old_order, b, y as usize);
                    }
                    assert(order@.no_duplicates()) by {
                        assert forall|a: int, c: int| 0 <= a < order@.len() && 0 <= c < order@.len() && a != c implies order@[a] != order@[c] by {}
                    }
                }
            }
        }
    }
    (order, placed)
}

/// A duplicate-free sequence of indices below `n` that misses `b` is shorter than `n`.
proof fn lemma_distinct_bounded_len(s: Seq<usize>, n: int, b: usize)
    requires
        s.no_duplicates(),
        forall|t: int| 0 <= t < s.len() ==> #[trigger] s[t] < n,
        0 <= b < n <= usize::MAX,
        !s.contains(b),
    ensures
        s.len() < n,
{
    let set = s.to_set();
    s.unique_seq_to_set();
    let full = Set::new(|x: usize| x < n);
    vstd::set_lib::lemma_int_range(0, n);
    lemma_usize_range_finite(n);
    vstd::set_lib::lemma_len_subset(set, full.remove(b));
}

proof fn lemma_usize_range_finite(n: int)
    requires
        0 <= n <= usize::MAX + 1,
    ensures
        Set::new(|x: usize| x < n).finite(),
        Set::new(|x: usize| x < n).len() == n,
    decreases n,
{
    if n == 0 {
        assert(Set::new(|x: usize| x < n) =~= Set::<usize>::empty());
    } else {
        lemma_usize_range_finite(n - 1);
        assert(Set::new(|x: usize| x < n) =~= Set::new(|x: usize| x < n - 1).insert((n - 1) as usize));
    }
}

/// The unplaced indices, by increasing key.
fn sorted_unplaced(keys: &Vec<Vec<char>>, parents: &Vec<Vec<usize>>, placed: &Vec<bool>) -> (rest: Vec<usize>)
    requires
        keys@.len() == parents@.len(),
        placed@.len() == keys@.len(),
        forall|x: int, j: int| 0 <= x < parents@.len() && 0 <= j < parents@[x]@.len() ==> #[trigger] parents@[x]@[j] < parents@.len(),
        forall|a: int, b: int| 0 <= a < keys@.len() && 0 <= b < keys@.len() && a != b ==> keys@[a]@ != keys@[b]@,
    ensures
        forall|t: int| 0 <= t < rest@.len() ==> #[trigger] rest@[t] < keys@.len(),
        forall|y: int| 0 <= y < keys@.len() ==> (rest@.contains(y as usize) <==> !placed@[y]),
        forall|a: int, b: int| 0 <= a < b < rest@.len() ==> seq_lt(keys@[rest@[a] as int]@, keys@[rest@[b] as int]@),
{
    let n = keys.len();
    let mut mark = placed.clone();
    let mut rest: Vec<usize> = Vec::new();
    loop
        invariant
            n == keys@.len(),
            keys@.len() == parents@.len(),
            placed@.len() == n,
            mark@.len() == n,
            forall|x: int, j: int| 0 <= x < parents@.len() && 0 <= j < parents@[x]@.len() ==> #[trigger] parents@[x]@[j] < parents@.len(),
            forall|a: int, b: int| 0 <= a < keys@.len() && 0 <= b < keys@.len() && a != b ==> keys@[a]@ != keys@[b]@,
            forall|t: int| 0 <= t < rest@.len() ==> #[trigger] rest@[t] < n,
            forall|y: int| 0 <= y < n ==> (mark@[y] <==> (placed@[y] || rest@.contains(y as usize))),
            forall|y: int| 0 <= y < n ==> (rest@.contains(y as usize) ==> !placed@[y]),
            forall|a: int, b: int| 0 <= a < b < rest@.len() ==> seq_lt(keys@[rest@[a] as int]@, keys@[rest@[b] as int]@),
            forall|a: int, z: int| 0 <= a < rest@.len() && 0 <= z < n && !mark@[z] ==> seq_lt(keys@[rest@[a] as int]@, keys@[z]@),
            rest@.len() <= n,
            rest@.no_duplicates(),
        ensures
            forall|t: int| 0 <= t < rest@.len() ==> #[trigger] rest@[t] < n,
            forall|y: int| 0 <= y < n ==> (rest@.contains(y as usize) <==> !placed@[y]),
            forall|a: int, b: int| 0 <= a < b < rest@.len() ==> seq_lt(keys@[rest@[a] as int]@, keys@[rest@[b] as int]@),
        decreases n - rest@.len(),
    {
        let next = smallest_ready(keys, parents, &mark, false);
        match next {
            None => {
                proof {
                    assert forall|y: int| 0 <= y < n implies (rest@.contains(y as usize) <==> !placed@[y]) by {
                        assert(!ready_at(parents@, mark@, false, y));
                    }
                }
                break;
            }
            Some(b) => {
                let ghost old_rest = rest@;
                let ghost old_mark = mark@;
                proof {
                    lemma_distinct_bounded_len(old_rest, n as int, b);
                }
                mark.set(b, true);
                rest.push(b);
                proof {
                    assert forall|y: int| 0 <= y < n implies (mark@[y] <==> (placed@[y] || rest@.contains(y as usize))) by {
                        lemma_push_contains(old_rest, b, y as usize);
                    }
                    assert forall|y: int| 0 <= y < n && rest@.contains(y as usize) implies !placed@[y] by {
                        lemma_push_contains(old_rest, b, y as usize);
                    }
                    assert forall|a: int, c: int| 0 <= a < c < rest@.len() implies seq_lt(keys@[rest@[a] as int]@, keys@[rest@[c] as int]@) by {}
                    assert forall|a: int, z: int| 0 <= a < rest@.len() && 0 <= z < n && !mark@[z] implies seq_lt(keys@[rest@[a] as int]@, keys@[z]@) by {
                        if a == old_rest.len() {
                            assert(ready_at(parents@, old_mark, false, z));
                        }
                    }
                    assert(rest@.no_duplicates()) by {
                        assert forall|a: int, c: int| 0 <= a < rest@.len() && 0 <= c < rest@.len() && a != c implies rest@[a] != rest@[c] by {}
                    }
                }
            }
        }
    }
    rest
}

/// The error for a dependency cycle among the cells at `rest`.
fn make_cycle_error(names: &Vec<String>, rest: &Vec<usize>) -> (e: RuntimeError)
    requires
        rest@.len() > 0,
        forall|t: int| 0 <= t < rest@.len() ==> #[trigger] rest@[t] < names@.len(),
    ensures
        ({
            let involved = Seq::new(rest@.len(), |t: int| names@[rest@[t] as int]@);
            e.is("cycle"@, cycle_message(involved), Some(involved[0]))
        }),
{
    let ghost involved = Seq::new(rest@.len(), |t: int| names@[rest@[t] as int]@);
    let mut m = String::new();
    push_str(&mut m, "cell dependency cycle involves: ");
    let ghost prefix = m@;
    let mut t: usize = 0;
    while t < rest.len()
        invariant
            t <= rest@.len(),
            forall|t: int| 0 <= t < rest@.len() ==> #[trigger] rest@[t] < names@.len(),
            involved == Seq::new(rest@.len(), |t: int| names@[rest@[t] as int]@),
            prefix == "cell dependency cycle involves: "@,
            m@ == prefix + join_names(involved.take(t as int)),
        decreases rest@.len() - t,
    {
        let ghost before = m@;
        if t > 0 {
            push_str(&mut m, ", ");
        }
        push_str(&mut m, names[rest[t]].as_str());
        proof {
            assert(involved.take(t + 1).drop_last() =~= involved.take(t as int));
        }
        t = t + 1;
    }
    assert(involved.take(rest@.len() as int) =~= involved);
    RuntimeError::new("cycle", m, Some(names[rest[0]].as_str()))
}

// ---------------------------------------------------------------------------
// The graph
// ---------------------------------------------------------------------------

/// The names of the cells at the indices `idx`.
pub open spec fn names_at(ns: Seq<Seq<char>>, idx: Seq<usize>) -> Seq<Seq<char>> {
    Seq::new(idx.len(), |t: int| ns[idx[t] as int])
}

/// A validated cell graph and the order its cells run in.
pub struct ReactiveGraph {
    names: Vec<String>,
    keys: Vec<Vec<char>>,
    children: Vec<Vec<usize>>,
    order: Vec<String>,
    order_idx: Vec<usize>,
    pos: Vec<usize>,
}

impl ReactiveGraph {
    /// The cells' names in the order they run.
    pub closed spec fn order_names(&self) -> Seq<Seq<char>> {
        Seq::new(self.order@.len(), |k: int| self.order@[k]@)
    }

    /// Cell `c` reads the value of cell `p`.
    pub closed spec fn edge(&self, p: Seq<char>, c: Seq<char>) -> bool {
        exists|x: int, y: int|
            0 <= x < self.names@.len() && 0 <= y < self.names@.len() && #[trigger] self.names@[x]@ == p
                && #[trigger] self.names@[y]@ == c && self.children@[x]@.contains(y as usize)
    }

    /// The internal invariant: names are distinct, the order lists every
    /// cell once and every edge goes forward in the order.
    pub closed spec fn wf(&self) -> bool {
        let n = self.names@.len();
        &&& self.keys@.len() == n
        &&& self.children@.len() == n
        &&& self.pos@.len() == n
        &&& forall|x: int| 0 <= x < n ==> (#[trigger] self.keys@[x])@ == self.names@[x]@
        &&& forall|a: int, b: int| 0 <= a < n && 0 <= b < n && a != b ==> self.keys@[a]@ != self.keys@[b]@
        &&& self.order@.len() == self.order_idx@.len()
        &&& forall|k: int| 0 <= k < self.order_idx@.len() ==> #[trigger] self.order_idx@[k] < n
        &&& forall|k: int| 0 <= k < self.order_idx@.len() ==> self.pos@[#[trigger] self.order_idx@[k] as int] == k
        &&& forall|x: int| 0 <= x < n ==> #[trigger] self.pos@[x] < self.order_idx@.len() && self.order_idx@[self.pos@[x] as int] == x
        &&& forall|k: int| 0 <= k < self.order@.len() ==> (#[trigger] self.order@[k])@ == self.names@[self.order_idx@[k] as int]@
        &&& forall|x: int| 0 <= x < n ==> (#[trigger] self.children@[x])@.no_duplicates()
        &&& forall|x: int, j: int| 0 <= x < n && 0 <= j < self.children@[x]@.len() ==> #[trigger] self.children@[x]@[j] < n
        &&& forall|x: int, j: int| 0 <= x < n && 0 <= j < self.children@[x]@.len() ==>
            self.pos@[x] < self.pos@[#[trigger] self.children@[x]@[j] as int]
    }

    /// Validates the cells and orders them: `Ok` exactly when no name is
    /// registered twice, every reference names a cell of the expected type
    /// and the greedy order runs every cell; otherwise the first problem.
    pub fn new<R, U, I>(cells: &[CellDescriptor<R, U, I>]) -> (r: Result<Self, RuntimeError>)
        ensures
            r is Ok <==> valid_cells(cells@),
            match r {
                Ok(g) => accepts(cells@, g),
                Err(e) => rejects(cells@, e),
            },
    {
        let r = Self::build(cells);
        proof {
            let c = cells@;
            if !has_duplicate(names_of(c)) && all_refs_ok(c) {
                let order = choose|order: Seq<Seq<char>>| {
                    &&& greedy_order(c, order)
                    &&& stuck(c, order)
                    &&& if covers_all(c, order) {
                        (r matches Ok(g) && g.wf() && g.order_names() == order
                            && forall|p: Seq<char>, q: Seq<char>| g.edge(p, q) <==> dep_edge(c, p, q))
                    } else {
                        (r matches Err(e) && exists|involved: Seq<Seq<char>>| {
                            &&& strictly_sorted(involved)
                            &&& forall|x: Seq<char>| involved.contains(x) <==> (names_of(c).contains(x) && !order.contains(x))
                            &&& e.is("cycle"@, cycle_message(involved), Some(involved[0]))
                        })
                    }
                };
                if !covers_all(c, order) {
                    assert forall|o: Seq<Seq<char>>| !(greedy_run(c, o) && covers_all(c, o)) by {
                        if greedy_run(c, o) {
                            lemma_greedy_run_unique(c, o, order);
                        }
                    }
                }
            }
        }
        r
    }

    #[verifier::loop_isolation(false)]
    fn build<R, U, I>(cells: &[CellDescriptor<R, U, I>]) -> (r: Result<Self, RuntimeError>)
        ensures
            has_duplicate(names_of(cells@)) ==> (r matches Err(e) && exists|j: int| is_first_duplicate(names_of(cells@), j)
                && e.is("duplicate_definition"@, duplicate_message(names_of(cells@)[j]), Some(names_of(cells@)[j]))),
            !has_duplicate(names_of(cells@)) && !all_refs_ok(cells@) ==> (r matches Err(e) && exists|i: int, k: int|
                is_first_bad_ref(cells@, i, k) && bad_ref_error(cells@, i, k, e)),
            !has_duplicate(names_of(cells@)) && all_refs_ok(cells@) ==> exists|order: Seq<Seq<char>>| {
                &&& greedy_order(cells@, order)
                &&& stuck(cells@, order)
                &&& if covers_all(cells@, order) {
                    (r matches Ok(g) && g.wf() && g.order_names() == order
                        && forall|p: Seq<char>, c: Seq<char>| g.edge(p, c) <==> dep_edge(cells@, p, c))
                } else {
                    (r matches Err(e) && exists|involved: Seq<Seq<char>>| {
                        &&& strictly_sorted(involved)
                        &&& forall|x: Seq<char>| involved.contains(x) <==> (names_of(cells@).contains(x) && !order.contains(x))
                        &&& e.is("cycle"@, cycle_message(involved), Some(involved[0]))
                    })
                }
            },
    {
        let ghost c = cells@;
        let ghost ns = names_of(c);
        let n = cells.len();
        let mut keys: Vec<Vec<char>> = Vec::new();
        let mut names: Vec<String> = Vec::new();
        let mut i: usize = 0;
        while i < n
            invariant
                c == cells@,
                ns == names_of(c),
                n == c.len(),
                i <= n,
                keys@.len() == i,
                names@.len() == i,
                forall|x: int| 0 <= x < i ==> (#[trigger] keys@[x])@ == ns[x],
                forall|x: int| 0 <= x < i ==> (#[trigger] names@[x])@ == ns[x],
            decreases n - i,
        {
            keys.push(chars_of(cells[i].name));
            names.push(cells[i].name.to_owned());
            i = i + 1;
        }
        match first_duplicate(&keys) {
            Some(j) => {
                proof {
                    assert(keys@.map_values(|k: Vec<char>| k@) =~= ns);
                    assert(has_duplicate(ns)) by {
                        let a = choose|a: int| 0 <= a < j && ns[a] == ns[j as int];
                    }
                }
                let mut m = String::new();
                push_str(&mut m, "'");
                push_str(&mut m, cells[j].name);
                push_str(&mut m, "' is defined by more than one cell");
                return Err(RuntimeError::new("duplicate_definition", m, Some(cells[j].name)));
            }
            None => {
                proof {
                    assert(keys@.map_values(|k: Vec<char>| k@) =~= ns);
                    lemma_no_duplicate_distinct(ns);
                }
            }
        }
        let links = link_refs(cells, &keys);
        let (children, parents) = match links {
            Err(e) => {
                proof {
                    let (i, k) = choose|i: int, k: int| is_first_bad_ref(c, i, k) && bad_ref_error(c, i, k, e);
                    assert(!refs_ok_before(c, n as int, 0)) by {
                        assert(lex_before(i, k, n as int, 0));
                    }
                }
                return Err(e);
            }
            Ok(l) => l,
        };
        let ghost ghost_children = children@;
        let (ord, placed) = place_greedily(&keys, &parents);
        proof {
            lemma_greedy_names(c, keys@, children@, parents@, ord@);
        }
        let ghost order_spec = names_at(ns, ord@);
        // A cycle leaves some cell unplaced.
        let mut y: usize = 0;
        while y < n
            invariant
                n == c.len(),
                placed@.len() == n,
                y <= n,
                forall|z: int| 0 <= z < y ==> placed@[z],
            decreases n - y,
        {
            if !placed[y] {
                let rest = sorted_unplaced(&keys, &parents, &placed);
                let e = make_cycle_error(&names, &rest);
                proof {
                    let involved = Seq::new(rest@.len(), |t: int| names@[rest@[t] as int]@);
                    assert(!order_spec.contains(ns[y as int])) by {
                        if order_spec.contains(ns[y as int]) {
                            let t = choose|t: int| 0 <= t < order_spec.len() && order_spec[t] == ns[y as int];
                        }
                    }
                    assert(!(forall|x: Seq<char>| ns.contains(x) ==> order_spec.contains(x)));
                    assert(strictly_sorted(involved)) by {
                        assert forall|a: int, b: int| 0 <= a < b < involved.len() implies seq_lt(involved[a], involved[b]) by {}
                    }
                    assert forall|x: Seq<char>| involved.contains(x) <==> (ns.contains(x) && !order_spec.contains(x)) by {
                        if involved.contains(x) {
                            let t = choose|t: int| 0 <= t < involved.len() && involved[t] == x;
                            let z = rest@[t] as int;
                            assert(!placed@[z]);
                            if order_spec.contains(x) {
                                let u = choose|u: int| 0 <= u < order_spec.len() && order_spec[u] == x;
                            }
                        }
                        if ns.contains(x) && !order_spec.contains(x) {
                            let z = choose|z: int| 0 <= z < ns.len() && ns[z] == x;
                            if placed@[z] {
                                let u = choose|u: int| 0 <= u < ord@.len() && ord@[u] == z as usize;
                                assert(order_spec[u] == x);
                            }
                            let t = choose|t: int| 0 <= t < rest@.len() && rest@[t] == z as usize;
                            assert(involved[t] == x);
                        }
                    }
                }
                return Err(e);
            }
            y = y + 1;
        }
        // Every cell is placed: record positions and the named order.
        let mut pos: Vec<usize> = Vec::new();
        let mut z: usize = 0;
        while z < n
            invariant
                z <= n,
                pos@.len() == z,
            decreases n - z,
        {
            pos.push(0);
            z = z + 1;
        }
        let mut order: Vec<String> = Vec::new();
        let mut t: usize = 0;
        while t < ord.len()
            invariant
                n == c.len(),
                names@.len() == n,
                pos@.len() == n,
                t <= ord@.len(),
                forall|u: int| 0 <= u < ord@.len() ==> #[trigger] ord@[u] < n,
                ord@.no_duplicates(),
                forall|u: int| 0 <= u < t ==> pos@[#[trigger] ord@[u] as int] == u,
                order@.len() == t,
                forall|u: int| 0 <= u < t ==> (#[trigger] order@[u])@ == names@[ord@[u] as int]@,
            decreases ord@.len() - t,
        {
            let x = ord[t];
            pos.set(x, t);
            order.push(names[x].clone());
            proof {
                assert forall|u: int| 0 <= u < t + 1 implies pos@[#[trigger] ord@[u] as int] == u by {}
            }
            t = t + 1;
        }
        let g = ReactiveGraph { names, keys, children, order, order_idx: ord, pos };
        proof {
            assert forall|x: int| 0 <= x < n implies #[trigger] g.pos@[x] < g.order_idx@.len() && g.order_idx@[g.pos@[x] as int] == x by {
                assert(placed@[x]);
                let u = choose|u: int| 0 <= u < ord@.len() && ord@[u] == x as usize;
            }
            assert forall|x: int, j: int| 0 <= x < n && 0 <= j < g.children@[x]@.len() implies
                g.pos@[x] < g.pos@[#[trigger] g.children@[x]@[j] as int] by {
                let cc = g.children@[x]@[j] as int;
                let k = g.pos@[cc] as int;
                let jj = choose|jj: int| 0 <= jj < parents@[cc]@.len() && parents@[cc]@[jj] == x as usize;
                let u = choose|u: int| 0 <= u < k && ord@.take(k)[u] == x as usize;
            }
            assert forall|x: Seq<char>| ns.contains(x) implies order_spec.contains(x) by {
                let z = choose|z: int| 0 <= z < ns.len() && ns[z] == x;
                assert(placed@[z]);
                let u = choose|u: int| 0 <= u < ord@.len() && ord@[u] == z as usize;
                assert(order_spec[u] == x);
            }
            assert forall|p: Seq<char>, q: Seq<char>| g.edge(p, q) <==> dep_edge(c, p, q) by {
                if g.edge(p, q) {
                    let (x, y) = choose|x: int, y: int|
                        0 <= x < g.names@.len() && 0 <= y < g.names@.len() && #[trigger] g.names@[x]@ == p
                            && #[trigger] g.names@[y]@ == q && g.children@[x]@.contains(y as usize);
                }
                if dep_edge(c, p, q) {
                    let (i, k) = choose|i: int, k: int| ref_pos(c, i, k) && c[i].name@ == q && c[i].refs@[k].name@ == p;
                    assert(lex_before(i, k, n as int, 0));
                    let x = choose|x: int| 0 <= x < c.len() && c[x].name@ == p && c[x].result_type@ == c[i].refs@[k].expected_type@;
                    assert(g.names@[x]@ == p);
                    assert(g.names@[i]@ == q);
                }
            }
        }
        Ok(g)
    }
}

/// The index-level greedy placement is the name-level greedy order.
proof fn lemma_greedy_names<R, U, I>(
    c: Seq<CellDescriptor<R, U, I>>,
    keys: Seq<Vec<char>>,
    children: Seq<Vec<usize>>,
    parents: Seq<Vec<usize>>,
    ord: Seq<usize>,
)
    requires
        c.len() <= usize::MAX,
        keys.len() == c.len(),
        forall|x: int| 0 <= x < keys.len() ==> (#[trigger] keys[x])@ == c[x].name@,
        distinct_names(names_of(c)),
        all_refs_ok(c),
        links_wf(children, parents, c.len() as int),
        forall|x: int, y: int| 0 <= x < c.len() && 0 <= y < c.len() ==>
            (children[x]@.contains(y as usize) <==> dep_edge(c, c[x].name@, c[y].name@)),
        forall|t: int| 0 <= t < ord.len() ==> #[trigger] ord[t] < c.len(),
        greedy_idx(keys, parents, ord),
        forall|y: int| !avail_idx(parents, ord, y),
    ensures
        greedy_order(c, names_at(names_of(c), ord)),
        stuck(c, names_at(names_of(c), ord)),
{
    let ns = names_of(c);
    let order = names_at(ns, ord);
    assert forall|k: int| 0 <= k < order.len() implies {
        &&& available(c, order.take(k), #[trigger] order[k])
        &&& forall|y: Seq<char>| available(c, order.take(k), y) ==> y == order[k] || seq_lt(order[k], y)
    } by {
        assert(order.take(k) =~= names_at(ns, ord.take(k)));
        lemma_available_iff(c, children, parents, ord.take(k), ord[k] as int);
        assert forall|y: Seq<char>| available(c, order.take(k), y) implies y == order[k] || seq_lt(order[k], y) by {
            let z = choose|z: int| 0 <= z < ns.len() && ns[z] == y;
            lemma_available_iff(c, children, parents, ord.take(k), z);
        }
    }
    assert forall|y: Seq<char>| !available(c, order, y) by {
        if available(c, order, y) {
            let z = choose|z: int| 0 <= z < ns.len() && ns[z] == y;
            lemma_available_iff(c, children, parents, ord, z);
        }
    }
}

/// Availability by name matches availability by index.
proof fn lemma_available_iff<R, U, I>(
    c: Seq<CellDescriptor<R, U, I>>,
    children: Seq<Vec<usize>>,
    parents: Seq<Vec<usize>>,
    placed: Seq<usize>,
    y: int,
)
    requires
        c.len() <= usize::MAX,
        distinct_names(names_of(c)),
        all_refs_ok(c),
        links_wf(children, parents, c.len() as int),
        forall|x: int, y: int| 0 <= x < c.len() && 0 <= y < c.len() ==>
            (children[x]@.contains(y as usize) <==> dep_edge(c, c[x].name@, c[y].name@)),
        forall|t: int| 0 <= t < placed.len() ==> #[trigger] placed[t] < c.len(),
        0 <= y < c.len(),
    ensures
        available(c, names_at(names_of(c), placed), names_of(c)[y]) == avail_idx(parents, placed, y),
{
    let ns = names_of(c);
    let pn = names_at(ns, placed);
    assert forall|x: int| 0 <= x < c.len() implies (pn.contains(ns[x]) <==> placed.contains(x as usize)) by {
        if pn.contains(ns[x]) {
            let t = choose|t: int| 0 <= t < pn.len() && pn[t] == ns[x];
        }
        if placed.contains(x as usize) {
            let t = choose|t: int| 0 <= t < placed.len() && placed[t] == x as usize;
            assert(pn[t] == ns[x]);
        }
    }
    if available(c, pn, ns[y]) {
        assert forall|j: int| 0 <= j < parents[y]@.len() implies placed.contains(#[trigger] parents[y]@[j]) by {
            let x = parents[y]@[j] as int;
            assert(pn.contains(ns[x]));
        }
    }
    if avail_idx(parents, placed, y) {
        assert forall|p: Seq<char>| dep_edge(c, p, ns[y]) implies pn.contains(p) by {
            let (i, k) = choose|i: int, k: int| ref_pos(c, i, k) && c[i].name@ == ns[y] && c[i].refs@[k].name@ == p;
            assert(lex_before(i, k, c.len() as int, 0));
            let x = choose|x: int| 0 <= x < c.len() && c[x].name@ == p && c[x].result_type@ == c[i].refs@[k].expected_type@;
            assert(ns[i] == ns[y]);
            let j = choose|j: int| 0 <= j < parents[y]@.len() && parents[y]@[j] == x as usize;
            assert(ns[x] == p);
        }
    }
}

impl ReactiveGraph {
    /// The cells' names in the order they run.
    pub fn order(&self) -> (r: &[String])
        ensures
            Seq::new(r@.len(), |k: int| r@[k]@) == self.order_names(),
    {
        let r = self.order.as_slice();
        r
    }

    /// The cells that depend on `name`, directly or through other cells,
    /// in the order they run. A name that is not a cell has none.
    pub fn descendants(&self, name: &str) -> (r: Vec<String>)
        requires
            self.wf(),
        ensures
            Seq::new(r@.len(), |t: int| r@[t]@) == self.order_names().filter(|s: Seq<char>| self.reaches(name@, s)),
    {
        let r = self.descendants_closure(name);
        proof {
            let rs = Seq::new(r@.len(), |t: int| r@[t]@);
            let on = self.order_names();
            assert forall|x: Seq<char>| rs.contains(x) implies on.contains(x) by {
                on.lemma_filter_contains_rev(|s: Seq<char>| rs.contains(s), x);
            }
            assert forall|x: Seq<char>| on.contains(x) implies (rs.contains(x) <==> self.reaches(name@, x)) by {
                if self.reaches(name@, x) {
                    let p = choose|p: Seq<Seq<char>>| p.len() >= 2 && p[0] == name@ && p.last() == x && self.is_path(p);
                    self.lemma_path_ends_in_closure(name@, rs, p);
                }
                if rs.contains(x) {
                    let k = choose|k: int| 0 <= k < on.len() && on[k] == x;
                    self.lemma_closure_reached(name@, rs, k);
                }
            }
            assert forall|i: int| 0 <= i < on.len() implies (|s: Seq<char>| rs.contains(s))(#[trigger] on[i])
                == (|s: Seq<char>| self.reaches(name@, s))(on[i]) by {}
            lemma_filter_ext(on, |s: Seq<char>| rs.contains(s), |s: Seq<char>| self.reaches(name@, s));
        }
        r
    }

    /// Both ends of an edge are cells in the order.
    proof fn lemma_edge_ends(&self, p: Seq<char>, c: Seq<char>)
        requires
            self.wf(),
            self.edge(p, c),
        ensures
            self.order_names().contains(p),
            self.order_names().contains(c),
    {
        lemma_edges_follow_order(self, p, c);
    }

    /// The last cell of a path from `a` is in any set closed under edges from `a`.
    proof fn lemma_path_ends_in_closure(&self, a: Seq<char>, rs: Seq<Seq<char>>, p: Seq<Seq<char>>)
        requires
            self.wf(),
            forall|x: Seq<char>| #[trigger] self.order_names().contains(x) ==> (rs.contains(x) <==> (self.edge(a, x)
                || exists|d: Seq<char>| rs.contains(d) && self.edge(d, x))),
            p.len() >= 2,
            p[0] == a,
            self.is_path(p),
        ensures
            rs.contains(p.last()),
        decreases p.len(),
    {
        self.lemma_edge_ends(p[p.len() - 2], p[p.len() - 1]);
        if p.len() > 2 {
            let q = p.drop_last();
            assert(self.is_path(q)) by {
                assert forall|t: int| 0 <= t < q.len() - 1 implies self.edge(#[trigger] q[t], q[t + 1]) by {}
            }
            self.lemma_path_ends_in_closure(a, rs, q);
        }
    }

    /// Every member of the closure at position `k` of the order is reached from `a`.
    proof fn lemma_closure_reached(&self, a: Seq<char>, rs: Seq<Seq<char>>, k: int)
        requires
            self.wf(),
            forall|x: Seq<char>| #[trigger] self.order_names().contains(x) ==> (rs.contains(x) <==> (self.edge(a, x)
                || exists|d: Seq<char>| rs.contains(d) && self.edge(d, x))),
            forall|x: Seq<char>| rs.contains(x) ==> self.order_names().contains(x),
            0 <= k < self.order_names().len(),
            rs.contains(self.order_names()[k]),
        ensures
            self.reaches(a, self.order_names()[k]),
        decreases k,
    {
        let on = self.order_names();
        let x = on[k];
        if self.edge(a, x) {
            let p = seq![a, x];
            assert(p.last() == x);
        } else {
            let d = choose|d: Seq<char>| rs.contains(d) && self.edge(d, x);
            lemma_edges_follow_order(self, d, x);
            lemma_order_distinct(self);
            let (i, j) = choose|i: int, j: int| 0 <= i < j < on.len() && on[i] == d && on[j] == x;
            self.lemma_closure_reached(a, rs, i);
            let q = choose|q: Seq<Seq<char>>| q.len() >= 2 && q[0] == a && q.last() == d && self.is_path(q);
            let p = q.push(x);
            assert(self.is_path(p)) by {
                assert forall|t: int| 0 <= t < p.len() - 1 implies self.edge(#[trigger] p[t], p[t + 1]) by {}
            }
            assert(p.last() == x);
        }
    }

    /// Consecutive cells of `p` are joined by edges.
    pub open spec fn is_path(&self, p: Seq<Seq<char>>) -> bool {
        forall|t: int| 0 <= t < p.len() - 1 ==> self.edge(#[trigger] p[t], p[t + 1])
    }

    /// Some path of one or more edges leads from `a` to `x`.
    pub open spec fn reaches(&self, a: Seq<char>, x: Seq<char>) -> bool {
        exists|p: Seq<Seq<char>>| p.len() >= 2 && p[0] == a && p.last() == x && self.is_path(p)
    }

    fn descendants_closure(&self, name: &str) -> (r: Vec<String>)
        requires
            self.wf(),
        ensures
            ({
                let rs = Seq::new(r@.len(), |t: int| r@[t]@);
                &&& rs == self.order_names().filter(|s: Seq<char>| rs.contains(s))
                &&& forall|x: Seq<char>| #[trigger] self.order_names().contains(x) ==> (rs.contains(x) <==> (self.edge(name@, x)
                    || exists|d: Seq<char>| rs.contains(d) && self.edge(d, x)))
            }),
    {
        let n = self.names.len();
        let key = chars_of(name);
        let found = find_key(&self.keys, &key);
        let x = match found {
            None => {
                let r: Vec<String> = Vec::new();
                proof {
                    let rs = Seq::new(r@.len(), |t: int| r@[t]@);
                    lemma_filter_none(self.order_names(), |s: Seq<char>| rs.contains(s));
                    assert forall|z: Seq<char>| !self.edge(name@, z) by {
                        if self.edge(name@, z) {
                            let (a, b) = choose|a: int, b: int|
                                0 <= a < self.names@.len() && 0 <= b < self.names@.len() && #[trigger] self.names@[a]@ == name@
                                    && #[trigger] self.names@[b]@ == z && self.children@[a]@.contains(b as usize);
                            assert(self.keys@[a]@ == key@);
                        }
                    }
                }
                return r;
            }
            Some(x) => x,
        };
        let ghost child = |a: int, b: int| self.children@[a]@.contains(b as usize);
        let mut dirty = falses(n);
        let kids = &self.children[x];
        let mut j: usize = 0;
        while j < kids.len()
            invariant
                self.wf(),
                n == self.names@.len(),
                x < n,
                kids == self.children@[x as int],
                j <= kids@.len(),
                dirty@.len() == n,
                forall|z: int| 0 <= z < n && dirty@[z] ==> kids@.contains(z as usize),
                forall|t: int| 0 <= t < j ==> dirty@[#[trigger] kids@[t] as int],
            decreases kids@.len() - j,
        {
            dirty.set(kids[j], true);
            j = j + 1;
        }
        proof {
            assert forall|z: int| 0 <= z < n && child(x as int, z) implies dirty@[z] by {
                let t = choose|t: int| 0 <= t < kids@.len() && kids@[t] == z as usize;
            }
            assert forall|z: int| 0 <= z < n && dirty@[z] implies self.pos@[x as int] < self.pos@[z] by {
                let t = choose|t: int| 0 <= t < kids@.len() && kids@[t] == z as usize;
            }
        }
        let len = self.order_idx.len();
        let mut k = self.pos[x] + 1;
        while k < len
            invariant
                self.wf(),
                n == self.names@.len(),
                len == self.order_idx@.len(),
                x < n,
                self.pos@[x as int] < k <= len,
                dirty@.len() == n,
                forall|z: int| 0 <= z < n && dirty@[z] ==> self.pos@[x as int] < self.pos@[z],
                forall|z: int| 0 <= z < n && dirty@[z] ==> child(x as int, z)
                    || exists|w: int| 0 <= w < n && dirty@[w] && child(w, z),
                forall|z: int| 0 <= z < n && child(x as int, z) ==> dirty@[z],
                forall|w: int, c: int| 0 <= w < n && 0 <= c < n && dirty@[w] && self.pos@[w] < k && child(w, c) ==> dirty@[c],
                child == (|a: int, b: int| self.children@[a]@.contains(b as usize)),
            decreases len - k,
        {
            let y = self.order_idx[k];
            if dirty[y] {
                let ck = &self.children[y];
                let mut j: usize = 0;
                let ghost before = dirty@;
                while j < ck.len()
                    invariant
                        self.wf(),
                        n == self.names@.len(),
                        len == self.order_idx@.len(),
                        x < n,
                        y < n,
                        k < len,
                        y == self.order_idx@[k as int],
                        ck == self.children@[y as int],
                        before[y as int],
                        self.pos@[x as int] < k,
                        before.len() == n,
                        dirty@.len() == n,
                        j <= ck@.len(),
                        forall|z: int| 0 <= z < n && before[z] ==> dirty@[z],
                        forall|z: int| 0 <= z < n && dirty@[z] && !before[z] ==> child(y as int, z),
                        forall|t: int| 0 <= t < j ==> dirty@[#[trigger] ck@[t] as int],
                        child == (|a: int, b: int| self.children@[a]@.contains(b as usize)),
                    decreases ck@.len() - j,
                {
                    dirty.set(ck[j], true);
                    j = j + 1;
                }
                proof {
                    assert forall|z: int| 0 <= z < n && child(x as int, z) implies dirty@[z] by {
                        assert(before[z]);
                    }
                    assert forall|z: int| 0 <= z < n && dirty@[z] implies self.pos@[x as int] < self.pos@[z] by {
                        if !before[z] {
                            let t = choose|t: int| 0 <= t < ck@.len() && ck@[t] == z as usize;
                        }
                    }
                    assert forall|z: int| 0 <= z < n && dirty@[z] implies child(x as int, z)
                        || exists|w: int| 0 <= w < n && dirty@[w] && child(w, z) by {
                        if !before[z] {
                        } else {
                            if !child(x as int, z) {
                                let w = choose|w: int| 0 <= w < n && before[w] && child(w, z);
                            }
                        }
                    }
                    assert forall|w: int, c: int| 0 <= w < n && 0 <= c < n && dirty@[w] && self.pos@[w] < k + 1 && child(w, c)
                        implies dirty@[c] by {
                        if w == y {
                            let t = choose|t: int| 0 <= t < ck@.len() && ck@[t] == c as usize;
                        } else if self.pos@[w] == k {
                        } else if !before[w] {
                            let t = choose|t: int| 0 <= t < ck@.len() && ck@[t] == w as usize;
                        } else {
                            assert(before[c]);
                        }
                    }
                }
            } else {
                proof {
                    assert forall|w: int, c: int| 0 <= w < n && 0 <= c < n && dirty@[w] && self.pos@[w] < k + 1 && child(w, c)
                        implies dirty@[c] by {}
                }
            }
            k = k + 1;
        }
        // Every dirty cell lies after `x` and so has been expanded.
        let ghost pred = |s: Seq<char>| exists|z: int| 0 <= z < n && self.names@[z]@ == s && dirty@[z];
        let mut r: Vec<String> = Vec::new();
        let mut t: usize = 0;
        while t < len
            invariant
                self.wf(),
                n == self.names@.len(),
                len == self.order_idx@.len(),
                t <= len,
                dirty@.len() == n,
                pred == (|s: Seq<char>| exists|z: int| 0 <= z < n && self.names@[z]@ == s && dirty@[z]),
                Seq::new(r@.len(), |u: int| r@[u]@) == self.order_names().take(t as int).filter(pred),
            decreases len - t,
        {
            let y = self.order_idx[t];
            let ghost before = Seq::new(r@.len(), |u: int| r@[u]@);
            proof {
                assert(self.order_names().take(t + 1).drop_last() =~= self.order_names().take(t as int));
            }
            proof {
                reveal_with_fuel(Seq::filter, 1);
                let on = self.order_names();
                assert(on.take(t + 1).filter(pred) == {
                    let sub = on.take(t + 1).drop_last().filter(pred);
                    if pred(on.take(t + 1).last()) { sub.push(on.take(t + 1).last()) } else { sub }
                });
            }
            if dirty[y] {
                r.push(self.order[t].clone());
            } else {
                proof {
                    assert(!pred(self.names@[y as int]@)) by {
                        if pred(self.names@[y as int]@) {
                            let z = choose|z: int| 0 <= z < n && self.names@[z]@ == self.names@[y as int]@ && dirty@[z];
                            assert(self.keys@[z]@ == self.keys@[y as int]@);
                        }
                    }
                }
            }
            t = t + 1;
        }
        proof {
            let on = self.order_names();
            let rs = Seq::new(r@.len(), |u: int| r@[u]@);
            assert(on.take(len as int) =~= on);
            // Membership in the result is membership in the dirty set.
            assert forall|s: Seq<char>| on.contains(s) implies (rs.contains(s) <==> pred(s)) by {
                if pred(s) {
                    let i = choose|i: int| 0 <= i < on.len() && on[i] == s;
                    on.lemma_filter_contains_rev(pred, s);
                }
                if rs.contains(s) {
                    broadcast use vstd::seq_lib::group_filter_ensures;
                }
            }
            lemma_filter_ext(on, pred, |s: Seq<char>| rs.contains(s));
            // Name-level edges are index-level edges.
            assert forall|s: Seq<char>| #[trigger] on.contains(s) implies (rs.contains(s) <==> (self.edge(name@, s)
                || exists|d: Seq<char>| rs.contains(d) && self.edge(d, s))) by {
                let i = choose|i: int| 0 <= i < on.len() && on[i] == s;
                let z = self.order_idx@[i] as int;
                if self.edge(name@, s) {
                    let (a, b) = choose|a: int, b: int|
                        0 <= a < self.names@.len() && 0 <= b < self.names@.len() && #[trigger] self.names@[a]@ == name@
                            && #[trigger] self.names@[b]@ == s && self.children@[a]@.contains(b as usize);
                    assert(self.keys@[a]@ == self.keys@[x as int]@);
                    assert(self.keys@[b]@ == self.keys@[z]@);
                    assert(0 <= z < n && self.names@[z]@ == s && dirty@[z]);
                }
                if exists|d: Seq<char>| rs.contains(d) && self.edge(d, s) {
                    let d = choose|d: Seq<char>| rs.contains(d) && self.edge(d, s);
                    broadcast use vstd::seq_lib::group_filter_ensures;
                    let (a, b) = choose|a: int, b: int|
                        0 <= a < self.names@.len() && 0 <= b < self.names@.len() && #[trigger] self.names@[a]@ == d
                            && #[trigger] self.names@[b]@ == s && self.children@[a]@.contains(b as usize);
                    let w = choose|w: int| 0 <= w < n && self.names@[w]@ == d && dirty@[w];
                    assert(self.keys@[a]@ == self.keys@[w]@);
                    assert(self.keys@[b]@ == self.keys@[z]@);
                    assert(0 <= z < n && self.names@[z]@ == s && dirty@[z]);
                }
                if pred(s) {
                    let zz = choose|zz: int| 0 <= zz < n && self.names@[zz]@ == s && dirty@[zz];
                    assert(self.keys@[zz]@ == self.keys@[z]@);
                    if child(x as int, z) {
                    } else {
                        let w = choose|w: int| 0 <= w < n && dirty@[w] && child(w, z);
                        let d = self.names@[w]@;
                        let wi = self.pos@[w] as int;
                        assert(on[wi] == d);
                        assert(rs.contains(d));
                    }
                }
            }
        }
        r
    }
}

/// Filtering by predicates that agree on every element gives the same result.
pub proof fn lemma_filter_ext<A>(s: Seq<A>, p: spec_fn(A) -> bool, q: spec_fn(A) -> bool)
    requires
        forall|i: int| 0 <= i < s.len() ==> p(#[trigger] s[i]) == q(s[i]),
    ensures
        s.filter(p) == s.filter(q),
    decreases s.len(),
{
    reveal_with_fuel(Seq::filter, 1);
    if s.len() > 0 {
        lemma_filter_ext(s.drop_last(), p, q);
    }
}

/// Filtering by a predicate that holds of no element gives nothing.
pub proof fn lemma_filter_none<A>(s: Seq<A>, p: spec_fn(A) -> bool)
    requires
        forall|i: int| 0 <= i < s.len() ==> !p(#[trigger] s[i]),
    ensures
        s.filter(p) == Seq::<A>::empty(),
    decreases s.len(),
{
    reveal_with_fuel(Seq::filter, 1);
    if s.len() > 0 {
        lemma_filter_none(s.drop_last(), p);
    }
}

/// Every dependency runs before the cell that reads it: for each edge, the
/// producer's position in the order is below the consumer's.
pub proof fn lemma_edges_follow_order(g: &ReactiveGraph, p: Seq<char>, c: Seq<char>)
    requires
        g.wf(),
        g.edge(p, c),
    ensures
        exists|a: int, b: int| 0 <= a < b < g.order_names().len() && g.order_names()[a] == p && g.order_names()[b] == c,
{
    let (x, y) = choose|x: int, y: int|
        0 <= x < g.names@.len() && 0 <= y < g.names@.len() && #[trigger] g.names@[x]@ == p
            && #[trigger] g.names@[y]@ == c && g.children@[x]@.contains(y as usize);
    let j = choose|j: int| 0 <= j < g.children@[x]@.len() && g.children@[x]@[j] == y as usize;
    let a = g.pos@[x] as int;
    let b = g.pos@[y] as int;
    assert(g.order_names()[a] == p);
    assert(g.order_names()[b] == c);
}

/// The order names every cell exactly once.
pub proof fn lemma_order_distinct(g: &ReactiveGraph)
    requires
        g.wf(),
    ensures
        g.order_names().no_duplicates(),
{
    assert forall|a: int, b: int| 0 <= a < g.order_names().len() && 0 <= b < g.order_names().len() && a != b
        implies g.order_names()[a] != g.order_names()[b] by {
        let x = g.order_idx@[a] as int;
        let y = g.order_idx@[b] as int;
        assert(g.keys@[x]@ != g.keys@[y]@);
    }
}

/// A cell never depends on itself, so it is never among its own descendants.
pub proof fn lemma_no_self_edge(g: &ReactiveGraph, p: Seq<char>)
    requires
        g.wf(),
    ensures
        !g.edge(p, p),
{
    if g.edge(p, p) {
        lemma_edges_follow_order(g, p, p);
        lemma_order_distinct(g);
    }
}

/// A path only moves forward in the order.
pub proof fn lemma_reaches_forward(g: &ReactiveGraph, a: Seq<char>, x: Seq<char>)
    requires
        g.wf(),
        g.reaches(a, x),
    ensures
        exists|i: int, j: int| 0 <= i < j < g.order_names().len() && g.order_names()[i] == a && g.order_names()[j] == x,
{
    let p = choose|p: Seq<Seq<char>>| p.len() >= 2 && p[0] == a && p.last() == x && g.is_path(p);
    lemma_path_forward(g, p);
}

proof fn lemma_path_forward(g: &ReactiveGraph, p: Seq<Seq<char>>)
    requires
        g.wf(),
        p.len() >= 2,
        g.is_path(p),
    ensures
        exists|i: int, j: int| 0 <= i < j < g.order_names().len() && g.order_names()[i] == p[0] && g.order_names()[j] == p.last(),
    decreases p.len(),
{
    lemma_edges_follow_order(g, p[p.len() - 2], p[p.len() - 1]);
    if p.len() > 2 {
        let q = p.drop_last();
        assert(g.is_path(q)) by {
            assert forall|t: int| 0 <= t < q.len() - 1 implies g.edge(#[trigger] q[t], q[t + 1]) by {}
        }
        lemma_path_forward(g, q);
        lemma_order_distinct(g);
        let (i, j) = choose|i: int, j: int| 0 <= i < j < g.order_names().len() && g.order_names()[i] == q[0] && g.order_names()[j] == q.last();
        let (k, l) = choose|k: int, l: int| 0 <= k < l < g.order_names().len() && g.order_names()[k] == p[p.len() - 2] && g.order_names()[l] == p[p.len() - 1];
    }
}

/// No cell reaches itself: the graph has no cycle.
pub proof fn lemma_no_self_reach(g: &ReactiveGraph, a: Seq<char>)
    requires
        g.wf(),
    ensures
        !g.reaches(a, a),
{
    if g.reaches(a, a) {
        lemma_reaches_forward(g, a, a);
        lemma_order_distinct(g);
    }
}

/// Whatever a cell reaches is a cell of the order.
pub proof fn lemma_reached_in_order(g: &ReactiveGraph, a: Seq<char>, x: Seq<char>)
    requires
        g.wf(),
        g.reaches(a, x),
    ensures
        g.order_names().contains(x),
{
    lemma_reaches_forward(g, a, x);
    let (i, j) = choose|i: int, j: int| 0 <= i < j < g.order_names().len() && g.order_names()[i] == a && g.order_names()[j] == x;
}

/// A cell reached from a cell that `a` reaches is reached from `a`.
pub proof fn lemma_reaches_transitive(g: &ReactiveGraph, a: Seq<char>, b: Seq<char>, c: Seq<char>)
    requires
        g.reaches(a, b),
        g.reaches(b, c),
    ensures
        g.reaches(a, c),
{
    let p = choose|p: Seq<Seq<char>>| p.len() >= 2 && p[0] == a && p.last() == b && g.is_path(p);
    let q = choose|q: Seq<Seq<char>>| q.len() >= 2 && q[0] == b && q.last() == c && g.is_path(q);
    let r = p + q.drop_first();
    assert forall|t: int| 0 <= t < r.len() - 1 implies g.edge(#[trigger] r[t], r[t + 1]) by {
        if t < p.len() - 1 {
            assert(r[t] == p[t] && r[t + 1] == p[t + 1]);
        } else if t == p.len() - 1 {
            assert(r[t] == b && r[t + 1] == q[1]);
            assert(g.edge(q[0], q[1]));
        } else {
            let u = t - p.len() + 1;
            assert(r[t] == q[u] && r[t + 1] == q[u + 1]);
            assert(g.edge(q[u], q[u + 1]));
        }
    }
    assert(r.last() == c);
}

} // verus!
