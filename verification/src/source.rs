//! Locating `#[cell]` functions in a Rust source file, and replacing the text
//! of one cell while every other byte of the file stays as it was.
//!
//! Offsets are byte offsets into the UTF-8 encoding of the file.
use vstd::prelude::*;
use vstd::string::StringSliceAdditionalSpecFns;
use vstd::utf8::{decode_utf8, encode_utf8, is_char_boundary};

use syn::spanned::Spanned;

use crate::text::{push_str, str_eq};

verus! {

broadcast use vstd::utf8::encode_utf8_valid_utf8, vstd::utf8::encode_utf8_decode_utf8;

/// The path of an attribute as written: whether it starts with `::`, and the
/// names of its segments.
pub struct AttrPath {
    pub leading_colon: bool,
    pub segments: Vec<String>,
}

/// How one parameter of a function is written.
pub enum InputShape {
    /// `self`, `&self` or `&mut self`.
    Receiver,
    /// `pattern: Type`: the pattern's name when it is an identifier, and,
    /// when the type is a reference, whether that reference is `&mut`.
    Typed { name: Option<String>, reference: Option<bool> },
}

/// What the cell scanner reads of a top-level function.
pub struct FnShape {
    pub name: String,
    pub attributes: Vec<AttrPath>,
    /// Where the first attribute starts, when the function has one.
    pub first_attribute_start: Option<usize>,
    /// Where the whole item starts.
    pub item_start: usize,
    /// Just past the closing brace of the body.
    pub body_end: usize,
    pub inputs: Vec<InputShape>,
}

/// One `#[cell]` function of a source file: its name, its text (attributes
/// included), the names of its reference parameters and the line it starts on.
pub struct SourceCell {
    pub name: String,
    pub source: String,
    pub refs: Vec<String>,
    pub line: usize,
    /// Byte offset where the cell's text starts.
    pub start: usize,
    /// Byte offset just past the cell's text.
    pub end: usize,
}

/// `#[cell]` or `#[rustimo::cell]` (with or without a leading `::` on the
/// second form).
pub open spec fn is_cell_attribute(a: AttrPath) -> bool {
    ||| !a.leading_colon && a.segments@.len() == 1 && a.segments@[0]@ == "cell"@
    ||| a.segments@.len() == 2 && a.segments@[0]@ == "rustimo"@ && a.segments@[1]@ == "cell"@
}

pub open spec fn is_cell_function(f: FnShape) -> bool {
    exists|j: int| 0 <= j < f.attributes@.len() && is_cell_attribute(#[trigger] f.attributes@[j])
}

/// The functions of a file, in order, that carry a cell attribute.
pub open spec fn cell_functions(items: Seq<Option<FnShape>>) -> Seq<FnShape>
    decreases items.len(),
{
    if items.len() == 0 {
        Seq::empty()
    } else {
        let before = cell_functions(items.drop_last());
        match items.last() {
            Some(f) => if is_cell_function(f) {
                before.push(f)
            } else {
                before
            },
            None => before,
        }
    }
}

/// The text of a cell starts at its first attribute (or at the item when it
/// has none) and ends with the closing brace of its body.
pub open spec fn cell_start(f: FnShape) -> int {
    match f.first_attribute_start {
        Some(s) => s as int,
        None => f.item_start as int,
    }
}

/// Whether `start..end` is a slice of `bytes` that begins and ends on
/// character boundaries.
pub open spec fn span_ok(bytes: Seq<u8>, start: int, end: int) -> bool {
    &&& 0 <= start <= end <= bytes.len()
    &&& is_char_boundary(bytes, start)
    &&& is_char_boundary(bytes, end)
}

pub open spec fn newline_count(bytes: Seq<u8>) -> nat
    decreases bytes.len(),
{
    if bytes.len() == 0 {
        0
    } else {
        newline_count(bytes.drop_last()) + if bytes.last() == 10u8 {
            1nat
        } else {
            0nat
        }
    }
}

/// The line that byte `start` is on: one more than the number of newlines
/// before it (never more than `usize::MAX`).
pub open spec fn line_at(bytes: Seq<u8>, start: int) -> int {
    let n = newline_count(bytes.subrange(0, start)) as int + 1;
    if n <= usize::MAX {
        n
    } else {
        usize::MAX as int
    }
}

/// The names of the parameters written `name: &T` or `name: &mut T`.
pub open spec fn ref_names(inputs: Seq<InputShape>) -> Seq<Seq<char>>
    decreases inputs.len(),
{
    if inputs.len() == 0 {
        Seq::empty()
    } else {
        let before = ref_names(inputs.drop_last());
        match inputs.last() {
            InputShape::Typed { name: Some(n), reference: Some(_) } => before.push(n@),
            _ => before,
        }
    }
}

pub open spec fn names_of(v: Seq<String>) -> Seq<Seq<char>> {
    v.map_values(|s: String| s@)
}

/// `c` is the cell that function `f` makes in a file with these bytes.
pub open spec fn cell_built_from(bytes: Seq<u8>, f: FnShape, c: SourceCell) -> bool {
    let start = cell_start(f);
    let end = f.body_end as int;
    &&& c.name@ == f.name@
    &&& c.source@ == decode_utf8(bytes.subrange(start, end))
    &&& names_of(c.refs@) == ref_names(f.inputs@)
    &&& c.line == line_at(bytes, start)
    &&& c.start == start
    &&& c.end == end
}

/// `cells` are the cells that the functions `items` make: one per function
/// with a cell attribute, in order, each cut out of the file.
pub open spec fn cells_built_from(bytes: Seq<u8>, items: Seq<Option<FnShape>>, cells: Seq<SourceCell>) -> bool {
    &&& all_spans_ok(bytes, items)
    &&& cells.len() == cell_functions(items).len()
    &&& forall|i: int|
        0 <= i < cells.len() ==> cell_built_from(bytes, cell_functions(items)[i], #[trigger] cells[i])
}

/// Every cell function of the file has a span that can be cut out of it.
pub open spec fn all_spans_ok(bytes: Seq<u8>, items: Seq<Option<FnShape>>) -> bool {
    forall|i: int|
        0 <= i < cell_functions(items).len() ==> span_ok(
            bytes,
            cell_start(#[trigger] cell_functions(items)[i]),
            cell_functions(items)[i].body_end as int,
        )
}

/// `c` is a cell of a file with these bytes: its span can be cut out of the
/// file, its text is that span and its line is the one the span starts on.
pub open spec fn cell_fits(bytes: Seq<u8>, c: SourceCell) -> bool {
    &&& span_ok(bytes, c.start as int, c.end as int)
    &&& c.source@ == decode_utf8(bytes.subrange(c.start as int, c.end as int))
    &&& c.line == line_at(bytes, c.start as int)
}

pub open spec fn missing_span_message() -> Seq<char> {
    "cell source span is unavailable"@
}

pub open spec fn unknown_cell_message(name: Seq<char>) -> Seq<char> {
    "unknown source cell '"@ + name + "'"@
}

/// The file with the bytes `start..end` replaced by `replacement`.
pub open spec fn splice(bytes: Seq<u8>, start: int, end: int, replacement: Seq<char>) -> Seq<char> {
    decode_utf8(bytes.subrange(0, start)) + replacement + decode_utf8(
        bytes.subrange(end, bytes.len() as int),
    )
}

/// Cell `k` is the first of `cells` with this name.
pub open spec fn is_first_named(cells: Seq<SourceCell>, name: Seq<char>, k: int) -> bool {
    &&& 0 <= k < cells.len()
    &&& cells[k].name@ == name
    &&& forall|j: int| 0 <= j < k ==> (#[trigger] cells[j]).name@ != name
}

/// What `syn::parse_file` finds in a file, read as the scanner reads it: for
/// each top-level item in order, the shape of the function it is (`None` for
/// any other item), or the parser's message when the text is not a Rust file.
pub uninterp spec fn file_functions(source: Seq<char>) -> Result<Seq<Option<FnShape>>, Seq<char>>;

/// The name and the three byte offsets of a function's shape.
pub open spec fn head_of(f: Option<FnShape>) -> Option<(String, Option<usize>, usize, usize)> {
    match f {
        Some(f) => Some((f.name, f.first_attribute_start, f.item_start, f.body_end)),
        None => None,
    }
}

pub open spec fn attributes_of(f: Option<FnShape>) -> Option<Vec<AttrPath>> {
    match f {
        Some(f) => Some(f.attributes),
        None => None,
    }
}

pub open spec fn inputs_of(f: Option<FnShape>) -> Option<Vec<InputShape>> {
    match f {
        Some(f) => Some(f.inputs),
        None => None,
    }
}

/// `syn::parse_file`, and of each top-level function its name
/// (`Ident::to_string`), where its first attribute starts, where the item
/// starts and where the closing brace of its body ends
/// (`Span::byte_range`); the parser's message (`Error::to_string`) when the
/// text is not a Rust file.
#[verifier::external_body]
fn function_heads(source: &str) -> (r: Result<Vec<Option<(String, Option<usize>, usize, usize)>>, String>)
    ensures
        match file_functions(source@) {
            Err(e) => r matches Err(m) && m@ == e,
            Ok(fs) => r matches Ok(v) && v@ == fs.map_values(|f: Option<FnShape>| head_of(f)),
        },
{
    let file = syn::parse_file(source).map_err(|error| error.to_string())?;
    Ok(file.items.iter().map(|item| match item {
        syn::Item::Fn(function) => Some((
            function.sig.ident.to_string(),
            function.attrs.first().map(|attribute| attribute.span().byte_range().start),
            function.span().byte_range().start,
            function.block.brace_token.span.close().byte_range().end,
        )),
        _ => None,
    }).collect())
}

/// `syn::parse_file`, and of each top-level function the path of each of its
/// attributes (`Attribute::path`): its leading `::` and the names of its
/// segments. Nothing is stated when the text is not a Rust file.
#[verifier::external_body]
fn function_attributes(source: &str) -> (r: Vec<Option<Vec<AttrPath>>>)
    ensures
        file_functions(source@) matches Ok(fs) ==> r@ == fs.map_values(
            |f: Option<FnShape>| attributes_of(f),
        ),
{
    let Ok(file) = syn::parse_file(source) else { return Vec::new() };
    file.items.iter().map(|item| match item {
        syn::Item::Fn(function) => Some(function.attrs.iter().map(|attribute| AttrPath {
            leading_colon: attribute.path().leading_colon.is_some(),
            segments: attribute.path().segments.iter().map(|s| s.ident.to_string()).collect(),
        }).collect()),
        _ => None,
    }).collect()
}

/// `syn::parse_file`, and of each top-level function each parameter of its
/// signature, in order: a receiver, or a typed parameter with its
/// identifier (`Pat::Ident`) and, for `Type::Reference`, whether the
/// reference is mutable. Nothing is stated when the text is not a Rust file.
#[verifier::external_body]
fn function_inputs(source: &str) -> (r: Vec<Option<Vec<InputShape>>>)
    ensures
        file_functions(source@) matches Ok(fs) ==> r@ == fs.map_values(
            |f: Option<FnShape>| inputs_of(f),
        ),
{
    let Ok(file) = syn::parse_file(source) else { return Vec::new() };
    file.items.iter().map(|item| match item {
        syn::Item::Fn(function) => Some(function.sig.inputs.iter().map(|input| match input {
            syn::FnArg::Receiver(_) => InputShape::Receiver,
            syn::FnArg::Typed(t) => InputShape::Typed {
                name: if let syn::Pat::Ident(p) = t.pat.as_ref() { Some(p.ident.to_string()) } else { None },
                reference: if let syn::Type::Reference(r) = t.ty.as_ref() { Some(r.mutability.is_some()) } else { None },
            },
        }).collect()),
        _ => None,
    }).collect()
}

fn attribute_is_cell(a: &AttrPath) -> (r: bool)
    ensures
        r == is_cell_attribute(*a),
{
    if a.segments.len() == 1 {
        !a.leading_colon && str_eq(a.segments[0].as_str(), "cell")
    } else if a.segments.len() == 2 {
        str_eq(a.segments[0].as_str(), "rustimo") && str_eq(a.segments[1].as_str(), "cell")
    } else {
        false
    }
}

fn function_is_cell(f: &FnShape) -> (r: bool)
    ensures
        r == is_cell_function(*f),
{
    let mut j: usize = 0;
    while j < f.attributes.len()
        invariant
            j <= f.attributes@.len(),
            forall|k: int| 0 <= k < j ==> !is_cell_attribute(#[trigger] f.attributes@[k]),
        decreases f.attributes@.len() - j,
    {
        if attribute_is_cell(&f.attributes[j]) {
            return true;
        }
        j = j + 1;
    }
    false
}

/// The shape of a function from the parts the parser gives.
fn shape_of(
    head: (String, Option<usize>, usize, usize),
    attributes: Vec<AttrPath>,
    inputs: Vec<InputShape>,
) -> (f: FnShape)
    ensures
        f == (FnShape {
            name: head.0,
            attributes,
            first_attribute_start: head.1,
            item_start: head.2,
            body_end: head.3,
            inputs,
        }),
{
    let (name, first_attribute_start, item_start, body_end) = head;
    FnShape { name, attributes, first_attribute_start, item_start, body_end, inputs }
}

/// The shapes of the top-level items of a file, as `file_functions` gives
/// them, or the parser's message.
fn file_items(source: &str) -> (r: Result<Vec<Option<FnShape>>, String>)
    ensures
        match file_functions(source@) {
            Err(e) => r matches Err(m) && m@ == e,
            Ok(fs) => r matches Ok(v) && v@ == fs,
        },
{
    let mut heads = function_heads(source)?;
    let mut attributes = function_attributes(source);
    let mut inputs = function_inputs(source);
    let ghost fs = file_functions(source@)->Ok_0;
    let ghost heads0 = heads@;
    let ghost attributes0 = attributes@;
    let ghost inputs0 = inputs@;
    let n = heads.len();
    let mut items: Vec<Option<FnShape>> = Vec::new();
    let mut k: usize = 0;
    while k < n
        invariant
            file_functions(source@) == Ok::<_, Seq<char>>(fs),
            heads0 == fs.map_values(|f: Option<FnShape>| head_of(f)),
            attributes0 == fs.map_values(|f: Option<FnShape>| attributes_of(f)),
            inputs0 == fs.map_values(|f: Option<FnShape>| inputs_of(f)),
            n == fs.len(),
            k <= n,
            heads@ == heads0.skip(k as int),
            attributes@ == attributes0.skip(k as int),
            inputs@ == inputs0.skip(k as int),
            items@ == fs.take(k as int),
        decreases n - k,
    {
        let head = heads.remove(0);
        let attribute_list = attributes.remove(0);
        let input_list = inputs.remove(0);
        assert(heads0.skip(k as int).remove(0) =~= heads0.skip(k + 1));
        assert(attributes0.skip(k as int).remove(0) =~= attributes0.skip(k + 1));
        assert(inputs0.skip(k as int).remove(0) =~= inputs0.skip(k + 1));
        match (head, attribute_list, input_list) {
            (Some(h), Some(a), Some(i)) => {
                items.push(Some(shape_of(h, a, i)));
            },
            _ => {
                items.push(None);
            },
        }
        assert(items@ =~= fs.take(k + 1));
        k = k + 1;
    }
    assert(fs.take(n as int) =~= fs);
    Ok(items)
}

/// The names of the parameters written `name: &T` or `name: &mut T`.
fn reference_names(inputs: &Vec<InputShape>) -> (names: Vec<String>)
    ensures
        names_of(names@) == ref_names(inputs@),
{
    let mut names: Vec<String> = Vec::new();
    let mut i: usize = 0;
    while i < inputs.len()
        invariant
            i <= inputs@.len(),
            names_of(names@) == ref_names(inputs@.take(i as int)),
        decreases inputs@.len() - i,
    {
        assert(inputs@.take(i + 1).drop_last() =~= inputs@.take(i as int));
        match &inputs[i] {
            InputShape::Typed { name: Some(n), reference: Some(_) } => {
                names.push(n.clone());
            },
            _ => {},
        }
        i = i + 1;
    }
    assert(inputs@.take(inputs@.len() as int) =~= inputs@);
    names
}

/// The number of newlines among the first `end` bytes.
fn count_newlines(bytes: &[u8], end: usize) -> (n: usize)
    requires
        end <= bytes@.len(),
    ensures
        n == newline_count(bytes@.subrange(0, end as int)),
        n <= end,
{
    let mut n: usize = 0;
    let mut i: usize = 0;
    while i < end
        invariant
            i <= end <= bytes@.len(),
            n == newline_count(bytes@.subrange(0, i as int)),
            n <= i,
        decreases end - i,
    {
        assert(bytes@.subrange(0, i + 1).drop_last() =~= bytes@.subrange(0, i as int));
        if bytes[i] == 10u8 {
            n = n + 1;
        }
        i = i + 1;
    }
    n
}

/// A boundary of the whole text is a boundary of any prefix that still
/// contains it.
proof fn lemma_boundary_in_prefix(bytes: Seq<u8>, start: int, end: int)
    requires
        vstd::utf8::valid_utf8(bytes),
        span_ok(bytes, start, end),
    ensures
        vstd::utf8::valid_utf8(bytes.subrange(0, end)),
        is_char_boundary(bytes.subrange(0, end), start),
{
    let prefix = bytes.subrange(0, end);
    vstd::utf8::valid_utf8_split(bytes, end);
    if start == end {
        vstd::utf8::is_char_boundary_start_end_of_seq(prefix);
    } else if start > 0 {
        vstd::utf8::is_char_boundary_iff_not_is_continuation_byte(bytes, start);
        vstd::utf8::is_char_boundary_iff_not_is_continuation_byte(prefix, start);
    }
}

/// The text of `source` between two character boundaries.
fn cut(source: &str, start: usize, end: usize) -> (piece: String)
    requires
        span_ok(source.spec_bytes(), start as int, end as int),
    ensures
        piece@ == decode_utf8(source.spec_bytes().subrange(start as int, end as int)),
{
    let ghost bytes = source.spec_bytes();
    proof {
        lemma_boundary_in_prefix(bytes, start as int, end as int);
    }
    let (head, _) = source.split_at(end);
    let (_, piece) = head.split_at(start);
    assert(piece.spec_bytes() =~= bytes.subrange(start as int, end as int));
    piece.to_owned()
}

/// Whether `start..end` can be cut out of `source`.
fn can_cut(source: &str, start: usize, end: usize) -> (r: bool)
    ensures
        r == span_ok(source.spec_bytes(), start as int, end as int),
{
    let ghost bytes = source.spec_bytes();
    if start <= end && source.is_char_boundary(start) && source.is_char_boundary(end) {
        true
    } else {
        false
    }
}

/// The cells of a file, from its top-level items as the parser found them
/// (`None` for an item that is not a function).
///
/// A function is a cell when one of its attributes is `#[cell]` or
/// `#[rustimo::cell]`. Fails, with "cell source span is unavailable", as soon
/// as a cell's span cannot be cut out of the text.
pub fn cells_from_functions(source: &str, items: &Vec<Option<FnShape>>) -> (r: Result<
    Vec<SourceCell>,
    String,
>)
    ensures
        r is Ok <==> all_spans_ok(source.spec_bytes(), items@),
        match r {
            Ok(cells) => {
                &&& cells@.len() == cell_functions(items@).len()
                &&& forall|i: int|
                    0 <= i < cells@.len() ==> cell_built_from(
                        source.spec_bytes(),
                        cell_functions(items@)[i],
                        #[trigger] cells@[i],
                    )
            },
            Err(e) => e@ == missing_span_message(),
        },
{
    let ghost bytes = source.spec_bytes();
    let b = source.as_bytes();
    let mut cells: Vec<SourceCell> = Vec::new();
    let mut i: usize = 0;
    while i < items.len()
        invariant
            bytes == source.spec_bytes(),
            b@ == bytes,
            i <= items@.len(),
            all_spans_ok(bytes, items@.take(i as int)),
            cells@.len() == cell_functions(items@.take(i as int)).len(),
            forall|k: int|
                0 <= k < cells@.len() ==> cell_built_from(
                    bytes,
                    cell_functions(items@.take(i as int))[k],
                    #[trigger] cells@[k],
                ),
        decreases items@.len() - i,
    {
        let ghost before = cell_functions(items@.take(i as int));
        assert(items@.take(i + 1).drop_last() =~= items@.take(i as int));
        if let Some(f) = &items[i] {
            if function_is_cell(f) {
                let start = match f.first_attribute_start {
                    Some(s) => s,
                    None => f.item_start,
                };
                let end = f.body_end;
                if !can_cut(source, start, end) {
                    proof {
                        let fs = cell_functions(items@.take(i + 1));
                        let n = before.len() as int;
                        assert(fs[n] == *f);
                        lemma_cell_functions_prefix(items@, i + 1);
                    }
                    return Err("cell source span is unavailable".to_owned());
                }
                let text = cut(source, start, end);
                let refs = reference_names(&f.inputs);
                let newlines = count_newlines(b, start);
                let cell = SourceCell {
                    name: f.name.clone(),
                    source: text,
                    refs,
                    line: newlines.saturating_add(1),
                    start,
                    end,
                };
                cells.push(cell);
            }
        }
        i = i + 1;
    }
    assert(items@.take(items@.len() as int) =~= items@);
    Ok(cells)
}

proof fn lemma_cell_functions_prefix(items: Seq<Option<FnShape>>, k: int)
    requires
        0 <= k <= items.len(),
    ensures
        cell_functions(items.take(k)).len() <= cell_functions(items).len(),
        forall|j: int|
            0 <= j < cell_functions(items.take(k)).len() ==> cell_functions(items)[j]
                == #[trigger] cell_functions(items.take(k))[j],
    decreases items.len(),
{
    if k == items.len() {
        assert(items.take(k) =~= items);
    } else {
        let rest = items.drop_last();
        lemma_cell_functions_prefix(rest, k);
        assert(rest.take(k) =~= items.take(k));
    }
}

/// What parsing a file gives: the parser's message, "cell source span is
/// unavailable" when some cell's span cannot be cut out of the text, or the
/// functions with a cell attribute.
pub open spec fn parse_outcome(source: Seq<char>) -> Result<Seq<FnShape>, Seq<char>> {
    match file_functions(source) {
        Err(e) => Err(e),
        Ok(fs) => if all_spans_ok(encode_utf8(source), fs) {
            Ok(cell_functions(fs))
        } else {
            Err(missing_span_message())
        },
    }
}

/// The `#[cell]` functions of a Rust source file, in file order.
///
/// Fails with the parser's message when the text is not a Rust file, and
/// with "cell source span is unavailable" when a cell's span cannot be cut
/// out of the text. Otherwise each top-level function with a `#[cell]` or
/// `#[rustimo::cell]` attribute makes one cell, in file order, and nothing
/// else does.
pub fn parse_cells(source: &str) -> (r: Result<Vec<SourceCell>, String>)
    ensures
        r is Ok <==> parse_outcome(source@) is Ok,
        r matches Err(e) ==> parse_outcome(source@) == Err::<Seq<FnShape>, _>(e@),
        r matches Ok(cells) ==> cells_built_from(
            source.spec_bytes(),
            file_functions(source@)->Ok_0,
            cells@,
        ),
        r matches Ok(cells) ==> forall|i: int|
            0 <= i < cells@.len() ==> cell_fits(source.spec_bytes(), #[trigger] cells@[i]),
{
    let items = file_items(source)?;
    let r = cells_from_functions(source, &items);
    proof {
        if r is Ok {
            assert(cells_built_from(source.spec_bytes(), items@, r->Ok_0@));
        }
    }
    r
}

/// `source` with the text of the first cell named `name` replaced by
/// `replacement`; everything before and after that cell is kept. Fails with
/// "unknown source cell '<name>'" when no cell has that name.
pub fn replace_cell_in(source: &str, cells: &Vec<SourceCell>, name: &str, replacement: &str) -> (r:
    Result<String, String>)
    requires
        forall|i: int| 0 <= i < cells@.len() ==> cell_fits(source.spec_bytes(), #[trigger] cells@[i]),
    ensures
        r is Ok <==> exists|k: int| is_first_named(cells@, name@, k),
        match r {
            Ok(s) => forall|k: int|
                is_first_named(cells@, name@, k) ==> s@ == splice(
                    source.spec_bytes(),
                    cells@[k].start as int,
                    cells@[k].end as int,
                    replacement@,
                ),
            Err(e) => e@ == unknown_cell_message(name@),
        },
{
    let ghost bytes = source.spec_bytes();
    let mut i: usize = 0;
    while i < cells.len()
        invariant
            bytes == source.spec_bytes(),
            forall|j: int| 0 <= j < cells@.len() ==> cell_fits(bytes, #[trigger] cells@[j]),
            i <= cells@.len(),
            forall|j: int| 0 <= j < i ==> (#[trigger] cells@[j]).name@ != name@,
        decreases cells@.len() - i,
    {
        if str_eq(cells[i].name.as_str(), name) {
            let start = cells[i].start;
            let end = cells[i].end;
            let (prefix, _) = source.split_at(start);
            let (_, suffix) = source.split_at(end);
            let mut s = prefix.to_owned();
            push_str(&mut s, replacement);
            push_str(&mut s, suffix);
            proof {
                assert(is_first_named(cells@, name@, i as int));
            }
            return Ok(s);
        }
        i = i + 1;
    }
    let mut e = "unknown source cell '".to_owned();
    push_str(&mut e, name);
    push_str(&mut e, "'");
    Err(e)
}

/// Function `k` is the first of `fs` with this name.
pub open spec fn is_first_function_named(fs: Seq<FnShape>, name: Seq<char>, k: int) -> bool {
    &&& 0 <= k < fs.len()
    &&& fs[k].name@ == name
    &&& forall|j: int| 0 <= j < k ==> (#[trigger] fs[j]).name@ != name
}

/// What replacing the text of cell `name` by `replacement` makes of a file:
/// the parse's error, "unknown source cell '<name>'" when no cell has that
/// name, or the file with the span of the first cell of that name replaced.
pub open spec fn replace_outcome(source: Seq<char>, name: Seq<char>, replacement: Seq<char>) -> Result<
    Seq<char>,
    Seq<char>,
> {
    match parse_outcome(source) {
        Err(e) => Err(e),
        Ok(cfs) => if exists|k: int| is_first_function_named(cfs, name, k) {
            let k = choose|k: int| is_first_function_named(cfs, name, k);
            Ok(splice(encode_utf8(source), cell_start(cfs[k]), cfs[k].body_end as int, replacement))
        } else {
            Err(unknown_cell_message(name))
        },
    }
}

pub open spec fn text_result(r: Result<String, String>) -> Result<Seq<char>, Seq<char>> {
    match r {
        Ok(s) => Ok(s@),
        Err(e) => Err(e@),
    }
}

/// Replaces the text of the cell named `name` in a Rust source file.
///
/// The result is the file with the span of the first cell of that name
/// replaced by `replacement`, every byte before and after it kept; it fails
/// with the parse's error, or with "unknown source cell '<name>'".
pub fn replace_cell(source: &str, name: &str, replacement: &str) -> (r: Result<String, String>)
    ensures
        text_result(r) == replace_outcome(source@, name@, replacement@),
{
    let cells = parse_cells(source)?;
    let r = replace_cell_in(source, &cells, name, replacement);
    proof {
        let bytes = source.spec_bytes();
        let fs = file_functions(source@)->Ok_0;
        let cfs = cell_functions(fs);
        assert(parse_outcome(source@) == Ok::<_, Seq<char>>(cfs));
        assert(cells_built_from(bytes, fs, cells@));
        assert(cells@.len() == cfs.len());
        assert forall|j: int| 0 <= j < cfs.len() implies (#[trigger] cells@[j]).name@ == cfs[j].name@
            && cells@[j].start == cell_start(cfs[j]) && cells@[j].end == cfs[j].body_end by {
            assert(cell_built_from(bytes, cfs[j], cells@[j]));
        }
        assert forall|k: int| is_first_named(cells@, name@, k) <==> is_first_function_named(cfs, name@, k) by {
            if is_first_named(cells@, name@, k) {
                assert forall|j: int| 0 <= j < k implies (#[trigger] cfs[j]).name@ != name@ by {
                    assert(cells@[j].name@ != name@);
                }
            }
            if is_first_function_named(cfs, name@, k) {
                assert forall|j: int| 0 <= j < k implies (#[trigger] cells@[j]).name@ != name@ by {
                    assert(cfs[j].name@ != name@);
                }
            }
        }
        if exists|k: int| is_first_function_named(cfs, name@, k) {
            let k = choose|k: int| is_first_function_named(cfs, name@, k);
            assert(is_first_named(cells@, name@, k));
        } else {
            assert forall|k: int| !is_first_named(cells@, name@, k) by {
                if is_first_named(cells@, name@, k) {
                    assert(is_first_function_named(cfs, name@, k));
                }
            }
        }
    }
    r
}

/// The cell that a name picks is a cell with exactly that name, the first
/// one; there is one whenever some cell has that name, and none otherwise.
pub proof fn lemma_first_named_is_exact(cells: Seq<SourceCell>, name: Seq<char>)
    ensures
        forall|k: int| #[trigger] is_first_named(cells, name, k) ==> 0 <= k < cells.len() && cells[k].name@ == name
            && forall|j: int| 0 <= j < k ==> cells[j].name@ != name,
        (exists|k: int| is_first_named(cells, name, k)) <==> (exists|j: int| 0 <= j < cells.len() && cells[j].name@ == name),
{
    if exists|j: int| 0 <= j < cells.len() && cells[j].name@ == name {
        let j = choose|j: int| 0 <= j < cells.len() && cells[j].name@ == name;
        lemma_first_named_below(cells, name, j);
    }
}

proof fn lemma_first_named_below(cells: Seq<SourceCell>, name: Seq<char>, j: int)
    requires
        0 <= j < cells.len(),
        cells[j].name@ == name,
    ensures
        exists|k: int| is_first_named(cells, name, k),
    decreases j,
{
    if forall|u: int| 0 <= u < j ==> (#[trigger] cells[u]).name@ != name {
        assert(is_first_named(cells, name, j));
    } else {
        let u = choose|u: int| 0 <= u < j && (#[trigger] cells[u]).name@ == name;
        lemma_first_named_below(cells, name, u);
    }
}

/// The function that a name picks is one with exactly that name, the first
/// one; there is one whenever some function has that name, and none
/// otherwise.
pub proof fn lemma_first_function_named_is_exact(fs: Seq<FnShape>, name: Seq<char>)
    ensures
        forall|k: int| #[trigger] is_first_function_named(fs, name, k) ==> 0 <= k < fs.len() && fs[k].name@ == name
            && forall|j: int| 0 <= j < k ==> fs[j].name@ != name,
        (exists|k: int| is_first_function_named(fs, name, k)) <==> (exists|j: int| 0 <= j < fs.len() && fs[j].name@ == name),
{
    if exists|j: int| 0 <= j < fs.len() && fs[j].name@ == name {
        let j = choose|j: int| 0 <= j < fs.len() && fs[j].name@ == name;
        lemma_first_function_named_below(fs, name, j);
    }
}

proof fn lemma_first_function_named_below(fs: Seq<FnShape>, name: Seq<char>, j: int)
    requires
        0 <= j < fs.len(),
        fs[j].name@ == name,
    ensures
        exists|k: int| is_first_function_named(fs, name, k),
    decreases j,
{
    if forall|u: int| 0 <= u < j ==> (#[trigger] fs[u]).name@ != name {
        assert(is_first_function_named(fs, name, j));
    } else {
        let u = choose|u: int| 0 <= u < j && (#[trigger] fs[u]).name@ == name;
        lemma_first_function_named_below(fs, name, u);
    }
}

/// Replacing a cell changes exactly the text of the first cell whose name is
/// the requested one, and nothing else; when no cell has that name the file
/// is refused with `unknown source cell`, and a file that does not parse is
/// refused with the parser's error.
pub proof fn lemma_replace_outcome_exact(source: Seq<char>, name: Seq<char>, replacement: Seq<char>)
    ensures
        parse_outcome(source) matches Err(e) ==> replace_outcome(source, name, replacement) == Err::<Seq<char>, _>(e),
        parse_outcome(source) matches Ok(cfs) ==> {
            &&& (forall|j: int| 0 <= j < cfs.len() ==> cfs[j].name@ != name) ==> replace_outcome(source, name, replacement)
                == Err::<Seq<char>, _>("unknown source cell '"@ + name + "'"@)
            &&& (exists|j: int| 0 <= j < cfs.len() && cfs[j].name@ == name) ==> exists|k: int| {
                &&& 0 <= k < cfs.len()
                &&& cfs[k].name@ == name
                &&& forall|j: int| 0 <= j < k ==> cfs[j].name@ != name
                &&& replace_outcome(source, name, replacement) == Ok::<_, Seq<char>>(splice(
                    encode_utf8(source),
                    cell_start(cfs[k]),
                    cfs[k].body_end as int,
                    replacement,
                ))
            }
        },
{
    if let Ok(cfs) = parse_outcome(source) {
        lemma_first_function_named_is_exact(cfs, name);
        if exists|j: int| 0 <= j < cfs.len() && cfs[j].name@ == name {
            let k = choose|k: int| is_first_function_named(cfs, name, k);
            assert(is_first_function_named(cfs, name, k));
        }
    }
}

/// A function is a cell as soon as one of its attributes, at any position
/// and whatever the others are, is `#[cell]` or `#[rustimo::cell]` (or
/// `#[::rustimo::cell]`), and only then.
pub proof fn lemma_cell_attribute_anywhere(f: FnShape)
    ensures
        is_cell_function(f) <==> exists|j: int| 0 <= j < f.attributes@.len() && {
            let a = #[trigger] f.attributes@[j];
            ||| !a.leading_colon && a.segments@.len() == 1 && a.segments@[0]@ == "cell"@
            ||| a.segments@.len() == 2 && a.segments@[0]@ == "rustimo"@ && a.segments@[1]@ == "cell"@
        },
{
}

/// The cell functions of two runs of items, one after the other, are those
/// of the first and then those of the second.
pub proof fn lemma_cell_functions_append(a: Seq<Option<FnShape>>, b: Seq<Option<FnShape>>)
    ensures
        cell_functions(a + b) == cell_functions(a) + cell_functions(b),
    decreases b.len(),
{
    if b.len() == 0 {
        assert(a + b =~= a);
        assert(cell_functions(a) + cell_functions(b) =~= cell_functions(a));
    } else {
        assert((a + b).drop_last() =~= a + b.drop_last());
        assert((a + b).last() == b.last());
        lemma_cell_functions_append(a, b.drop_last());
        if let Some(f) = b.last() {
            if is_cell_function(f) {
                assert(cell_functions(a) + cell_functions(b.drop_last()).push(f) =~= (cell_functions(a)
                    + cell_functions(b.drop_last())).push(f));
            }
        }
    }
}

/// One item is a cell exactly when it is a function with a cell attribute.
pub proof fn lemma_cell_functions_one(x: Option<FnShape>)
    ensures
        (x matches Some(f) && is_cell_function(f)) ==> cell_functions(seq![x]) == seq![x->Some_0],
        !(x matches Some(f) && is_cell_function(f)) ==> cell_functions(seq![x]).len() == 0,
{
    assert(seq![x].drop_last() =~= Seq::<Option<FnShape>>::empty());
    assert(seq![x].last() == x);
    assert(cell_functions(Seq::<Option<FnShape>>::empty()) == Seq::<FnShape>::empty());
    if let Some(f) = x {
        assert(Seq::<FnShape>::empty().push(f) =~= seq![f]);
    }
}

/// The reference inputs of two runs of parameters, one after the other, are
/// those of the first and then those of the second.
pub proof fn lemma_ref_names_append(a: Seq<InputShape>, b: Seq<InputShape>)
    ensures
        ref_names(a + b) == ref_names(a) + ref_names(b),
    decreases b.len(),
{
    if b.len() == 0 {
        assert(a + b =~= a);
        assert(ref_names(a) + ref_names(b) =~= ref_names(a));
    } else {
        assert((a + b).drop_last() =~= a + b.drop_last());
        assert((a + b).last() == b.last());
        lemma_ref_names_append(a, b.drop_last());
        match b.last() {
            InputShape::Typed { name: Some(n), reference: Some(_) } => {
                assert(ref_names(a) + ref_names(b.drop_last()).push(n@) =~= (ref_names(a) + ref_names(
                    b.drop_last(),
                )).push(n@));
            },
            _ => {},
        }
    }
}

/// A parameter is a reference input exactly when it is `name: &T` or
/// `name: &mut T` with a plain name; it then gives that name.
pub proof fn lemma_ref_names_one(x: InputShape)
    ensures
        (x matches InputShape::Typed { name: Some(n), reference: Some(_) }) ==> ref_names(seq![x]) == seq![
            x->Typed_name->Some_0@,
        ],
        !(x matches InputShape::Typed { name: Some(n), reference: Some(_) }) ==> ref_names(seq![x]).len() == 0,
{
    assert(seq![x].drop_last() =~= Seq::<InputShape>::empty());
    assert(seq![x].last() == x);
    assert(ref_names(Seq::<InputShape>::empty()) == Seq::<Seq<char>>::empty());
    if let InputShape::Typed { name: Some(n), reference: Some(_) } = x {
        assert(Seq::<Seq<char>>::empty().push(n@) =~= seq![n@]);
    }
}

/// The newlines of two pieces of text, one after the other, are those of the
/// first and those of the second; a single byte is one newline when it is
/// `\n` and none otherwise.
pub proof fn lemma_newline_count_append(a: Seq<u8>, b: Seq<u8>)
    ensures
        newline_count(a + b) == newline_count(a) + newline_count(b),
        newline_count(seq![10u8]) == 1,
        forall|c: u8| c != 10u8 ==> #[trigger] newline_count(seq![c]) == 0,
    decreases b.len(),
{
    assert(seq![10u8].drop_last() =~= Seq::<u8>::empty());
    assert(newline_count(Seq::<u8>::empty()) == 0);
    assert(newline_count(seq![10u8]) == newline_count(seq![10u8].drop_last()) + 1);
    assert forall|c: u8| c != 10u8 implies #[trigger] newline_count(seq![c]) == 0 by {
        assert(seq![c].drop_last() =~= Seq::<u8>::empty());
        assert(seq![c].last() == c);
        assert(newline_count(seq![c]) == newline_count(seq![c].drop_last()) + 0);
    }
    if b.len() == 0 {
        assert(a + b =~= a);
    } else {
        assert((a + b).drop_last() =~= a + b.drop_last());
        assert((a + b).last() == b.last());
        lemma_newline_count_append(a, b.drop_last());
    }
}

/// Putting back the text of the cell it replaces leaves a file as it was.
pub proof fn lemma_replace_with_own_text(source: Seq<char>, name: Seq<char>, k: int)
    requires
        parse_outcome(source) matches Ok(cfs) && is_first_function_named(cfs, name, k),
    ensures
        ({
            let cfs = parse_outcome(source)->Ok_0;
            let bytes = encode_utf8(source);
            replace_outcome(source, name, decode_utf8(bytes.subrange(cell_start(cfs[k]), cfs[k].body_end as int)))
                == Ok::<_, Seq<char>>(source)
        }),
{
    let cfs = parse_outcome(source)->Ok_0;
    let fs = file_functions(source)->Ok_0;
    let bytes = encode_utf8(source);
    assert(cfs == cell_functions(fs));
    assert(span_ok(bytes, cell_start(cfs[k]), cfs[k].body_end as int));
    let j = choose|j: int| is_first_function_named(cfs, name, j);
    assert(j == k) by {
        if j < k {
            assert(cfs[j].name@ != name);
        } else if k < j {
            assert(cfs[k].name@ != name);
        }
    }
    lemma_splice_own_text(bytes, cell_start(cfs[k]), cfs[k].body_end as int);
}

/// UTF-8 encoding distributes over concatenation.
pub proof fn lemma_encode_concat(a: Seq<char>, b: Seq<char>)
    ensures
        encode_utf8(a + b) == encode_utf8(a) + encode_utf8(b),
    decreases a.len(),
{
    if a.len() == 0 {
    } else {
        lemma_encode_concat(a.drop_first(), b);
        assert((a + b).drop_first() =~= a.drop_first() + b);
    }
}

/// Replacing a span keeps every byte outside it: the result encodes to the
/// bytes before the span, then the replacement, then the bytes after it.
pub proof fn lemma_splice_keeps_surrounding_bytes(
    bytes: Seq<u8>,
    start: int,
    end: int,
    replacement: Seq<char>,
)
    requires
        vstd::utf8::valid_utf8(bytes),
        span_ok(bytes, start, end),
    ensures
        encode_utf8(splice(bytes, start, end, replacement)) == bytes.subrange(0, start)
            + encode_utf8(replacement) + bytes.subrange(end, bytes.len() as int),
{
    let before = bytes.subrange(0, start);
    let after = bytes.subrange(end, bytes.len() as int);
    vstd::utf8::valid_utf8_split(bytes, start);
    vstd::utf8::valid_utf8_split(bytes, end);
    vstd::utf8::decode_utf8_encode_utf8(before);
    vstd::utf8::decode_utf8_encode_utf8(after);
    lemma_encode_concat(decode_utf8(before), replacement);
    lemma_encode_concat(decode_utf8(before) + replacement, decode_utf8(after));
}

/// Replacing a span by its own text gives back the whole text.
pub proof fn lemma_splice_own_text(bytes: Seq<u8>, start: int, end: int)
    requires
        vstd::utf8::valid_utf8(bytes),
        span_ok(bytes, start, end),
    ensures
        splice(bytes, start, end, decode_utf8(bytes.subrange(start, end))) == decode_utf8(bytes),
{
    let head = bytes.subrange(0, end);
    lemma_boundary_in_prefix(bytes, start, end);
    vstd::utf8::decode_utf8_split(bytes, end);
    vstd::utf8::decode_utf8_split(head, start);
    assert(head.subrange(0, start) =~= bytes.subrange(0, start));
    assert(head.subrange(start, head.len() as int) =~= bytes.subrange(start, end));
    assert(splice(bytes, start, end, decode_utf8(bytes.subrange(start, end))) =~= decode_utf8(
        bytes,
    ));
}

} // verus!
