//! The rules a `#[cell]` function must follow: synchronous, not generic,
//! with a return type, and taking only shared references, each named after
//! the cell it reads. A cell whose type is `Ui<T>` is a signal.
use vstd::prelude::*;

use crate::source::{names_of, ref_names, InputShape};
use crate::text::str_eq;

use syn::parse::Parser;

verus! {

/// The declared return type of a function.
pub enum OutputShape {
    /// No `->` type.
    Missing,
    /// A type that is not a path.
    Other,
    /// A path type: the name of its last segment and, when that segment has
    /// `<...>` arguments, whether each of them is a type.
    Path { last: String, angle_arguments: Option<Vec<bool>> },
}

/// What the cell rules read of a function's signature.
pub struct CellSignature {
    pub name: String,
    pub is_async: bool,
    /// How many generic parameters (types, lifetimes, constants) it declares.
    pub generic_params: usize,
    pub output: OutputShape,
    pub inputs: Vec<InputShape>,
}

/// What a valid cell function makes: its name, the cells it reads, and
/// whether it is a signal (its value is a `Ui` widget).
pub struct CellPlan {
    pub name: String,
    pub refs: Vec<String>,
    pub is_signal: bool,
}

/// A type written `...::Ui<...>` with at least one type argument.
pub open spec fn is_ui_output(output: OutputShape) -> bool {
    match output {
        OutputShape::Path { last, angle_arguments: Some(args) } => last@ == "Ui"@ && exists|i: int|
            0 <= i < args@.len() && #[trigger] args@[i],
        _ => false,
    }
}

/// Why a parameter cannot be a cell input, if it cannot.
pub open spec fn input_error(input: InputShape) -> Option<Seq<char>> {
    match input {
        InputShape::Receiver => Some("cell methods are unsupported"@),
        InputShape::Typed { name: None, reference: _ } => Some(
            "cell inputs must have simple names"@,
        ),
        InputShape::Typed { name: Some(_), reference: None } => Some(
            "cell inputs must be shared references, such as data: &DataFrame"@,
        ),
        InputShape::Typed { name: Some(_), reference: Some(true) } => Some(
            "mutable cross-cell references are unsupported"@,
        ),
        InputShape::Typed { name: Some(_), reference: Some(false) } => None,
    }
}

/// The error of the first parameter that cannot be a cell input.
pub open spec fn first_input_error(inputs: Seq<InputShape>) -> Option<Seq<char>>
    decreases inputs.len(),
{
    if inputs.len() == 0 {
        None
    } else {
        match input_error(inputs[0]) {
            Some(e) => Some(e),
            None => first_input_error(inputs.drop_first()),
        }
    }
}

/// What the cell rules say of a signature: the error, or the cell's name,
/// the names it reads and whether it is a signal.
pub open spec fn cell_verdict(sig: CellSignature) -> Result<(Seq<char>, Seq<Seq<char>>, bool), Seq<char>> {
    if sig.is_async || sig.generic_params > 0 {
        Err("cells must be synchronous functions without type or lifetime parameters"@)
    } else if sig.output is Missing {
        Err("a cell needs a return type"@)
    } else {
        match first_input_error(sig.inputs@) {
            Some(e) => Err(e),
            None => Ok((sig.name@, ref_names(sig.inputs@), is_ui_output(sig.output))),
        }
    }
}

impl CellPlan {
    pub open spec fn parts(&self) -> (Seq<char>, Seq<Seq<char>>, bool) {
        (self.name@, names_of(self.refs@), self.is_signal)
    }
}

fn any_true(flags: &Vec<bool>) -> (r: bool)
    ensures
        r == exists|i: int| 0 <= i < flags@.len() && #[trigger] flags@[i],
{
    let mut i: usize = 0;
    while i < flags.len()
        invariant
            i <= flags@.len(),
            forall|j: int| 0 <= j < i ==> !flags@[j],
        decreases flags@.len() - i,
    {
        if flags[i] {
            return true;
        }
        i = i + 1;
    }
    false
}

/// Whether the type is `Ui<..>` with a type argument: a cell of that type is
/// a signal that the page can change.
pub fn is_ui_type(output: &OutputShape) -> (r: bool)
    ensures
        r == is_ui_output(*output),
{
    match output {
        OutputShape::Path { last, angle_arguments: Some(args) } => str_eq(last.as_str(), "Ui")
            && any_true(args),
        _ => false,
    }
}

fn clone_string(s: &String) -> (r: String)
    ensures
        r@ == s@,
{
    s.clone()
}

/// Checks a function against the cell rules.
pub fn check_cell(sig: &CellSignature) -> (r: Result<CellPlan, String>)
    ensures
        match r {
            Ok(plan) => cell_verdict(*sig) == Ok::<_, Seq<char>>(plan.parts()),
            Err(e) => cell_verdict(*sig) == Err::<(Seq<char>, Seq<Seq<char>>, bool), _>(e@),
        },
{
    if sig.is_async || sig.generic_params > 0 {
        return Err("cells must be synchronous functions without type or lifetime parameters".to_owned());
    }
    if let OutputShape::Missing = sig.output {
        return Err("a cell needs a return type".to_owned());
    }
    let mut refs: Vec<String> = Vec::new();
    let mut i: usize = 0;
    assert(sig.inputs@.skip(0) =~= sig.inputs@);
    while i < sig.inputs.len()
        invariant
            !(sig.is_async || sig.generic_params > 0),
            !(sig.output is Missing),
            i <= sig.inputs@.len(),
            first_input_error(sig.inputs@) == first_input_error(sig.inputs@.skip(i as int)),
            forall|j: int| 0 <= j < i ==> input_error(#[trigger] sig.inputs@[j]) is None,
            names_of(refs@) == ref_names(sig.inputs@.take(i as int)),
        decreases sig.inputs@.len() - i,
    {
        let ghost rest = sig.inputs@.skip(i as int);
        assert(rest.drop_first() =~= sig.inputs@.skip(i + 1));
        assert(sig.inputs@.take(i + 1).drop_last() =~= sig.inputs@.take(i as int));
        match &sig.inputs[i] {
            InputShape::Receiver => {
                return Err("cell methods are unsupported".to_owned());
            },
            InputShape::Typed { name: None, reference: _ } => {
                return Err("cell inputs must have simple names".to_owned());
            },
            InputShape::Typed { name: Some(_), reference: None } => {
                return Err(
                    "cell inputs must be shared references, such as data: &DataFrame".to_owned(),
                );
            },
            InputShape::Typed { name: Some(_), reference: Some(true) } => {
                return Err("mutable cross-cell references are unsupported".to_owned());
            },
            InputShape::Typed { name: Some(n), reference: Some(false) } => {
                let ghost before = names_of(refs@);
                refs.push(clone_string(n));
            },
        }
        i = i + 1;
    }
    Ok(CellPlan { name: clone_string(&sig.name), refs, is_signal: is_ui_type(&sig.output) })
}

/// What `syn::parse_str::<syn::ItemFn>` finds in the text of one function,
/// read as the cell rules read it, or the parser's message.
pub uninterp spec fn parsed_function(text: Seq<char>) -> Result<CellSignature, Seq<char>>;

/// `syn::parse_str::<syn::ItemFn>`, and of the function its name
/// (`Ident::to_string`), whether it is `async`, and how many generic
/// parameters it has; the parser's message (`Error::to_string`) when the
/// text is not one function.
#[verifier::external_body]
fn function_head(text: &str) -> (r: Result<(String, bool, usize), String>)
    ensures
        match parsed_function(text@) {
            Err(e) => r matches Err(m) && m@ == e,
            Ok(sig) => r == Ok::<_, String>((sig.name, sig.is_async, sig.generic_params)),
        },
{
    let function = syn::parse_str::<syn::ItemFn>(text).map_err(|error| error.to_string())?;
    let sig = &function.sig;
    Ok((sig.ident.to_string(), sig.asyncness.is_some(), sig.generics.params.len()))
}

/// `syn::parse_str::<syn::ItemFn>`, and the function's declared return type:
/// missing, not a path, or a path with the name of its last segment and, for
/// `<...>` arguments, which of them are types. Nothing is stated when the text
/// is not one function.
#[verifier::external_body]
fn function_output(text: &str) -> (r: Option<OutputShape>)
    ensures
        parsed_function(text@) matches Ok(sig) ==> r == Some(sig.output),
{
    let Ok(function) = syn::parse_str::<syn::ItemFn>(text) else { return None };
    let syn::ReturnType::Type(_, ty) = &function.sig.output else { return Some(OutputShape::Missing) };
    let syn::Type::Path(path) = ty.as_ref() else { return Some(OutputShape::Other) };
    let Some(last) = path.path.segments.last() else { return Some(OutputShape::Other) };
    Some(OutputShape::Path {
        last: last.ident.to_string(),
        angle_arguments: match &last.arguments {
            syn::PathArguments::AngleBracketed(a) => Some(
                a.args.iter().map(|arg| matches!(arg, syn::GenericArgument::Type(_))).collect(),
            ),
            _ => None,
        },
    })
}

/// `syn::parse_str::<syn::ItemFn>`, and each parameter of the signature, in
/// order: a receiver, or a typed parameter with its identifier
/// (`Pat::Ident`) and, for `Type::Reference`, whether the reference is
/// mutable. Nothing is stated when the text is not one function.
#[verifier::external_body]
fn function_parameters(text: &str) -> (r: Option<Vec<InputShape>>)
    ensures
        parsed_function(text@) matches Ok(sig) ==> r == Some(sig.inputs),
{
    let Ok(function) = syn::parse_str::<syn::ItemFn>(text) else { return None };
    Some(function.sig.inputs.iter().map(|input| match input {
        syn::FnArg::Receiver(_) => InputShape::Receiver,
        syn::FnArg::Typed(t) => InputShape::Typed {
            name: if let syn::Pat::Ident(p) = t.pat.as_ref() { Some(p.ident.to_string()) } else { None },
            reference: if let syn::Type::Reference(r) = t.ty.as_ref() { Some(r.mutability.is_some()) } else { None },
        },
    }).collect())
}

/// The signature of the function the text holds, as the cell rules read it,
/// or the parser's message.
fn signature_of(text: &str) -> (r: Result<CellSignature, String>)
    ensures
        match parsed_function(text@) {
            Err(e) => r matches Err(m) && m@ == e,
            Ok(sig) => r == Ok::<_, String>(sig),
        },
{
    let (name, is_async, generic_params) = function_head(text)?;
    // The three readers parse the same text: once the first has found a
    // function, so do the other two.
    match (function_output(text), function_parameters(text)) {
        (Some(output), Some(inputs)) => Ok(CellSignature { name, is_async, generic_params, output, inputs }),
        _ => Err(String::new()),
    }
}

/// What the cell rules make of the text of one function: the parser's
/// message, or the verdict on its signature.
pub open spec fn plan_outcome(text: Seq<char>) -> Result<(Seq<char>, Seq<Seq<char>>, bool), Seq<char>> {
    match parsed_function(text) {
        Err(e) => Err(e),
        Ok(sig) => cell_verdict(sig),
    }
}

/// Checks the text of one function against the cell rules: the parser's
/// message when it is not a function, otherwise `check_cell` of its
/// signature.
pub fn plan_cell(function_text: &str) -> (r: Result<CellPlan, String>)
    ensures
        match r {
            Ok(plan) => plan_outcome(function_text@) == Ok::<_, Seq<char>>(plan.parts()),
            Err(e) => plan_outcome(function_text@) == Err::<(Seq<char>, Seq<Seq<char>>, bool), _>(e@),
        },
{
    match signature_of(function_text) {
        Err(message) => Err(message),
        Ok(sig) => check_cell(&sig),
    }
}

/// What `Punctuated::<syn::Ident, syn::token::Comma>::parse_terminated`
/// finds in a text: the names of a comma-separated list, in order, or the
/// parser's message.
pub uninterp spec fn listed_names(text: Seq<char>) -> Result<Seq<Seq<char>>, Seq<char>>;

/// `syn::punctuated::Punctuated::<syn::Ident, syn::token::Comma>::parse_terminated`
/// applied to the text: the identifiers of a comma-separated list, in order
/// (`Ident::to_string`), or the parser's message (`Error::to_string`).
#[verifier::external_body]
fn parse_names(text: &str) -> (r: Result<Vec<String>, String>)
    ensures
        match listed_names(text@) {
            Err(e) => r matches Err(m) && m@ == e,
            Ok(ns) => r matches Ok(v) && names_of(v@) == ns,
        },
{
    let parser = syn::punctuated::Punctuated::<syn::Ident, syn::token::Comma>::parse_terminated;
    let names = parser.parse_str(text).map_err(|error| error.to_string())?;
    Ok(names.iter().map(|name| name.to_string()).collect())
}

/// Whether a list of cell names can make a notebook: it needs at least one.
pub fn check_notebook(names: Vec<String>) -> (r: Result<Vec<String>, String>)
    ensures
        names@.len() == 0 <==> r is Err,
        r matches Ok(v) ==> v@ == names@,
        r matches Err(e) ==> e@ == "a notebook needs cells"@,
{
    if names.len() == 0 {
        Err("a notebook needs cells".to_owned())
    } else {
        Ok(names)
    }
}

/// The cells a notebook lists, from the text of its comma-separated names:
/// the parser's message, "a notebook needs cells" for an empty list, or the
/// names in order.
pub fn notebook_cells(text: &str) -> (r: Result<Vec<String>, String>)
    ensures
        match listed_names(text@) {
            Err(e) => r matches Err(m) && m@ == e,
            Ok(ns) => if ns.len() == 0 {
                r matches Err(m) && m@ == "a notebook needs cells"@
            } else {
                r matches Ok(v) && names_of(v@) == ns
            },
        },
{
    match parse_names(text) {
        Err(message) => Err(message),
        Ok(names) => check_notebook(names),
    }
}

} // verus!
