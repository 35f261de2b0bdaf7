//! What a cell shows in the browser.
use vstd::prelude::*;

verus! {

#[verifier::external_type_specification]
#[verifier::external_body]
pub struct ExJsonValue(serde_json::Value);

/// `serde_json::Value::clone`: the copy is the same JSON value.
#[verifier::external_body]
pub(crate) fn clone_json(v: &serde_json::Value) -> (r: serde_json::Value)
    ensures
        r == *v,
{
    v.clone()
}

/// A cell's output: nothing, plain text, Markdown, or a widget description
/// (a JSON object that the browser renders).
pub enum View {
    Empty,
    Text(String),
    Markdown(String),
    Widget(serde_json::Value),
}

impl View {
    pub fn text(text: String) -> (v: Self)
        ensures
            v == View::Text(text),
    {
        View::Text(text)
    }

    pub fn markdown(markdown: String) -> (v: Self)
        ensures
            v == View::Markdown(markdown),
    {
        View::Markdown(markdown)
    }

    pub fn clone(&self) -> (v: Self)
        ensures
            v == *self,
    {
        match self {
            View::Empty => View::Empty,
            View::Text(t) => View::Text(t.clone()),
            View::Markdown(m) => View::Markdown(m.clone()),
            View::Widget(w) => View::Widget(clone_json(w)),
        }
    }
}

} // verus!
