//! The error every notebook operation reports: a machine-readable code, a
//! human-readable message and, where one is to blame, the cell's name.
use vstd::prelude::*;

use crate::text::push_str;

verus! {

#[derive(Debug)]
pub struct RuntimeError {
    pub code: String,
    pub message: String,
    pub cell: Option<String>,
}

/// The character sequence of an optional cell name.
pub open spec fn opt_chars(cell: Option<String>) -> Option<Seq<char>> {
    match cell {
        Some(s) => Some(s@),
        None => None,
    }
}

impl RuntimeError {
    /// Whether this error has the given code, message and cell, as characters.
    pub open spec fn is(&self, code: Seq<char>, message: Seq<char>, cell: Option<Seq<char>>) -> bool {
        &&& self.code@ == code
        &&& self.message@ == message
        &&& opt_chars(self.cell) == cell
    }

    pub fn new(code: &str, message: String, cell: Option<&str>) -> (e: Self)
        ensures
            e.code@ == code@,
            e.message@ == message@,
            e.cell is Some <==> cell is Some,
            cell is Some ==> e.cell.unwrap()@ == cell.unwrap()@,
    {
        let cell = match cell {
            Some(c) => Some(c.to_owned()),
            None => None,
        };
        RuntimeError { code: code.to_owned(), message, cell }
    }

    /// The text `code: message`, as the error is displayed.
    pub fn to_string(&self) -> (s: String)
        ensures
            s@ == self.code@ + ": "@ + self.message@,
    {
        let mut s = self.code.clone();
        push_str(&mut s, ": ");
        push_str(&mut s, self.message.as_str());
        s
    }

    pub fn clone(&self) -> (e: Self)
        ensures
            e == *self,
    {
        let cell = match &self.cell {
            Some(c) => Some(c.clone()),
            None => None,
        };
        RuntimeError { code: self.code.clone(), message: self.message.clone(), cell }
    }
}

} // verus!
