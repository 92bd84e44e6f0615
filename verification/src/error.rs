//! The library's errors: a stage not written yet, SQL outside the supported
//! subset, and everything else.

use vstd::prelude::*;

verus! {

/// Marks a stage that has not been written yet; carries where to look.
#[derive(Debug, Clone, Copy)]
pub struct NotYetImplemented(pub &'static str);

/// SQL outside the supported subset (GROUP BY, subqueries, outer joins, ...).
#[derive(Debug)]
pub struct Unsupported(pub String);

impl NotYetImplemented {
    /// The message of this marker.
    pub fn message(&self) -> (r: String)
        ensures
            r@ == "not yet implemented: "@ + self.0@,
    {
        let mut s = "not yet implemented: ".to_owned();
        s.append(self.0);
        s
    }
}

impl Unsupported {
    /// The message of this marker.
    pub fn message(&self) -> (r: String)
        ensures
            r@ == "unsupported SQL feature: "@ + self.0@,
    {
        let mut s = "unsupported SQL feature: ".to_owned();
        s.append(self.0.as_str());
        s
    }
}

/// Every error the library reports.
#[derive(Debug)]
pub enum OptError {
    Todo(NotYetImplemented),
    Unsupported(Unsupported),
    Other(String),
}

/// True if the error is a not-yet-implemented marker.
pub fn is_todo(err: &OptError) -> (r: bool)
    ensures
        r == (err is Todo),
{
    matches!(err, OptError::Todo(_))
}

/// True if the error is an unsupported-feature marker.
pub fn is_unsupported(err: &OptError) -> (r: bool)
    ensures
        r == (err is Unsupported),
{
    matches!(err, OptError::Unsupported(_))
}

/// An unsupported-feature error naming the feature.
pub fn unsupported(what: String) -> (r: OptError)
    ensures
        r matches OptError::Unsupported(u) && u.0@ == what@,
{
    OptError::Unsupported(Unsupported(what))
}

/// A not-yet-implemented error naming where to look.
pub fn todo_err(what: &'static str) -> (r: OptError)
    ensures
        r matches OptError::Todo(t) && t.0@ == what@,
{
    OptError::Todo(NotYetImplemented(what))
}

impl OptError {
    /// The message of this error.
    pub fn message(&self) -> (r: String)
        ensures
            self matches OptError::Todo(t) ==> r@ == "not yet implemented: "@ + t.0@,
            self matches OptError::Unsupported(u) ==> r@ == "unsupported SQL feature: "@ + u.0@,
            self matches OptError::Other(s) ==> r@ == s@,
    {
        match self {
            OptError::Todo(t) => t.message(),
            OptError::Unsupported(u) => u.message(),
            OptError::Other(s) => s.clone(),
        }
    }
}

} // verus!
