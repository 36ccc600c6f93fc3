//! The ways in which an operation of the library fails.

use vstd::prelude::*;

verus! {

/// A typed failure. None is ever turned into a default value.
#[derive(Debug, Clone, PartialEq, Eq)]
pub enum Failure {
    /// A subject, test or question that was referred to does not exist.
    NotFound,
    /// A stored answer points outside its question's choices, or a record
    /// would exist twice.
    Integrity,
    /// The rendering service refused or could not be reached; the text is
    /// what it said.
    Upstream(String),
    /// What was submitted is malformed, such as the assignment of a test
    /// that does not exist.
    Validation,
}

impl Failure {
    /// A sentence for the person who sees the failure.
    pub fn message(&self) -> (m: String)
        ensures
            m@ == failure_text(*self),
    {
        match self {
            Failure::NotFound => String::from_str("not found"),
            Failure::Integrity => String::from_str("integrity violated"),
            Failure::Upstream(body) => {
                let mut m: String = String::from_str("Failed to generate PDF: ");
                m.append(body.as_str());
                m
            },
            Failure::Validation => String::from_str("invalid submission"),
        }
    }
}

/// The sentence that `message` gives for a failure.
pub open spec fn failure_text(f: Failure) -> Seq<char> {
    match f {
        Failure::NotFound => "not found"@,
        Failure::Integrity => "integrity violated"@,
        Failure::Upstream(body) => "Failed to generate PDF: "@ + body@,
        Failure::Validation => "invalid submission"@,
    }
}

} // verus!
