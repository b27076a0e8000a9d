//! The ways in which a request for content fails.

use vstd::prelude::*;

verus! {

/// Why no page can be given.
#[derive(Clone, Copy, PartialEq, Eq, Structural, Debug)]
pub enum ContentError {
    /// There is no readable file at the requested path.
    NotFound,
    /// The document has no heading at its top nesting level.
    MissingTitle,
}

impl ContentError {
    /// The error in words.
    pub fn message(&self) -> (r: String)
        ensures
            r@ == match *self {
                ContentError::NotFound => "not found"@,
                ContentError::MissingTitle => "missing title"@,
            },
    {
        match self {
            ContentError::NotFound => "not found".to_owned(),
            ContentError::MissingTitle => "missing title".to_owned(),
        }
    }
}

} // verus!
