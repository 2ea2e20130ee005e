use vstd::prelude::*;

verus! {

/// Error kinds surfaced by the subtitle and filter-graph core.
#[derive(Debug)]
pub enum ClipError {
    /// A value in the input could not be parsed; holds the offending text.
    ParseError(String),
    /// An input violated a structural invariant; holds a description.
    ValidationError(String),
    /// A required artifact was missing; holds its path.
    NotFoundError(String),
    /// Reading or writing an artifact failed; holds a description.
    IOError(String),
}

impl ClipError {
    /// The text carried by the error, whichever kind it is.
    pub open spec fn message_view(self) -> Seq<char> {
        match self {
            ClipError::ParseError(m) => m@,
            ClipError::ValidationError(m) => m@,
            ClipError::NotFoundError(m) => m@,
            ClipError::IOError(m) => m@,
        }
    }

    /// The human-readable text carried by the error.
    pub fn message(&self) -> (r: &String)
        ensures
            r@ == self.message_view(),
    {
        match self {
            ClipError::ParseError(m) => m,
            ClipError::ValidationError(m) => m,
            ClipError::NotFoundError(m) => m,
            ClipError::IOError(m) => m,
        }
    }
}

} // verus!
