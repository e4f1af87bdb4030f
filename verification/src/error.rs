//! The error taxonomy for size parsing.

use vstd::prelude::*;

verus! {

/// The reason a size string was rejected.
#[derive(Debug, Clone, PartialEq, Eq, Structural)]
pub enum SizeErrorKind {
    /// The input had zero length.
    Empty,
    /// The trailing unit suffix was not recognized, or the numeric prefix was
    /// not a decimal number.
    InvalidUnit,
    /// The magnitude was not a finite, representable number.
    NonFiniteMagnitude,
}

/// Error returned when a size string cannot be parsed.
#[derive(Debug, Clone, PartialEq, Eq, Structural)]
pub struct ParseSizeError {
    kind: SizeErrorKind,
}

impl ParseSizeError {
    /// The kind of failure carried by this error.
    pub closed spec fn kind_spec(&self) -> SizeErrorKind {
        self.kind
    }

    /// Wraps a failure kind in an error value.
    pub fn new(kind: SizeErrorKind) -> (r: ParseSizeError)
        ensures
            r.kind_spec() == kind,
    {
        ParseSizeError { kind }
    }

    /// The kind of failure, for callers that want to branch on it.
    pub fn kind(&self) -> (r: &SizeErrorKind)
        ensures
            *r == self.kind_spec(),
    {
        &self.kind
    }

    /// A human-readable message for this error.
    pub fn __description(&self) -> (r: &'static str)
        ensures
            self.kind_spec() == SizeErrorKind::Empty ==> r@ == "cannot parse size from empty string"@,
            self.kind_spec() == SizeErrorKind::InvalidUnit ==> r@ == "invalid size"@,
            self.kind_spec() == SizeErrorKind::NonFiniteMagnitude ==> r@ == "size too small"@,
    {
        match self.kind {
            SizeErrorKind::Empty => "cannot parse size from empty string",
            SizeErrorKind::InvalidUnit => "invalid size",
            SizeErrorKind::NonFiniteMagnitude => "size too small",
        }
    }
}

} // verus!
