//! Errors.

use vstd::prelude::*;

verus! {

/// What kind of thing went wrong.
#[derive(Clone, Copy, Debug, PartialEq, Eq, Structural)]
pub enum ErrorKind {
    Unexpected,
    DataInvalid,
    FeatureUnsupported,
    CatalogCommitConflicts,
}

/// An error, with whether another attempt may fare better.
#[derive(Clone, Debug, PartialEq, Eq)]
pub struct Error {
    kind: ErrorKind,
    message: String,
    retryable: bool,
}

impl Error {
    /// The error's kind.
    pub closed spec fn kind_spec(&self) -> ErrorKind {
        self.kind
    }

    /// The error's message.
    pub closed spec fn message_spec(&self) -> Seq<char> {
        self.message@
    }

    /// Whether another attempt may fare better.
    pub closed spec fn retryable_spec(&self) -> bool {
        self.retryable
    }

    /// Whether the error is of kind `kind`, says `message`, and forbids another attempt.
    pub open spec fn says(&self, kind: ErrorKind, message: Seq<char>) -> bool {
        &&& self.kind_spec() == kind
        &&& self.message_spec() == message
        &&& !self.retryable_spec()
    }

    /// An error that forbids another attempt.
    pub fn new(kind: ErrorKind, message: String) -> (r: Self)
        ensures
            r.says(kind, message@),
    {
        Error { kind, message, retryable: false }
    }

    /// The same error, allowing another attempt or not.
    pub fn with_retryable(self, retryable: bool) -> (r: Self)
        ensures
            r.kind_spec() == self.kind_spec(),
            r.message_spec() == self.message_spec(),
            r.retryable_spec() == retryable,
    {
        Error { kind: self.kind, message: self.message, retryable }
    }

    /// The error's kind.
    pub fn kind(&self) -> (r: ErrorKind)
        ensures
            r == self.kind_spec(),
    {
        self.kind
    }

    /// The error's message.
    pub fn message(&self) -> (r: &str)
        ensures
            r@ == self.message_spec(),
    {
        self.message.as_str()
    }

    /// Whether another attempt may fare better.
    pub fn retryable(&self) -> (r: bool)
        ensures
            r == self.retryable_spec(),
    {
        self.retryable
    }
}

} // verus!
