//! The error taxonomy of the store.

use vstd::prelude::*;

verus! {

/// How a store operation can fail.
///
/// `NotFound` reports a key that is absent where one is required.
/// `Consistency` reports a composite-index entry that the consistency
/// invariant promises but that is missing; it is never expected in correct
/// operation.  `InvalidInput` reports malformed enumeration or date text and
/// invalid pagination parameters.  `StorageFailure` reports a storage-level
/// fault that is fatal to the current operation.
#[derive(Clone, Copy, Debug, PartialEq, Eq, Structural)]
pub enum Error {
    NotFound,
    Consistency,
    InvalidInput,
    StorageFailure,
}

impl Error {
    /// A short description of the error, for callers that report it as text.
    pub fn describe(&self) -> (r: &'static str)
        ensures
            r@ == self.spec_describe(),
    {
        proof {
            reveal_strlit("not found");
            reveal_strlit("consistency violation");
            reveal_strlit("invalid input");
            reveal_strlit("storage failure");
        }
        match self {
            Error::NotFound => "not found",
            Error::Consistency => "consistency violation",
            Error::InvalidInput => "invalid input",
            Error::StorageFailure => "storage failure",
        }
    }

    /// The text that `describe` returns.
    pub open spec fn spec_describe(&self) -> Seq<char> {
        match self {
            Error::NotFound => "not found"@,
            Error::Consistency => "consistency violation"@,
            Error::InvalidInput => "invalid input"@,
            Error::StorageFailure => "storage failure"@,
        }
    }
}

} // verus!
