//! The kinds of failure that the library reports.

use vstd::prelude::*;

verus! {

/// Why an operation was refused.
#[derive(Clone, Copy, Debug, PartialEq, Eq, Structural)]
pub enum GitError {
    /// A header, separator or length field is malformed.
    Format,
    /// The declared payload length differs from the number of payload bytes.
    Integrity,
    /// No object or reference is stored under the given name.
    NotFound,
    /// A chain of indirect references never reaches a hash.
    Cycle,
    /// A tree leaf could not be materialized.
    Checkout,
    /// The repository metadata declares a format that is not supported.
    Config,
}

impl GitError {
    /// A short description of the failure, for messages.
    pub fn describe(&self) -> (text: String)
        ensures
            text@ == match *self {
                GitError::Format => "malformed data"@,
                GitError::Integrity => "payload length mismatch"@,
                GitError::NotFound => "not found"@,
                GitError::Cycle => "reference cycle"@,
                GitError::Checkout => "checkout failed"@,
                GitError::Config => "unsupported repository format"@,
            },
    {
        match self {
            GitError::Format => "malformed data".to_owned(),
            GitError::Integrity => "payload length mismatch".to_owned(),
            GitError::NotFound => "not found".to_owned(),
            GitError::Cycle => "reference cycle".to_owned(),
            GitError::Checkout => "checkout failed".to_owned(),
            GitError::Config => "unsupported repository format".to_owned(),
        }
    }
}

} // verus!
