use vstd::prelude::*;

verus! {

/// Why two reports cannot be diffed.
#[derive(Clone, Copy, Debug, PartialEq, Eq, Structural)]
pub enum DiffError {
    /// Both reports know the start line of a function and disagree on it.
    UnmatchedFunctionLine,
    /// Both reports hold a checksum for a line and the checksums differ.
    UnmatchedChecksum,
}

/// The outcome of an operation that fails exactly when `error` is present.
pub open spec fn outcome(error: Option<DiffError>) -> Result<(), DiffError> {
    match error {
        Some(e) => Err(e),
        None => Ok(()),
    }
}

impl DiffError {
    /// A short description of the error.
    pub fn message(&self) -> (s: &'static str)
        ensures
            s@ == (match *self {
                DiffError::UnmatchedFunctionLine => "unmatched start line of function"@,
                DiffError::UnmatchedChecksum => "unmatched checksum"@,
            }),
    {
        match self {
            DiffError::UnmatchedFunctionLine => "unmatched start line of function",
            DiffError::UnmatchedChecksum => "unmatched checksum",
        }
    }
}

} // verus!
