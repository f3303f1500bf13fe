use vstd::prelude::*;

verus! {

/// Which consistency errors a diff tolerates.
#[derive(Clone, Copy, Debug)]
pub struct IgnoreError {
    /// A function whose start line differs between the two reports is
    /// cleared instead of being reported as an error.
    pub ignore_unmatched_line_error: bool,
}

/// What is done to a report once it has been diffed.
#[derive(Clone, Copy, Debug)]
pub struct PostProcessOptions {
    /// Remove every section that is left without any covered record.
    pub drop_zeros: bool,
}

} // verus!
