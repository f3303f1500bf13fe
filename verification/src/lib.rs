//! Structural difference of two coverage reports: what the first report
//! covers that the second one does not.

pub mod error;
pub mod laws;
pub mod options;
pub mod order;
pub mod records;
pub mod report;
pub mod section;
pub mod table;

pub use error::DiffError;
pub use options::{IgnoreError, PostProcessOptions};
pub use report::{diff_reports, Report};
pub use table::Diff;
