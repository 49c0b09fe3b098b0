//! Error type of the disk-usage analyzer.

use vstd::prelude::*;

verus! {

use vstd::string::StringExecFns;

/// What can go wrong while analyzing a path. Fatal errors only: unreadable
/// entries inside the walk are skipped, never reported.
#[derive(Debug)]
pub enum DuskError {
    /// The root path could not be resolved to a real, absolute path.
    PathNotFound(String),
    /// The root path exists but may not be read.
    PermissionDenied(String),
    /// A low-level read failed in a way no other variant covers.
    IoError(String),
    /// The walk produced nothing usable, or the worker pool could not be
    /// built.
    TraversalError(String),
}

impl DuskError {
    /// The human-readable account of the error.
    pub fn message(&self) -> (r: String)
        ensures
            self matches DuskError::PathNotFound(p) ==> r@ == "path not found: "@ + p@,
            self matches DuskError::PermissionDenied(p) ==> r@ == "permission denied: "@ + p@,
            self matches DuskError::IoError(m) ==> r@ == "I/O error: "@ + m@,
            self matches DuskError::TraversalError(m) ==> r@ == "traversal error: "@ + m@,
    {
        match self {
            DuskError::PathNotFound(p) => {
                let mut r = String::from_str("path not found: ");
                r.append(p.as_str());
                r
            },
            DuskError::PermissionDenied(p) => {
                let mut r = String::from_str("permission denied: ");
                r.append(p.as_str());
                r
            },
            DuskError::IoError(m) => {
                let mut r = String::from_str("I/O error: ");
                r.append(m.as_str());
                r
            },
            DuskError::TraversalError(m) => {
                let mut r = String::from_str("traversal error: ");
                r.append(m.as_str());
                r
            },
        }
    }
}

} // verus!
