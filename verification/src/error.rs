//! The fatal error kinds of a run. A single malformed line is dropped
//! during loading and is no error; these are the conditions that abort
//! a run: an unreadable source, or a record that cannot be encoded or
//! decoded where failure is not recoverable.

use vstd::prelude::*;

verus! {

/// What stopped a run: an I/O failure on a source or destination, or a
/// decode/encode failure. Each carries a diagnostic line.
pub enum SortableError {
    IOError(String),
    JsonError(String),
}

impl SortableError {
    /// The diagnostic line for this error.
    pub fn message(&self) -> (m: String)
        ensures
            match self {
                SortableError::IOError(d) => m@ == "IO error: "@ + d@,
                SortableError::JsonError(d) => m@ == "Deserialization error: "@ + d@,
            },
    {
        match self {
            SortableError::IOError(d) => {
                let mut m = "IO error: ".to_owned();
                m.append(d.as_str());
                m
            },
            SortableError::JsonError(d) => {
                let mut m = "Deserialization error: ".to_owned();
                m.append(d.as_str());
                m
            },
        }
    }
}

} // verus!
