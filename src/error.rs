//! The ways an operation on the log can fail.
use vstd::prelude::*;

verus! {

#[derive(Clone, Debug, PartialEq, Eq)]
pub enum LogError {
    /// The log file does not exist where it has to be read.
    NotFound,
    /// Reading or writing a file failed; the message says how.
    Io(String),
    /// The line with this 1-based number does not hold a record.
    Decode { line: usize },
    /// No record has this 1-based number.
    InvalidId { id: usize },
    /// The date of a filter is not a calendar date `YYYY-MM-DD`.
    InvalidDate,
    /// The age limit of a filter is not an integer.
    InvalidRange,
}

} // verus!
