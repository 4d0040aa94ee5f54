//! Error taxonomy of the storage core.

use vstd::prelude::*;

verus! {

/// Errors surfaced by the storage core.
///
/// `DecodeError` reports malformed bytes (a short or mistagged key, a
/// manifest line that cannot be parsed). `AlreadyLocked` reports
/// exclusive-open contention and carries the textual process id read from
/// the contending `LOCK` file. `ContractViolation` reports a caller
/// breaking a usage rule, such as asking for a numbered filename without a
/// number. `IoFailure` carries context for a filesystem error met by the
/// surrounding layer.
#[derive(Debug)]
pub enum StorageError {
    DecodeError(String),
    AlreadyLocked(String),
    ContractViolation(String),
    IoFailure(String),
}

impl StorageError {
    /// True iff the error reports malformed bytes.
    pub fn is_decode_error(&self) -> (r: bool)
        ensures
            r == self is DecodeError,
    {
        matches!(self, StorageError::DecodeError(_))
    }
}

} // verus!
