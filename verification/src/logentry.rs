//! One replayed log record: the operation, the encoded key, and the
//! value bytes (empty for a deletion).

use vstd::prelude::*;

verus! {

/// The operation a log record carries.
#[derive(Debug, Clone, Copy, PartialEq, Eq, Structural)]
pub enum EntryType {
    Put,
    Delete,
}

/// The mathematical value of a `LogEntry`.
#[verifier::ext_equal]
pub struct LogEntryModel {
    pub entry_type: EntryType,
    pub key: Seq<u8>,
    pub value: Seq<u8>,
}

/// One mutation read back from the write-ahead log.
#[derive(Debug, PartialEq)]
pub struct LogEntry {
    pub entry_type: EntryType,
    pub key: Vec<u8>,
    pub value: Vec<u8>,
}

impl View for LogEntry {
    type V = LogEntryModel;

    open spec fn view(&self) -> LogEntryModel {
        LogEntryModel { entry_type: self.entry_type, key: self.key@, value: self.value@ }
    }
}

impl LogEntry {
    /// Builds an entry from its parts, copying the byte slices.
    pub fn new(entry_type: EntryType, key: &[u8], value: &[u8]) -> (r: LogEntry)
        ensures
            r@ == (LogEntryModel { entry_type, key: key@, value: value@ }),
    {
        LogEntry {
            entry_type,
            key: vstd::slice::slice_to_vec(key),
            value: vstd::slice::slice_to_vec(value),
        }
    }
}

} // verus!
