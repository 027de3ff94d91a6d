//! The failures that the store reports.
use vstd::prelude::*;

verus! {

/// Why an operation of the store failed.
#[derive(Debug, Clone, Copy, PartialEq, Eq, Structural)]
pub enum DbError {
    /// A file could not be opened, created, read, written, positioned or
    /// deleted.
    Io,
    /// Bytes did not follow the layout: a malformed length prefix, a
    /// truncated record, an unknown kind byte, text that is not UTF-8, or a
    /// Bloom buffer that is too short.
    Decode,
    /// A background task is gone or dropped its reply.
    Channel,
    /// An internal invariant was violated.
    Invariant,
}

} // verus!
