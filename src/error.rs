//! The errors the store reports.
use vstd::prelude::*;

verus! {

/// Why an operation of the store failed.
#[derive(Debug, Clone, PartialEq, Eq)]
pub enum DatabaseError {
    /// A key that had to exist did not.
    KeyNotFound(String),
    /// The durable store failed to read or write.
    Io(String),
    /// A value could not be encoded or decoded.
    Serialization(String),
    /// The store was closed before the operation.
    DatabaseClosed,
    /// The durable store refused the operation.
    InvalidOperation(String),
    /// The configuration cannot be used.
    Configuration(String),
}

} // verus!
