//! The error taxonomy of the store.

use vstd::prelude::*;

verus! {

/// Every failure a store, tree or traversal operation can report.
#[derive(Clone, Copy, Debug, PartialEq, Eq, Structural)]
pub enum StoreError {
    /// A referenced checksum, ref or tree entry is absent.
    NotFound,
    /// A content checksum or object type did not match what was stored or
    /// expected; never auto-repaired.
    IntegrityError,
    /// A namespace conflict, such as using one name both as a file and as a
    /// subdirectory, or an otherwise ill-formed request.
    InvalidOperation,
    /// A transaction was prepared while another one is already open.
    TransactionInProgress,
    /// A transaction-protocol violation, such as committing twice.
    InvalidState,
    /// An optimistic ref update found the ref pointing elsewhere.
    RefChanged,
    /// A cooperative cancellation signal was honored.
    Cancelled,
}

impl StoreError {
    /// A short human-readable description of the error.
    pub fn describe(&self) -> (r: &'static str)
        ensures
            r@.len() > 0,
    {
        proof {
            reveal_strlit("not found");
            reveal_strlit("integrity error");
            reveal_strlit("invalid operation");
            reveal_strlit("transaction in progress");
            reveal_strlit("invalid state");
            reveal_strlit("ref changed");
            reveal_strlit("cancelled");
        }
        match self {
            StoreError::NotFound => "not found",
            StoreError::IntegrityError => "integrity error",
            StoreError::InvalidOperation => "invalid operation",
            StoreError::TransactionInProgress => "transaction in progress",
            StoreError::InvalidState => "invalid state",
            StoreError::RefChanged => "ref changed",
            StoreError::Cancelled => "cancelled",
        }
    }
}

} // verus!
