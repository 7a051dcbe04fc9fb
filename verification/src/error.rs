//! The unified error model of the store.

use vstd::prelude::*;

verus! {

/// Every failure the store can report, as one closed enumeration.
#[derive(Debug, Clone, Copy, PartialEq, Eq, Structural)]
pub enum ErrorKind {
    /// Operation on a closed database, or double close.
    DataBaseClosed,
    /// A time-based sync policy below the minimum (reserved).
    InvalidSyncDuration,
    /// Write attempted on a read-only transaction view.
    TransactionNotWritable,
    /// Reserved for operations that require presence.
    ItemNotFound,
    /// Malformed codec input, malformed log record, or bad integer parse.
    InvalidSerializedString,
    /// A JSON value payload failed to parse.
    JsonParseError,
    /// An underlying filesystem failure.
    IOError,
    /// The reader-writer gate was observed in a poisoned state.
    RWLockPoisonError,
}

/// An error of the store: a kind, wrapped so that the public surface
/// stays a single type.
#[derive(Debug, Clone, Copy, PartialEq, Eq, Structural)]
pub struct Error {
    pub kind: ErrorKind,
}

impl Error {
    /// Wraps a kind into an error.
    pub fn new(kind: ErrorKind) -> (e: Error)
        ensures
            e.kind == kind,
    {
        Error { kind }
    }

    /// A short human-readable description of the error.
    pub fn message(&self) -> (m: &'static str)
        ensures
            self.kind is DataBaseClosed ==> m@ == "database already closed"@,
            self.kind is InvalidSyncDuration ==> m@ == "sync duration must > 5 second"@,
            self.kind is TransactionNotWritable ==> m@ == "transaction is not writable"@,
            self.kind is ItemNotFound ==> m@ == "item not found"@,
            self.kind is InvalidSerializedString ==> m@ == "invalid serialized string"@,
            self.kind is JsonParseError ==> m@ == "json parse error"@,
            self.kind is IOError ==> m@ == "io error"@,
            self.kind is RWLockPoisonError ==> m@ == "rwlock poison error"@,
    {
        match self.kind {
            ErrorKind::DataBaseClosed => "database already closed",
            ErrorKind::InvalidSyncDuration => "sync duration must > 5 second",
            ErrorKind::TransactionNotWritable => "transaction is not writable",
            ErrorKind::ItemNotFound => "item not found",
            ErrorKind::InvalidSerializedString => "invalid serialized string",
            ErrorKind::JsonParseError => "json parse error",
            ErrorKind::IOError => "io error",
            ErrorKind::RWLockPoisonError => "rwlock poison error",
        }
    }
}

impl From<ErrorKind> for Error {
    fn from(kind: ErrorKind) -> (e: Error) {
        Error { kind }
    }
}

impl vstd::std_specs::convert::FromSpecImpl<ErrorKind> for Error {
    open spec fn obeys_from_spec() -> bool {
        true
    }

    open spec fn from_spec(kind: ErrorKind) -> Error {
        Error { kind }
    }
}

} // verus!
