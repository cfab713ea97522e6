//! Error taxonomy of the storage engine.
//!
//! Each enum mirrors one layer: collection-level validation and write-path
//! failures, database-level path problems, and WAL write failures. Every
//! variant carries an optional detail message; `message` renders the
//! human-readable form.

use vstd::prelude::*;

verus! {

/// Errors surfaced by collection operations.
#[derive(Debug)]
pub enum CollectionError {
    InvalidDimension(Option<String>),
    InvalidIndexType(Option<String>),
    InvalidDistanceType(Option<String>),
    PoisonError(Option<String>),
    WalError(Option<String>),
    NotFound(Option<String>),
    InternalError(Option<String>),
}

/// Errors surfaced when opening or validating a database directory.
#[derive(Debug)]
pub enum DatabaseError {
    InvalidPath(Option<String>),
}

/// Errors surfaced by the write-ahead log.
#[derive(Debug)]
pub enum WalError {
    InvalidOperation(Option<String>),
    WriteError(Option<String>),
}

impl CollectionError {
    /// The rendered message for each variant: a fixed description, with the
    /// detail appended after a colon when one is present.
    pub open spec fn spec_message(self) -> Seq<char> {
        match self {
            CollectionError::InvalidDimension(Some(m)) => "Invalid dimension: "@ + m@,
            CollectionError::InvalidDimension(None) => "Invalid dimension"@,
            CollectionError::InvalidIndexType(Some(m)) => "Invalid index type: "@ + m@,
            CollectionError::InvalidIndexType(None) => "Invalid index type"@,
            CollectionError::InvalidDistanceType(Some(m)) => "Invalid distance type: "@ + m@,
            CollectionError::InvalidDistanceType(None) => "Invalid distance type"@,
            CollectionError::WalError(Some(m)) => "Collection error from wal: "@ + m@,
            CollectionError::WalError(None) => "Collection error from wal"@,
            CollectionError::NotFound(Some(m)) => "Collection not found: "@ + m@,
            CollectionError::NotFound(None) => "Collection not found"@,
            CollectionError::PoisonError(Some(m)) => "Poison error: "@ + m@,
            CollectionError::PoisonError(None) => "Poison error"@,
            CollectionError::InternalError(Some(m)) => "Internal error: "@ + m@,
            CollectionError::InternalError(None) => "Internal error"@,
        }
    }

    pub fn message(&self) -> (r: String)
        ensures
            r@ == self.spec_message(),
    {
        match self {
            CollectionError::InvalidDimension(Some(m)) => String::from_str(
                "Invalid dimension: ",
            ).concat(m.as_str()),
            CollectionError::InvalidDimension(None) => String::from_str("Invalid dimension"),
            CollectionError::InvalidIndexType(Some(m)) => String::from_str(
                "Invalid index type: ",
            ).concat(m.as_str()),
            CollectionError::InvalidIndexType(None) => String::from_str("Invalid index type"),
            CollectionError::InvalidDistanceType(Some(m)) => String::from_str(
                "Invalid distance type: ",
            ).concat(m.as_str()),
            CollectionError::InvalidDistanceType(None) => String::from_str(
                "Invalid distance type",
            ),
            CollectionError::WalError(Some(m)) => String::from_str(
                "Collection error from wal: ",
            ).concat(m.as_str()),
            CollectionError::WalError(None) => String::from_str("Collection error from wal"),
            CollectionError::NotFound(Some(m)) => String::from_str(
                "Collection not found: ",
            ).concat(m.as_str()),
            CollectionError::NotFound(None) => String::from_str("Collection not found"),
            CollectionError::PoisonError(Some(m)) => String::from_str("Poison error: ").concat(
                m.as_str(),
            ),
            CollectionError::PoisonError(None) => String::from_str("Poison error"),
            CollectionError::InternalError(Some(m)) => String::from_str("Internal error: ").concat(
                m.as_str(),
            ),
            CollectionError::InternalError(None) => String::from_str("Internal error"),
        }
    }
}

impl DatabaseError {
    pub open spec fn spec_message(self) -> Seq<char> {
        match self {
            DatabaseError::InvalidPath(Some(m)) => "Invalid path: "@ + m@,
            DatabaseError::InvalidPath(None) => "Invalid path"@,
        }
    }

    pub fn message(&self) -> (r: String)
        ensures
            r@ == self.spec_message(),
    {
        match self {
            DatabaseError::InvalidPath(Some(m)) => String::from_str("Invalid path: ").concat(
                m.as_str(),
            ),
            DatabaseError::InvalidPath(None) => String::from_str("Invalid path"),
        }
    }
}

impl WalError {
    pub open spec fn spec_message(self) -> Seq<char> {
        match self {
            WalError::InvalidOperation(Some(m)) => "Invalid operation: "@ + m@,
            WalError::InvalidOperation(None) => "Invalid operation"@,
            WalError::WriteError(Some(m)) => "Write error: "@ + m@,
            WalError::WriteError(None) => "Write error"@,
        }
    }

    pub fn message(&self) -> (r: String)
        ensures
            r@ == self.spec_message(),
    {
        match self {
            WalError::InvalidOperation(Some(m)) => String::from_str("Invalid operation: ").concat(
                m.as_str(),
            ),
            WalError::InvalidOperation(None) => String::from_str("Invalid operation"),
            WalError::WriteError(Some(m)) => String::from_str("Write error: ").concat(m.as_str()),
            WalError::WriteError(None) => String::from_str("Write error"),
        }
    }
}

impl CollectionError {
    /// A WAL failure propagates to the collection layer carrying the WAL
    /// error's rendered message as its detail.
    pub fn from_wal(err: &WalError) -> (r: CollectionError)
        ensures
            r matches CollectionError::WalError(m) && m matches Some(s) && s@
                == err.spec_message(),
    {
        CollectionError::WalError(Some(err.message()))
    }
}

} // verus!
