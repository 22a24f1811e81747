//! Error kinds surfaced by the store, gathered under [`DatabaseError`].
use vstd::prelude::*;

verus! {

/// A record could not be encoded or decoded.
#[derive(Debug)]
pub struct CompressionError {
    pub message: String,
}

impl CompressionError {
    pub fn from_str(text: &str) -> (r: CompressionError)
        ensures
            r.message@ == text@,
    {
        CompressionError { message: text.to_owned() }
    }

    pub fn from_string(text: String) -> (r: CompressionError)
        ensures
            r.message@ == text@,
    {
        CompressionError { message: text }
    }
}

/// Incoming data does not keep the shape of the rows already stored; the
/// message names the offending row id.
#[derive(Debug)]
pub struct SchemaError {
    pub message: String,
}

impl SchemaError {
    pub fn from_str(text: &str) -> (r: SchemaError)
        ensures
            r.message@ == text@,
    {
        SchemaError { message: text.to_owned() }
    }

    pub fn from_string(text: String) -> (r: SchemaError)
        ensures
            r.message@ == text@,
    {
        SchemaError { message: text }
    }
}

/// A cache or lock could not be reached.
#[derive(Debug)]
pub struct CacheAccessError {
    pub message: String,
}

/// Failures of the storage layer.
#[derive(Debug)]
pub enum StorageError {
    /// A segment frame or a log entry is malformed.
    Parse(CompressionError),
    CacheAccess(CacheAccessError),
    /// An operating-system error, with its description.
    Io(String),
    Compression(CompressionError),
    /// A write was refused for its shape; carries the offending row id.
    Schema(SchemaError, u128),
    /// A stored invariant does not hold (missing last segment, poisoned lock).
    Inconsistency(),
}

/// Compaction could not complete.
#[derive(Debug)]
pub struct CompactionError {
    pub message: String,
}

impl CompactionError {
    pub fn from_str(text: &str) -> (r: CompactionError)
        ensures
            r.message@ == text@,
    {
        CompactionError { message: text.to_owned() }
    }
}

/// A row could not be read into the requested shape.
#[derive(Debug)]
pub struct DeserializerError {
    pub message: String,
}

impl DeserializerError {
    pub fn from_str(text: &str) -> (r: DeserializerError)
        ensures
            r.message@ == text@,
    {
        DeserializerError { message: text.to_owned() }
    }
}

/// Failures while running a query.
#[derive(Debug)]
pub enum QueryError {
    DeserializerError(DeserializerError),
    /// A join or a selection produced a row with more columns than a row
    /// can hold.
    TooManyColumns(),
    /// A selection reads a column that a row does not have.
    MissingColumn(),
    /// A selection could not fold a group: a sum over non-integers, or an
    /// overflow.
    Aggregate(),
}

#[derive(Debug)]
pub struct CollectionAlreadyExistsError {
    pub name: String,
}

#[derive(Debug)]
pub struct CollectionDoesNotExistError {
    pub name: String,
}

/// Requests that the caller got wrong.
#[derive(Debug)]
pub enum ClientSideError {
    CollectionAlreadyExistsError(CollectionAlreadyExistsError),
    CollectionDoesNotExistError(CollectionDoesNotExistError),
}

/// Every error of the store.
#[derive(Debug)]
pub enum DatabaseError {
    Query(QueryError),
    Storage(StorageError),
    Compaction(CompactionError),
    ClientSide(ClientSideError),
}

/// Result of a store operation.
pub type DBResult<T> = Result<T, DatabaseError>;

} // verus!
