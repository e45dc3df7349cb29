use vstd::prelude::*;

verus! {

/// Failure while turning a stored document into a rule, link or resource.
#[derive(Debug)]
pub enum DataLoaderError {
    /// The document's `spec` part is malformed: a non-finite priority, an
    /// unresolvable reference, an unparsable rule.
    SpecParseError(String),
    /// The document is not well-formed JSON of the expected shape.
    UnmarshalError(String),
}

/// Failure of a query.
#[derive(Debug)]
pub enum QueryError {
    GetLockError,
}

/// Failure of a query made through a differ, on either snapshot.
#[derive(Debug)]
pub enum DifferError {
    QueryError(QueryError),
}

/// Failure inside a storage backend.
#[derive(Debug)]
pub enum StorageBackendError {
    UpdateWatchingError(String),
    IOError(String),
    WalkDirError(String),
    ListDirError(ListDirError),
    Utf8Error,
    StripPrefixError,
    LockPosionedError,
    NotFound(String),
}

#[derive(Debug)]
pub enum ListDirError {
    PathPrefixHandlingError,
}

/// Failure of a directory walk: from the backend, or from the visitor.
#[derive(Debug)]
pub enum WalkDirError {
    StorageBackendError(StorageBackendError),
    DataLoaderError(DataLoaderError),
}

/// Failure while building the in-memory index of one namespace.
#[derive(Debug)]
pub enum MemoryIndexError {
    DataLoaderError(DataLoaderError),
    StorageBackendError(StorageBackendError),
    NamespaceNotAbsolutePath,
}

/// Failure at the boundary with other languages.
#[derive(Debug)]
pub enum FFIError {
    StringConvertNulError,
    StringConvertUtf8Error,
    CreateBackendError(String),
    StorageBackendError(StorageBackendError),
}

/// Top-level error of the configuration center.
#[derive(Debug)]
pub enum CCLibError {
    NamespaceError(String),
    FFIError(FFIError),
    StorageBackendError(StorageBackendError),
    MemoryIndexError(MemoryIndexError),
}

} // verus!
