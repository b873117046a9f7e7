//! Error kinds shared by the typed subtree adapters.
use vstd::prelude::*;

verus! {

/// Errors of the database engine.
#[derive(Debug)]
pub enum Error {
    /// No entry is stored under this id.
    NotFound { id: String },
    /// The entry with this id names a parent that is not stored.
    MissingParent { id: String },
    /// Malformed or corrupt data.
    InvalidData { reason: String },
    /// The operation is not allowed.
    InvalidOperation { reason: String },
    /// An authentication or authorization failure.
    Authentication(crate::auth::AuthError),
    /// A failure reported by a subtree.
    Subtree(SubtreeError),
}

/// Errors that any subtree implementation can report.
#[non_exhaustive]
#[derive(Debug)]
pub enum SubtreeError {
    /// Key or record not found in subtree
    KeyNotFound { subtree: String, key: String },
    /// Serialization failed for subtree data
    SerializationFailed { subtree: String, reason: String },
    /// Deserialization failed for subtree data
    DeserializationFailed { subtree: String, reason: String },
    /// Type mismatch in subtree operation
    TypeMismatch { subtree: String, expected: String, actual: String },
    /// Invalid operation for the subtree type
    InvalidOperation { subtree: String, operation: String, reason: String },
    /// Subtree operation requires atomic operation context
    RequiresAtomicOperation { subtree: String },
    /// Data corruption detected in subtree
    DataCorruption { subtree: String, reason: String },
    /// Implementation-specific error from a subtree type
    ImplementationError { subtree: String, reason: String },
}

impl SubtreeError {
    /// The name of the subtree the error arose in.
    pub open spec fn spec_subtree(&self) -> Seq<char> {
        match self {
            SubtreeError::KeyNotFound { subtree, .. } => subtree@,
            SubtreeError::SerializationFailed { subtree, .. } => subtree@,
            SubtreeError::DeserializationFailed { subtree, .. } => subtree@,
            SubtreeError::TypeMismatch { subtree, .. } => subtree@,
            SubtreeError::InvalidOperation { subtree, .. } => subtree@,
            SubtreeError::RequiresAtomicOperation { subtree } => subtree@,
            SubtreeError::DataCorruption { subtree, .. } => subtree@,
            SubtreeError::ImplementationError { subtree, .. } => subtree@,
        }
    }

    /// Check if this error indicates a resource was not found
    pub fn is_not_found(&self) -> (r: bool)
        ensures
            r == (self is KeyNotFound),
    {
        matches!(self, SubtreeError::KeyNotFound { .. })
    }

    /// Check if this error is related to serialization
    pub fn is_serialization_error(&self) -> (r: bool)
        ensures
            r == (self is SerializationFailed || self is DeserializationFailed),
    {
        match self {
            SubtreeError::SerializationFailed { .. } => true,
            SubtreeError::DeserializationFailed { .. } => true,
            _ => false,
        }
    }

    /// Check if this error is related to type mismatches
    pub fn is_type_error(&self) -> (r: bool)
        ensures
            r == (self is TypeMismatch),
    {
        matches!(self, SubtreeError::TypeMismatch { .. })
    }

    /// Check if this error is related to data integrity
    pub fn is_integrity_error(&self) -> (r: bool)
        ensures
            r == (self is DataCorruption),
    {
        matches!(self, SubtreeError::DataCorruption { .. })
    }

    /// Check if this error is related to invalid operations
    pub fn is_operation_error(&self) -> (r: bool)
        ensures
            r == (self is InvalidOperation || self is RequiresAtomicOperation),
    {
        match self {
            SubtreeError::InvalidOperation { .. } => true,
            SubtreeError::RequiresAtomicOperation { .. } => true,
            _ => false,
        }
    }

    /// Check if this error is implementation-specific
    pub fn is_implementation_error(&self) -> (r: bool)
        ensures
            r == (self is ImplementationError),
    {
        matches!(self, SubtreeError::ImplementationError { .. })
    }

    /// Get the subtree name associated with this error
    pub fn subtree_name(&self) -> (r: &str)
        ensures
            r@ == self.spec_subtree(),
    {
        match self {
            SubtreeError::KeyNotFound { subtree, .. } => subtree.as_str(),
            SubtreeError::SerializationFailed { subtree, .. } => subtree.as_str(),
            SubtreeError::DeserializationFailed { subtree, .. } => subtree.as_str(),
            SubtreeError::TypeMismatch { subtree, .. } => subtree.as_str(),
            SubtreeError::InvalidOperation { subtree, .. } => subtree.as_str(),
            SubtreeError::RequiresAtomicOperation { subtree } => subtree.as_str(),
            SubtreeError::DataCorruption { subtree, .. } => subtree.as_str(),
            SubtreeError::ImplementationError { subtree, .. } => subtree.as_str(),
        }
    }

    /// Get the operation name if this is an operation-specific error
    pub fn operation(&self) -> (r: Option<&str>)
        ensures
            match self {
                SubtreeError::InvalidOperation { operation, .. } => r is Some && r->0@ == operation@,
                _ => r is None,
            },
    {
        match self {
            SubtreeError::InvalidOperation { operation, .. } => Some(operation.as_str()),
            _ => None,
        }
    }

    /// Get the key if this is a key-related error
    pub fn key(&self) -> (r: Option<&str>)
        ensures
            match self {
                SubtreeError::KeyNotFound { key, .. } => r is Some && r->0@ == key@,
                _ => r is None,
            },
    {
        match self {
            SubtreeError::KeyNotFound { key, .. } => Some(key.as_str()),
            _ => None,
        }
    }
}

impl From<SubtreeError> for Error {
    fn from(err: SubtreeError) -> (r: Error) {
        Error::Subtree(err)
    }
}

impl vstd::std_specs::convert::FromSpecImpl<SubtreeError> for Error {
    open spec fn obeys_from_spec() -> bool {
        true
    }

    open spec fn from_spec(err: SubtreeError) -> Error {
        Error::Subtree(err)
    }
}

} // verus!
