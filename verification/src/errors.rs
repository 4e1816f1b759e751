//! Error types for database operations.

use crate::path::{Path, PathError, Seg};
use crate::text::text_of;
use vstd::prelude::*;

verus! {

/// The mathematical model of a path error.
pub enum PathErrorModel {
    /// The text is not a path; with the message.
    InvalidFormat(Seq<char>),
    /// The text is empty.
    EmptyPath,
}

impl View for PathError {
    type V = PathErrorModel;

    open spec fn view(&self) -> PathErrorModel {
        match self {
            PathError::InvalidFormat(message) => PathErrorModel::InvalidFormat(message@),
            PathError::EmptyPath => PathErrorModel::EmptyPath,
        }
    }
}

/// The mathematical model of a store error.
pub enum ErrorModel {
    /// A malformed textual path.
    PathError(PathErrorModel),
    /// No endpoint at the path.
    NotFound(Seq<Seg>),
    /// The operation is not allowed; with the message.
    InvalidOperation(Seq<char>),
    /// A failure of the substrate; with the message.
    Internal(Seq<char>),
    /// A value could not be encoded; with the message.
    SerializationError(Seq<char>),
    /// Stored bytes could not be decoded; with the message.
    DeserializationError(Seq<char>),
}

/// Errors that can occur during database operations
#[derive(Debug, PartialEq)]
pub enum StoreError {
    /// Malformed textual path
    PathError(PathError),
    /// Read or delete of an absent endpoint
    NotFound(Path),
    /// Empty path, type conflict, unknown function, incompatible comparison
    InvalidOperation(String),
    /// Failure of the key-value substrate, closed queue
    Internal(String),
    /// Codec failure on writing
    SerializationError(String),
    /// Codec failure on reading
    DeserializationError(String),
}

impl View for StoreError {
    type V = ErrorModel;

    open spec fn view(&self) -> ErrorModel {
        match self {
            StoreError::PathError(e) => ErrorModel::PathError(e@),
            StoreError::NotFound(path) => ErrorModel::NotFound(path@),
            StoreError::InvalidOperation(message) => ErrorModel::InvalidOperation(message@),
            StoreError::Internal(message) => ErrorModel::Internal(message@),
            StoreError::SerializationError(message) => ErrorModel::SerializationError(message@),
            StoreError::DeserializationError(message) => ErrorModel::DeserializationError(
                message@,
            ),
        }
    }
}

/// The error for an operation that is not allowed, with its message.
pub fn invalid_operation(message: &str) -> (e: StoreError)
    ensures
        e@ == ErrorModel::InvalidOperation(message@),
{
    StoreError::InvalidOperation(text_of(message))
}

/// The error for a failure of the substrate, with its message.
pub fn internal_error(message: &str) -> (e: StoreError)
    ensures
        e@ == ErrorModel::Internal(message@),
{
    StoreError::Internal(text_of(message))
}

/// The error for an absent endpoint.
pub fn not_found(path: &Path) -> (e: StoreError)
    ensures
        e@ == ErrorModel::NotFound(path@),
{
    StoreError::NotFound(path.clone())
}

} // verus!
