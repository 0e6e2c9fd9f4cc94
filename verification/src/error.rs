//! What can go wrong while documents are indexed.

use vstd::prelude::*;

verus! {

/// A fault of the documents that were sent. The pipeline stays usable:
/// other documents can be sent to it afterwards.
#[derive(Debug, Clone, PartialEq, Eq)]
pub enum UserError {
    /// No primary key is set and no field of the batch can serve as one.
    NoPrimaryKeyCandidateFound,
    /// No primary key is set and several fields of the batch could serve as
    /// one; they are listed in increasing order.
    MultiplePrimaryKeyCandidatesFound { candidates: Vec<Vec<u8>> },
    /// The document at this position of the batch has no value for the
    /// primary key.
    MissingDocumentId { position: usize },
    /// The value of the primary key is not an integer or a string of
    /// letters, digits, hyphens and underscores.
    InvalidDocumentId { value: Vec<u8> },
    /// All field ids are taken.
    AttributeLimitReached,
    /// All document ids are taken.
    DocumentLimitReached,
}

/// A fault that ends the whole operation.
#[derive(Debug, Clone, PartialEq, Eq)]
pub enum InternalError {
    /// The caller asked for the indexing to stop.
    AbortedIndexation,
}

/// Any fault of the indexing pipeline.
#[derive(Debug, Clone, PartialEq, Eq)]
pub enum Error {
    InternalError(InternalError),
    UserError(UserError),
}

} // verus!
