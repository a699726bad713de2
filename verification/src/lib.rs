//! A verifiable similarity engine: an id-addressed store of (content,
//! embedding) pairs with an exact nearest-neighbor index over the embeddings,
//! and a proof protocol that recomputes cosine similarity between two
//! embeddings and emits a receipt bound to a program identity.
//!
//! Embeddings are fixed-point vectors: each coordinate is a signed integer
//! counting thousandths, so the engine's arithmetic is exact and verifiable.
//! The surrounding application quantizes floating-point model output into
//! this representation and performs all file and database I/O; everything
//! here is pure logic with proved contracts.
use vstd::prelude::*;

pub mod ann_index;
pub mod config_state;
pub mod content_store;
pub mod document;
pub mod embedding;
pub mod metric;
pub mod receipt;
pub mod simcheck;
pub mod store;

verus! {

/// Errors of the store components.
///
/// "Not found" is not an error: lookups on absent ids return `None`.
/// Transient I/O failures belong to the surrounding application, which owns
/// all file access.
#[derive(Clone, Copy, Debug, PartialEq, Eq, Structural)]
pub enum StoreError {
    /// An embedding's length does not match the configured dimensionality,
    /// or a coordinate lies outside the representable fixed-point range.
    /// Fatal configuration error, surfaced immediately.
    InvalidEmbedding,
    /// The document-id counter cannot issue another id without wrapping.
    /// Ids are never reused, so the store refuses the write.
    IdSpaceExhausted,
    /// The index references a document id that has no content record.
    /// Distinct from "not found" so callers can detect index/content drift.
    ConsistencyViolation,
}

/// Errors of the similarity prover. A failed `prove` call yields no receipt.
#[derive(Clone, Copy, Debug, PartialEq, Eq, Structural)]
pub enum ProveError {
    /// The two embeddings have different lengths.
    DimensionMismatch,
    /// One of the embeddings has zero norm: cosine similarity is undefined.
    /// This is the declared behavior, not a platform float artifact.
    ZeroNorm,
}

/// Typed rejections of the similarity verifier. Never a panic: a hostile or
/// corrupted receipt cannot crash a verifier.
#[derive(Clone, Copy, Debug, PartialEq, Eq, Structural)]
pub enum VerifyError {
    /// The receipt bytes do not parse as a receipt.
    MalformedReceipt,
    /// The receipt is bound to a different program identity than expected.
    ProgramIdMismatch,
    /// The receipt's commitment does not match its public journal.
    InvalidProof,
}

} // verus!
