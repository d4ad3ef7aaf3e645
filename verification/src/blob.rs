//! The blobs that the data availability service stores and hands back.

use vstd::prelude::*;

verus! {

/// A payload tagged with the namespace it is stored under, and the commitment
/// of the store to the two.
#[derive(Debug)]
pub struct NamespacedBlob {
    /// The namespace.
    pub namespace: Vec<u8>,
    /// The payload.
    pub data: Vec<u8>,
    /// The hash of the share commitment.
    pub commitment: [u8; 32],
}

/// A payload to be written.
#[derive(Debug)]
pub struct BlobWrite {
    /// The payload.
    pub data: Vec<u8>,
}

/// A stored payload with where and when it was stored.
#[derive(Debug)]
pub struct Blob {
    /// The identifier that the store gave the blob; empty for an intent.
    pub blob_id: String,
    /// The payload.
    pub data: Vec<u8>,
    /// The height at which the blob is stored or was accepted.
    pub height: u64,
    /// The time of storing; zero for an intent.
    pub timestamp: u64,
}

/// What a blob is in the stream.
#[derive(Debug)]
pub enum BlobType {
    /// A blob that another source wrote and that was passed through.
    PassedThroughBlob(Blob),
    /// The receipt for a blob that was accepted for sequencing.
    SequencedBlobIntent(Blob),
    /// A block that was sequenced.
    SequencedBlobBlock(Blob),
}

/// One answer of the service.
#[derive(Debug)]
pub struct BlobResponse {
    /// The blob, if the answer holds one.
    pub blob_type: Option<BlobType>,
}

/// Why an answer could not be used.
#[derive(Clone, Copy, Debug, PartialEq, Eq, Structural)]
pub enum BlobError {
    /// The answer holds no blob.
    NoBlobType,
    /// The answer holds a blob of a kind that is not accepted here.
    InvalidBlobType,
}

impl BlobError {
    /// The error in words.
    pub open spec fn words(self) -> Seq<char> {
        match self {
            BlobError::NoBlobType => "No blob type"@,
            BlobError::InvalidBlobType => "Invalid blob type"@,
        }
    }

    /// The error in words.
    pub fn message(&self) -> (r: &'static str)
        ensures
            r@ == self.words(),
    {
        match self {
            BlobError::NoBlobType => "No blob type",
            BlobError::InvalidBlobType => "Invalid blob type",
        }
    }
}

} // verus!
