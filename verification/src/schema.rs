//! Shapes of the blob queries that a client sends.

use vstd::prelude::*;

verus! {

/// Identifier of a blob.
pub type BlobId = [u8; 32];

/// Bytes that travel as a hexadecimal string.
pub struct HexString(pub Vec<u8>);

pub struct BlobByIdArgs {
    pub id: BlobId,
}

pub struct Blob {
    pub id: BlobId,
    pub bytecode: HexString,
}

pub struct BlobByIdQuery {
    pub blob: Option<Blob>,
}

pub struct BlobIdFragment {
    pub id: BlobId,
}

pub struct BlobExistsQuery {
    pub blob: Option<BlobIdFragment>,
}

impl BlobExistsQuery {
    /// Whether the answer names a blob.
    pub fn is_found(&self) -> (found: bool)
        ensures
            found == self.blob.is_some(),
    {
        self.blob.is_some()
    }
}

} // verus!
