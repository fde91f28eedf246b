//! Error taxonomy of the storage core.
//!
//! `VaultNotFound` and `PathNotFound` are the not-found family, often
//! absorbed into an empty result by read paths. The remaining variants
//! describe mutations that the backing store must refuse.
use vstd::prelude::*;

verus! {

#[derive(Clone, Copy, PartialEq, Eq, Structural, Debug)]
pub enum StoreError {
    /// No vault with the given identifier, or the vault has no usable
    /// absolute backing path where one is required.
    VaultNotFound,
    /// The vault's backing directory is not currently present.
    VaultPathMissing,
    /// The addressed entry does not exist.
    PathNotFound,
    /// A file stands where a directory is needed.
    NotADirectory,
    /// A directory stands where a file is needed.
    IsADirectory,
    /// The rename destination already exists.
    DestinationExists,
    /// A relative path with an empty or malformed segment.
    InvalidPath,
    /// A freshly generated identifier collided with a stored one.
    DuplicateId,
}

} // verus!
