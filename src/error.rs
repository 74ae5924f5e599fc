//! What can go wrong, as plain values.
use vstd::prelude::*;

verus! {

/// A repository or store that breaks one of its invariants.
#[derive(Debug)]
pub enum CorruptState {
    MissingPath(Vec<u8>),
    DirectoryIsFile(Vec<u8>),
    FileIsDirectory(Vec<u8>),
    /// A store file whose name is not 64 lowercase hex digits.
    InvalidObjectName(Vec<u8>),
    /// A store file, and the digest of what it actually holds.
    HashMismatch(Vec<u8>, Vec<u8>),
    /// A store file that is not a valid gzip stream.
    InvalidCompression(Vec<u8>),
    /// The first missing object, and how many other objects are missing.
    MissingObjects(crate::hash::Hash, usize),
    /// An object whose bytes are not a canonical encoding.
    InvalidObjectContent(crate::hash::Hash),
}

#[derive(Debug)]
pub enum EvsError {
    MissingRepository(Vec<u8>),
    CorruptStateDetected(CorruptState),
    RepositoryNotFound,
    RepositoryLocked(Vec<u8>),
    ObjectNotInStore(String),
    /// The prefix, and the name of one object that it matches.
    AmbiguousObject(String, Vec<u8>),
    RepositoryInfoCorrupt,
    NotACommit(crate::hash::Hash),
    NoPreviousCommit,
    PathOutsideOfRepo(Vec<u8>),
    /// A removal names a path that the stage does not hold.
    PathNotInStage,
    /// A length that the object encoding cannot hold.
    ObjectTooLarge,
    IntegerParseError,
}

} // verus!
