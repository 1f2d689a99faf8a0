//! Storage core of a small version-control tool: a content-addressable
//! object store, a binary staging index with a trailing checksum, a
//! bottom-up tree hasher, and a cooperative lockfile protocol, all running
//! over an explicit in-memory file-system model so that every file-format
//! and state-machine rule is verified.

pub mod arena;
pub mod utils;
pub mod vfs;
pub mod lockfile;
pub mod database;
pub mod index;
pub mod refs;
pub mod repository;

use vstd::prelude::*;

verus! {

/// Any failure the storage core can report, by component.
#[derive(Debug)]
pub enum Error {
    /// The staging index failed to load, lock or persist.
    Index(index::IndexError),
    /// A checksummed read or write failed.
    Checksum(index::checksum::ChecksumError),
    /// The lockfile protocol was violated or denied.
    Lockfile(lockfile::LockfileError),
    /// The object store failed to persist content.
    Database(database::DatabaseError),
    /// The ref store failed to read or publish HEAD.
    Ref(refs::RefError),
}

} // verus!
