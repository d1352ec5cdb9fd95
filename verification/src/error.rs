//! What can go wrong.

use vstd::prelude::*;

verus! {

/// Why an operation on the manifest or a session step failed.
#[derive(Debug, Clone, Copy, PartialEq, Eq, Structural)]
pub enum Error {
    /// A table refused a row: its id, path, offset or digest is taken, or it names a
    /// row that is missing, or rows that depend on it are still there.
    Constraint,
    /// A table has given out its highest possible id.
    IdsExhausted,
    /// No new file has the given id.
    InvalidNewFile,
    /// A row lacks the id or length of its blob, which an upload would have set.
    NotUploaded,
    /// Fewer than two small archives are there to collect.
    NotEnoughSmallArchives,
    /// Fewer than two small patchsets are there to collect.
    NotEnoughSmallPatchsets,
    /// The bytes of a block do not have its digest.
    DigestMismatch { block_id: i64 },
    /// A block lies outside its archive.
    BlockOutOfRange { block_id: i64 },
    /// An archive would grow beyond what its length can count.
    ArchiveTooLong,
    /// A file is longer than an offset can tell.
    FileTooLong,
    /// The name of a blob does not end in a number.
    BadName,
    /// A change-set is not well formed.
    BadPatchset,
    /// A stored path does not begin at the root.
    NotAbsolute,
}

} // verus!
