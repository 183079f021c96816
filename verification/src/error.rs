//! The errors that storage operations report.

use vstd::prelude::*;

verus! {

/// What can go wrong when stored bytes are read back or an iterator is moved.
#[derive(Clone, Copy, Debug, PartialEq, Eq, Structural)]
pub enum StorageError {
    /// A read reached past the end of a file.
    ReadOutOfRange,
    /// The trailer of a table does not describe sections inside the file.
    CorruptTable,
    /// The checksum of the block metadata does not match its bytes.
    MetaChecksumMismatch,
    /// The block metadata ends in the middle of a field.
    CorruptMeta,
    /// The checksum of a data block does not match its bytes.
    BlockChecksumMismatch,
    /// The bytes of a data block are not those of a block.
    CorruptBlock,
    /// The checksum of a bloom filter does not match its bytes.
    BloomChecksumMismatch,
    /// The bytes of a bloom filter are too few.
    CorruptBloom,
    /// The checksum of a log batch does not match its bytes.
    WalChecksumMismatch,
    /// A log batch ends in the middle of a field.
    CorruptWal,
    /// The iterator failed earlier and stays failed.
    IteratorErrored,
}

} // verus!
