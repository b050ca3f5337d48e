use vstd::prelude::*;

verus! {

/// Why an operation of the file system could not be carried out.
#[derive(Debug, Clone, Copy, PartialEq, Eq, Structural)]
pub enum FsError {
    /// A name that an operation looked up is not in the directory.
    NotFound,
    /// A directory of that name already exists.
    AlreadyExists,
    /// The content needs more blocks than an inode can point to.
    CapacityExceeded,
    /// A name does not fit the inode's name field.
    NameTooLong,
    /// Bytes read from the store do not form a valid record.
    CorruptRecord,
    /// Every inode slot is in use.
    NoFreeInode,
    /// Every data block is in use.
    NoFreeBlock,
}

} // verus!
