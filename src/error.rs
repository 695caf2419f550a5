use vstd::prelude::*;

verus! {

/// Why an operation on the volume did not take place.
#[derive(Debug, Clone, Copy, PartialEq, Eq, Structural)]
pub enum FsError {
    /// An entry of that name is already in the directory.
    AlreadyExists,
    /// No entry of that name is in the directory.
    NotFound,
    /// A directory to delete still holds entries besides its own two.
    NotEmpty,
    /// Fewer blocks are free than the operation needs.
    OutOfSpace,
    /// Stored directory bytes are not in the directory record layout.
    CorruptDirectory,
    /// A chain of the allocation table does not end properly.
    CorruptChain,
    /// The entry is a directory where a file was wanted.
    NotAFile,
    /// The entry is a file where a directory was wanted.
    NotADirectory,
    /// The entry is one of a directory's own two entries, which stay.
    Reserved,
}

} // verus!
