//! Errors surfaced by the filesystem core.
use vstd::prelude::*;

verus! {

/// A logical failure that callers recover from, or a detected corruption.
#[derive(Clone, Copy, Debug, PartialEq, Eq, Structural)]
pub enum FsError {
    /// The bitmap has no free block.
    OutOfSpace,
    /// The inode table has no free inode.
    OutOfInodes,
    /// A file block index beyond the largest file.
    BadRange,
    /// On-disk data breaks an invariant of the layout.
    Invariant,
    /// The log has no room for the rest of an operation, and the operation
    /// cannot commit what it has done so far because others are still
    /// outstanding.
    LogFull,
}

} // verus!
