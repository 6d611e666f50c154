//! On-disk constants and the little-endian codec for packed records.
use vstd::prelude::*;

verus! {

/// Block size in bytes.
pub const BSIZE: usize = 1024;

/// Maximum number of distinct blocks one operation may dirty.
pub const MAXOPBLOCKS: usize = 10;

/// Number of data blocks in the on-disk log.
pub const LOGSIZE: usize = 30;

/// Number of direct block addresses in an inode.
pub const NDIRECT: usize = 12;

/// Number of block addresses held by an indirect block.
pub const NINDIRECT: usize = 256;

/// Largest file, in blocks.
pub const MAXFILE: usize = 268;

/// Size in bytes of a packed on-disk inode.
pub const DINODE_SIZE: usize = 64;

/// Inodes per block.
pub const IPB: usize = 16;

/// Bitmap bits per block.
pub const BPB: usize = 8192;

/// Inode number of the root directory.
pub const ROOTINO: u32 = 1;

/// Superblock magic number.
pub const FSMAGIC: u32 = 0x10203040;

/// Length of a name in a directory entry.
pub const DIRSIZ: usize = 14;

/// Size in bytes of a packed directory entry.
pub const DIRENT_SIZE: usize = 16;

/// The little-endian value of the four bytes of `s` starting at `off`.
pub open spec fn le_u32(s: Seq<u8>, off: int) -> int {
    s[off] as int + 256 * (s[off + 1] as int) + 65536 * (s[off + 2] as int)
        + 16777216 * (s[off + 3] as int)
}

/// The little-endian value of the two bytes of `s` starting at `off`.
pub open spec fn le_u16(s: Seq<u8>, off: int) -> int {
    s[off] as int + 256 * (s[off + 1] as int)
}

/// The four little-endian bytes of `v`.
pub open spec fn le_bytes_u32(v: u32) -> Seq<u8> {
    seq![
        (v % 256) as u8,
        ((v / 256) % 256) as u8,
        ((v / 65536) % 256) as u8,
        (v / 16777216) as u8,
    ]
}

/// `s` with the four bytes from `off` on replaced by `w`.
pub open spec fn splice(s: Seq<u8>, off: int, w: Seq<u8>) -> Seq<u8> {
    s.take(off) + w + s.skip(off + w.len())
}

pub proof fn lemma_le_u32_bytes(v: u32)
    ensures
        le_u32(le_bytes_u32(v), 0) == v as int,
{
    let b0 = v % 256;
    let b1 = (v / 256) % 256;
    let b2 = (v / 65536) % 256;
    let b3 = v / 16777216;
    assert(v as int == b0 + 256 * b1 + 65536 * b2 + 16777216 * b3) by (nonlinear_arith)
        requires
            b0 == v % 256,
            b1 == (v / 256) % 256,
            b2 == (v / 65536) % 256,
            b3 == v / 16777216,
    ;
}

/// Reads the little-endian `u32` at `off` in `data`.
pub fn read_u32(data: &[u8], off: usize) -> (r: u32)
    requires
        off + 4 <= data@.len(),
    ensures
        r as int == le_u32(data@, off as int),
{
    let r = data[off] as u32 + 256 * (data[off + 1] as u32) + 65536 * (data[off + 2] as u32)
        + 16777216 * (data[off + 3] as u32);
    r
}

/// Writes `v` as four little-endian bytes at `off` in `data`.
pub fn write_u32(data: &mut Vec<u8>, off: usize, v: u32)
    requires
        off + 4 <= old(data)@.len(),
    ensures
        final(data)@ == splice(old(data)@, off as int, le_bytes_u32(v)),
        le_u32(final(data)@, off as int) == v as int,
{
    proof {
        assert(data@.len() == data.len());
    }
    data.set(off, (v % 256) as u8);
    data.set(off + 1, ((v / 256) % 256) as u8);
    data.set(off + 2, ((v / 65536) % 256) as u8);
    data.set(off + 3, (v / 16777216) as u8);
    proof {
        lemma_le_u32_bytes(v);
        assert(final(data)@ =~= splice(old(data)@, off as int, le_bytes_u32(v)));
    }
}

} // verus!
