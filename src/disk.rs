//! On-disk records: the superblock, the packed inode and the directory entry,
//! each read from and written to a block buffer in little-endian order.
use vstd::prelude::*;
use crate::block_cache::BlockCache;
use crate::layout::{BSIZE, DINODE_SIZE, DIRENT_SIZE, DIRSIZ, FSMAGIC, IPB, le_u16, le_u32};

verus! {

/// The kind of an inode; `Invalid` marks a free inode.
#[derive(Clone, Copy, Debug, PartialEq, Eq, Structural)]
pub enum FileKind {
    Invalid,
    Directory,
    File,
    Device,
    Symlink,
}

/// The on-disk code of a kind.
pub open spec fn kind_code(k: FileKind) -> i16 {
    match k {
        FileKind::Invalid => 0,
        FileKind::Directory => 1,
        FileKind::File => 2,
        FileKind::Device => 3,
        FileKind::Symlink => 4,
    }
}

/// The kind a code stands for, if any.
pub open spec fn kind_of_code(c: i16) -> Option<FileKind> {
    if c == 0 {
        Some(FileKind::Invalid)
    } else if c == 1 {
        Some(FileKind::Directory)
    } else if c == 2 {
        Some(FileKind::File)
    } else if c == 3 {
        Some(FileKind::Device)
    } else if c == 4 {
        Some(FileKind::Symlink)
    } else {
        None
    }
}

impl FileKind {
    pub fn code(&self) -> (r: i16)
        ensures
            r == kind_code(*self),
    {
        match self {
            FileKind::Invalid => 0,
            FileKind::Directory => 1,
            FileKind::File => 2,
            FileKind::Device => 3,
            FileKind::Symlink => 4,
        }
    }

    pub fn from_code(c: i16) -> (r: Option<FileKind>)
        ensures
            r == kind_of_code(c),
    {
        if c == 0 {
            Some(FileKind::Invalid)
        } else if c == 1 {
            Some(FileKind::Directory)
        } else if c == 2 {
            Some(FileKind::File)
        } else if c == 3 {
            Some(FileKind::Device)
        } else if c == 4 {
            Some(FileKind::Symlink)
        } else {
            None
        }
    }
}

/// The `i16` stored as two little-endian bytes at `off`.
pub open spec fn le_i16(s: Seq<u8>, off: int) -> i16 {
    (le_u16(s, off) as u16) as i16
}

/// The inode as stored on disk: kind, device numbers, link count, size in
/// bytes, twelve direct block numbers and one indirect block number.
#[derive(Clone, Copy)]
pub struct DiskInode {
    kind: FileKind,
    major: i16,
    minor: i16,
    n_link: i16,
    size: u32,
    bnos: [u32; 13],
}

/// Reads the two bytes at `off` as an `i16`.
pub fn get_i16(buf: &BlockCache, off: usize) -> (r: i16)
    requires
        buf@.len() == BSIZE,
        off + 2 <= BSIZE,
    ensures
        r == le_i16(buf@, off as int),
{
    let w = buf.byte(off) as u16 + 256 * (buf.byte(off + 1) as u16);
    w as i16
}

/// Stores `v` as two little-endian bytes at `off`.
fn set_i16(buf: &mut BlockCache, off: usize, v: i16)
    requires
        old(buf)@.len() == BSIZE,
        off + 2 <= BSIZE,
    ensures
        le_i16(final(buf)@, off as int) == v,
        final(buf)@.len() == old(buf)@.len(),
        forall|k: int| 0 <= k < old(buf)@.len() && k != off && k != off + 1 ==> final(buf)@[k] == old(buf)@[k],
        final(buf).same_identity(old(buf)),
{
    let w = v as u16;
    buf.set_byte(off, (w % 256) as u8);
    buf.set_byte(off + 1, (w / 256) as u8);
    proof {
        assert(((w % 256) as u8) as int + 256 * (((w / 256) as u8) as int) == w as int) by (nonlinear_arith)
            requires
                w <= u16::MAX,
        ;
        assert((w as i16) == v) by (bit_vector)
            requires
                w == v as u16,
        ;
    }
}

impl DiskInode {
    pub closed spec fn kind_v(&self) -> FileKind {
        self.kind
    }

    pub closed spec fn major_v(&self) -> i16 {
        self.major
    }

    pub closed spec fn minor_v(&self) -> i16 {
        self.minor
    }

    pub closed spec fn n_link_v(&self) -> i16 {
        self.n_link
    }

    pub closed spec fn size_v(&self) -> u32 {
        self.size
    }

    /// The thirteen block numbers: direct ones first, the indirect one last.
    pub closed spec fn addrs(&self) -> Seq<u32> {
        self.bnos@
    }

    pub proof fn lemma_addrs_len(&self)
        ensures
            self.addrs().len() == 13,
    {
    }

    /// The 64 bytes at `off` of `blk` hold this inode.
    pub open spec fn stored_at(&self, blk: Seq<u8>, off: int) -> bool {
        &&& kind_of_code(le_i16(blk, off)) == Some(self.kind_v())
        &&& le_i16(blk, off + 2) == self.major_v()
        &&& le_i16(blk, off + 4) == self.minor_v()
        &&& le_i16(blk, off + 6) == self.n_link_v()
        &&& le_u32(blk, off + 8) == self.size_v()
        &&& forall|i: int| 0 <= i < 13 ==> le_u32(blk, off + 12 + 4 * i) == #[trigger] self.addrs()[i]
    }

    /// Every field is zero, the kind included: a free inode.
    pub open spec fn is_zero(&self) -> bool {
        &&& self.kind_v() == FileKind::Invalid
        &&& self.fields_zero()
    }

    /// Every field but the kind is zero.
    pub open spec fn fields_zero(&self) -> bool {
        &&& self.major_v() == 0 && self.minor_v() == 0 && self.n_link_v() == 0 && self.size_v() == 0
        &&& self.addrs() == Seq::new(13, |i: int| 0u32)
    }

    /// A free inode.
    pub fn new() -> (r: Self)
        ensures
            r.is_zero(),
    {
        let r = DiskInode { kind: FileKind::Invalid, major: 0, minor: 0, n_link: 0, size: 0, bnos: [0u32; 13] };
        assert(r.addrs() =~= Seq::new(13, |i: int| 0u32));
        r
    }

    /// Reads the inode stored at `off` of `buf`; `None` when the kind code
    /// is unknown.
    pub fn decode(buf: &BlockCache, off: usize) -> (r: Option<Self>)
        requires
            buf@.len() == BSIZE,
            off + DINODE_SIZE <= BSIZE,
        ensures
            r is Some <==> kind_of_code(le_i16(buf@, off as int)) is Some,
            r matches Some(d) ==> d.stored_at(buf@, off as int),
    {
        let kind = match FileKind::from_code(get_i16(buf, off)) {
            Some(k) => k,
            None => {
                return None;
            },
        };
        let major = get_i16(buf, off + 2);
        let minor = get_i16(buf, off + 4);
        let n_link = get_i16(buf, off + 6);
        let size = buf.get_u32(off + 8);
        let mut bnos = [0u32; 13];
        let mut i: usize = 0;
        while i < 13
            invariant
                buf@.len() == BSIZE,
                off + DINODE_SIZE <= BSIZE,
                i <= 13,
                bnos@.len() == 13,
                forall|m: int| 0 <= m < i ==> le_u32(buf@, off + 12 + 4 * m) == #[trigger] bnos@[m],
            decreases 13 - i,
        {
            bnos[i] = buf.get_u32(off + 12 + 4 * i);
            i = i + 1;
        }
        Some(DiskInode { kind, major, minor, n_link, size, bnos })
    }

    /// Stores the inode at `off` of `buf`, leaving the other bytes as they
    /// are.
    pub fn write_to(&self, buf: &mut BlockCache, off: usize)
        requires
            old(buf)@.len() == BSIZE,
            off + DINODE_SIZE <= BSIZE,
        ensures
            self.stored_at(final(buf)@, off as int),
            final(buf)@.len() == old(buf)@.len(),
            forall|k: int| 0 <= k < old(buf)@.len() && !(off <= k < off + DINODE_SIZE) ==> #[trigger] final(buf)@[k]
                == old(buf)@[k],
            final(buf).same_identity(old(buf)),
    {
        let ghost b0 = buf@;
        set_i16(buf, off, self.kind.code());
        set_i16(buf, off + 2, self.major);
        set_i16(buf, off + 4, self.minor);
        set_i16(buf, off + 6, self.n_link);
        buf.set_u32(off + 8, self.size);
        let mut i: usize = 0;
        while i < 13
            invariant
                buf@.len() == BSIZE,
                off + DINODE_SIZE <= BSIZE,
                buf@.len() == b0.len(),
                i <= 13,
                self.bnos@.len() == 13,
                kind_of_code(le_i16(buf@, off as int)) == Some(self.kind),
                le_i16(buf@, off + 2) == self.major,
                le_i16(buf@, off + 4) == self.minor,
                le_i16(buf@, off + 6) == self.n_link,
                le_u32(buf@, off + 8) == self.size,
                forall|m: int| 0 <= m < i ==> le_u32(buf@, off + 12 + 4 * m) == #[trigger] self.bnos@[m],
                forall|k: int| 0 <= k < b0.len() && !(off <= k < off + DINODE_SIZE) ==> #[trigger] buf@[k] == b0[k],
                buf.same_identity(old(buf)),
            decreases 13 - i,
        {
            let ghost bi = buf@;
            buf.set_u32(off + 12 + 4 * i, self.bnos[i]);
            proof {
                assert forall|m: int| 0 <= m < i implies le_u32(buf@, off + 12 + 4 * m) == #[trigger] self.bnos@[m] by {
                    assert(buf@[off + 12 + 4 * m] == bi[off + 12 + 4 * m]);
                    assert(buf@[off + 12 + 4 * m + 1] == bi[off + 12 + 4 * m + 1]);
                    assert(buf@[off + 12 + 4 * m + 2] == bi[off + 12 + 4 * m + 2]);
                    assert(buf@[off + 12 + 4 * m + 3] == bi[off + 12 + 4 * m + 3]);
                }
                assert(buf@[off as int] == bi[off as int] && buf@[off + 1] == bi[off + 1]);
                assert(buf@[off + 2] == bi[off + 2] && buf@[off + 3] == bi[off + 3]);
                assert(buf@[off + 4] == bi[off + 4] && buf@[off + 5] == bi[off + 5]);
                assert(buf@[off + 6] == bi[off + 6] && buf@[off + 7] == bi[off + 7]);
                assert(buf@[off + 8] == bi[off + 8] && buf@[off + 9] == bi[off + 9]);
                assert(buf@[off + 10] == bi[off + 10] && buf@[off + 11] == bi[off + 11]);
            }
            i = i + 1;
        }
    }

    /// All fields but the ones named by `keep` are those of `other`.
    pub open spec fn same_but(&self, other: &DiskInode, keep: int) -> bool {
        &&& (keep != 0 ==> self.kind_v() == other.kind_v())
        &&& (keep != 1 ==> self.major_v() == other.major_v())
        &&& (keep != 2 ==> self.minor_v() == other.minor_v())
        &&& (keep != 3 ==> self.n_link_v() == other.n_link_v())
        &&& (keep != 4 ==> self.size_v() == other.size_v())
        &&& (keep != 5 ==> self.addrs() == other.addrs())
    }

    pub fn kind(&self) -> (r: &FileKind)
        ensures
            *r == self.kind_v(),
    {
        &self.kind
    }

    pub fn kind_mut(&mut self) -> (r: &mut FileKind)
        ensures
            *r == old(self).kind_v(),
            final(self).kind_v() == *final(r),
            final(self).same_but(old(self), 0),
    {
        &mut self.kind
    }

    pub fn major(&self) -> (r: i16)
        ensures
            r == self.major_v(),
    {
        self.major
    }

    pub fn major_mut(&mut self) -> (r: &mut i16)
        ensures
            *r == old(self).major_v(),
            final(self).major_v() == *final(r),
            final(self).same_but(old(self), 1),
    {
        &mut self.major
    }

    pub fn minor(&self) -> (r: i16)
        ensures
            r == self.minor_v(),
    {
        self.minor
    }

    pub fn minor_mut(&mut self) -> (r: &mut i16)
        ensures
            *r == old(self).minor_v(),
            final(self).minor_v() == *final(r),
            final(self).same_but(old(self), 2),
    {
        &mut self.minor
    }

    pub fn n_link(&self) -> (r: i16)
        ensures
            r == self.n_link_v(),
    {
        self.n_link
    }

    pub fn n_link_mut(&mut self) -> (r: &mut i16)
        ensures
            *r == old(self).n_link_v(),
            final(self).n_link_v() == *final(r),
            final(self).same_but(old(self), 3),
    {
        &mut self.n_link
    }

    pub fn size(&self) -> (r: u32)
        ensures
            r == self.size_v(),
    {
        self.size
    }

    pub fn size_mut(&mut self) -> (r: &mut u32)
        ensures
            *r == old(self).size_v(),
            final(self).size_v() == *final(r),
            final(self).same_but(old(self), 4),
    {
        &mut self.size
    }

    pub fn bnos(&self) -> (r: &[u32; 13])
        ensures
            r@ == self.addrs(),
    {
        &self.bnos
    }

    pub fn bnos_mut(&mut self) -> (r: &mut [u32; 13])
        ensures
            r@ == old(self).addrs(),
            final(self).addrs() == final(r)@,
            final(self).same_but(old(self), 5),
    {
        &mut self.bnos
    }
}

/// The superblock: the geometry of the filesystem, read once at mount.
#[derive(Clone, Copy, Debug, PartialEq, Eq, Structural)]
pub struct SuperBlock {
    /// Must be `FSMAGIC`.
    pub magic: u32,
    /// Size of the image in blocks.
    pub size: u32,
    /// Number of data blocks.
    pub n_data_block: u32,
    /// Number of inodes.
    pub n_inode: u32,
    /// Number of log blocks.
    pub n_log: u32,
    /// Block number of the log header.
    pub log_start: u32,
    /// Block number of the first inode block.
    pub inode_start: u32,
    /// Block number of the first bitmap block.
    pub bmapstart: u32,
}

impl SuperBlock {
    /// The 32 bytes at the start of `blk` hold this superblock.
    pub open spec fn stored_in(&self, blk: Seq<u8>) -> bool {
        &&& le_u32(blk, 0) == self.magic
        &&& le_u32(blk, 4) == self.size
        &&& le_u32(blk, 8) == self.n_data_block
        &&& le_u32(blk, 12) == self.n_inode
        &&& le_u32(blk, 16) == self.n_log
        &&& le_u32(blk, 20) == self.log_start
        &&& le_u32(blk, 24) == self.inode_start
        &&& le_u32(blk, 28) == self.bmapstart
    }

    pub fn inode_start(&self) -> (r: usize)
        ensures
            r == self.inode_start,
    {
        self.inode_start as usize
    }

    /// The block holding inode `inum`.
    pub open spec fn iblock_spec(&self, inum: int) -> int {
        self.inode_start + inum / (IPB as int)
    }

    /// The block holding inode `inum`.
    pub fn iblock(&self, inum: u32) -> (r: usize)
        requires
            self.iblock_spec(inum as int) <= usize::MAX,
        ensures
            r == self.iblock_spec(inum as int),
    {
        self.inode_start as usize + (inum as usize) / IPB
    }

    /// Reads the superblock at the start of `buf`; `None` when the magic
    /// number is wrong.
    pub fn decode(buf: &BlockCache) -> (r: Option<SuperBlock>)
        requires
            buf@.len() == BSIZE,
        ensures
            r is Some <==> le_u32(buf@, 0) == FSMAGIC,
            r matches Some(sb) ==> sb.stored_in(buf@),
    {
        let magic = buf.get_u32(0);
        if magic != FSMAGIC {
            return None;
        }
        Some(SuperBlock {
            magic,
            size: buf.get_u32(4),
            n_data_block: buf.get_u32(8),
            n_inode: buf.get_u32(12),
            n_log: buf.get_u32(16),
            log_start: buf.get_u32(20),
            inode_start: buf.get_u32(24),
            bmapstart: buf.get_u32(28),
        })
    }
}

/// A directory entry: an inode number (0 for an empty slot) and a name of
/// up to 14 bytes, padded with zero bytes.
#[derive(Clone, Copy)]
pub struct DirEnt {
    inum: u16,
    name: [u8; 14],
}

impl DirEnt {
    pub closed spec fn inum_v(&self) -> u16 {
        self.inum
    }

    pub closed spec fn name_v(&self) -> Seq<u8> {
        self.name@
    }

    /// The 16 bytes at `off` of `blk` hold this entry.
    pub open spec fn stored_at(&self, blk: Seq<u8>, off: int) -> bool {
        &&& le_u16(blk, off) == self.inum_v()
        &&& blk.subrange(off + 2, off + DIRENT_SIZE) == self.name_v()
    }

    /// An entry for inode `inum` named by the first bytes of `name` (at most
    /// 14 of them are kept).
    pub fn new(inum: u16, name: &[u8]) -> (r: Self)
        ensures
            r.inum_v() == inum,
            r.name_v().len() == DIRSIZ,
            forall|i: int| 0 <= i < DIRSIZ ==> #[trigger] r.name_v()[i] == if i < name@.len() {
                name@[i]
            } else {
                0u8
            },
    {
        let mut n = [0u8; 14];
        let mut i: usize = 0;
        while i < DIRSIZ
            invariant
                i <= DIRSIZ,
                n@.len() == DIRSIZ,
                forall|m: int| 0 <= m < i ==> #[trigger] n@[m] == if m < name@.len() {
                    name@[m]
                } else {
                    0u8
                },
                forall|m: int| i <= m < DIRSIZ ==> #[trigger] n@[m] == 0u8,
            decreases DIRSIZ - i,
        {
            if i < name.len() {
                n[i] = name[i];
            }
            i = i + 1;
        }
        DirEnt { inum, name: n }
    }

    pub fn inum(&self) -> (r: u16)
        ensures
            r == self.inum_v(),
    {
        self.inum
    }

    pub fn name(&self) -> (r: &[u8; 14])
        ensures
            r@ == self.name_v(),
    {
        &self.name
    }

    /// Reads the entry stored at `off` of `buf`.
    pub fn decode(buf: &BlockCache, off: usize) -> (r: Self)
        requires
            buf@.len() == BSIZE,
            off + DIRENT_SIZE <= BSIZE,
        ensures
            r.stored_at(buf@, off as int),
    {
        let inum = buf.byte(off) as u16 + 256 * (buf.byte(off + 1) as u16);
        let mut name = [0u8; 14];
        let mut i: usize = 0;
        while i < DIRSIZ
            invariant
                buf@.len() == BSIZE,
                off + DIRENT_SIZE <= BSIZE,
                i <= DIRSIZ,
                name@.len() == DIRSIZ,
                forall|m: int| 0 <= m < i ==> #[trigger] name@[m] == buf@[off + 2 + m],
            decreases DIRSIZ - i,
        {
            name[i] = buf.byte(off + 2 + i);
            i = i + 1;
        }
        let r = DirEnt { inum, name };
        assert(buf@.subrange(off + 2, off + DIRENT_SIZE) =~= r.name_v());
        r
    }

    /// Stores the entry at `off` of `buf`, leaving the other bytes as they
    /// are.
    pub fn write_to(&self, buf: &mut BlockCache, off: usize)
        requires
            old(buf)@.len() == BSIZE,
            off + DIRENT_SIZE <= BSIZE,
        ensures
            self.stored_at(final(buf)@, off as int),
            final(buf)@.len() == BSIZE,
            forall|k: int| 0 <= k < BSIZE && !(off <= k < off + DIRENT_SIZE) ==> #[trigger] final(buf)@[k]
                == old(buf)@[k],
            final(buf).same_identity(old(buf)),
    {
        buf.set_byte(off, (self.inum % 256) as u8);
        buf.set_byte(off + 1, (self.inum / 256) as u8);
        proof {
            let w = self.inum;
            assert(((w % 256) as u8) as int + 256 * (((w / 256) as u8) as int) == w as int) by (nonlinear_arith)
                requires
                    w <= u16::MAX,
            ;
        }
        let mut i: usize = 0;
        while i < DIRSIZ
            invariant
                buf@.len() == BSIZE,
                off + DIRENT_SIZE <= BSIZE,
                i <= DIRSIZ,
                self.name@.len() == DIRSIZ,
                le_u16(buf@, off as int) == self.inum,
                forall|m: int| 0 <= m < i ==> #[trigger] buf@[off + 2 + m] == self.name@[m],
                forall|k: int| 0 <= k < BSIZE && !(off <= k < off + DIRENT_SIZE) ==> #[trigger] buf@[k]
                    == old(buf)@[k],
                buf.same_identity(old(buf)),
            decreases DIRSIZ - i,
        {
            buf.set_byte(off + 2 + i, self.name[i]);
            i = i + 1;
        }
        assert forall|k: int| 0 <= k < DIRSIZ implies #[trigger] buf@.subrange(off + 2, off + DIRENT_SIZE)[k]
            == self.name_v()[k] by {
            assert(buf@[off + 2 + k] == self.name@[k]);
        }
        assert(buf@.subrange(off + 2, off + DIRENT_SIZE) =~= self.name_v());
    }
}

} // verus!
