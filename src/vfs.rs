//! The inode layer: block mapping and truncation of an inode, and the
//! in-memory inode table.
use vstd::prelude::*;
use crate::bitmap::BitMap;
use crate::block_cache::BlockCacheManager;
use crate::device::{BlockDevice, zero_block};
use crate::disk::{DiskInode, FileKind, SuperBlock, get_i16, kind_of_code, le_i16};
use crate::error::FsError;
use crate::journal::{in_log, lemma_splice_read};
use crate::layout::{BSIZE, DINODE_SIZE, IPB, MAXFILE, MAXOPBLOCKS, NDIRECT, NINDIRECT, le_bytes_u32, le_u32, splice};
use crate::logger::LogManager;

verus! {

/// The storage stack between operations: the log agrees with the cache,
/// holds only its own pins, matches the device, and the bitmap fits.
pub open spec fn ready(bitmap: &BitMap, log: &LogManager, cache: &BlockCacheManager, disk: Seq<Seq<u8>>) -> bool {
    &&& log.wf(cache)
    &&& log.quiescent(cache)
    &&& log.disk_ok(disk)
    &&& bitmap.fits(log)
}

/// No bit is cleared from `(c0, d0)` to `(c1, d1)`, and the only bits set
/// are those of `a1` and `a2`.
pub open spec fn bits_grow(
    bitmap: &BitMap,
    c0: &BlockCacheManager,
    d0: Seq<Seq<u8>>,
    c1: &BlockCacheManager,
    d1: Seq<Seq<u8>>,
    a1: int,
    a2: int,
) -> bool {
    forall|c: int|
        0 <= c < bitmap.nbits() ==> (bitmap.allocated(c0, d0, c) ==> #[trigger] bitmap.allocated(c1, d1, c)) && (
        bitmap.allocated(c1, d1, c) && !bitmap.allocated(c0, d0, c) ==> c == a1 || c == a2)
}

/// The log agrees with the cache and the device, and holds only its pins.
pub open spec fn log_ready(log: &LogManager, cache: &BlockCacheManager, disk: Seq<Seq<u8>>) -> bool {
    &&& log.wf(cache)
    &&& log.quiescent(cache)
    &&& log.disk_ok(disk)
}

/// Byte offset of inode `inum` within its block.
pub open spec fn inode_offset(inum: int) -> int {
    (inum % IPB as int) * DINODE_SIZE
}

/// The block of inode `inum` lies on the device, outside the log.
pub open spec fn inode_block_ok(sb: &SuperBlock, log: &LogManager, inum: int) -> bool {
    sb.iblock_spec(inum) < log.nblocks() && !in_log(log.start(), log.size(), sb.iblock_spec(inum))
}

/// Inode `inum` is free on disk, as read through the cache: its kind code
/// is zero.
pub open spec fn inode_free(sb: &SuperBlock, cache: &BlockCacheManager, disk: Seq<Seq<u8>>, inum: int) -> bool {
    le_i16(cache.content(disk, sb.iblock_spec(inum)), inode_offset(inum)) == 0
}

/// The log's position and operation count are those of `old`.
pub open spec fn same_log_frame(log: &LogManager, old: &LogManager) -> bool {
    &&& log.start() == old.start()
    &&& log.size() == old.size()
    &&& log.nblocks() == old.nblocks()
    &&& log.outstanding() == old.outstanding()
}

/// An inode loaded in memory: its number, its device and its on-disk fields.
pub struct Inode {
    ino: u32,
    dev: u32,
    disk_inode: DiskInode,
}

impl Inode {
    pub closed spec fn ino_v(&self) -> u32 {
        self.ino
    }

    pub closed spec fn dev_v(&self) -> u32 {
        self.dev
    }

    pub closed spec fn dinode(&self) -> DiskInode {
        self.disk_inode
    }

    /// The device block that file block `l` maps to, as read through the
    /// cache; 0 when it maps to none.
    pub open spec fn mapped(&self, cache: &BlockCacheManager, disk: Seq<Seq<u8>>, l: int) -> int {
        if l < NDIRECT {
            self.dinode().addrs()[l] as int
        } else if self.dinode().addrs()[NDIRECT as int] == 0 {
            0
        } else {
            le_u32(cache.content(disk, self.dinode().addrs()[NDIRECT as int] as int), 4 * (l - NDIRECT))
        }
    }

    /// A free inode `ino` of device `dev`.
    pub fn new(ino: u32, dev: u32) -> (r: Self)
        ensures
            r.ino_v() == ino,
            r.dev_v() == dev,
            r.dinode().is_zero(),
    {
        Inode { ino, dev, disk_inode: DiskInode::new() }
    }

    /// An inode `ino` of device `dev` with the given fields.
    pub fn with_dinode(ino: u32, dev: u32, disk_inode: DiskInode) -> (r: Self)
        ensures
            r.ino_v() == ino,
            r.dev_v() == dev,
            r.dinode() == disk_inode,
    {
        Inode { ino, dev, disk_inode }
    }

    pub fn ino(&self) -> (r: u32)
        ensures
            r == self.ino_v(),
    {
        self.ino
    }

    pub fn dev(&self) -> (r: u32)
        ensures
            r == self.dev_v(),
    {
        self.dev
    }

    pub fn disk_inode(&self) -> (r: &DiskInode)
        ensures
            *r == self.dinode(),
    {
        &self.disk_inode
    }

    pub fn disk_inode_mut(&mut self) -> (r: &mut DiskInode)
        ensures
            *r == old(self).dinode(),
            final(self).dinode() == *final(r),
            final(self).ino_v() == old(self).ino_v(),
            final(self).dev_v() == old(self).dev_v(),
    {
        &mut self.disk_inode
    }

    /// Allocates a block for slot `i` of the inode's addresses.
    fn alloc_addr<D: BlockDevice>(
        &mut self,
        i: usize,
        bitmap: &BitMap,
        cache: &mut BlockCacheManager,
        log: &mut LogManager,
        device: &D,
    ) -> (r: Result<usize, FsError>)
        requires
            i <= NDIRECT,
            ready(bitmap, old(log), old(cache), device.blocks()),
            old(log).outstanding() > 0,
            old(log).table().len() + 2 <= old(log).size(),
        ensures
            final(cache).dev_id() == old(cache).dev_id(),
            ready(bitmap, final(log), final(cache), device.blocks()),
            same_log_frame(final(log), old(log)),
            final(log).table().len() <= old(log).table().len() + 2,
            final(self).ino_v() == old(self).ino_v(),
            final(self).dev_v() == old(self).dev_v(),
            final(self).dinode().same_but(&old(self).dinode(), 5),
            final(log).grows_from(old(log)),
            r is Ok <==> bitmap.can_alloc(old(cache), device.blocks(), old(log)),
            (r == Err::<usize, FsError>(FsError::OutOfSpace)) <==> bitmap.full(old(cache), device.blocks()),
            r is Err ==> {
                &&& *final(self) == *old(self)
                &&& final(log).table() == old(log).table()
                &&& forall|x: int| #[trigger] final(cache).content(device.blocks(), x)
                    == old(cache).content(device.blocks(), x)
                &&& (r == Err::<usize, FsError>(FsError::OutOfSpace) || r == Err::<usize, FsError>(FsError::Invariant))
            },
            r matches Ok(b) ==> {
                &&& final(log).has_home(b as int)
                &&& final(self).dinode().addrs() == old(self).dinode().addrs().update(i as int, b as u32)
                &&& b != 0
                &&& b < old(log).nblocks()
                &&& !bitmap.reserved(old(log), b as int)
                &&& b <= u32::MAX
                &&& bitmap.is_first_free(old(cache), device.blocks(), b as int)
                &&& bitmap.allocated(final(cache), device.blocks(), b as int)
                &&& final(cache).content(device.blocks(), b as int) == zero_block()
                &&& !bitmap.is_bitmap_block(b as int)
                &&& forall|c: int| 0 <= c < bitmap.nbits() && c != b ==> bitmap.allocated(final(cache), device.blocks(), c)
                    == bitmap.allocated(old(cache), device.blocks(), c)
                &&& forall|x: int| x != b && !bitmap.is_bitmap_block(x) ==> #[trigger] final(cache).content(
                    device.blocks(),
                    x,
                ) == old(cache).content(device.blocks(), x)
            },
    {
        match bitmap.allocate(cache, log, device) {
            Ok(b) => {
                proof {
                    bitmap.lemma_in_bitmap(b as int);
                }
                let a = self.disk_inode.bnos_mut();
                a[i] = b as u32;
                Ok(b)
            },
            Err(e) => Err(e),
        }
    }

    /// The indirect block number, if any, names a block of the device that
    /// the allocator could have handed out.
    /// `bmap` of file block `l` succeeds: the block is mapped, or what it
    /// must allocate (the block, and the indirect block when there is none)
    /// can be allocated, and the indirect block number, if any, is sound.
    pub open spec fn bmap_ok(&self, bitmap: &BitMap, log: &LogManager, cache: &BlockCacheManager, disk: Seq<Seq<u8>>, l: int) -> bool {
        let ib = self.dinode().addrs()[NDIRECT as int] as int;
        if l >= MAXFILE {
            false
        } else if l < NDIRECT {
            self.dinode().addrs()[l] != 0 || bitmap.can_alloc(cache, disk, log)
        } else if !self.indirect_ok(bitmap, log) {
            false
        } else if ib == 0 {
            bitmap.can_alloc_two(cache, disk, log)
        } else {
            self.mapped(cache, disk, l) != 0 || exists|b: int| bitmap.is_first_free(cache, disk, b) && !bitmap.reserved(log, b) && b != ib
        }
    }

    pub open spec fn indirect_ok(&self, bitmap: &BitMap, log: &LogManager) -> bool {
        let ib = self.dinode().addrs()[NDIRECT as int] as int;
        ib == 0 || (ib < log.nblocks() && !bitmap.reserved(log, ib))
    }

    /// Maps file block `bno_logi` to a device block, allocating the block
    /// (and the indirect block) when none is mapped yet. Blocks past the
    /// largest file are refused with `BadRange`; an indirect block number
    /// outside the device or inside the log with `Invariant`.
    pub fn bmap<D: BlockDevice>(
        &mut self,
        bno_logi: usize,
        bitmap: &BitMap,
        cache: &mut BlockCacheManager,
        log: &mut LogManager,
        device: &D,
    ) -> (r: Result<usize, FsError>)
        requires
            ready(bitmap, old(log), old(cache), device.blocks()),
            old(log).outstanding() > 0,
            old(log).table().len() + 5 <= old(log).size(),
        ensures
            final(self).dinode().addrs().len() == 13,
            forall|i: int| 0 <= i < NDIRECT && i != (bno_logi as int) ==> #[trigger] final(self).dinode().addrs()[i] == old(self).dinode().addrs()[i],
            (bno_logi as int) < NDIRECT ==> final(self).dinode().addrs()[NDIRECT as int] == old(self).dinode().addrs()[NDIRECT as int],
            forall|x: int| !bitmap.is_bitmap_block(x) && (r matches Ok(b) ==> x != b) && x != final(self).dinode().addrs()[NDIRECT as int]
                ==> #[trigger] final(cache).content(device.blocks(), x) == old(cache).content(device.blocks(), x),
            old(self).mapped(old(cache), device.blocks(), bno_logi as int) == 0 ==> (r matches Ok(b) ==> {
                &&& final(log).has_home(b as int)
                &&& ((bno_logi as int) < NDIRECT || old(self).dinode().addrs()[NDIRECT as int] != 0) ==> bitmap.is_first_free(
                    old(cache),
                    device.blocks(),
                    b as int,
                )
                &&& ((bno_logi as int) >= NDIRECT && old(self).dinode().addrs()[NDIRECT as int] == 0) ==> bitmap.is_second_free(
                    old(cache),
                    device.blocks(),
                    final(self).dinode().addrs()[NDIRECT as int] as int,
                    b as int,
                )
                &&& (bno_logi as int) >= NDIRECT ==> final(log).has_home(final(self).dinode().addrs()[NDIRECT as int] as int)
            }),
            final(log).grows_from(old(log)),
            r is Ok <==> old(self).bmap_ok(bitmap, old(log), old(cache), device.blocks(), bno_logi as int),
            ((bno_logi as int) < NDIRECT || old(self).indirect_ok(bitmap, old(log))) && (bno_logi as int) < MAXFILE
                && old(self).mapped(old(cache), device.blocks(), bno_logi as int) == 0 && bitmap.full(old(cache), device.blocks()) ==> {
                &&& r == Err::<usize, FsError>(FsError::OutOfSpace)
                &&& *final(self) == *old(self)
                &&& final(log).table() == old(log).table()
                &&& forall|x: int| #[trigger] final(cache).content(device.blocks(), x)
                    == old(cache).content(device.blocks(), x)
            },
            bits_grow(
                bitmap,
                old(cache),
                device.blocks(),
                final(cache),
                device.blocks(),
                match r {
                    Ok(b) => if old(self).mapped(old(cache), device.blocks(), bno_logi as int) == 0 { b as int } else { -1 },
                    Err(_) => -1,
                },
                final(self).dinode().addrs()[NDIRECT as int] as int,
            ),
            old(self).mapped(old(cache), device.blocks(), bno_logi as int) == 0 ==> (r matches Ok(b) ==> {
                &&& b < old(log).nblocks()
                &&& !bitmap.reserved(old(log), b as int)
                &&& ((bno_logi as int) >= NDIRECT ==> b != final(self).dinode().addrs()[NDIRECT as int])
            }),
            r != Err::<usize, FsError>(FsError::OutOfInodes),
            r != Err::<usize, FsError>(FsError::LogFull),
            final(cache).dev_id() == old(cache).dev_id(),
            ready(bitmap, final(log), final(cache), device.blocks()),
            same_log_frame(final(log), old(log)),
            final(log).table().len() <= old(log).table().len() + 5,
            final(self).ino_v() == old(self).ino_v(),
            final(self).dev_v() == old(self).dev_v(),
            final(self).dinode().same_but(&old(self).dinode(), 5),
            (r == Err::<usize, FsError>(FsError::BadRange)) <==> bno_logi >= MAXFILE,
            bno_logi >= MAXFILE ==> *final(self) == *old(self) && final(log).table() == old(log).table()
                && *final(cache) == *old(cache),
            NDIRECT <= bno_logi < MAXFILE && !old(self).indirect_ok(bitmap, old(log)) ==> {
                &&& r == Err::<usize, FsError>(FsError::Invariant)
                &&& *final(self) == *old(self)
                &&& *final(cache) == *old(cache)
                &&& *final(log) == *old(log)
            },
            bno_logi < MAXFILE && (bno_logi < NDIRECT || old(self).indirect_ok(bitmap, old(log)))
                && old(self).mapped(old(cache), device.blocks(), bno_logi as int) != 0 ==> {
                &&& r == Ok::<usize, FsError>(old(self).mapped(old(cache), device.blocks(), bno_logi as int) as usize)
                &&& *final(self) == *old(self)
                &&& final(log).table() == old(log).table()
                &&& forall|x: int| #[trigger] final(cache).content(device.blocks(), x)
                    == old(cache).content(device.blocks(), x)
            },
            r matches Ok(b) ==> {
                &&& b != 0
                &&& final(self).mapped(final(cache), device.blocks(), bno_logi as int) == b
            },
            old(self).mapped(old(cache), device.blocks(), bno_logi as int) == 0 ==> (r matches Ok(b) ==> {
                &&& !bitmap.allocated(old(cache), device.blocks(), b as int)
                &&& bitmap.allocated(final(cache), device.blocks(), b as int)
                &&& final(cache).content(device.blocks(), b as int) == zero_block()
            }),
    {
        proof {
            self.disk_inode.lemma_addrs_len();
        }
        if bno_logi < NDIRECT {
            let cur = self.disk_inode.bnos()[bno_logi];
            if cur != 0 {
                return Ok(cur as usize);
            }
            let r = self.alloc_addr(bno_logi, bitmap, cache, log, device);
            proof {
                if r is Ok {
                    self.disk_inode.lemma_addrs_len();
                }
            }
            return r;
        }
        if bno_logi >= MAXFILE {
            return Err(FsError::BadRange);
        }
        self.bmap_indirect(bno_logi - NDIRECT, bitmap, cache, log, device)
    }

    /// The indirect block, allocated (zeroed) when the inode has none.
    fn indirect_block<D: BlockDevice>(
        &mut self,
        bitmap: &BitMap,
        cache: &mut BlockCacheManager,
        log: &mut LogManager,
        device: &D,
    ) -> (r: Result<usize, FsError>)
        requires
            ready(bitmap, old(log), old(cache), device.blocks()),
            old(log).outstanding() > 0,
            old(log).table().len() + 5 <= old(log).size(),
        ensures
            r != Err::<usize, FsError>(FsError::OutOfInodes),
            r != Err::<usize, FsError>(FsError::LogFull),
            final(cache).dev_id() == old(cache).dev_id(),
            ready(bitmap, final(log), final(cache), device.blocks()),
            same_log_frame(final(log), old(log)),
            final(log).table().len() <= old(log).table().len() + 2,
            final(self).ino_v() == old(self).ino_v(),
            final(self).dev_v() == old(self).dev_v(),
            final(self).dinode().same_but(&old(self).dinode(), 5),
            final(self).dinode().addrs().len() == 13,
            forall|i: int| 0 <= i < NDIRECT ==> #[trigger] final(self).dinode().addrs()[i] == old(self).dinode().addrs()[i],
            r != Err::<usize, FsError>(FsError::BadRange),
            r is Err ==> {
                &&& *final(self) == *old(self)
                &&& final(log).table() == old(log).table()
                &&& forall|x: int| #[trigger] final(cache).content(device.blocks(), x)
                    == old(cache).content(device.blocks(), x)
            },
            !old(self).indirect_ok(bitmap, old(log)) ==> {
                &&& r == Err::<usize, FsError>(FsError::Invariant)
                &&& *final(cache) == *old(cache)
                &&& *final(log) == *old(log)
            },
            old(self).indirect_ok(bitmap, old(log)) && old(self).dinode().addrs()[NDIRECT as int] != 0 ==> r is Ok,
            final(log).grows_from(old(log)),
            old(self).dinode().addrs()[NDIRECT as int] == 0 ==> (r is Ok <==> bitmap.can_alloc(old(cache), device.blocks(), old(log))),
            old(self).dinode().addrs()[NDIRECT as int] == 0 && bitmap.full(old(cache), device.blocks())
                ==> r == Err::<usize, FsError>(FsError::OutOfSpace),
            old(self).dinode().addrs()[NDIRECT as int] == 0 ==> (r matches Ok(ib) ==> bitmap.is_first_free(
                old(cache),
                device.blocks(),
                ib as int,
            )),
            r matches Ok(ib) ==> {
                &&& ib != 0
                &&& ib < old(log).nblocks()
                &&& !bitmap.reserved(old(log), ib as int)
                &&& final(self).dinode().addrs()[NDIRECT as int] == ib
                &&& old(self).dinode().addrs()[NDIRECT as int] != 0 ==> {
                    &&& *final(self) == *old(self)
                    &&& *final(cache) == *old(cache)
                    &&& *final(log) == *old(log)
                }
                &&& old(self).dinode().addrs()[NDIRECT as int] == 0 ==> {
                    &&& final(cache).content(device.blocks(), ib as int) == zero_block()
                    &&& bitmap.allocated(final(cache), device.blocks(), ib as int)
                    &&& !bitmap.is_bitmap_block(ib as int)
                    &&& forall|x: int| x != ib && !bitmap.is_bitmap_block(x) ==> #[trigger] final(cache).content(
                        device.blocks(),
                        x,
                    ) == old(cache).content(device.blocks(), x)
                    &&& forall|c: int| 0 <= c < bitmap.nbits() && c != ib ==> bitmap.allocated(final(cache), device.blocks(), c)
                        == bitmap.allocated(old(cache), device.blocks(), c)
                }
            },
    {
        proof {
            self.disk_inode.lemma_addrs_len();
        }
        let ib0 = self.disk_inode.bnos()[NDIRECT];
        if ib0 == 0 {
            let r = self.alloc_addr(NDIRECT, bitmap, cache, log, device);
            proof {
                self.disk_inode.lemma_addrs_len();
            }
            r
        } else {
            let ib = ib0 as usize;
            if ib >= log.nblocks_exec() || bitmap.is_reserved(ib, log) {
                return Err(FsError::Invariant);
            }
            Ok(ib)
        }
    }

    /// `bmap` past the direct blocks: entry `slot` of the indirect block.
    #[verifier::rlimit(60)]
    fn bmap_indirect<D: BlockDevice>(
        &mut self,
        slot: usize,
        bitmap: &BitMap,
        cache: &mut BlockCacheManager,
        log: &mut LogManager,
        device: &D,
    ) -> (r: Result<usize, FsError>)
        requires
            slot < NINDIRECT,
            ready(bitmap, old(log), old(cache), device.blocks()),
            old(log).outstanding() > 0,
            old(log).table().len() + 5 <= old(log).size(),
        ensures
            final(self).dinode().addrs().len() == 13,
            forall|i: int| 0 <= i < NDIRECT && i != slot + NDIRECT ==> #[trigger] final(self).dinode().addrs()[i] == old(self).dinode().addrs()[i],
            slot + NDIRECT < NDIRECT ==> final(self).dinode().addrs()[NDIRECT as int] == old(self).dinode().addrs()[NDIRECT as int],
            forall|x: int| !bitmap.is_bitmap_block(x) && (r matches Ok(b) ==> x != b) && x != final(self).dinode().addrs()[NDIRECT as int]
                ==> #[trigger] final(cache).content(device.blocks(), x) == old(cache).content(device.blocks(), x),
            old(self).mapped(old(cache), device.blocks(), slot + NDIRECT) == 0 ==> (r matches Ok(b) ==> {
                &&& final(log).has_home(b as int)
                &&& (slot + NDIRECT < NDIRECT || old(self).dinode().addrs()[NDIRECT as int] != 0) ==> bitmap.is_first_free(
                    old(cache),
                    device.blocks(),
                    b as int,
                )
                &&& (slot + NDIRECT >= NDIRECT && old(self).dinode().addrs()[NDIRECT as int] == 0) ==> bitmap.is_second_free(
                    old(cache),
                    device.blocks(),
                    final(self).dinode().addrs()[NDIRECT as int] as int,
                    b as int,
                )
                &&& slot + NDIRECT >= NDIRECT ==> final(log).has_home(final(self).dinode().addrs()[NDIRECT as int] as int)
            }),
            final(log).grows_from(old(log)),
            r is Ok <==> old(self).bmap_ok(bitmap, old(log), old(cache), device.blocks(), slot + NDIRECT),
            (slot + NDIRECT < NDIRECT || old(self).indirect_ok(bitmap, old(log))) && slot + NDIRECT < MAXFILE
                && old(self).mapped(old(cache), device.blocks(), slot + NDIRECT) == 0 && bitmap.full(old(cache), device.blocks()) ==> {
                &&& r == Err::<usize, FsError>(FsError::OutOfSpace)
                &&& *final(self) == *old(self)
                &&& final(log).table() == old(log).table()
                &&& forall|x: int| #[trigger] final(cache).content(device.blocks(), x)
                    == old(cache).content(device.blocks(), x)
            },
            bits_grow(
                bitmap,
                old(cache),
                device.blocks(),
                final(cache),
                device.blocks(),
                match r {
                    Ok(b) => if old(self).mapped(old(cache), device.blocks(), slot + NDIRECT) == 0 { b as int } else { -1 },
                    Err(_) => -1,
                },
                final(self).dinode().addrs()[NDIRECT as int] as int,
            ),
            old(self).mapped(old(cache), device.blocks(), slot + NDIRECT) == 0 ==> (r matches Ok(b) ==> {
                &&& b < old(log).nblocks()
                &&& !bitmap.reserved(old(log), b as int)
                &&& (slot + NDIRECT >= NDIRECT ==> b != final(self).dinode().addrs()[NDIRECT as int])
            }),
            r != Err::<usize, FsError>(FsError::OutOfInodes),
            r != Err::<usize, FsError>(FsError::LogFull),
            final(cache).dev_id() == old(cache).dev_id(),
            ready(bitmap, final(log), final(cache), device.blocks()),
            same_log_frame(final(log), old(log)),
            final(log).table().len() <= old(log).table().len() + 5,
            final(self).ino_v() == old(self).ino_v(),
            final(self).dev_v() == old(self).dev_v(),
            final(self).dinode().same_but(&old(self).dinode(), 5),
            r != Err::<usize, FsError>(FsError::BadRange),
            !old(self).indirect_ok(bitmap, old(log)) ==> {
                &&& r == Err::<usize, FsError>(FsError::Invariant)
                &&& *final(self) == *old(self)
                &&& *final(cache) == *old(cache)
                &&& *final(log) == *old(log)
            },
            old(self).indirect_ok(bitmap, old(log)) && old(self).mapped(old(cache), device.blocks(), slot + NDIRECT) != 0 ==> {
                &&& r == Ok::<usize, FsError>(old(self).mapped(old(cache), device.blocks(), slot + NDIRECT) as usize)
                &&& *final(self) == *old(self)
                &&& final(log).table() == old(log).table()
                &&& forall|x: int| #[trigger] final(cache).content(device.blocks(), x)
                    == old(cache).content(device.blocks(), x)
            },
            r matches Ok(b) ==> {
                &&& b != 0
                &&& final(self).mapped(final(cache), device.blocks(), slot + NDIRECT) == b
            },
            old(self).mapped(old(cache), device.blocks(), slot + NDIRECT) == 0 ==> (r matches Ok(b) ==> {
                &&& !bitmap.allocated(old(cache), device.blocks(), b as int)
                &&& bitmap.allocated(final(cache), device.blocks(), b as int)
                &&& final(cache).content(device.blocks(), b as int) == zero_block()
            }),
    {
        let ghost disk = device.blocks();
        let ghost fresh = old(self).dinode().addrs()[NDIRECT as int] == 0;
        let ghost c0 = *cache;
        let ghost l0 = *log;
        let ib = match self.indirect_block(bitmap, cache, log, device) {
            Ok(ib) => ib,
            Err(e) => {
                proof {
                    if fresh && bitmap.can_alloc_two(&c0, disk, old(log)) {
                        let (b1, b2) = choose|b1: int, b2: int| bitmap.is_second_free(&c0, disk, b1, b2)
                            && !bitmap.reserved(old(log), b1) && !bitmap.reserved(old(log), b2);
                        assert(bitmap.can_alloc(&c0, disk, old(log)));
                    }
                }
                return Err(e);
            },
        };
        let ghost c1 = *cache;
        proof {
            self.disk_inode.lemma_addrs_len();
            assert(self.dinode().addrs()[NDIRECT as int] == ib);
        }
        let cur = read_entry(ib, 4 * slot, cache, log, device);
        if cur != 0 {
            proof {
                if fresh {
                    assert(c1.content(disk, ib as int) == zero_block());
                    assert(false);
                }
            }
            return Ok(cur as usize);
        }
        let ghost c2 = *cache;
        let ghost l2 = *log;
        proof {
            // What the bitmap reads now: as before, plus a fresh indirect block.
            assert forall|c: int| 0 <= c < bitmap.nbits() implies #[trigger] bitmap.allocated(&c2, disk, c)
                == (bitmap.allocated(&c0, disk, c) || (fresh && c == ib)) by {
                bitmap.lemma_in_bitmap(c);
                assert(c2.content(disk, bitmap.block_of(c)) == c1.content(disk, bitmap.block_of(c)));
            }
        }
        let b = match bitmap.allocate(cache, log, device) {
            Ok(b) => b,
            Err(e) => {
                proof {
                    if fresh {
                        if bitmap.can_alloc_two(&c0, disk, old(log)) {
                            let (b1, b2) = choose|b1: int, b2: int| bitmap.is_second_free(&c0, disk, b1, b2)
                                && !bitmap.reserved(old(log), b1) && !bitmap.reserved(old(log), b2);
                            bitmap.lemma_first_free_unique(&c0, disk, b1, ib as int);
                            bitmap.lemma_next_free(&c0, disk, &c2, disk, ib as int, b2);
                            assert(bitmap.can_alloc(&c2, disk, old(log)));
                        }
                    } else {
                        bitmap.lemma_same_bits(&c0, disk, &c2, disk);
                        if exists|b: int| bitmap.is_first_free(&c0, disk, b) && !bitmap.reserved(old(log), b) && b != ib {
                            let b = choose|b: int| bitmap.is_first_free(&c0, disk, b) && !bitmap.reserved(old(log), b) && b != ib;
                            assert(bitmap.is_first_free(&c2, disk, b));
                        }
                        assert(bitmap.full(&c2, disk) == bitmap.full(&c0, disk));
                    }
                }
                return Err(e);
            },
        };
        proof {
            bitmap.lemma_in_bitmap(b as int);
            if fresh {
                assert(bitmap.allocated(&c2, disk, ib as int));
            }
        }
        if b == ib {
            proof {
                assert(!fresh);
                bitmap.lemma_same_bits(&c0, disk, &c2, disk);
                assert forall|b2: int| !(bitmap.is_first_free(&c0, disk, b2) && !bitmap.reserved(old(log), b2) && b2 != ib) by {
                    if bitmap.is_first_free(&c0, disk, b2) {
                        assert(bitmap.is_first_free(&c2, disk, b as int));
                        assert(bitmap.is_first_free(&c0, disk, b as int));
                        bitmap.lemma_first_free_unique(&c0, disk, b2, b as int);
                    }
                }
            }
            return Err(FsError::Invariant);
        }
        let ghost c3 = *cache;
        let ghost l3 = *log;
        proof {
            l3.lemma_grows_trans(&l2, &l0);
        }
        write_entry(ib, 4 * slot, b as u32, cache, log, device);
        proof {
            log.lemma_grows_trans(&l3, &l0);
            log.lemma_grows_home(&l3, b as int);
            assert(cache.content(disk, b as int) == c3.content(disk, b as int));
            assert(bitmap.allocated(&c3, disk, b as int));
            assert(bitmap.block_of(b as int) != ib);
            assert(old(self).mapped(&c0, disk, slot + NDIRECT) == 0);
            assert forall|c: int| 0 <= c < bitmap.nbits() implies #[trigger] bitmap.allocated(cache, disk, c)
                == (bitmap.allocated(&c2, disk, c) || c == b) by {
                bitmap.lemma_in_bitmap(c);
                assert(bitmap.block_of(c) != ib);
                assert(cache.content(disk, bitmap.block_of(c)) == c3.content(disk, bitmap.block_of(c)));
            }
            if fresh {
                bitmap.lemma_next_free(&c0, disk, &c2, disk, ib as int, b as int);
                assert(bitmap.is_second_free(&c0, disk, ib as int, b as int));
            } else {
                bitmap.lemma_same_bits(&c0, disk, &c2, disk);
                assert(bitmap.is_first_free(&c0, disk, b as int));
            }
        }
        Ok(b)
    }
}

/// The `u32` at `off` of block `blk`, as read through the cache.
pub fn read_entry<D: BlockDevice>(
    blk: usize,
    off: usize,
    cache: &mut BlockCacheManager,
    log: &LogManager,
    device: &D,
) -> (r: u32)
    requires
        log.wf(old(cache)),
        log.quiescent(old(cache)),
        log.disk_ok(device.blocks()),
        blk < log.nblocks(),
        off + 4 <= BSIZE,
    ensures
        r as int == le_u32(old(cache).content(device.blocks(), blk as int), off as int),
        log.wf(final(cache)),
        log.quiescent(final(cache)),
        final(cache).dev_id() == old(cache).dev_id(),
        forall|x: int| #[trigger] final(cache).content(device.blocks(), x) == old(cache).content(device.blocks(), x),
{
    let ghost disk = device.blocks();
    let idx = log.acquire(cache, blk, device);
    let r = cache.buffer(idx).get_u32(off);
    log.release_clean(idx, cache, Ghost(disk));
    r
}

/// Stores `v` as the `u32` at `off` of block `blk`, through the log.
pub fn write_entry<D: BlockDevice>(
    blk: usize,
    off: usize,
    v: u32,
    cache: &mut BlockCacheManager,
    log: &mut LogManager,
    device: &D,
)
    requires
        old(log).wf(old(cache)),
        old(log).quiescent(old(cache)),
        old(log).disk_ok(device.blocks()),
        old(log).outstanding() > 0,
        old(log).table().len() < old(log).size(),
        blk < old(log).nblocks(),
        !in_log(old(log).start(), old(log).size(), blk as int),
        off + 4 <= BSIZE,
    ensures
        final(log).wf(final(cache)),
        final(log).quiescent(final(cache)),
        same_log_frame(final(log), old(log)),
        final(log).table().len() <= old(log).table().len() + 1,
        final(log).grows_from(old(log)),
        final(log).has_home(blk as int),
        final(cache).dev_id() == old(cache).dev_id(),
        final(cache).content(device.blocks(), blk as int) == splice(
            old(cache).content(device.blocks(), blk as int),
            off as int,
            le_bytes_u32(v),
        ),
        le_u32(final(cache).content(device.blocks(), blk as int), off as int) == v,
        forall|x: int| x != blk ==> #[trigger] final(cache).content(device.blocks(), x) == old(cache).content(
            device.blocks(),
            x,
        ),
{
    let ghost disk = device.blocks();
    let idx = log.acquire(cache, blk, device);
    let ghost c1 = *cache;
    let buf = cache.buffer_mut(idx);
    buf.set_u32(off, v);
    proof {
        cache.lemma_update_wf(&c1, idx as int);
        assert forall|i: int| 0 <= i < log.table().len() implies {
            let (h, s) = #[trigger] log.table()[i];
            &&& cache.live(s as int)
            &&& cache.entry(s as int).bno() == h
        } by {
            assert(c1.live(log.table()[i].1 as int));
        }
    }
    log.write_release(idx, cache, Ghost(disk));
}

impl Inode {
    /// Copies the inode's fields into its slot on disk, through the log.
    pub fn iupdate<D: BlockDevice>(
        &self,
        sb: &SuperBlock,
        cache: &mut BlockCacheManager,
        log: &mut LogManager,
        device: &D,
    )
        requires
            log_ready(old(log), old(cache), device.blocks()),
            old(log).outstanding() > 0,
            old(log).table().len() < old(log).size(),
            inode_block_ok(sb, old(log), self.ino_v() as int),
        ensures
            log_ready(final(log), final(cache), device.blocks()),
            same_log_frame(final(log), old(log)),
            final(log).table().len() <= old(log).table().len() + 1,
            final(log).grows_from(old(log)),
            final(log).has_home(sb.iblock_spec(self.ino_v() as int)),
            final(cache).dev_id() == old(cache).dev_id(),
            ({
                let blk = sb.iblock_spec(self.ino_v() as int);
                let off = inode_offset(self.ino_v() as int);
                let c = final(cache).content(device.blocks(), blk);
                &&& self.dinode().stored_at(c, off)
                &&& c.len() == BSIZE
                &&& forall|k: int| 0 <= k < BSIZE && !(off <= k < off + DINODE_SIZE) ==> #[trigger] c[k]
                    == old(cache).content(device.blocks(), blk)[k]
            }),
            forall|x: int| x != sb.iblock_spec(self.ino_v() as int) ==> #[trigger] final(cache).content(
                device.blocks(),
                x,
            ) == old(cache).content(device.blocks(), x),
    {
        let ghost disk = device.blocks();
        let blk = sb.iblock(self.ino);
        let off = (self.ino as usize % IPB) * DINODE_SIZE;
        let idx = log.acquire(cache, blk, device);
        let ghost c1 = *cache;
        let buf = cache.buffer_mut(idx);
        self.disk_inode.write_to(buf, off);
        proof {
            cache.lemma_update_wf(&c1, idx as int);
            assert forall|i: int| 0 <= i < log.table().len() implies {
                let (h, s) = #[trigger] log.table()[i];
                &&& cache.live(s as int)
                &&& cache.entry(s as int).bno() == h
            } by {
                assert(c1.live(log.table()[i].1 as int));
            }
        }
        log.write_release(idx, cache, Ghost(disk));
    }
}

/// Allocates the lowest-numbered free inode from 1 on: its slot is zeroed
/// and given `kind`, through the log. Fails with `OutOfInodes` when every
/// inode is in use.
pub fn ialloc<D: BlockDevice>(
    sb: &SuperBlock,
    dev: u32,
    kind: FileKind,
    cache: &mut BlockCacheManager,
    log: &mut LogManager,
    device: &D,
) -> (r: Result<Inode, FsError>)
    requires
        log_ready(old(log), old(cache), device.blocks()),
        old(log).outstanding() > 0,
        old(log).table().len() < old(log).size(),
        forall|inum: int| 0 <= inum < sb.n_inode ==> inode_block_ok(sb, old(log), inum),
    ensures
        log_ready(final(log), final(cache), device.blocks()),
        same_log_frame(final(log), old(log)),
        final(log).table().len() <= old(log).table().len() + 1,
        final(log).grows_from(old(log)),
        final(cache).dev_id() == old(cache).dev_id(),
        (r is Err) <==> forall|j: int| 1 <= j < sb.n_inode ==> !inode_free(sb, old(cache), device.blocks(), j),
        r is Err ==> {
            &&& r == Err::<Inode, FsError>(FsError::OutOfInodes)
            &&& final(log).table() == old(log).table()
            &&& forall|x: int| #[trigger] final(cache).content(device.blocks(), x)
                == old(cache).content(device.blocks(), x)
        },
        r matches Ok(ip) ==> {
            let inum = ip.ino_v() as int;
            let blk = sb.iblock_spec(inum);
            &&& 1 <= inum < sb.n_inode
            &&& final(log).has_home(blk)
            &&& inode_free(sb, old(cache), device.blocks(), inum)
            &&& forall|j: int| 1 <= j < inum ==> !inode_free(sb, old(cache), device.blocks(), j)
            &&& ip.dev_v() == dev
            &&& ip.dinode().kind_v() == kind
            &&& ip.dinode().fields_zero()
            &&& ip.dinode().stored_at(final(cache).content(device.blocks(), blk), inode_offset(inum))
            &&& forall|k: int| 0 <= k < BSIZE && !(inode_offset(inum) <= k < inode_offset(inum) + DINODE_SIZE)
                ==> #[trigger] final(cache).content(device.blocks(), blk)[k] == old(cache).content(device.blocks(), blk)[k]
            &&& forall|x: int| x != blk ==> #[trigger] final(cache).content(device.blocks(), x)
                == old(cache).content(device.blocks(), x)
        },
{
    let ghost disk = device.blocks();
    let ghost c0 = *cache;
    let mut inum: u32 = 1;
    while inum < sb.n_inode
        invariant
            disk == device.blocks(),
            *log == *old(log),
            c0 == *old(cache),
            log_ready(log, cache, disk),
            log.outstanding() > 0,
            log.table().len() < log.size(),
            forall|inum: int| 0 <= inum < sb.n_inode ==> inode_block_ok(sb, log, inum),
            cache.dev_id() == c0.dev_id(),
            1 <= inum,
            forall|x: int| #[trigger] cache.content(disk, x) == c0.content(disk, x),
            forall|j: int| 1 <= j < inum ==> !inode_free(sb, &c0, disk, j),
        decreases sb.n_inode - inum,
    {
        proof {
            assert(inode_block_ok(sb, log, inum as int));
        }
        let blk = sb.iblock(inum);
        let off = (inum as usize % IPB) * DINODE_SIZE;
        let ghost cp = *cache;
        let idx = log.acquire(cache, blk, device);
        let code = get_i16(cache.buffer(idx), off);
        proof {
            assert(cp.content(disk, blk as int) == c0.content(disk, blk as int));
        }
        if code == 0 {
            let mut d = DiskInode::new();
            *d.kind_mut() = kind;
            let ghost c1 = *cache;
            let buf = cache.buffer_mut(idx);
            d.write_to(buf, off);
            proof {
                cache.lemma_update_wf(&c1, idx as int);
                assert forall|i: int| 0 <= i < log.table().len() implies {
                    let (h, s) = #[trigger] log.table()[i];
                    &&& cache.live(s as int)
                    &&& cache.entry(s as int).bno() == h
                } by {
                    assert(c1.live(log.table()[i].1 as int));
                }
            }
            log.write_release(idx, cache, Ghost(disk));
            proof {
                assert(off == inode_offset(inum as int));
                assert(inode_free(sb, &c0, disk, inum as int));
                assert forall|x: int| x != blk implies #[trigger] cache.content(disk, x) == c0.content(disk, x) by {
                    assert(cp.content(disk, x) == c0.content(disk, x));
                }
            }
            return Ok(Inode::with_dinode(inum, dev, d));
        }
        log.release_clean(idx, cache, Ghost(disk));
        proof {
            assert forall|x: int| #[trigger] cache.content(disk, x) == c0.content(disk, x) by {
                assert(cp.content(disk, x) == c0.content(disk, x));
            }
        }
        inum = inum + 1;
    }
    Err(FsError::OutOfInodes)
}

/// Number of nonzero entries of `s`.
pub open spec fn nz_count(s: Seq<int>) -> nat
    decreases s.len(),
{
    if s.len() == 0 {
        0
    } else {
        nz_count(s.drop_last()) + if s.last() != 0 {
            1nat
        } else {
            0nat
        }
    }
}

pub proof fn lemma_nz_step(s: Seq<int>, i: int)
    requires
        0 <= i < s.len(),
    ensures
        nz_count(s.take(i + 1)) == nz_count(s.take(i)) + if s[i] != 0 {
            1nat
        } else {
            0nat
        },
{
    assert(s.take(i + 1).drop_last() =~= s.take(i));
}

pub proof fn lemma_nz_prefix(s: Seq<int>, i: int)
    requires
        0 <= i <= s.len(),
    ensures
        nz_count(s.take(i)) <= nz_count(s),
    decreases s.len() - i,
{
    if i < s.len() {
        lemma_nz_step(s, i);
        lemma_nz_prefix(s, i + 1);
    } else {
        assert(s.take(i) =~= s);
    }
}

/// Block `c` is nonzero and among the first `i` entries of `addrs`.
pub open spec fn named_prefix(addrs: Seq<u32>, i: int, c: int) -> bool {
    c != 0 && exists|m: int| 0 <= m < i && #[trigger] addrs[m] == c
}

/// Block `c` is nonzero and among the first `j` entries of the indirect
/// block `blk`.
pub open spec fn entry_prefix(blk: Seq<u8>, j: int, c: int) -> bool {
    c != 0 && exists|m: int| 0 <= m < j && #[trigger] le_u32(blk, 4 * m) == c
}

/// Reads through the cache agree on every block of the device outside the
/// log and the bitmap, but for `e1` and `e2`.
pub open spec fn same_data(
    c1: &BlockCacheManager,
    d1: Seq<Seq<u8>>,
    c2: &BlockCacheManager,
    d2: Seq<Seq<u8>>,
    log: &LogManager,
    bitmap: &BitMap,
    e1: int,
    e2: int,
) -> bool {
    &&& d2.len() == d1.len()
    &&& forall|x: int|
        0 <= x < d1.len() && !in_log(log.start(), log.size(), x) && !bitmap.is_bitmap_block(x) && x != e1
            && x != e2 ==> #[trigger] c2.content(d2, x) == c1.content(d1, x)
}

/// Reads through the cache agree on the bitmap blocks.
pub open spec fn same_bits(
    c1: &BlockCacheManager,
    d1: Seq<Seq<u8>>,
    c2: &BlockCacheManager,
    d2: Seq<Seq<u8>>,
    bitmap: &BitMap,
) -> bool {
    forall|c: int| 0 <= c < bitmap.nbits() ==> #[trigger] bitmap.allocated(c2, d2, c) == bitmap.allocated(c1, d1, c)
}

impl Inode {
    /// Makes room for `need` more blocks in the group: when the group is
    /// too full, the inode is written out and the operation's changes are
    /// committed, then a new operation begins.
    fn make_room<D: BlockDevice>(
        &self,
        need: usize,
        sb: &SuperBlock,
        bitmap: &BitMap,
        cache: &mut BlockCacheManager,
        log: &mut LogManager,
        device: &mut D,
    ) -> (r: Result<(), FsError>)
        requires
            ready(bitmap, old(log), old(cache), old(device).blocks()),
            old(log).outstanding() > 0,
            old(log).table().len() + 1 <= old(log).size(),
            need <= old(log).size(),
            need <= MAXOPBLOCKS,
            inode_block_ok(sb, old(log), self.ino_v() as int),
            !bitmap.is_bitmap_block(sb.iblock_spec(self.ino_v() as int)),
        ensures
            ready(bitmap, final(log), final(cache), final(device).blocks()),
            same_log_frame(final(log), old(log)),
            final(cache).dev_id() == old(cache).dev_id(),
            (r == Err::<(), FsError>(FsError::LogFull)) <==> (old(log).outstanding() != 1 && old(log).table().len()
                + need > old(log).size()),
            r is Err ==> r == Err::<(), FsError>(FsError::LogFull),
            r is Ok ==> final(log).table().len() + need <= final(log).size(),
            old(log).table().len() + need <= old(log).size() || r is Err ==> {
                &&& *final(log) == *old(log)
                &&& *final(cache) == *old(cache)
                &&& final(device).blocks() == old(device).blocks()
            },
            same_data(
                old(cache),
                old(device).blocks(),
                final(cache),
                final(device).blocks(),
                old(log),
                bitmap,
                sb.iblock_spec(self.ino_v() as int),
                sb.iblock_spec(self.ino_v() as int),
            ),
            same_bits(old(cache), old(device).blocks(), final(cache), final(device).blocks(), bitmap),
    {
        if log.pending() + need <= log.capacity() {
            return Ok(());
        }
        if log.num_outstanding() != 1 {
            return Err(FsError::LogFull);
        }
        let ghost d0 = device.blocks();
        let ghost c0 = *cache;
        let ghost l0 = *log;
        self.iupdate(sb, cache, log, &*device);
        let ghost c1 = *cache;
        let ghost l1 = *log;
        let ghost d1 = device.blocks();
        log.end_op(cache, device);
        proof {
            l1.lemma_commit_content(&c1, d1, cache, device.blocks());
        }
        let admitted = log.begin_op();
        proof {
            assert(admitted);
            assert forall|j: int| #[trigger] cache.live(j) implies cache.entry(j).refs() == 1 && log.pins(j) by {
                assert(!cache.live(j));
            }
            let iblk = sb.iblock_spec(self.ino_v() as int);
            assert forall|x: int| 0 <= x < d0.len() && !in_log(l0.start(), l0.size(), x) && !bitmap.is_bitmap_block(x)
                && x != iblk implies #[trigger] cache.content(device.blocks(), x) == c0.content(d0, x) by {
                assert(c1.content(d1, x) == c0.content(d0, x));
            }
            assert forall|c: int| 0 <= c < bitmap.nbits() implies #[trigger] bitmap.allocated(cache, device.blocks(), c)
                == bitmap.allocated(&c0, d0, c) by {
                bitmap.lemma_in_bitmap(c);
                let x = bitmap.block_of(c);
                assert(x != iblk);
                assert(bitmap.is_bitmap_block(x));
                assert(bitmap.fits(&l0));
                assert(l1.start() == l0.start() && l1.size() == l0.size());
                assert(d0.len() == l0.nblocks());
                assert(0 <= x < d0.len() && !in_log(l1.start(), l1.size(), x));
                assert(c1.content(d1, x) == c0.content(d0, x));
                assert(cache.content(device.blocks(), x) == c1.content(d1, x));
            }
        }
        Ok(())
    }

    /// Frees block `b` through the bitmap, first making room in the log.
    fn free_block<D: BlockDevice>(
        &self,
        b: usize,
        sb: &SuperBlock,
        bitmap: &BitMap,
        cache: &mut BlockCacheManager,
        log: &mut LogManager,
        device: &mut D,
    ) -> (r: Result<(), FsError>)
        requires
            ready(bitmap, old(log), old(cache), old(device).blocks()),
            old(log).outstanding() > 0,
            old(log).table().len() + 1 <= old(log).size(),
            3 <= old(log).size(),
            inode_block_ok(sb, old(log), self.ino_v() as int),
            !bitmap.is_bitmap_block(sb.iblock_spec(self.ino_v() as int)),
            b < bitmap.nbits(),
        ensures
            ready(bitmap, final(log), final(cache), final(device).blocks()),
            same_log_frame(final(log), old(log)),
            r is Ok ==> final(log).table().len() + 2 <= final(log).size(),
            r is Err ==> final(log).table().len() + 1 <= final(log).size(),
            old(log).outstanding() != 1 ==> final(log).table().len() <= old(log).table().len() + 1,
            final(cache).dev_id() == old(cache).dev_id(),
            (r == Err::<(), FsError>(FsError::LogFull)) <==> (old(log).outstanding() != 1 && old(log).table().len()
                + 3 > old(log).size()),
            (r == Err::<(), FsError>(FsError::Invariant)) <==> (!(old(log).outstanding() != 1 && old(log).table().len()
                + 3 > old(log).size()) && !bitmap.allocated(old(cache), old(device).blocks(), b as int)),
            r is Err ==> (r == Err::<(), FsError>(FsError::Invariant) || r == Err::<(), FsError>(FsError::LogFull))
                && same_bits(old(cache), old(device).blocks(), final(cache), final(device).blocks(), bitmap),
            r is Ok ==> forall|c: int| 0 <= c < bitmap.nbits() ==> #[trigger] bitmap.allocated(
                final(cache),
                final(device).blocks(),
                c,
            ) == (bitmap.allocated(old(cache), old(device).blocks(), c) && c != b),
            same_data(
                old(cache),
                old(device).blocks(),
                final(cache),
                final(device).blocks(),
                old(log),
                bitmap,
                sb.iblock_spec(self.ino_v() as int),
                sb.iblock_spec(self.ino_v() as int),
            ),
    {
        let ghost c0 = *cache;
        let ghost d0 = device.blocks();
        match self.make_room(3, sb, bitmap, cache, log, device) {
            Ok(()) => {},
            Err(e) => {
                return Err(e);
            },
        }
        let ghost c1 = *cache;
        let ghost d1 = device.blocks();
        let set = bitmap.is_allocated(b, cache, log, &*device);
        let r = if set {
            bitmap.dealloc(b, cache, log, &*device);
            Ok(())
        } else {
            Err(FsError::Invariant)
        };
        proof {
            let iblk = sb.iblock_spec(self.ino_v() as int);
            assert forall|x: int|
                0 <= x < d0.len() && !in_log(old(log).start(), old(log).size(), x) && !bitmap.is_bitmap_block(x)
                    && x != iblk implies #[trigger] cache.content(device.blocks(), x) == c0.content(d0, x) by {
                assert(c1.content(d1, x) == c0.content(d0, x));
                if r is Ok {
                    bitmap.lemma_in_bitmap(b as int);
                    assert(x != bitmap.block_of(b as int));
                }
            }
            assert(bitmap.allocated(&c1, d1, b as int) == bitmap.allocated(&c0, d0, b as int));
            if r is Ok {
                assert forall|c: int| 0 <= c < bitmap.nbits() implies #[trigger] bitmap.allocated(
                    cache,
                    device.blocks(),
                    c,
                ) == (bitmap.allocated(&c0, d0, c) && c != b) by {
                    assert(bitmap.allocated(&c1, d1, c) == bitmap.allocated(&c0, d0, c));
                }
            } else {
                assert forall|c: int| 0 <= c < bitmap.nbits() implies #[trigger] bitmap.allocated(
                    cache,
                    device.blocks(),
                    c,
                ) == bitmap.allocated(&c0, d0, c) by {
                    assert(bitmap.allocated(&c1, d1, c) == bitmap.allocated(&c0, d0, c));
                    bitmap.lemma_in_bitmap(c);
                    let x = bitmap.block_of(c);
                    assert(cache.content(d1, x) == c1.content(d1, x));
                }
            }
        }
        r
    }

    /// Block `c` is one of the direct addresses.
    pub open spec fn names_direct(&self, c: int) -> bool {
        exists|i: int| 0 <= i < NDIRECT && #[trigger] self.dinode().addrs()[i] == c
    }

    /// Block `c` is the indirect block or one of its entries, as read
    /// through the cache.
    pub open spec fn names_indirect(&self, cache: &BlockCacheManager, disk: Seq<Seq<u8>>, c: int) -> bool {
        let ib = self.dinode().addrs()[NDIRECT as int] as int;
        ib != 0 && (c == ib || exists|m: int| 0 <= m < NINDIRECT && #[trigger] le_u32(cache.content(disk, ib), 4 * m) == c)
    }

    /// The direct addresses.
    pub open spec fn direct_list(&self) -> Seq<int> {
        Seq::new(NDIRECT as nat, |i: int| self.dinode().addrs()[i] as int)
    }

    /// The entries of the indirect block, as read through the cache.
    pub open spec fn entry_list(&self, cache: &BlockCacheManager, disk: Seq<Seq<u8>>) -> Seq<int> {
        let blk = cache.content(disk, self.dinode().addrs()[NDIRECT as int] as int);
        Seq::new(NINDIRECT as nat, |m: int| le_u32(blk, 4 * m))
    }

    /// Log slots a truncation may take without committing: one for each
    /// direct block (its bitmap block), two for each entry of the indirect
    /// block (its bitmap block and the indirect block), and three more.
    pub open spec fn trunc_room(&self, cache: &BlockCacheManager, disk: Seq<Seq<u8>>) -> nat {
        nz_count(self.direct_list()) + (if self.dinode().addrs()[NDIRECT as int] != 0 {
            2 * nz_count(self.entry_list(cache, disk))
        } else {
            0
        }) + 3
    }

    /// No direct address is repeated.
    pub open spec fn direct_once(&self) -> bool {
        forall|i: int, j: int|
            0 <= i < NDIRECT && 0 <= j < NDIRECT && i != j && #[trigger] self.dinode().addrs()[i] != 0
                ==> self.dinode().addrs()[i] != #[trigger] self.dinode().addrs()[j]
    }

    /// No entry of the indirect block is repeated or names the indirect
    /// block itself.
    pub open spec fn indirect_once(&self, cache: &BlockCacheManager, disk: Seq<Seq<u8>>) -> bool {
        let ib = self.dinode().addrs()[NDIRECT as int] as int;
        let blk = cache.content(disk, ib);
        ib != 0 ==> {
            &&& forall|m: int, k: int|
                0 <= m < NINDIRECT && 0 <= k < NINDIRECT && m != k && #[trigger] le_u32(blk, 4 * m) != 0
                    ==> le_u32(blk, 4 * m) != #[trigger] le_u32(blk, 4 * k)
            &&& forall|m: int| 0 <= m < NINDIRECT ==> #[trigger] le_u32(blk, 4 * m) != ib
        }
    }

    /// No direct address is also the indirect block or one of its entries.
    pub open spec fn apart(&self, cache: &BlockCacheManager, disk: Seq<Seq<u8>>) -> bool {
        forall|i: int| 0 <= i < NDIRECT && #[trigger] self.dinode().addrs()[i] != 0
            ==> !self.names_indirect(cache, disk, self.dinode().addrs()[i] as int)
    }

    /// Truncation can free what the inode names: each block it names is
    /// tracked by the bitmap, marked in use, and named once; its indirect
    /// block, if any, lies on the device outside the log, the bitmap and the
    /// inode's own block.
    pub open spec fn trunc_ok(
        &self,
        sb: &SuperBlock,
        bitmap: &BitMap,
        log: &LogManager,
        cache: &BlockCacheManager,
        disk: Seq<Seq<u8>>,
    ) -> bool {
        let ib = self.dinode().addrs()[NDIRECT as int] as int;
        &&& forall|c: int| #[trigger] self.names(cache, disk, c) ==> c < bitmap.nbits() && bitmap.allocated(cache, disk, c)
        &&& self.direct_once()
        &&& self.indirect_once(cache, disk)
        &&& self.apart(cache, disk)
        &&& ib != 0 ==> ib < log.nblocks() && !bitmap.reserved(log, ib) && ib != sb.iblock_spec(self.ino_v() as int)
    }

    /// Block `c` is a block of the inode's contents or its indirect block.
    pub open spec fn names(&self, cache: &BlockCacheManager, disk: Seq<Seq<u8>>, c: int) -> bool {
        c != 0 && (self.names_direct(c) || self.names_indirect(cache, disk, c))
    }

    /// Frees the direct blocks and zeroes their addresses.
    fn trunc_direct<D: BlockDevice>(
        &mut self,
        sb: &SuperBlock,
        bitmap: &BitMap,
        cache: &mut BlockCacheManager,
        log: &mut LogManager,
        device: &mut D,
    ) -> (r: Result<(), FsError>)
        requires
            ready(bitmap, old(log), old(cache), old(device).blocks()),
            old(log).outstanding() > 0,
            old(log).table().len() + 1 <= old(log).size(),
            3 <= old(log).size(),
            inode_block_ok(sb, old(log), old(self).ino_v() as int),
            !bitmap.is_bitmap_block(sb.iblock_spec(old(self).ino_v() as int)),
        ensures
            ready(bitmap, final(log), final(cache), final(device).blocks()),
            same_log_frame(final(log), old(log)),
            final(log).table().len() + 1 <= final(log).size(),
            final(cache).dev_id() == old(cache).dev_id(),
            final(self).ino_v() == old(self).ino_v(),
            final(self).dev_v() == old(self).dev_v(),
            final(self).dinode().same_but(&old(self).dinode(), 5),
            final(self).dinode().addrs().len() == 13,
            final(self).dinode().addrs()[NDIRECT as int] == old(self).dinode().addrs()[NDIRECT as int],
            r is Err ==> r == Err::<(), FsError>(FsError::Invariant) || r == Err::<(), FsError>(FsError::LogFull),
            r == Err::<(), FsError>(FsError::LogFull) ==> old(log).outstanding() != 1,
            old(log).outstanding() != 1 ==> final(log).table().len() <= old(log).table().len() + nz_count(
                old(self).direct_list(),
            ),
            old(self).direct_once() && (forall|c: int| #[trigger] named_prefix(old(self).dinode().addrs(), NDIRECT as int, c)
                ==> c < bitmap.nbits() && bitmap.allocated(old(cache), old(device).blocks(), c)) && (old(log).outstanding()
                == 1 || old(log).table().len() + nz_count(old(self).direct_list()) + 2 <= old(log).size()) ==> r is Ok,
            r is Ok ==> forall|i: int| 0 <= i < NDIRECT ==> #[trigger] final(self).dinode().addrs()[i] == 0,
            r is Ok ==> forall|c: int| #[trigger] named_prefix(old(self).dinode().addrs(), NDIRECT as int, c)
                ==> c < bitmap.nbits() && bitmap.allocated(old(cache), old(device).blocks(), c),
            r is Ok ==> forall|c: int| 0 <= c < bitmap.nbits() ==> #[trigger] bitmap.allocated(
                final(cache),
                final(device).blocks(),
                c,
            ) == (bitmap.allocated(old(cache), old(device).blocks(), c) && !named_prefix(old(self).dinode().addrs(), NDIRECT as int, c)),
            same_data(
                old(cache),
                old(device).blocks(),
                final(cache),
                final(device).blocks(),
                old(log),
                bitmap,
                sb.iblock_spec(old(self).ino_v() as int),
                sb.iblock_spec(old(self).ino_v() as int),
            ),
    {
        let ghost c0 = *cache;
        let ghost d0 = device.blocks();
        let ghost s0 = *self;
        let ghost l0 = *log;
        let ghost iblk = sb.iblock_spec(self.ino_v() as int);
        proof {
            self.disk_inode.lemma_addrs_len();
        }
        let ghost good = s0.direct_once() && (forall|c: int| #[trigger] named_prefix(s0.dinode().addrs(), NDIRECT as int, c)
            ==> c < bitmap.nbits() && bitmap.allocated(&c0, d0, c)) && (l0.outstanding() == 1 || l0.table().len()
            + nz_count(s0.direct_list()) + 2 <= l0.size());
        let mut i: usize = 0;
        while i < NDIRECT
            invariant
                ready(bitmap, log, cache, device.blocks()),
                same_log_frame(log, &l0),
                log.table().len() + 1 <= log.size(),
                3 <= log.size(),
                l0 == *old(log),
                c0 == *old(cache),
                d0 == old(device).blocks(),
                s0 == *old(self),
                iblk == sb.iblock_spec(s0.ino_v() as int),
                inode_block_ok(sb, log, self.ino_v() as int),
                !bitmap.is_bitmap_block(iblk),
                cache.dev_id() == c0.dev_id(),
                self.ino_v() == s0.ino_v(),
                self.dev_v() == s0.dev_v(),
                self.dinode().same_but(&s0.dinode(), 5),
                self.dinode().addrs().len() == 13,
                i <= NDIRECT,
                forall|m: int| 0 <= m < i ==> #[trigger] self.dinode().addrs()[m] == 0,
                forall|m: int| i <= m < 13 ==> #[trigger] self.dinode().addrs()[m] == s0.dinode().addrs()[m],
                forall|c: int| #[trigger] named_prefix(s0.dinode().addrs(), i as int, c)
                    ==> c < bitmap.nbits() && bitmap.allocated(&c0, d0, c),
                forall|c: int| 0 <= c < bitmap.nbits() ==> #[trigger] bitmap.allocated(cache, device.blocks(), c)
                    == (bitmap.allocated(&c0, d0, c) && !named_prefix(s0.dinode().addrs(), i as int, c)),
                same_data(&c0, d0, cache, device.blocks(), &l0, bitmap, iblk, iblk),
                good == (s0.direct_once() && (forall|c: int| #[trigger] named_prefix(s0.dinode().addrs(), NDIRECT as int, c)
                    ==> c < bitmap.nbits() && bitmap.allocated(&c0, d0, c)) && (l0.outstanding() == 1 || l0.table().len()
                    + nz_count(s0.direct_list()) + 2 <= l0.size())),
                l0.outstanding() == 1 || log.table().len() <= l0.table().len() + nz_count(s0.direct_list().take(i as int)),
                l0.outstanding() > 0,
            decreases NDIRECT - i,
        {
            let a = self.disk_inode.bnos()[i];
            if a != 0 {
                proof {
                    assert(s0.dinode().addrs()[i as int] == a);
                    assert(named_prefix(s0.dinode().addrs(), NDIRECT as int, a as int));
                }
                if a as usize >= bitmap.nbits_exec() {
                    proof {
                        lemma_nz_prefix(s0.direct_list(), i as int);
                    }
                    return Err(FsError::Invariant);
                }
                let ghost c1 = *cache;
                let ghost d1 = device.blocks();
                match self.free_block(a as usize, sb, bitmap, cache, log, device) {
                    Ok(()) => {},
                    Err(e) => {
                        proof {
                            lemma_nz_step(s0.direct_list(), i as int);
                            lemma_nz_prefix(s0.direct_list(), i + 1);
                            if good {
                                lemma_nz_step(s0.direct_list(), i as int);
                                lemma_nz_prefix(s0.direct_list(), i + 1);
                                assert(s0.direct_list()[i as int] == a);
                                assert(bitmap.allocated(&c0, d0, a as int));
                                if named_prefix(s0.dinode().addrs(), i as int, a as int) {
                                    let m = choose|m: int| 0 <= m < i && #[trigger] s0.dinode().addrs()[m] == a;
                                    assert(s0.dinode().addrs()[m] != s0.dinode().addrs()[i as int]);
                                }
                                assert(bitmap.allocated(&c1, d1, a as int));
                            }
                        }
                        return Err(e);
                    },
                }
                let ghost before = self.dinode();
                let arr = self.disk_inode.bnos_mut();
                arr[i] = 0;
                proof {
                    lemma_nz_step(s0.direct_list(), i as int);
                    assert(s0.direct_list()[i as int] == a);
                    assert(self.dinode().addrs() == before.addrs().update(i as int, 0u32));
                    assert(bitmap.allocated(&c1, d1, a as int));
                    assert forall|c: int| #[trigger] named_prefix(s0.dinode().addrs(), i + 1, c)
                        implies c < bitmap.nbits() && bitmap.allocated(&c0, d0, c) by {
                        let m = choose|m: int| 0 <= m < i + 1 && #[trigger] s0.dinode().addrs()[m] == c;
                        if m == i {
                            assert(c == a);
                            if named_prefix(s0.dinode().addrs(), i as int, c) {
                                assert(!bitmap.allocated(&c1, d1, c));
                            }
                        } else {
                            assert(named_prefix(s0.dinode().addrs(), i as int, c));
                        }
                    }
                    assert forall|c: int| 0 <= c < bitmap.nbits() implies #[trigger] bitmap.allocated(cache, device.blocks(), c)
                        == (bitmap.allocated(&c0, d0, c) && !named_prefix(s0.dinode().addrs(), i + 1, c)) by {
                        if named_prefix(s0.dinode().addrs(), i + 1, c) {
                            let m = choose|m: int| 0 <= m < i + 1 && #[trigger] s0.dinode().addrs()[m] == c;
                            if m < i {
                                assert(named_prefix(s0.dinode().addrs(), i as int, c));
                            }
                        } else {
                            assert(s0.dinode().addrs()[i as int] != c);
                            assert(!named_prefix(s0.dinode().addrs(), i as int, c));
                        }
                    }
                    assert forall|x: int| 0 <= x < d0.len() && !in_log(l0.start(), l0.size(), x) && !bitmap.is_bitmap_block(x)
                        && x != iblk implies #[trigger] cache.content(device.blocks(), x) == c0.content(d0, x) by {
                        assert(c1.content(d1, x) == c0.content(d0, x));
                    }
                }
            } else {
                proof {
                    lemma_nz_step(s0.direct_list(), i as int);
                    assert(s0.direct_list()[i as int] == a);
                    assert forall|c: int| #[trigger] named_prefix(s0.dinode().addrs(), i + 1, c)
                        == named_prefix(s0.dinode().addrs(), i as int, c) by {
                        if named_prefix(s0.dinode().addrs(), i + 1, c) {
                            let m = choose|m: int| 0 <= m < i + 1 && #[trigger] s0.dinode().addrs()[m] == c;
                            assert(m != i);
                        }
                    }
                }
            }
            i = i + 1;
        }
        proof {
            assert forall|c: int| #[trigger] named_prefix(s0.dinode().addrs(), NDIRECT as int, c)
                == (c != 0 && s0.names_direct(c)) by {}
        }
        proof {
            assert(s0.direct_list().take(NDIRECT as int) =~= s0.direct_list());
        }
        Ok(())
    }

    /// Frees the block named by entry `j` of the indirect block `ib`, if
    /// any, and zeroes the entry.
    fn free_entry<D: BlockDevice>(
        &self,
        ib: usize,
        j: usize,
        sb: &SuperBlock,
        bitmap: &BitMap,
        cache: &mut BlockCacheManager,
        log: &mut LogManager,
        device: &mut D,
    ) -> (r: Result<(), FsError>)
        requires
            ready(bitmap, old(log), old(cache), old(device).blocks()),
            old(log).outstanding() > 0,
            old(log).table().len() + 1 <= old(log).size(),
            3 <= old(log).size(),
            inode_block_ok(sb, old(log), self.ino_v() as int),
            !bitmap.is_bitmap_block(sb.iblock_spec(self.ino_v() as int)),
            j < NINDIRECT,
            ib < old(log).nblocks(),
            !bitmap.reserved(old(log), ib as int),
            ib != sb.iblock_spec(self.ino_v() as int),
        ensures
            ready(bitmap, final(log), final(cache), final(device).blocks()),
            same_log_frame(final(log), old(log)),
            final(log).table().len() + 1 <= final(log).size(),
            old(log).outstanding() != 1 ==> final(log).table().len() <= old(log).table().len() + 2,
            final(cache).dev_id() == old(cache).dev_id(),
            ({
                let e = le_u32(old(cache).content(old(device).blocks(), ib as int), 4 * j);
                &&& e == 0 ==> r is Ok && *final(log) == *old(log)
                &&& r is Err ==> r == Err::<(), FsError>(FsError::Invariant) || r == Err::<(), FsError>(FsError::LogFull)
                &&& r == Err::<(), FsError>(FsError::LogFull) ==> old(log).outstanding() != 1 && old(log).table().len() + 3
                    > old(log).size()
                &&& (e == 0 || (e < bitmap.nbits() && bitmap.allocated(old(cache), old(device).blocks(), e)))
                    && (old(log).outstanding() == 1 || old(log).table().len() + 3 <= old(log).size()) ==> r is Ok
                &&& r is Ok ==> e == 0 || (e < bitmap.nbits() && bitmap.allocated(old(cache), old(device).blocks(), e))
                &&& r is Ok ==> forall|c: int| 0 <= c < bitmap.nbits() ==> #[trigger] bitmap.allocated(
                    final(cache),
                    final(device).blocks(),
                    c,
                ) == (bitmap.allocated(old(cache), old(device).blocks(), c) && !(c != 0 && c == e))
                &&& r is Ok ==> forall|m: int| 0 <= m < NINDIRECT && m != j ==> #[trigger] le_u32(
                    final(cache).content(final(device).blocks(), ib as int),
                    4 * m,
                ) == le_u32(old(cache).content(old(device).blocks(), ib as int), 4 * m)
                &&& r is Ok ==> final(cache).content(final(device).blocks(), ib as int).len() == BSIZE
            }),
            same_data(
                old(cache),
                old(device).blocks(),
                final(cache),
                final(device).blocks(),
                old(log),
                bitmap,
                sb.iblock_spec(self.ino_v() as int),
                ib as int,
            ),
    {
        let ghost c0 = *cache;
        let ghost d0 = device.blocks();
        let ghost iblk = sb.iblock_spec(self.ino_v() as int);
        let e = read_entry(ib, 4 * j, cache, log, &*device);
        proof {
            assert(cache.content(device.blocks(), ib as int) == c0.content(d0, ib as int));
            assert(c0.content(d0, ib as int).len() == BSIZE) by {
                if c0.holds(ib as int) {
                    c0.lemma_slot_of(c0.slot_of(ib as int));
                }
            }
        }
        if e == 0 {
            return Ok(());
        }
        if e as usize >= bitmap.nbits_exec() {
            return Err(FsError::Invariant);
        }
        match self.free_block(e as usize, sb, bitmap, cache, log, device) {
            Ok(()) => {},
            Err(err) => {
                return Err(err);
            },
        }
        let ghost c3 = *cache;
        let ghost d3 = device.blocks();
        write_entry(ib, 4 * j, 0, cache, log, &*device);
        proof {
            assert(c3.content(d3, ib as int) == c0.content(d0, ib as int));
            lemma_splice_read(c3.content(d3, ib as int), 4 * j as int, 0u32);
            assert forall|c: int| 0 <= c < bitmap.nbits() implies #[trigger] bitmap.allocated(cache, device.blocks(), c)
                == (bitmap.allocated(&c0, d0, c) && !(c != 0 && c == e)) by {
                bitmap.lemma_in_bitmap(c);
                assert(bitmap.allocated(cache, device.blocks(), c) == bitmap.allocated(&c3, d3, c));
            }
            assert forall|x: int| 0 <= x < d0.len() && !in_log(old(log).start(), old(log).size(), x) && !bitmap.is_bitmap_block(x)
                && x != iblk && x != ib implies #[trigger] cache.content(device.blocks(), x) == c0.content(d0, x) by {
                assert(c3.content(d3, x) == c0.content(d0, x));
            }
        }
        Ok(())
    }

    /// Frees the blocks the indirect block names, then the indirect block,
    /// and zeroes its address.
    #[verifier::rlimit(60)]
    fn trunc_indirect<D: BlockDevice>(
        &mut self,
        sb: &SuperBlock,
        bitmap: &BitMap,
        cache: &mut BlockCacheManager,
        log: &mut LogManager,
        device: &mut D,
    ) -> (r: Result<(), FsError>)
        requires
            ready(bitmap, old(log), old(cache), old(device).blocks()),
            old(log).outstanding() > 0,
            old(log).table().len() + 1 <= old(log).size(),
            3 <= old(log).size(),
            inode_block_ok(sb, old(log), old(self).ino_v() as int),
            !bitmap.is_bitmap_block(sb.iblock_spec(old(self).ino_v() as int)),
            old(self).dinode().addrs().len() == 13,
        ensures
            ready(bitmap, final(log), final(cache), final(device).blocks()),
            same_log_frame(final(log), old(log)),
            final(log).table().len() + 1 <= final(log).size(),
            final(cache).dev_id() == old(cache).dev_id(),
            final(self).ino_v() == old(self).ino_v(),
            final(self).dev_v() == old(self).dev_v(),
            final(self).dinode().same_but(&old(self).dinode(), 5),
            final(self).dinode().addrs().len() == 13,
            forall|i: int| 0 <= i < NDIRECT ==> #[trigger] final(self).dinode().addrs()[i] == old(self).dinode().addrs()[i],
            ({
                let ib = old(self).dinode().addrs()[NDIRECT as int] as int;
                let blk = old(cache).content(old(device).blocks(), ib);
                ib == 0 || (ib < old(log).nblocks() && !bitmap.reserved(old(log), ib) && ib < bitmap.nbits()
                    && ib != sb.iblock_spec(old(self).ino_v() as int) && bitmap.allocated(old(cache), old(device).blocks(), ib)
                    && old(self).indirect_once(old(cache), old(device).blocks()) && forall|m: int|
                    0 <= m < NINDIRECT && #[trigger] le_u32(blk, 4 * m) != 0 ==> le_u32(blk, 4 * m) < bitmap.nbits()
                        && bitmap.allocated(old(cache), old(device).blocks(), le_u32(blk, 4 * m)))
            }) && (old(log).outstanding() == 1 || old(self).dinode().addrs()[NDIRECT as int] == 0 || old(log).table().len()
                + 2 * nz_count(old(self).entry_list(old(cache), old(device).blocks())) + 3 <= old(log).size()) ==> r is Ok,
            r is Err ==> r == Err::<(), FsError>(FsError::Invariant) || r == Err::<(), FsError>(FsError::LogFull),
            r == Err::<(), FsError>(FsError::LogFull) ==> old(log).outstanding() != 1,
            r is Ok ==> final(self).dinode().addrs()[NDIRECT as int] == 0,
            r is Ok && old(self).dinode().addrs()[NDIRECT as int] != 0 ==> {
                let ib = old(self).dinode().addrs()[NDIRECT as int] as int;
                &&& ib < old(log).nblocks()
                &&& !bitmap.reserved(old(log), ib)
                &&& ib != sb.iblock_spec(old(self).ino_v() as int)
            },
            r is Ok ==> forall|c: int| #[trigger] old(self).names_indirect(old(cache), old(device).blocks(), c) && c != 0
                ==> c < bitmap.nbits() && bitmap.allocated(old(cache), old(device).blocks(), c),
            r is Ok ==> forall|c: int| 0 <= c < bitmap.nbits() ==> #[trigger] bitmap.allocated(
                final(cache),
                final(device).blocks(),
                c,
            ) == (bitmap.allocated(old(cache), old(device).blocks(), c) && !(c != 0 && old(self).names_indirect(
                old(cache),
                old(device).blocks(),
                c,
            ))),
            same_data(
                old(cache),
                old(device).blocks(),
                final(cache),
                final(device).blocks(),
                old(log),
                bitmap,
                sb.iblock_spec(old(self).ino_v() as int),
                old(self).dinode().addrs()[NDIRECT as int] as int,
            ),
    {
        let ghost c0 = *cache;
        let ghost d0 = device.blocks();
        let ghost s0 = *self;
        let ghost l0 = *log;
        let ghost iblk = sb.iblock_spec(self.ino_v() as int);
        let ib0 = self.disk_inode.bnos()[NDIRECT];
        if ib0 == 0 {
            return Ok(());
        }
        let ib = ib0 as usize;
        if ib >= log.nblocks_exec() || bitmap.is_reserved(ib, log) || ib >= bitmap.nbits_exec()
            || ib == sb.iblock(self.ino) {
            return Err(FsError::Invariant);
        }
        let ghost orig = c0.content(d0, ib as int);
        let ghost good = ib < l0.nblocks() && !bitmap.reserved(&l0, ib as int) && ib < bitmap.nbits()
            && ib != iblk && bitmap.allocated(&c0, d0, ib as int) && s0.indirect_once(&c0, d0) && forall|m: int|
            0 <= m < NINDIRECT && #[trigger] le_u32(c0.content(d0, ib as int), 4 * m) != 0 ==> le_u32(c0.content(d0, ib as int), 4 * m) < bitmap.nbits()
                && bitmap.allocated(&c0, d0, le_u32(c0.content(d0, ib as int), 4 * m)) && (l0.outstanding() == 1
            || l0.table().len() + 2 * nz_count(s0.entry_list(&c0, d0)) + 3 <= l0.size());
        let ghost elist = s0.entry_list(&c0, d0);
        let mut j: usize = 0;
        while j < NINDIRECT
            invariant
                ready(bitmap, log, cache, device.blocks()),
                same_log_frame(log, &l0),
                log.table().len() + 1 <= log.size(),
                3 <= log.size(),
                l0 == *old(log),
                c0 == *old(cache),
                d0 == old(device).blocks(),
                *self == s0,
                s0 == *old(self),
                iblk == sb.iblock_spec(s0.ino_v() as int),
                inode_block_ok(sb, log, self.ino_v() as int),
                !bitmap.is_bitmap_block(iblk),
                cache.dev_id() == c0.dev_id(),
                ib == s0.dinode().addrs()[NDIRECT as int],
                s0.dinode().addrs().len() == 13,
                ib < log.nblocks(),
                ib < bitmap.nbits(),
                !bitmap.reserved(log, ib as int),
                ib != iblk,
                orig == c0.content(d0, ib as int),
                j <= NINDIRECT,
                forall|m: int| j <= m < NINDIRECT ==> #[trigger] le_u32(cache.content(device.blocks(), ib as int), 4 * m)
                    == le_u32(orig, 4 * m),
                cache.content(device.blocks(), ib as int).len() == BSIZE,
                forall|c: int| #[trigger] entry_prefix(orig, j as int, c)
                    ==> c < bitmap.nbits() && bitmap.allocated(&c0, d0, c),
                forall|c: int| 0 <= c < bitmap.nbits() ==> #[trigger] bitmap.allocated(cache, device.blocks(), c)
                    == (bitmap.allocated(&c0, d0, c) && !entry_prefix(orig, j as int, c)),
                good == (ib < l0.nblocks() && !bitmap.reserved(&l0, ib as int) && ib < bitmap.nbits()
                    && ib != iblk && bitmap.allocated(&c0, d0, ib as int) && s0.indirect_once(&c0, d0) && forall|m: int|
                    0 <= m < NINDIRECT && #[trigger] le_u32(orig, 4 * m) != 0 ==> le_u32(orig, 4 * m) < bitmap.nbits()
                        && bitmap.allocated(&c0, d0, le_u32(orig, 4 * m)) && (l0.outstanding() == 1
                    || l0.table().len() + 2 * nz_count(elist) + 3 <= l0.size())),
                elist == Seq::new(NINDIRECT as nat, |m: int| le_u32(orig, 4 * m)),
                l0.outstanding() == 1 || log.table().len() <= l0.table().len() + 2 * nz_count(elist.take(j as int)),
                l0.outstanding() > 0,
                same_data(&c0, d0, cache, device.blocks(), &l0, bitmap, iblk, ib as int),
            decreases NINDIRECT - j,
        {
            let ghost c1 = *cache;
            let ghost d1 = device.blocks();
            match self.free_entry(ib, j, sb, bitmap, cache, log, device) {
                Ok(()) => {},
                Err(err) => {
                    proof {
                        if good {
                            let e = le_u32(orig, 4 * j);
                            assert(le_u32(c1.content(d1, ib as int), 4 * j) == e);
                            lemma_nz_step(elist, j as int);
                            lemma_nz_prefix(elist, j + 1);
                            assert(elist[j as int] == e);
                            if e != 0 {
                                if entry_prefix(orig, j as int, e) {
                                    let m = choose|m: int| 0 <= m < j && #[trigger] le_u32(orig, 4 * m) == e;
                                    assert(le_u32(orig, 4 * j) != le_u32(orig, 4 * m));
                                }
                                assert(bitmap.allocated(&c1, d1, e));
                            }
                        }
                    }
                    return Err(err);
                },
            }
            proof {
                let e = le_u32(orig, 4 * j);
                assert(le_u32(c1.content(d1, ib as int), 4 * j) == e);
                lemma_nz_step(elist, j as int);
                assert(elist[j as int] == e);
                assert forall|m: int| j + 1 <= m < NINDIRECT implies #[trigger] le_u32(cache.content(device.blocks(), ib as int), 4 * m)
                    == le_u32(orig, 4 * m) by {
                    assert(le_u32(cache.content(device.blocks(), ib as int), 4 * m) == le_u32(c1.content(d1, ib as int), 4 * m));
                }
                assert forall|c: int| #[trigger] entry_prefix(orig, j + 1, c)
                    implies c < bitmap.nbits() && bitmap.allocated(&c0, d0, c) by {
                    let m = choose|m: int| 0 <= m < j + 1 && #[trigger] le_u32(orig, 4 * m) == c;
                    if m == j {
                        if entry_prefix(orig, j as int, c) {
                            assert(!bitmap.allocated(&c1, d1, c));
                        }
                    } else {
                        assert(entry_prefix(orig, j as int, c));
                    }
                }
                assert forall|c: int| 0 <= c < bitmap.nbits() implies #[trigger] bitmap.allocated(cache, device.blocks(), c)
                    == (bitmap.allocated(&c0, d0, c) && !entry_prefix(orig, j + 1, c)) by {
                    if entry_prefix(orig, j + 1, c) {
                        let m = choose|m: int| 0 <= m < j + 1 && #[trigger] le_u32(orig, 4 * m) == c;
                        if m < j {
                            assert(entry_prefix(orig, j as int, c));
                        }
                    } else {
                        assert(!(c != 0 && le_u32(orig, 4 * j) == c));
                        assert(!entry_prefix(orig, j as int, c));
                    }
                }
                assert forall|x: int| 0 <= x < d0.len() && !in_log(l0.start(), l0.size(), x) && !bitmap.is_bitmap_block(x)
                    && x != iblk && x != ib implies #[trigger] cache.content(device.blocks(), x) == c0.content(d0, x) by {
                    assert(c1.content(d1, x) == c0.content(d0, x));
                }
            }
            j = j + 1;
        }
        let ghost c4 = *cache;
        let ghost d4 = device.blocks();
        match self.free_block(ib, sb, bitmap, cache, log, device) {
            Ok(()) => {},
            Err(err) => {
                proof {
                    if good {
                        assert(elist.take(NINDIRECT as int) =~= elist);
                        if entry_prefix(orig, NINDIRECT as int, ib as int) {
                            let m = choose|m: int| 0 <= m < NINDIRECT && #[trigger] le_u32(orig, 4 * m) == ib;
                        }
                        assert(bitmap.allocated(&c4, d4, ib as int));
                    }
                }
                return Err(err);
            },
        }
        let arr = self.disk_inode.bnos_mut();
        arr[NDIRECT] = 0;
        proof {
            assert forall|c: int| #[trigger] s0.names_indirect(&c0, d0, c) && c != 0
                implies c < bitmap.nbits() && bitmap.allocated(&c0, d0, c) by {
                if c == ib {
                    if entry_prefix(orig, NINDIRECT as int, c) {
                        assert(!bitmap.allocated(&c4, d4, c));
                    }
                } else {
                    let m = choose|m: int| 0 <= m < NINDIRECT && #[trigger] le_u32(orig, 4 * m) == c;
                    assert(entry_prefix(orig, NINDIRECT as int, c));
                }
            }
            assert forall|c: int| 0 <= c < bitmap.nbits() implies #[trigger] bitmap.allocated(cache, device.blocks(), c)
                == (bitmap.allocated(&c0, d0, c) && !(c != 0 && s0.names_indirect(&c0, d0, c))) by {
                if c != 0 && s0.names_indirect(&c0, d0, c) && c != ib {
                    let m = choose|m: int| 0 <= m < NINDIRECT && #[trigger] le_u32(orig, 4 * m) == c;
                    assert(entry_prefix(orig, NINDIRECT as int, c));
                }
                if entry_prefix(orig, NINDIRECT as int, c) {
                    let m = choose|m: int| 0 <= m < NINDIRECT && #[trigger] le_u32(orig, 4 * m) == c;
                    assert(s0.names_indirect(&c0, d0, c));
                }
            }
            assert forall|x: int| 0 <= x < d0.len() && !in_log(l0.start(), l0.size(), x) && !bitmap.is_bitmap_block(x)
                && x != iblk && x != ib implies #[trigger] cache.content(device.blocks(), x) == c0.content(d0, x) by {
                assert(c4.content(d4, x) == c0.content(d0, x));
            }
        }
        Ok(())
    }

    /// Frees every block of the inode's contents and its indirect block,
    /// zeroes its addresses and sets its size to 0. When the log runs short
    /// the truncation is split: the inode is written out and the changes so
    /// far are committed before going on. A block the inode names twice, or
    /// whose bit is already clear, or which the bitmap does not track, is
    /// refused with `Invariant`.
    pub fn itrunc<D: BlockDevice>(
        &mut self,
        sb: &SuperBlock,
        bitmap: &BitMap,
        cache: &mut BlockCacheManager,
        log: &mut LogManager,
        device: &mut D,
    ) -> (r: Result<(), FsError>)
        requires
            ready(bitmap, old(log), old(cache), old(device).blocks()),
            old(log).outstanding() > 0,
            old(log).table().len() + 1 <= old(log).size(),
            3 <= old(log).size(),
            inode_block_ok(sb, old(log), old(self).ino_v() as int),
            !bitmap.is_bitmap_block(sb.iblock_spec(old(self).ino_v() as int)),
        ensures
            ready(bitmap, final(log), final(cache), final(device).blocks()),
            same_log_frame(final(log), old(log)),
            final(log).table().len() + 1 <= final(log).size(),
            final(cache).dev_id() == old(cache).dev_id(),
            final(self).ino_v() == old(self).ino_v(),
            final(self).dev_v() == old(self).dev_v(),
            old(self).trunc_ok(sb, bitmap, old(log), old(cache), old(device).blocks()) && (old(log).outstanding() == 1
                || old(log).table().len() + old(self).trunc_room(old(cache), old(device).blocks()) <= old(log).size())
                ==> r is Ok,
            r is Err ==> r == Err::<(), FsError>(FsError::Invariant) || r == Err::<(), FsError>(FsError::LogFull),
            r == Err::<(), FsError>(FsError::LogFull) ==> old(log).outstanding() != 1,
            r is Ok ==> {
                &&& final(self).dinode().addrs() == Seq::new(13, |i: int| 0u32)
                &&& final(self).dinode().size_v() == 0
                &&& final(self).dinode().kind_v() == old(self).dinode().kind_v()
                &&& final(self).dinode().major_v() == old(self).dinode().major_v()
                &&& final(self).dinode().minor_v() == old(self).dinode().minor_v()
                &&& final(self).dinode().n_link_v() == old(self).dinode().n_link_v()
            },
            r is Ok ==> forall|c: int| #[trigger] old(self).names(old(cache), old(device).blocks(), c)
                ==> c < bitmap.nbits() && bitmap.allocated(old(cache), old(device).blocks(), c),
            r is Ok ==> forall|c: int| 0 <= c < bitmap.nbits() ==> #[trigger] bitmap.allocated(
                final(cache),
                final(device).blocks(),
                c,
            ) == (bitmap.allocated(old(cache), old(device).blocks(), c) && !old(self).names(
                old(cache),
                old(device).blocks(),
                c,
            )),
            same_data(
                old(cache),
                old(device).blocks(),
                final(cache),
                final(device).blocks(),
                old(log),
                bitmap,
                sb.iblock_spec(old(self).ino_v() as int),
                old(self).dinode().addrs()[NDIRECT as int] as int,
            ),
    {
        let ghost c0 = *cache;
        let ghost d0 = device.blocks();
        let ghost s0 = *self;
        let ghost iblk = sb.iblock_spec(self.ino_v() as int);
        proof {
            self.disk_inode.lemma_addrs_len();
        }
        let ghost good = s0.trunc_ok(sb, bitmap, old(log), &c0, d0) && (old(log).outstanding() == 1
            || old(log).table().len() + s0.trunc_room(&c0, d0) <= old(log).size());
        proof {
            if good {
                assert forall|c: int| #[trigger] named_prefix(s0.dinode().addrs(), NDIRECT as int, c)
                    implies c < bitmap.nbits() && bitmap.allocated(&c0, d0, c) by {
                    let m = choose|m: int| 0 <= m < NDIRECT && #[trigger] s0.dinode().addrs()[m] == c;
                    assert(s0.names_direct(c));
                    assert(s0.names(&c0, d0, c));
                }
            }
        }
        proof {
            if good {
                assert(old(log).outstanding() == 1 || old(log).table().len() + nz_count(s0.direct_list()) + 2
                    <= old(log).size());
            }
        }
        match self.trunc_direct(sb, bitmap, cache, log, device) {
            Ok(()) => {},
            Err(e) => {
                return Err(e);
            },
        }
        let ghost c1 = *cache;
        let ghost d1 = device.blocks();
        let ghost s1 = *self;
        let ghost log_mid = *log;
        match self.trunc_indirect(sb, bitmap, cache, log, device) {
            Ok(()) => {},
            Err(e) => {
                proof {
                    if good {
                        let ib = s0.dinode().addrs()[NDIRECT as int] as int;
                        if ib != 0 {
                            assert(c1.content(d1, ib) == c0.content(d0, ib));
                            assert(s0.names_indirect(&c0, d0, ib));
                            assert(!named_prefix(s0.dinode().addrs(), NDIRECT as int, ib)) by {
                                if named_prefix(s0.dinode().addrs(), NDIRECT as int, ib) {
                                    let m = choose|m: int| 0 <= m < NDIRECT && #[trigger] s0.dinode().addrs()[m] == ib;
                                    assert(!s0.names_indirect(&c0, d0, s0.dinode().addrs()[m] as int));
                                }
                            }
                            assert(s1.indirect_once(&c1, d1));
                            assert(s1.entry_list(&c1, d1) =~= s0.entry_list(&c0, d0));
                            assert(old(log).outstanding() == 1 || log_mid.table().len() + 2 * nz_count(s1.entry_list(&c1, d1)) + 3
                                <= log_mid.size());
                            let blk = c1.content(d1, ib);
                            assert forall|m: int| 0 <= m < NINDIRECT && #[trigger] le_u32(blk, 4 * m) != 0
                                implies le_u32(blk, 4 * m) < bitmap.nbits() && bitmap.allocated(&c1, d1, le_u32(blk, 4 * m)) by {
                                let e = le_u32(blk, 4 * m);
                                assert(s0.names_indirect(&c0, d0, e));
                                assert(s0.names(&c0, d0, e));
                                if named_prefix(s0.dinode().addrs(), NDIRECT as int, e) {
                                    let k = choose|k: int| 0 <= k < NDIRECT && #[trigger] s0.dinode().addrs()[k] == e;
                                    assert(!s0.names_indirect(&c0, d0, s0.dinode().addrs()[k] as int));
                                }
                            }
                            assert(s0.names(&c0, d0, ib));
                        }
                    }
                }
                return Err(e);
            },
        }
        *self.disk_inode.size_mut() = 0;
        proof {
            let ib = s0.dinode().addrs()[NDIRECT as int] as int;
            assert(self.dinode().addrs() =~= Seq::new(13, |i: int| 0u32)) by {
                assert forall|i: int| 0 <= i < 13 implies self.dinode().addrs()[i] == 0u32 by {
                    if i < NDIRECT {
                        assert(s1.dinode().addrs()[i] == 0);
                    }
                }
            }
            // The indirect block reads the same after the direct blocks are freed.
            assert forall|c: int| s1.names_indirect(&c1, d1, c) == s0.names_indirect(&c0, d0, c) by {
                if ib != 0 && ib < d0.len() && !bitmap.reserved(old(log), ib) && ib != iblk {
                    assert(c1.content(d1, ib) == c0.content(d0, ib));
                }
            }
            assert forall|c: int| #[trigger] named_prefix(s0.dinode().addrs(), NDIRECT as int, c)
                == (c != 0 && s0.names_direct(c)) by {}
            assert forall|c: int| #[trigger] s0.names(&c0, d0, c) implies c < bitmap.nbits() && bitmap.allocated(&c0, d0, c) by {
                if s0.names_direct(c) {
                    assert(named_prefix(s0.dinode().addrs(), NDIRECT as int, c));
                } else {
                    assert(s1.names_indirect(&c1, d1, c));
                    assert(!named_prefix(s0.dinode().addrs(), NDIRECT as int, c));
                }
            }
        }
        Ok(())
    }
}

/// An entry of the in-memory inode table: the identity (device, inode
/// number), the number of handles to it, and, once loaded, a copy of the
/// on-disk inode.
pub struct MInode {
    dev: u32,
    inum: u32,
    refcnt: usize,
    valid: bool,
    d_inode: DiskInode,
}

impl MInode {
    pub closed spec fn dev_v(&self) -> u32 {
        self.dev
    }

    pub closed spec fn inum_v(&self) -> u32 {
        self.inum
    }

    pub closed spec fn refs(&self) -> nat {
        self.refcnt as nat
    }

    /// The copy of the on-disk inode has been loaded.
    pub closed spec fn is_valid(&self) -> bool {
        self.valid
    }

    pub closed spec fn dinode(&self) -> DiskInode {
        self.d_inode
    }

    pub fn dev(&self) -> (r: u32)
        ensures
            r == self.dev_v(),
    {
        self.dev
    }

    pub fn inum(&self) -> (r: u32)
        ensures
            r == self.inum_v(),
    {
        self.inum
    }

    pub fn refcnt(&self) -> (r: usize)
        ensures
            r == self.refs(),
    {
        self.refcnt
    }

    pub fn valid(&self) -> (r: bool)
        ensures
            r == self.is_valid(),
    {
        self.valid
    }
}

/// The in-memory inode table: at most one entry with handles per identity.
pub struct InodeManager {
    slots: Vec<MInode>,
}

impl InodeManager {
    pub closed spec fn nslots(&self) -> nat {
        self.slots@.len()
    }

    pub closed spec fn slot(&self, i: int) -> MInode {
        self.slots@[i]
    }

    /// Slot `i` holds an entry with handles.
    pub open spec fn live(&self, i: int) -> bool {
        0 <= i < self.nslots() && self.slot(i).refs() > 0
    }

    /// Some entry with handles has the identity (dev, inum).
    pub open spec fn holds(&self, dev: u32, inum: u32) -> bool {
        exists|i: int| #[trigger] self.live(i) && self.slot(i).dev_v() == dev && self.slot(i).inum_v() == inum
    }

    /// No two entries with handles share an identity.
    pub open spec fn wf(&self) -> bool {
        forall|i: int, j: int|
            #[trigger] self.live(i) && #[trigger] self.live(j) && self.slot(i).dev_v() == self.slot(j).dev_v()
                && self.slot(i).inum_v() == self.slot(j).inum_v() ==> i == j
    }

    /// An empty table.
    pub fn new() -> (r: Self)
        ensures
            r.wf(),
            r.nslots() == 0,
    {
        InodeManager { slots: Vec::new() }
    }

    /// The entry in slot `h`.
    pub fn entry(&self, h: usize) -> (r: &MInode)
        requires
            h < self.nslots(),
        ensures
            *r == self.slot(h as int),
    {
        &self.slots[h]
    }

    /// Returns a handle (a slot) to the entry for (dev, inum), taking one
    /// more reference to it. A new entry, not yet loaded, is made when none
    /// has handles. No disk I/O. A reference count that would overflow is
    /// refused with `Invariant`.
    pub fn iget(&mut self, dev: u32, inum: u32) -> (r: Result<usize, FsError>)
        requires
            old(self).wf(),
        ensures
            final(self).wf(),
            r is Err ==> *final(self) == *old(self) && r == Err::<usize, FsError>(FsError::Invariant)
                && exists|i: int| #[trigger] old(self).live(i) && old(self).slot(i).dev_v() == dev
                    && old(self).slot(i).inum_v() == inum && old(self).slot(i).refs() == usize::MAX,
            r matches Ok(h) ==> final(self).live(h as int),
            r matches Ok(h) ==> final(self).slot(h as int).dev_v() == dev,
            r matches Ok(h) ==> final(self).slot(h as int).inum_v() == inum,
            r matches Ok(h) ==> old(self).holds(dev, inum) ==> {
                &&& old(self).live(h as int)
                &&& final(self).nslots() == old(self).nslots()
                &&& final(self).slot(h as int).refs() == old(self).slot(h as int).refs() + 1
                &&& final(self).slot(h as int).is_valid() == old(self).slot(h as int).is_valid()
                &&& final(self).slot(h as int).dinode() == old(self).slot(h as int).dinode()
            },
            r matches Ok(h) ==> !old(self).holds(dev, inum) ==> {
                &&& !old(self).live(h as int)
                &&& final(self).slot(h as int).refs() == 1
                &&& !final(self).slot(h as int).is_valid()
            },
            final(self).nslots() >= old(self).nslots(),
            r matches Ok(h) ==> forall|j: int| 0 <= j < old(self).nslots() && j != h ==> #[trigger] final(self).slot(j) == old(self).slot(j),
    {
        let mut i: usize = 0;
        let mut free: Option<usize> = None;
        while i < self.slots.len()
            invariant
                *self == *old(self),
                old(self).wf(),
                i <= self.slots@.len(),
                forall|m: int| 0 <= m < i ==> !(#[trigger] self.live(m) && self.slot(m).dev_v() == dev && self.slot(m).inum_v() == inum),
                free matches Some(f) ==> f < self.slots@.len() && !self.live(f as int),
            decreases self.slots@.len() - i,
        {
            let e = &self.slots[i];
            if e.refcnt > 0 && e.dev == dev && e.inum == inum {
                proof {
                    assert(self.live(i as int));
                }
                let c = e.refcnt;
                if c == usize::MAX {
                    return Err(FsError::Invariant);
                }
                self.slots[i].refcnt = c + 1;
                proof {
                    assert forall|a: int, b: int|
                        #[trigger] self.live(a) && #[trigger] self.live(b) && self.slot(a).dev_v() == self.slot(b).dev_v()
                            && self.slot(a).inum_v() == self.slot(b).inum_v() implies a == b by {
                        assert(old(self).live(a) && old(self).live(b));
                    }
                }
                return Ok(i);
            }
            if e.refcnt == 0 && free.is_none() {
                free = Some(i);
            }
            i = i + 1;
        }
        let entry = MInode { dev, inum, refcnt: 1, valid: false, d_inode: DiskInode::new() };
        let h = match free {
            Some(f) => {
                self.slots.set(f, entry);
                f
            },
            None => {
                self.slots.push(entry);
                self.slots.len() - 1
            },
        };
        proof {
            assert forall|a: int, b: int|
                #[trigger] self.live(a) && #[trigger] self.live(b) && self.slot(a).dev_v() == self.slot(b).dev_v()
                    && self.slot(a).inum_v() == self.slot(b).inum_v() implies a == b by {
                if a != h && b != h {
                    assert(old(self).live(a) && old(self).live(b));
                } else if a == h && b != h {
                    assert(old(self).live(b));
                } else if b == h && a != h {
                    assert(old(self).live(a));
                }
            }
        }
        Ok(h)
    }

    /// Drops a handle to the entry in slot `h`.
    pub fn iput(&mut self, h: usize)
        requires
            old(self).wf(),
            old(self).live(h as int),
        ensures
            final(self).wf(),
            final(self).nslots() == old(self).nslots(),
            final(self).slot(h as int).refs() == old(self).slot(h as int).refs() - 1,
            final(self).slot(h as int).dev_v() == old(self).slot(h as int).dev_v(),
            final(self).slot(h as int).inum_v() == old(self).slot(h as int).inum_v(),
            final(self).slot(h as int).is_valid() == old(self).slot(h as int).is_valid(),
            final(self).slot(h as int).dinode() == old(self).slot(h as int).dinode(),
            forall|j: int| 0 <= j < old(self).nslots() && j != h ==> #[trigger] final(self).slot(j) == old(self).slot(j),
    {
        let c = self.slots[h].refcnt;
        self.slots[h].refcnt = c - 1;
        proof {
            assert forall|a: int, b: int|
                #[trigger] self.live(a) && #[trigger] self.live(b) && self.slot(a).dev_v() == self.slot(b).dev_v()
                    && self.slot(a).inum_v() == self.slot(b).inum_v() implies a == b by {
                assert(old(self).live(a) && old(self).live(b));
            }
        }
    }

    /// The inode of the entry in slot `h`, loaded from disk on first use.
    /// An on-disk kind code that names no kind is refused with `Invariant`.
    pub fn ilock<D: BlockDevice>(
        &mut self,
        h: usize,
        sb: &SuperBlock,
        cache: &mut BlockCacheManager,
        log: &LogManager,
        device: &D,
    ) -> (r: Result<Inode, FsError>)
        requires
            old(self).wf(),
            old(self).live(h as int),
            log_ready(log, old(cache), device.blocks()),
            inode_block_ok(sb, log, old(self).slot(h as int).inum_v() as int),
        ensures
            final(self).wf(),
            final(self).nslots() == old(self).nslots(),
            forall|j: int| 0 <= j < old(self).nslots() && j != h ==> #[trigger] final(self).slot(j) == old(self).slot(j),
            final(self).slot(h as int).refs() == old(self).slot(h as int).refs(),
            final(self).slot(h as int).dev_v() == old(self).slot(h as int).dev_v(),
            final(self).slot(h as int).inum_v() == old(self).slot(h as int).inum_v(),
            log_ready(log, final(cache), device.blocks()),
            final(cache).dev_id() == old(cache).dev_id(),
            forall|x: int| #[trigger] final(cache).content(device.blocks(), x) == old(cache).content(device.blocks(), x),
            old(self).slot(h as int).is_valid() ==> {
                &&& r is Ok
                &&& *final(self) == *old(self)
            },
            r matches Ok(ip) ==> {
                &&& ip.ino_v() == old(self).slot(h as int).inum_v()
                &&& ip.dev_v() == old(self).slot(h as int).dev_v()
                &&& ip.dinode() == final(self).slot(h as int).dinode()
                &&& final(self).slot(h as int).is_valid()
            },
            !old(self).slot(h as int).is_valid() ==> {
                let inum = old(self).slot(h as int).inum_v() as int;
                let blk = old(cache).content(device.blocks(), sb.iblock_spec(inum));
                &&& (r is Ok <==> kind_of_code(le_i16(blk, inode_offset(inum))) is Some)
                &&& r is Err ==> r == Err::<Inode, FsError>(FsError::Invariant) && *final(self) == *old(self)
                &&& r matches Ok(ip) ==> ip.dinode().stored_at(blk, inode_offset(inum))
            },
    {
        let e = &self.slots[h];
        if e.valid {
            return Ok(Inode::with_dinode(e.inum, e.dev, e.d_inode));
        }
        let inum = e.inum;
        let dev = e.dev;
        let ghost disk = device.blocks();
        let blk = sb.iblock(inum);
        let off = (inum as usize % IPB) * DINODE_SIZE;
        let idx = log.acquire(cache, blk, device);
        let d = DiskInode::decode(cache.buffer(idx), off);
        log.release_clean(idx, cache, Ghost(disk));
        match d {
            Some(d) => {
                self.slots[h].valid = true;
                self.slots[h].d_inode = d;
                proof {
                    assert forall|a: int, b: int|
                        #[trigger] self.live(a) && #[trigger] self.live(b) && self.slot(a).dev_v() == self.slot(b).dev_v()
                            && self.slot(a).inum_v() == self.slot(b).inum_v() implies a == b by {
                        assert(old(self).live(a) && old(self).live(b));
                    }
                }
                Ok(Inode::with_dinode(inum, dev, d))
            },
            None => Err(FsError::Invariant),
        }
    }

    /// Stores the inode `ip` back as the copy of the entry in slot `h`.
    pub fn iunlock(&mut self, h: usize, ip: &Inode)
        requires
            old(self).wf(),
            old(self).live(h as int),
            ip.ino_v() == old(self).slot(h as int).inum_v(),
            ip.dev_v() == old(self).slot(h as int).dev_v(),
        ensures
            final(self).wf(),
            final(self).nslots() == old(self).nslots(),
            forall|j: int| 0 <= j < old(self).nslots() && j != h ==> #[trigger] final(self).slot(j) == old(self).slot(j),
            final(self).slot(h as int).refs() == old(self).slot(h as int).refs(),
            final(self).slot(h as int).dev_v() == old(self).slot(h as int).dev_v(),
            final(self).slot(h as int).inum_v() == old(self).slot(h as int).inum_v(),
            final(self).slot(h as int).is_valid(),
            final(self).slot(h as int).dinode() == ip.dinode(),
    {
        self.slots[h].valid = true;
        self.slots[h].d_inode = ip.disk_inode;
        proof {
            assert forall|a: int, b: int|
                #[trigger] self.live(a) && #[trigger] self.live(b) && self.slot(a).dev_v() == self.slot(b).dev_v()
                    && self.slot(a).inum_v() == self.slot(b).inum_v() implies a == b by {
                assert(old(self).live(a) && old(self).live(b));
            }
        }
    }
}

/// The bitmap marks block `b` (of `0..nbits`) exactly when `b` is a
/// metadata block or one of the `ninodes` inodes names it: `alloc(b)` is the
/// bit, `meta(b)` marks metadata, `names(k, b)` says inode `k` names `b`.
pub open spec fn bitmap_exact(
    alloc: spec_fn(int) -> bool,
    meta: spec_fn(int) -> bool,
    names: spec_fn(int, int) -> bool,
    ninodes: int,
    nbits: int,
) -> bool {
    forall|b: int|
        0 <= b < nbits ==> (#[trigger] alloc(b) <==> (meta(b) || exists|k: int| 0 <= k < ninodes && #[trigger] names(k, b)))
}

/// Truncation keeps the bitmap exact. Inode `k` names blocks no other inode
/// and no metadata claims; truncating it clears exactly the bits of the
/// blocks it named (as `Inode::itrunc` ensures) and leaves it naming
/// nothing, the other inodes unchanged.
pub proof fn lemma_truncate_keeps_bitmap_exact(
    before: spec_fn(int) -> bool,
    after: spec_fn(int) -> bool,
    meta: spec_fn(int) -> bool,
    names_before: spec_fn(int, int) -> bool,
    names_after: spec_fn(int, int) -> bool,
    ninodes: int,
    nbits: int,
    k: int,
)
    requires
        0 <= k < ninodes,
        bitmap_exact(before, meta, names_before, ninodes, nbits),
        forall|b: int| 0 <= b < nbits ==> #[trigger] after(b) == (before(b) && !names_before(k, b)),
        forall|b: int| !#[trigger] names_after(k, b),
        forall|j: int, b: int| j != k ==> #[trigger] names_after(j, b) == names_before(j, b),
        forall|b: int| #[trigger] names_before(k, b) ==> !meta(b) && forall|j: int| j != k ==> !#[trigger] names_before(j, b),
    ensures
        bitmap_exact(after, meta, names_after, ninodes, nbits),
{
    assert forall|b: int| 0 <= b < nbits implies (#[trigger] after(b) <==> (meta(b) || exists|j: int|
        0 <= j < ninodes && #[trigger] names_after(j, b))) by {
        if after(b) {
            assert(before(b));
            if !meta(b) {
                let j = choose|j: int| 0 <= j < ninodes && #[trigger] names_before(j, b);
                assert(j != k);
                assert(names_after(j, b));
            }
        }
        if meta(b) || exists|j: int| 0 <= j < ninodes && #[trigger] names_after(j, b) {
            if exists|j: int| 0 <= j < ninodes && #[trigger] names_after(j, b) {
                let j = choose|j: int| 0 <= j < ninodes && #[trigger] names_after(j, b);
                assert(j != k);
                assert(names_before(j, b));
            }
            assert(before(b));
            if names_before(k, b) {
                if !meta(b) {
                    let j = choose|j: int| 0 <= j < ninodes && #[trigger] names_after(j, b);
                    assert(names_before(j, b));
                }
            }
        }
    }
}

/// Allocation into an inode keeps the bitmap exact: block `nb`, free
/// before, is marked (as `BitMap::allocate` ensures, every other bit
/// unchanged) and inode `k` now names it too, the other inodes unchanged.
pub proof fn lemma_allocate_keeps_bitmap_exact(
    before: spec_fn(int) -> bool,
    after: spec_fn(int) -> bool,
    meta: spec_fn(int) -> bool,
    names_before: spec_fn(int, int) -> bool,
    names_after: spec_fn(int, int) -> bool,
    ninodes: int,
    nbits: int,
    k: int,
    nb: int,
)
    requires
        0 <= k < ninodes,
        0 <= nb < nbits,
        bitmap_exact(before, meta, names_before, ninodes, nbits),
        !before(nb),
        forall|b: int| 0 <= b < nbits ==> #[trigger] after(b) == (before(b) || b == nb),
        forall|b: int| #[trigger] names_after(k, b) == (names_before(k, b) || b == nb),
        forall|j: int, b: int| j != k ==> #[trigger] names_after(j, b) == names_before(j, b),
    ensures
        bitmap_exact(after, meta, names_after, ninodes, nbits),
{
    assert forall|b: int| 0 <= b < nbits implies (#[trigger] after(b) <==> (meta(b) || exists|j: int|
        0 <= j < ninodes && #[trigger] names_after(j, b))) by {
        if b == nb {
            assert(names_after(k, b));
        } else {
            if after(b) && !meta(b) {
                let j = choose|j: int| 0 <= j < ninodes && #[trigger] names_before(j, b);
                assert(names_after(j, b));
            }
            if exists|j: int| 0 <= j < ninodes && #[trigger] names_after(j, b) {
                let j = choose|j: int| 0 <= j < ninodes && #[trigger] names_after(j, b);
                assert(names_before(j, b));
            }
        }
    }
}

impl Inode {
    /// Byte `p` of the file, as read through the cache: zero in a block the
    /// inode does not map.
    pub open spec fn file_byte(&self, cache: &BlockCacheManager, disk: Seq<Seq<u8>>, p: int) -> u8 {
        let b = self.mapped(cache, disk, p / (BSIZE as int));
        if b == 0 {
            0u8
        } else {
            cache.content(disk, b)[p % (BSIZE as int)]
        }
    }

    /// File block `l` can be read: its indirect block (if needed) and its
    /// block are blocks of the device.
    pub open spec fn readable(&self, cache: &BlockCacheManager, disk: Seq<Seq<u8>>, log: &LogManager, l: int) -> bool {
        &&& (l >= NDIRECT ==> self.dinode().addrs()[NDIRECT as int] < log.nblocks())
        &&& self.mapped(cache, disk, l) < log.nblocks()
    }

    /// The number of bytes a read of `n` bytes at `off` returns: up to the
    /// end of the file, and never past the largest file.
    pub open spec fn read_len(&self, off: int, n: int) -> int {
        let lim = if self.dinode().size_v() < MAXFILE * BSIZE {
            self.dinode().size_v() as int
        } else {
            (MAXFILE * BSIZE) as int
        };
        if off >= lim {
            0
        } else if n < lim - off {
            n
        } else {
            lim - off
        }
    }

    /// The device block of file block `l`, 0 when none is mapped; no
    /// allocation. A block number outside the device is refused with
    /// `Invariant`.
    pub fn block_at<D: BlockDevice>(
        &self,
        l: usize,
        cache: &mut BlockCacheManager,
        log: &LogManager,
        device: &D,
    ) -> (r: Result<usize, FsError>)
        requires
            log_ready(log, old(cache), device.blocks()),
            l < MAXFILE,
        ensures
            log_ready(log, final(cache), device.blocks()),
            final(cache).dev_id() == old(cache).dev_id(),
            forall|x: int| #[trigger] final(cache).content(device.blocks(), x) == old(cache).content(device.blocks(), x),
            r is Ok <==> self.readable(old(cache), device.blocks(), log, l as int),
            r is Err ==> r == Err::<usize, FsError>(FsError::Invariant),
            r matches Ok(b) ==> b == self.mapped(old(cache), device.blocks(), l as int),
    {
        proof {
            self.disk_inode.lemma_addrs_len();
        }
        let b = if l < NDIRECT {
            self.disk_inode.bnos()[l] as usize
        } else {
            let ib = self.disk_inode.bnos()[NDIRECT] as usize;
            if ib >= log.nblocks_exec() {
                return Err(FsError::Invariant);
            }
            if ib == 0 {
                0
            } else {
                read_entry(ib, 4 * (l - NDIRECT), cache, log, device) as usize
            }
        };
        if b >= log.nblocks_exec() {
            return Err(FsError::Invariant);
        }
        Ok(b)
    }

    /// Reads `n` bytes of the file from byte `off`, clipped to the file's
    /// size and to the largest file. Blocks the inode does not map read as
    /// zeros. A block number outside the device is refused with `Invariant`.
    pub fn readi<D: BlockDevice>(
        &self,
        off: usize,
        n: usize,
        cache: &mut BlockCacheManager,
        log: &LogManager,
        device: &D,
    ) -> (r: Result<Vec<u8>, FsError>)
        requires
            log_ready(log, old(cache), device.blocks()),
        ensures
            log_ready(log, final(cache), device.blocks()),
            final(cache).dev_id() == old(cache).dev_id(),
            forall|x: int| #[trigger] final(cache).content(device.blocks(), x) == old(cache).content(device.blocks(), x),
            r is Ok <==> forall|p: int| off <= p < off + self.read_len(off as int, n as int)
                ==> #[trigger] self.readable(old(cache), device.blocks(), log, p / (BSIZE as int)),
            r is Err ==> r == Err::<Vec<u8>, FsError>(FsError::Invariant),
            r matches Ok(v) ==> v@ == Seq::new(
                self.read_len(off as int, n as int) as nat,
                |i: int| self.file_byte(old(cache), device.blocks(), off + i),
            ),
    {
        let ghost disk = device.blocks();
        let ghost c0 = *cache;
        let size = self.disk_inode.size() as usize;
        let lim = if size < MAXFILE * BSIZE {
            size
        } else {
            MAXFILE * BSIZE
        };
        let mut v: Vec<u8> = Vec::new();
        if off >= lim {
            assert(v@ =~= Seq::new(0, |i: int| self.file_byte(&c0, disk, off + i)));
            return Ok(v);
        }
        let len = if n < lim - off {
            n
        } else {
            lim - off
        };
        let ghost want = Seq::new(len as nat, |i: int| self.file_byte(&c0, disk, off + i));
        let mut p = off;
        while p < off + len
            invariant
                log_ready(log, cache, disk),
                disk == device.blocks(),
                c0 == *old(cache),
                cache.dev_id() == c0.dev_id(),
                forall|x: int| #[trigger] cache.content(disk, x) == c0.content(disk, x),
                off <= p <= off + len,
                off + len <= lim <= MAXFILE * BSIZE,
                len == self.read_len(off as int, n as int),
                want == Seq::new(len as nat, |i: int| self.file_byte(&c0, disk, off + i)),
                v@ == want.take(p - off),
                forall|q: int| off <= q < p ==> #[trigger] self.readable(&c0, disk, log, q / (BSIZE as int)),
            decreases off + len - p,
        {
            let l = p / BSIZE;
            let start = p % BSIZE;
            let end = if BSIZE - start < off + len - p {
                BSIZE
            } else {
                start + (off + len - p)
            };
            let ghost ck = *cache;
            let b = match self.block_at(l, cache, log, device) {
                Ok(b) => b,
                Err(e) => {
                    proof {
                        assert(!self.readable(&c0, disk, log, p as int / (BSIZE as int)));
                    }
                    return Err(e);
                },
            };
            proof {
                assert(self.mapped(&ck, disk, l as int) == self.mapped(&c0, disk, l as int));
            }
            let ghost cb = *cache;
            if b == 0 {
                let mut q = start;
                while q < end
                    invariant
                        start <= q <= end <= BSIZE,
                        p as int == l * BSIZE + start,
                        p + (end - start) <= off + len,
                        b == 0,
                        b == self.mapped(&c0, disk, l as int),
                        off <= p,
                        want == Seq::new(len as nat, |i: int| self.file_byte(&c0, disk, off + i)),
                        v@ == want.take(p - off + (q - start)),
                    decreases end - q,
                {
                    v.push(0u8);
                    proof {
                        let i = p - off + (q - start);
                        assert((off + i) / (BSIZE as int) == l && (off + i) % (BSIZE as int) == q) by (nonlinear_arith)
                            requires
                                off + i == l * BSIZE + q,
                                0 <= q < BSIZE,
                        ;
                        assert(v@ =~= want.take(i + 1));
                    }
                    q = q + 1;
                }
            } else {
                let idx = log.acquire(cache, b, device);
                let buf = cache.buffer(idx);
                let mut q = start;
                while q < end
                    invariant
                        start <= q <= end <= BSIZE,
                        p as int == l * BSIZE + start,
                        p + (end - start) <= off + len,
                        b != 0,
                        b == self.mapped(&c0, disk, l as int),
                        buf@ == c0.content(disk, b as int),
                        buf@.len() == BSIZE,
                        off <= p,
                        want == Seq::new(len as nat, |i: int| self.file_byte(&c0, disk, off + i)),
                        v@ == want.take(p - off + (q - start)),
                    decreases end - q,
                {
                    v.push(buf.byte(q));
                    proof {
                        let i = p - off + (q - start);
                        assert((off + i) / (BSIZE as int) == l && (off + i) % (BSIZE as int) == q) by (nonlinear_arith)
                            requires
                                off + i == l * BSIZE + q,
                                0 <= q < BSIZE,
                        ;
                        assert(v@ =~= want.take(i + 1));
                    }
                    q = q + 1;
                }
                let ghost ca = *cache;
                log.release_clean(idx, cache, Ghost(disk));
                proof {
                    assert forall|x: int| #[trigger] cache.content(disk, x) == cb.content(disk, x) by {
                        assert(cache.content(disk, x) == ca.content(disk, x));
                        if 0 <= x < disk.len() {
                            assert(ca.content(disk, x) == cb.content(disk, x));
                        } else {
                            assert(!ca.holds(x) && !cb.holds(x)) by {
                                if ca.holds(x) {
                                    let k = ca.slot_of(x);
                                    assert(ca.live(k) && ca.entry(k).bno() == x);
                                    if k != idx {
                                        assert(cb.live(k) && log.pins(k));
                                        let i = choose|i: int| 0 <= i < log.table().len() && #[trigger] log.table()[i].1 == k;
                                        assert(cb.live(log.table()[i].1 as int));
                                    }
                                }
                                if cb.holds(x) {
                                    let k = cb.slot_of(x);
                                    assert(cb.live(k) && cb.entry(k).bno() == x && log.pins(k));
                                    let i = choose|i: int| 0 <= i < log.table().len() && #[trigger] log.table()[i].1 == k;
                                }
                            }
                        }
                    }
                }
            }
            proof {
                assert forall|x: int| #[trigger] cache.content(disk, x) == c0.content(disk, x) by {
                    assert(cb.content(disk, x) == ck.content(disk, x));
                    assert(ck.content(disk, x) == c0.content(disk, x));
                }
                assert forall|q: int| off <= q < p + (end - start) implies #[trigger] self.readable(&c0, disk, log, q / (BSIZE as int)) by {
                    if q >= p {
                        assert(q / (BSIZE as int) == l) by (nonlinear_arith)
                            requires
                                p == l * BSIZE + start,
                                p <= q < p + (end - start),
                                end <= BSIZE,
                        ;
                    }
                }
            }
            p = p + (end - start);
        }
        proof {
            assert(want.take(len as int) =~= want);
        }
        Ok(v)
    }

    /// The number of bytes `writei` writes at `off` from `n` offered: up
    /// to the end of the block holding `off`, and never past the largest
    /// file.
    pub open spec fn write_len(off: int, n: int) -> int {
        let room = BSIZE - off % (BSIZE as int);
        let lim = MAXFILE * BSIZE - off;
        if lim <= 0 {
            0
        } else if n <= room && n <= lim {
            n
        } else if room <= lim {
            room
        } else {
            lim
        }
    }

    /// Writes the first bytes of `src` at byte `off` of the file, through
    /// the log, allocating the block if needed; a short write stops at the
    /// end of the block holding `off`, and nothing is written past the
    /// largest file. One block is the most an operation can afford: mapping
    /// and writing a block may take six log slots, and an operation owns
    /// `MAXOPBLOCKS` of them; callers loop, one operation per block. The size grows to cover what was written. Writing past
    /// the end of the file is refused with `BadRange`; a block number
    /// outside the device, inside the log or the bitmap, or equal to the
    /// indirect block, with `Invariant`.
    pub fn writei<D: BlockDevice>(
        &mut self,
        src: &[u8],
        off: usize,
        bitmap: &BitMap,
        cache: &mut BlockCacheManager,
        log: &mut LogManager,
        device: &D,
    ) -> (r: Result<usize, FsError>)
        requires
            ready(bitmap, old(log), old(cache), device.blocks()),
            old(log).outstanding() > 0,
            old(log).table().len() + 6 <= old(log).size(),
        ensures
            ({
                let l = off as int / (BSIZE as int);
                let nb = final(self).mapped(final(cache), device.blocks(), l);
                let ib = final(self).dinode().addrs()[NDIRECT as int] as int;
                &&& forall|x: int| !bitmap.is_bitmap_block(x) && x != nb && x != ib
                    ==> #[trigger] final(cache).content(device.blocks(), x) == old(cache).content(device.blocks(), x)
                &&& bits_grow(bitmap, old(cache), device.blocks(), final(cache), device.blocks(), nb, ib)
            }),
            ({
                let l = off as int / (BSIZE as int);
                let m = old(self).mapped(old(cache), device.blocks(), l);
                off <= old(self).dinode().size_v() && (Self::write_len(off as int, src@.len() as int) == 0 || (
                old(self).bmap_ok(bitmap, old(log), old(cache), device.blocks(), l) && (m != 0 ==> m < old(log).nblocks()
                    && !bitmap.reserved(old(log), m) && (l >= NDIRECT ==> m != old(self).dinode().addrs()[NDIRECT as int]))))
            }) ==> r is Ok,
            ready(bitmap, final(log), final(cache), device.blocks()),
            same_log_frame(final(log), old(log)),
            final(log).table().len() <= old(log).table().len() + 6,
            final(cache).dev_id() == old(cache).dev_id(),
            final(self).ino_v() == old(self).ino_v(),
            final(self).dev_v() == old(self).dev_v(),
            final(self).dinode().kind_v() == old(self).dinode().kind_v(),
            final(self).dinode().n_link_v() == old(self).dinode().n_link_v(),
            (r == Err::<usize, FsError>(FsError::BadRange)) <==> off > old(self).dinode().size_v(),
            off > old(self).dinode().size_v() ==> *final(self) == *old(self) && *final(cache) == *old(cache)
                && *final(log) == *old(log),
            r is Err ==> r == Err::<usize, FsError>(FsError::BadRange) || r == Err::<usize, FsError>(FsError::OutOfSpace)
                || r == Err::<usize, FsError>(FsError::Invariant),
            r matches Ok(k) ==> {
                &&& k == Self::write_len(off as int, src@.len() as int)
                &&& final(self).dinode().size_v() == if off + k > old(self).dinode().size_v() {
                    (off + k) as u32
                } else {
                    old(self).dinode().size_v()
                }
                &&& forall|i: int| 0 <= i < k ==> #[trigger] final(self).file_byte(final(cache), device.blocks(), off + i)
                    == src@[i]
            },
    {
        let ghost disk = device.blocks();
        if off > self.disk_inode.size() as usize {
            return Err(FsError::BadRange);
        }
        if off >= MAXFILE * BSIZE {
            return Ok(0);
        }
        let start = off % BSIZE;
        let room = BSIZE - start;
        let lim = MAXFILE * BSIZE - off;
        let k = if src.len() <= room && src.len() <= lim {
            src.len()
        } else if room <= lim {
            room
        } else {
            lim
        };
        if k == 0 {
            return Ok(0);
        }
        let l = off / BSIZE;
        proof {
            assert(l < MAXFILE) by (nonlinear_arith)
                requires
                    l == off / 1024,
                    off < 268 * 1024,
            ;
        }
        let b = match self.bmap(l, bitmap, cache, log, device) {
            Ok(b) => b,
            Err(e) => {
                return Err(e);
            },
        };
        proof {
            self.disk_inode.lemma_addrs_len();
        }
        if b >= log.nblocks_exec() || bitmap.is_reserved(b, log) || (l >= NDIRECT && b == self.disk_inode.bnos()[NDIRECT] as usize) {
            return Err(FsError::Invariant);
        }
        let ghost c1 = *cache;
        let idx = log.acquire(cache, b, device);
        let ghost c2 = *cache;
        let buf = cache.buffer_mut(idx);
        let ghost before = buf@;
        let mut i: usize = 0;
        while i < k
            invariant
                i <= k,
                start + k <= BSIZE,
                k <= src@.len(),
                buf@.len() == BSIZE,
                buf.same_identity(&c2.entry(idx as int)),
                before == c2.entry(idx as int)@,
                forall|m: int| 0 <= m < i ==> #[trigger] buf@[start + m] == src@[m],
                forall|q: int| 0 <= q < BSIZE && !(start <= q < start + i) ==> #[trigger] buf@[q] == before[q],
            decreases k - i,
        {
            buf.set_byte(start + i, src[i]);
            i = i + 1;
        }
        proof {
            cache.lemma_update_wf(&c2, idx as int);
            assert forall|j: int| 0 <= j < log.table().len() implies {
                let (h, s) = #[trigger] log.table()[j];
                &&& cache.live(s as int)
                &&& cache.entry(s as int).bno() == h
            } by {
                assert(c2.live(log.table()[j].1 as int));
            }
        }
        let ghost blk = cache.entry(idx as int)@;
        log.write_release(idx, cache, Ghost(disk));
        if off + k > self.disk_inode.size() as usize {
            *self.disk_inode.size_mut() = (off + k) as u32;
        }
        proof {
            assert(self.mapped(cache, disk, l as int) == b) by {
                if l >= NDIRECT {
                    let ib = self.dinode().addrs()[NDIRECT as int] as int;
                    assert(ib != b);
                    assert(cache.content(disk, ib) == c1.content(disk, ib));
                }
            }
            assert(cache.content(disk, b as int) == blk);
            let ib = self.dinode().addrs()[NDIRECT as int] as int;
            assert forall|x: int| !bitmap.is_bitmap_block(x) && x != b && x != ib implies #[trigger] cache.content(disk, x)
                == old(cache).content(disk, x) by {
                assert(c2.content(disk, x) == c1.content(disk, x) || !(0 <= x < disk.len()));
                if 0 <= x < disk.len() {
                    assert(cache.content(disk, x) == c2.content(disk, x));
                    assert(c1.content(disk, x) == old(cache).content(disk, x));
                } else {
                    assert(cache.content(disk, x) == c2.content(disk, x));
                    assert(c1.content(disk, x) == old(cache).content(disk, x));
                    assert(!c1.holds(x) && !c2.holds(x)) by {
                        if c2.holds(x) {
                            let kk = c2.slot_of(x);
                            assert(c2.live(kk) && c2.entry(kk).bno() == x);
                            if kk != idx {
                                assert(c1.live(kk) && log.pins(kk));
                                let t = choose|t: int| 0 <= t < log.table().len() && #[trigger] log.table()[t].1 == kk;
                                assert(c1.live(log.table()[t].1 as int));
                            }
                        }
                        if c1.holds(x) {
                            let kk = c1.slot_of(x);
                            assert(c1.live(kk) && c1.entry(kk).bno() == x && log.pins(kk));
                            let t = choose|t: int| 0 <= t < log.table().len() && #[trigger] log.table()[t].1 == kk;
                        }
                    }
                }
            }
            assert forall|c: int| 0 <= c < bitmap.nbits() implies #[trigger] bitmap.allocated(cache, disk, c)
                == bitmap.allocated(&c1, disk, c) by {
                bitmap.lemma_in_bitmap(c);
                assert(bitmap.block_of(c) != b);
                assert(c2.content(disk, bitmap.block_of(c)) == c1.content(disk, bitmap.block_of(c)));
            }
            assert forall|m: int| 0 <= m < k implies #[trigger] self.file_byte(cache, disk, off + m) == src@[m] by {
                assert((off + m) / (BSIZE as int) == l && (off + m) % (BSIZE as int) == start + m) by (nonlinear_arith)
                    requires
                        l == off / 1024,
                        start == off % 1024,
                        0 <= m < k,
                        start + k <= 1024,
                ;
            }
        }
        Ok(k)
    }
}

} // verus!
