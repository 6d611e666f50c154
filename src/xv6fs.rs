//! The filesystem handle: one device with its block cache, log, bitmap,
//! superblock and inode table, mounted with recovery.
use vstd::prelude::*;
use crate::bitmap::BitMap;
use crate::block_cache::{BlockCache, BlockCacheManager};
use crate::device::{BlockDevice, blocks_ok};
use crate::disk::{FileKind, SuperBlock};
use crate::error::FsError;
use crate::journal::{commit_writes, header_valid, in_log, log_fits, recover, recovery_writes};
use crate::layout::{BPB, BSIZE, FSMAGIC, IPB, LOGSIZE, MAXOPBLOCKS, le_u32};
use crate::logger::LogManager;
use crate::vfs::{
    Inode, InodeManager, inode_block_ok, log_ready, ready, same_log_frame,
};

verus! {

/// Block number of the superblock.
pub const SUPERBLOCK_NO: usize = 1;

/// The superblock whose fields the first 32 bytes of `blk` hold.
pub open spec fn sb_from(blk: Seq<u8>) -> SuperBlock {
    SuperBlock {
        magic: le_u32(blk, 0) as u32,
        size: le_u32(blk, 4) as u32,
        n_data_block: le_u32(blk, 8) as u32,
        n_inode: le_u32(blk, 12) as u32,
        n_log: le_u32(blk, 16) as u32,
        log_start: le_u32(blk, 20) as u32,
        inode_start: le_u32(blk, 24) as u32,
        bmapstart: le_u32(blk, 28) as u32,
    }
}

/// Number of bitmap blocks for `size` blocks.
pub open spec fn bitmap_blocks(size: int) -> int {
    (size + BPB - 1) / (BPB as int)
}

/// Two ranges of blocks, `[a, a + n)` and `[b, b + m)`, do not meet.
pub open spec fn disjoint(a: int, n: int, b: int, m: int) -> bool {
    a + n <= b || b + m <= a
}

/// The layout a superblock describes fits a device of `devlen` blocks: the
/// log (header and `n_log` data blocks, between `MAXOPBLOCKS` and
/// `LOGSIZE`), the bitmap for `size` blocks, and the inode table lie on the
/// device, apart from each other.
pub open spec fn geometry_ok(sb: SuperBlock, devlen: int) -> bool {
    let nbmap = bitmap_blocks(sb.size as int);
    let ninodeblk = if sb.n_inode == 0 {
        0
    } else {
        (sb.n_inode - 1) / (IPB as int) + 1
    };
    &&& MAXOPBLOCKS <= sb.n_log <= LOGSIZE
    &&& sb.log_start + 1 + sb.n_log <= devlen
    &&& sb.size <= devlen
    &&& sb.bmapstart + nbmap <= devlen
    &&& sb.inode_start + ninodeblk <= devlen
    &&& disjoint(sb.log_start as int, sb.n_log + 1, sb.bmapstart as int, nbmap)
    &&& disjoint(sb.log_start as int, sb.n_log + 1, sb.inode_start as int, ninodeblk)
    &&& disjoint(sb.bmapstart as int, nbmap, sb.inode_start as int, ninodeblk)
}

/// A device that can be mounted: a superblock with the right magic number
/// and a fitting layout, and a log header recovery accepts.
pub open spec fn mountable(disk: Seq<Seq<u8>>) -> bool {
    let sb = sb_from(disk[SUPERBLOCK_NO as int]);
    &&& 2 <= disk.len() <= u32::MAX
    &&& sb.magic == FSMAGIC
    &&& geometry_ok(sb, disk.len() as int)
    &&& header_valid(disk, sb.log_start as int, sb.n_log as int)
}

/// A mounted filesystem.
pub struct XV6FS<D: BlockDevice> {
    dev: D,
    dev_id: u32,
    bitmap: BitMap,
    blk_cch_mgr: BlockCacheManager,
    log_mgr: LogManager,
    super_blk: SuperBlock,
    inodes: InodeManager,
}

impl<D: BlockDevice> XV6FS<D> {
    pub closed spec fn disk(&self) -> Seq<Seq<u8>> {
        self.dev.blocks()
    }

    /// Every block write the device has taken, in order.
    pub closed spec fn history(&self) -> Seq<(int, Seq<u8>)> {
        self.dev.history()
    }

    pub closed spec fn dev_id_v(&self) -> u32 {
        self.dev_id
    }

    pub closed spec fn bitmap_v(&self) -> BitMap {
        self.bitmap
    }

    pub closed spec fn cache_v(&self) -> BlockCacheManager {
        self.blk_cch_mgr
    }

    pub closed spec fn log_v(&self) -> LogManager {
        self.log_mgr
    }

    pub closed spec fn sb_v(&self) -> SuperBlock {
        self.super_blk
    }

    pub closed spec fn inodes_v(&self) -> InodeManager {
        self.inodes
    }

    /// What a read of block `b` sees.
    pub open spec fn block(&self, b: int) -> Seq<u8> {
        self.cache_v().content(self.disk(), b)
    }

    /// Block `b` is marked in use in the bitmap.
    pub open spec fn allocated(&self, b: int) -> bool {
        self.bitmap_v().allocated(&self.cache_v(), self.disk(), b)
    }

    /// The parts agree with each other and with the superblock.
    pub open spec fn wf(&self) -> bool {
        let sb = self.sb_v();
        let log = self.log_v();
        let bitmap = self.bitmap_v();
        &&& ready(&bitmap, &log, &self.cache_v(), self.disk())
        &&& self.inodes_v().wf()
        &&& self.cache_v().dev_id() == self.dev_id_v()
        &&& log.start() == sb.log_start
        &&& log.size() == sb.n_log
        &&& MAXOPBLOCKS <= log.size()
        &&& bitmap.nbits() == sb.size
        &&& bitmap.start() == sb.bmapstart
        &&& forall|inum: int|
            0 <= inum < sb.n_inode ==> inode_block_ok(&sb, &log, inum) && !bitmap.is_bitmap_block(
                #[trigger] sb.iblock_spec(inum),
            )
    }

    /// Mounts the filesystem on `device`: reads the superblock, checks the
    /// layout it describes, and runs recovery. A device that is not
    /// `mountable` is refused with `Invariant`.
    pub fn mount(device: D, dev_id: u32) -> (r: Result<Self, FsError>)
        requires
            blocks_ok(device.blocks()),
        ensures
            r is Ok <==> mountable(device.blocks()),
            r is Err ==> r == Err::<Self, FsError>(FsError::Invariant),
            r matches Ok(fs) ==> {
                let sb = sb_from(device.blocks()[SUPERBLOCK_NO as int]);
                &&& fs.wf()
                &&& fs.sb_v() == sb
                &&& fs.dev_id_v() == dev_id
                &&& fs.log_v().outstanding() == 0
                &&& fs.log_v().table().len() == 0
                &&& fs.cache_v().is_empty()
                &&& fs.disk() == recover(device.blocks(), sb.log_start as int)
                &&& fs.history() == device.history() + recovery_writes(device.blocks(), sb.log_start as int)
            },
    {
        let mut device = device;
        let devlen = device.num_blocks();
        if devlen < 2 || devlen > 0xffff_ffff {
            return Err(FsError::Invariant);
        }
        let head = BlockCache::new(SUPERBLOCK_NO, dev_id, &device);
        let sb = match SuperBlock::decode(&head) {
            Some(sb) => sb,
            None => {
                return Err(FsError::Invariant);
            },
        };
        proof {
            assert(sb == sb_from(device.blocks()[SUPERBLOCK_NO as int]));
        }
        if !Self::check_geometry(&sb, devlen) {
            return Err(FsError::Invariant);
        }
        let mut cache = BlockCacheManager::new(dev_id);
        let log = match LogManager::new(sb.log_start as usize, sb.n_log as usize, &mut cache, &mut device) {
            Ok(log) => log,
            Err(e) => {
                return Err(e);
            },
        };
        let bitmap = BitMap::new(sb.bmapstart as usize, sb.size as usize);
        let fs = XV6FS {
            dev: device,
            dev_id,
            bitmap,
            blk_cch_mgr: cache,
            log_mgr: log,
            super_blk: sb,
            inodes: InodeManager::new(),
        };
        proof {
            Self::lemma_geometry(&sb, &log, &bitmap, devlen as int);
        }
        Ok(fs)
    }

    /// Whether the layout `sb` describes fits a device of `devlen` blocks.
    fn check_geometry(sb: &SuperBlock, devlen: usize) -> (r: bool)
        requires
            devlen <= u32::MAX,
        ensures
            r == geometry_ok(*sb, devlen as int),
    {
        let size = sb.size as u64;
        let nbmap = size / 8192 + if size % 8192 == 0 {
            0
        } else {
            1
        };
        let ninodeblk: u64 = if sb.n_inode == 0 {
            0
        } else {
            (sb.n_inode as u64 - 1) / 16 + 1
        };
        let dl = devlen as u64;
        let ls = sb.log_start as u64;
        let nl = sb.n_log as u64;
        let bs = sb.bmapstart as u64;
        let is = sb.inode_start as u64;
        proof {
            let n = sb.size as int;
            assert(nbmap == bitmap_blocks(n)) by (nonlinear_arith)
                requires
                    n >= 0,
                    nbmap == n / 8192 + if n % 8192 == 0 { 0int } else { 1int },
            ;
        }
        (MAXOPBLOCKS as u64) <= nl && nl <= (LOGSIZE as u64) && ls + 1 + nl <= dl && size <= dl && bs + nbmap
            <= dl && is + ninodeblk <= dl && (ls + nl + 1 <= bs || bs + nbmap <= ls) && (ls + nl + 1 <= is
            || is + ninodeblk <= ls) && (bs + nbmap <= is || is + ninodeblk <= bs)
    }

    proof fn lemma_geometry(sb: &SuperBlock, log: &LogManager, bitmap: &BitMap, devlen: int)
        requires
            geometry_ok(*sb, devlen),
            log.start() == sb.log_start,
            log.size() == sb.n_log,
            log.nblocks() == devlen,
            bitmap.nbits() == sb.size,
            bitmap.start() == sb.bmapstart,
        ensures
            bitmap.fits(log),
            forall|inum: int|
                0 <= inum < sb.n_inode ==> inode_block_ok(sb, log, inum) && !bitmap.is_bitmap_block(
                    #[trigger] sb.iblock_spec(inum),
                ),
    {
        assert forall|inum: int| 0 <= inum < sb.n_inode implies inode_block_ok(sb, log, inum)
            && !bitmap.is_bitmap_block(#[trigger] sb.iblock_spec(inum)) by {
            vstd::arithmetic::div_mod::lemma_div_is_ordered(inum, sb.n_inode - 1, IPB as int);
            assert(inum / (IPB as int) >= 0) by (nonlinear_arith)
                requires
                    inum >= 0,
            ;
        }
    }

    /// The parts other than the cache, the log and the device are as in
    /// `old`.
    pub open spec fn same_frame(&self, old: &Self) -> bool {
        &&& self.sb_v() == old.sb_v()
        &&& self.bitmap_v() == old.bitmap_v()
        &&& self.dev_id_v() == old.dev_id_v()
        &&& self.inodes_v() == old.inodes_v()
        &&& same_log_frame(&self.log_v(), &old.log_v())
    }

    /// Well-formedness carries over a change of the cache, the log's group
    /// and the device that keeps the storage stack ready.
    pub proof fn lemma_wf_frame(&self, old: &Self)
        requires
            old.wf(),
            ready(&self.bitmap_v(), &self.log_v(), &self.cache_v(), self.disk()),
            self.same_frame(old),
            self.cache_v().dev_id() == old.cache_v().dev_id(),
        ensures
            self.wf(),
    {
        let sb = self.sb_v();
        assert forall|inum: int| 0 <= inum < sb.n_inode implies inode_block_ok(&sb, &self.log_v(), inum)
            && !self.bitmap_v().is_bitmap_block(#[trigger] sb.iblock_spec(inum)) by {
            assert(inode_block_ok(&sb, &old.log_v(), inum));
        }
    }

    pub fn bitmap(&self) -> (r: &BitMap)
        ensures
            *r == self.bitmap_v(),
    {
        &self.bitmap
    }

    pub fn blk_cch_mgr(&self) -> (r: &BlockCacheManager)
        ensures
            *r == self.cache_v(),
    {
        &self.blk_cch_mgr
    }

    pub fn log_mgr(&self) -> (r: &LogManager)
        ensures
            *r == self.log_v(),
    {
        &self.log_mgr
    }

    pub fn super_blk(&self) -> (r: &SuperBlock)
        ensures
            *r == self.sb_v(),
    {
        &self.super_blk
    }

    pub fn device(&self) -> (r: &D)
        ensures
            r.blocks() == self.disk(),
            r.history() == self.history(),
    {
        &self.dev
    }

    /// Gives the device back. Between operations the device then holds
    /// every committed change.
    pub fn unmount(self) -> (r: D)
        ensures
            r.blocks() == self.disk(),
            r.history() == self.history(),
    {
        self.dev
    }

    pub fn inodes(&self) -> (r: &InodeManager)
        ensures
            *r == self.inodes_v(),
    {
        &self.inodes
    }

    /// Enters an operation if the log has room for it.
    pub fn begin_op(&mut self) -> (admitted: bool)
        requires
            old(self).wf(),
        ensures
            final(self).wf(),
            admitted == (old(self).log_v().table().len() + (old(self).log_v().outstanding() + 1) * MAXOPBLOCKS
                <= LOGSIZE),
            admitted ==> final(self).log_v().outstanding() == old(self).log_v().outstanding() + 1,
            !admitted ==> final(self).log_v().outstanding() == old(self).log_v().outstanding(),
            final(self).log_v().table() == old(self).log_v().table(),
            final(self).cache_v() == old(self).cache_v(),
            final(self).disk() == old(self).disk(),
            final(self).sb_v() == old(self).sb_v(),
            final(self).bitmap_v() == old(self).bitmap_v(),
            final(self).inodes_v() == old(self).inodes_v(),
    {
        let ghost c = self.blk_cch_mgr;
        let admitted = self.log_mgr.begin_op();
        proof {
            let l0 = old(self).log_v();
            let l1 = self.log_mgr;
            assert forall|j: int| #[trigger] l1.pins(j) == l0.pins(j) by {
                if l0.pins(j) {
                    let i = choose|i: int| 0 <= i < l0.table().len() && #[trigger] l0.table()[i].1 == j;
                    assert(l1.table()[i].1 == j);
                }
            }
        }
        admitted
    }

    /// Leaves an operation; the last one out commits the group. Between
    /// operations every block outside the log reads as before the commit.
    pub fn end_op(&mut self)
        requires
            old(self).wf(),
            old(self).log_v().outstanding() > 0,
        ensures
            final(self).wf(),
            final(self).log_v().outstanding() == old(self).log_v().outstanding() - 1,
            final(self).sb_v() == old(self).sb_v(),
            final(self).bitmap_v() == old(self).bitmap_v(),
            final(self).inodes_v() == old(self).inodes_v(),
            old(self).log_v().outstanding() > 1 ==> {
                &&& final(self).log_v().table() == old(self).log_v().table()
                &&& final(self).cache_v() == old(self).cache_v()
                &&& final(self).disk() == old(self).disk()
                &&& final(self).history() == old(self).history()
            },
            old(self).log_v().outstanding() == 1 ==> {
                &&& final(self).history() == old(self).history() + commit_writes(
                    old(self).log_v().start(),
                    old(self).log_v().entries(&old(self).cache_v()),
                )
                &&& final(self).log_v().table().len() == 0
                &&& final(self).cache_v().is_empty()
                &&& forall|b: int| 0 <= b < old(self).disk().len() && !in_log(
                    old(self).log_v().start(),
                    old(self).log_v().size(),
                    b,
                ) ==> #[trigger] final(self).block(b) == old(self).block(b)
            },
    {
        let ghost l0 = self.log_mgr;
        let ghost c0 = self.blk_cch_mgr;
        let ghost d0 = self.dev.blocks();
        self.log_mgr.end_op(&mut self.blk_cch_mgr, &mut self.dev);
        proof {
            if l0.outstanding() == 1 {
                l0.lemma_commit_content(&c0, d0, &self.blk_cch_mgr, self.dev.blocks());
                assert forall|j: int| #[trigger] self.blk_cch_mgr.live(j) implies self.blk_cch_mgr.entry(j).refs() == 1
                    && self.log_mgr.pins(j) by {
                    assert(!self.blk_cch_mgr.live(j));
                }
            }
        }
    }

    /// Allocates the lowest-numbered free block, zeroed; see
    /// `BitMap::allocate`.
    pub fn balloc(&mut self) -> (r: Result<usize, FsError>)
        requires
            old(self).wf(),
            old(self).log_v().outstanding() > 0,
            old(self).log_v().table().len() + 2 <= old(self).log_v().size(),
        ensures
            final(self).wf(),
            final(self).same_frame(old(self)),
            final(self).disk() == old(self).disk(),
            final(self).log_v().table().len() <= old(self).log_v().table().len() + 2,
            final(self).log_v().grows_from(&old(self).log_v()),
            (r == Err::<usize, FsError>(FsError::OutOfSpace)) <==> old(self).bitmap_v().full(
                &old(self).cache_v(),
                old(self).disk(),
            ),
            r is Ok <==> exists|b: int| old(self).bitmap_v().is_first_free(&old(self).cache_v(), old(self).disk(), b)
                && !old(self).bitmap_v().reserved(&old(self).log_v(), b),
            r == Err::<usize, FsError>(FsError::Invariant) ==> exists|b: int| old(self).bitmap_v().is_first_free(
                &old(self).cache_v(),
                old(self).disk(),
                b,
            ) && old(self).bitmap_v().reserved(&old(self).log_v(), b),
            r is Err ==> final(self).log_v().table() == old(self).log_v().table(),
            r is Err ==> forall|x: int| #[trigger] final(self).block(x) == old(self).block(x),
            r matches Ok(b) ==> {
                &&& old(self).bitmap_v().is_first_free(&old(self).cache_v(), old(self).disk(), b as int)
                &&& !old(self).bitmap_v().reserved(&old(self).log_v(), b as int)
                &&& final(self).log_v().has_home(old(self).bitmap_v().block_of(b as int))
                &&& final(self).log_v().has_home(b as int)
                &&& forall|x: int| x != b && x != old(self).bitmap_v().block_of(b as int) ==> #[trigger] final(self).block(x)
                    == old(self).block(x)
                &&& final(self).allocated(b as int)
                &&& forall|c: int| 0 <= c < old(self).bitmap_v().nbits() && c != b ==> final(self).allocated(c)
                    == old(self).allocated(c)
                &&& final(self).block(b as int) == crate::device::zero_block()
            },
    {
        self.bitmap.allocate(&mut self.blk_cch_mgr, &mut self.log_mgr, &self.dev)
    }

    /// Frees block `b`, which must be marked in use; see `BitMap::dealloc`.
    pub fn bfree(&mut self, b: usize)
        requires
            old(self).wf(),
            old(self).log_v().outstanding() > 0,
            old(self).log_v().table().len() + 1 <= old(self).log_v().size(),
            b < old(self).bitmap_v().nbits(),
            old(self).allocated(b as int),
        ensures
            final(self).wf(),
            final(self).same_frame(old(self)),
            final(self).disk() == old(self).disk(),
            final(self).log_v().table().len() <= old(self).log_v().table().len() + 1,
            final(self).log_v().grows_from(&old(self).log_v()),
            final(self).log_v().has_home(old(self).bitmap_v().block_of(b as int)),
            !final(self).allocated(b as int),
            forall|c: int| 0 <= c < old(self).bitmap_v().nbits() && c != b ==> final(self).allocated(c)
                == old(self).allocated(c),
            forall|x: int| x != old(self).bitmap_v().block_of(b as int) ==> #[trigger] final(self).block(x)
                == old(self).block(x),
    {
        self.bitmap.dealloc(b, &mut self.blk_cch_mgr, &mut self.log_mgr, &self.dev)
    }

    /// The contents of block `b`, read through the cache.
    pub fn read_block(&mut self, b: usize) -> (r: Vec<u8>)
        requires
            old(self).wf(),
            b < old(self).disk().len(),
        ensures
            final(self).wf(),
            r@ == old(self).block(b as int),
            final(self).same_frame(old(self)),
            final(self).log_v() == old(self).log_v(),
            final(self).disk() == old(self).disk(),
            forall|x: int| #[trigger] final(self).block(x) == old(self).block(x),
    {
        let ghost disk = self.dev.blocks();
        let idx = self.log_mgr.acquire(&mut self.blk_cch_mgr, b, &self.dev);
        let mut v: Vec<u8> = Vec::new();
        let buf = self.blk_cch_mgr.buffer(idx);
        let mut i: usize = 0;
        while i < BSIZE
            invariant
                buf@.len() == BSIZE,
                i <= BSIZE,
                v@ == buf@.take(i as int),
            decreases BSIZE - i,
        {
            v.push(buf.byte(i));
            i = i + 1;
            assert(v@ =~= buf@.take(i as int));
        }
        assert(v@ =~= buf@);
        self.log_mgr.release_clean(idx, &mut self.blk_cch_mgr, Ghost(disk));
        v
    }

    /// Replaces the contents of block `b` with `data` within the current
    /// operation, through the log.
    pub fn write_block(&mut self, b: usize, data: &[u8])
        requires
            old(self).wf(),
            old(self).log_v().outstanding() > 0,
            old(self).log_v().table().len() + 1 <= old(self).log_v().size(),
            b < old(self).disk().len(),
            !in_log(old(self).log_v().start(), old(self).log_v().size(), b as int),
            data@.len() == BSIZE,
        ensures
            final(self).wf(),
            final(self).same_frame(old(self)),
            final(self).disk() == old(self).disk(),
            final(self).log_v().table().len() <= old(self).log_v().table().len() + 1,
            final(self).log_v().has_home(b as int),
            final(self).block(b as int) == data@,
            forall|x: int| x != b ==> #[trigger] final(self).block(x) == old(self).block(x),
    {
        let ghost disk = self.dev.blocks();
        let idx = self.log_mgr.acquire(&mut self.blk_cch_mgr, b, &self.dev);
        let ghost c1 = self.blk_cch_mgr;
        let buf = self.blk_cch_mgr.buffer_mut(idx);
        buf.copy_from(data);
        proof {
            self.blk_cch_mgr.lemma_update_wf(&c1, idx as int);
            assert forall|i: int| 0 <= i < self.log_mgr.table().len() implies {
                let (h, s) = #[trigger] self.log_mgr.table()[i];
                &&& self.blk_cch_mgr.live(s as int)
                &&& self.blk_cch_mgr.entry(s as int).bno() == h
            } by {
                assert(c1.live(self.log_mgr.table()[i].1 as int));
            }
        }
        self.log_mgr.write_release(idx, &mut self.blk_cch_mgr, Ghost(disk));
    }

    /// Allocates the lowest-numbered free inode with kind `kind` and returns
    /// a handle to it, loaded; see `vfs::ialloc` and `InodeManager::iget`.
    pub fn ialloc(&mut self, kind: FileKind) -> (r: Result<usize, FsError>)
        requires
            old(self).wf(),
            old(self).log_v().outstanding() > 0,
            old(self).log_v().table().len() + 1 <= old(self).log_v().size(),
        ensures
            final(self).wf(),
            final(self).sb_v() == old(self).sb_v(),
            final(self).bitmap_v() == old(self).bitmap_v(),
            final(self).disk() == old(self).disk(),
            same_log_frame(&final(self).log_v(), &old(self).log_v()),
            final(self).log_v().table().len() <= old(self).log_v().table().len() + 1,
            final(self).log_v().grows_from(&old(self).log_v()),
            (r == Err::<usize, FsError>(FsError::OutOfInodes)) <==> forall|j: int| 1 <= j < old(self).sb_v().n_inode
                ==> !crate::vfs::inode_free(&old(self).sb_v(), &old(self).cache_v(), old(self).disk(), j),
            r is Err ==> r == Err::<usize, FsError>(FsError::OutOfInodes) || exists|i: int|
                #[trigger] old(self).inodes_v().live(i) && old(self).inodes_v().slot(i).dev_v() == old(self).dev_id_v()
                    && old(self).inodes_v().slot(i).refs() == usize::MAX,
            r matches Ok(h) ==> {
                let e = final(self).inodes_v().slot(h as int);
                let inum = e.inum_v() as int;
                &&& final(self).inodes_v().live(h as int)
                &&& final(self).log_v().has_home(old(self).sb_v().iblock_spec(inum))
                &&& old(self).inodes_v().holds(old(self).dev_id_v(), inum as u32) ==> {
                    &&& old(self).inodes_v().live(h as int)
                    &&& e.refs() == old(self).inodes_v().slot(h as int).refs() + 1
                }
                &&& !old(self).inodes_v().holds(old(self).dev_id_v(), inum as u32) ==> e.refs() == 1
                &&& e.dev_v() == old(self).dev_id_v()
                &&& 1 <= inum < old(self).sb_v().n_inode
                &&& crate::vfs::inode_free(&old(self).sb_v(), &old(self).cache_v(), old(self).disk(), inum)
                &&& forall|j: int| 1 <= j < inum ==> !crate::vfs::inode_free(&old(self).sb_v(), &old(self).cache_v(), old(self).disk(), j)
                &&& e.is_valid()
                &&& e.dinode().kind_v() == kind
                &&& e.dinode().fields_zero()
                &&& forall|q: int| 0 <= q < BSIZE && !(crate::vfs::inode_offset(inum) <= q < crate::vfs::inode_offset(inum)
                    + crate::layout::DINODE_SIZE) ==> #[trigger] final(self).block(old(self).sb_v().iblock_spec(inum))[q]
                    == old(self).block(old(self).sb_v().iblock_spec(inum))[q]
                &&& forall|x: int| x != old(self).sb_v().iblock_spec(inum) ==> #[trigger] final(self).block(x) == old(self).block(x)
                &&& e.dinode().stored_at(final(self).block(old(self).sb_v().iblock_spec(inum)), crate::vfs::inode_offset(inum))
            },
    {
        let ip = match crate::vfs::ialloc(&self.super_blk, self.dev_id, kind, &mut self.blk_cch_mgr, &mut self.log_mgr, &self.dev) {
            Ok(ip) => ip,
            Err(e) => {
                return Err(e);
            },
        };
        let h = match self.inodes.iget(self.dev_id, ip.ino()) {
            Ok(h) => h,
            Err(e) => {
                return Err(e);
            },
        };
        self.inodes.iunlock(h, &ip);
        Ok(h)
    }

    /// A handle to inode `inum`; see `InodeManager::iget`.
    pub fn iget(&mut self, inum: u32) -> (r: Result<usize, FsError>)
        requires
            old(self).wf(),
        ensures
            final(self).wf(),
            final(self).sb_v() == old(self).sb_v(),
            final(self).bitmap_v() == old(self).bitmap_v(),
            final(self).cache_v() == old(self).cache_v(),
            final(self).log_v() == old(self).log_v(),
            final(self).disk() == old(self).disk(),
            r matches Ok(h) ==> final(self).inodes_v().live(h as int) && final(self).inodes_v().slot(h as int).inum_v()
                == inum && final(self).inodes_v().slot(h as int).dev_v() == old(self).dev_id_v(),
            r is Err ==> r == Err::<usize, FsError>(FsError::Invariant) && final(self).inodes_v() == old(self).inodes_v()
                && exists|i: int| #[trigger] old(self).inodes_v().live(i) && old(self).inodes_v().slot(i).dev_v()
                    == old(self).dev_id_v() && old(self).inodes_v().slot(i).inum_v() == inum
                    && old(self).inodes_v().slot(i).refs() == usize::MAX,
            r matches Ok(h) ==> old(self).inodes_v().holds(old(self).dev_id_v(), inum) ==> {
                &&& old(self).inodes_v().live(h as int)
                &&& final(self).inodes_v().nslots() == old(self).inodes_v().nslots()
                &&& final(self).inodes_v().slot(h as int).refs() == old(self).inodes_v().slot(h as int).refs() + 1
                &&& final(self).inodes_v().slot(h as int).is_valid() == old(self).inodes_v().slot(h as int).is_valid()
                &&& final(self).inodes_v().slot(h as int).dinode() == old(self).inodes_v().slot(h as int).dinode()
            },
            r matches Ok(h) ==> !old(self).inodes_v().holds(old(self).dev_id_v(), inum) ==> {
                &&& !old(self).inodes_v().live(h as int)
                &&& final(self).inodes_v().slot(h as int).refs() == 1
                &&& !final(self).inodes_v().slot(h as int).is_valid()
            },
            r matches Ok(h) ==> forall|j: int| 0 <= j < old(self).inodes_v().nslots() && j != h
                ==> #[trigger] final(self).inodes_v().slot(j) == old(self).inodes_v().slot(j),
    {
        self.inodes.iget(self.dev_id, inum)
    }

    /// Drops the handle `h`.
    pub fn iput(&mut self, h: usize)
        requires
            old(self).wf(),
            old(self).inodes_v().live(h as int),
        ensures
            final(self).wf(),
            final(self).sb_v() == old(self).sb_v(),
            final(self).bitmap_v() == old(self).bitmap_v(),
            final(self).cache_v() == old(self).cache_v(),
            final(self).log_v() == old(self).log_v(),
            final(self).disk() == old(self).disk(),
            final(self).inodes_v().slot(h as int).refs() == old(self).inodes_v().slot(h as int).refs() - 1,
            final(self).inodes_v().nslots() == old(self).inodes_v().nslots(),
            final(self).inodes_v().slot(h as int).dev_v() == old(self).inodes_v().slot(h as int).dev_v(),
            final(self).inodes_v().slot(h as int).inum_v() == old(self).inodes_v().slot(h as int).inum_v(),
            final(self).inodes_v().slot(h as int).is_valid() == old(self).inodes_v().slot(h as int).is_valid(),
            final(self).inodes_v().slot(h as int).dinode() == old(self).inodes_v().slot(h as int).dinode(),
            forall|j: int| 0 <= j < old(self).inodes_v().nslots() && j != h
                ==> #[trigger] final(self).inodes_v().slot(j) == old(self).inodes_v().slot(j),
    {
        self.inodes.iput(h);
    }

    /// The inode behind handle `h`, loaded from disk on first use; see
    /// `InodeManager::ilock`.
    pub fn ilock(&mut self, h: usize) -> (r: Result<Inode, FsError>)
        requires
            old(self).wf(),
            old(self).inodes_v().live(h as int),
            old(self).inodes_v().slot(h as int).inum_v() < old(self).sb_v().n_inode,
        ensures
            final(self).wf(),
            final(self).sb_v() == old(self).sb_v(),
            final(self).bitmap_v() == old(self).bitmap_v(),
            final(self).log_v() == old(self).log_v(),
            final(self).disk() == old(self).disk(),
            forall|x: int| #[trigger] final(self).block(x) == old(self).block(x),
            final(self).inodes_v().live(h as int),
            r matches Ok(ip) ==> {
                &&& ip.ino_v() == old(self).inodes_v().slot(h as int).inum_v()
                &&& ip.dev_v() == old(self).inodes_v().slot(h as int).dev_v()
                &&& final(self).inodes_v().slot(h as int).is_valid()
                &&& ip.dinode() == final(self).inodes_v().slot(h as int).dinode()
            },
            old(self).inodes_v().slot(h as int).is_valid() ==> r is Ok,
            !old(self).inodes_v().slot(h as int).is_valid() ==> {
                let inum = old(self).inodes_v().slot(h as int).inum_v() as int;
                let blk = old(self).block(old(self).sb_v().iblock_spec(inum));
                &&& (r is Ok <==> crate::disk::kind_of_code(crate::disk::le_i16(blk, crate::vfs::inode_offset(inum))) is Some)
                &&& r matches Ok(ip) ==> ip.dinode().stored_at(blk, crate::vfs::inode_offset(inum))
            },
    {
        proof {
            let inum = self.inodes.slot(h as int).inum_v() as int;
            assert(inode_block_ok(&self.super_blk, &self.log_mgr, inum) && !self.bitmap.is_bitmap_block(self.super_blk.iblock_spec(inum)));
        }
        self.inodes.ilock(h, &self.super_blk, &mut self.blk_cch_mgr, &self.log_mgr, &self.dev)
    }

    /// Stores `ip` back behind handle `h`.
    pub fn iunlock(&mut self, h: usize, ip: &Inode)
        requires
            old(self).wf(),
            old(self).inodes_v().live(h as int),
            ip.ino_v() == old(self).inodes_v().slot(h as int).inum_v(),
            ip.dev_v() == old(self).inodes_v().slot(h as int).dev_v(),
        ensures
            final(self).wf(),
            final(self).sb_v() == old(self).sb_v(),
            final(self).bitmap_v() == old(self).bitmap_v(),
            final(self).cache_v() == old(self).cache_v(),
            final(self).log_v() == old(self).log_v(),
            final(self).disk() == old(self).disk(),
            final(self).inodes_v().live(h as int),
            final(self).inodes_v().slot(h as int).dinode() == ip.dinode(),
            final(self).inodes_v().slot(h as int).is_valid(),
            final(self).inodes_v().slot(h as int).refs() == old(self).inodes_v().slot(h as int).refs(),
            final(self).inodes_v().slot(h as int).dev_v() == old(self).inodes_v().slot(h as int).dev_v(),
            final(self).inodes_v().slot(h as int).inum_v() == old(self).inodes_v().slot(h as int).inum_v(),
            final(self).inodes_v().nslots() == old(self).inodes_v().nslots(),
            forall|j: int| 0 <= j < old(self).inodes_v().nslots() && j != h
                ==> #[trigger] final(self).inodes_v().slot(j) == old(self).inodes_v().slot(j),
    {
        self.inodes.iunlock(h, ip);
    }

    /// Writes `ip` to its slot on disk, through the log; see
    /// `Inode::iupdate`.
    pub fn iupdate(&mut self, ip: &Inode)
        requires
            old(self).wf(),
            old(self).log_v().outstanding() > 0,
            old(self).log_v().table().len() + 1 <= old(self).log_v().size(),
            ip.ino_v() < old(self).sb_v().n_inode,
        ensures
            final(self).wf(),
            final(self).same_frame(old(self)),
            final(self).disk() == old(self).disk(),
            final(self).log_v().table().len() <= old(self).log_v().table().len() + 1,
            final(self).log_v().grows_from(&old(self).log_v()),
            final(self).log_v().has_home(old(self).sb_v().iblock_spec(ip.ino_v() as int)),
            ip.dinode().stored_at(
                final(self).block(old(self).sb_v().iblock_spec(ip.ino_v() as int)),
                crate::vfs::inode_offset(ip.ino_v() as int),
            ),
            forall|x: int| x != old(self).sb_v().iblock_spec(ip.ino_v() as int) ==> #[trigger] final(self).block(x)
                == old(self).block(x),
    {
        proof {
            let inum = ip.ino_v() as int;
            assert(inode_block_ok(&self.super_blk, &self.log_mgr, inum) && !self.bitmap.is_bitmap_block(self.super_blk.iblock_spec(inum)));
        }
        ip.iupdate(&self.super_blk, &mut self.blk_cch_mgr, &mut self.log_mgr, &self.dev);
    }

    /// Maps file block `l` of `ip`, allocating on demand; see `Inode::bmap`.
    pub fn bmap(&mut self, ip: &mut Inode, l: usize) -> (r: Result<usize, FsError>)
        requires
            old(self).wf(),
            old(self).log_v().outstanding() > 0,
            old(self).log_v().table().len() + 5 <= old(self).log_v().size(),
        ensures
            forall|i: int| 0 <= i < crate::layout::NDIRECT && i != (l as int) ==> #[trigger] final(ip).dinode().addrs()[i]
                == old(ip).dinode().addrs()[i],
            (l as int) < crate::layout::NDIRECT ==> final(ip).dinode().addrs()[crate::layout::NDIRECT as int]
                == old(ip).dinode().addrs()[crate::layout::NDIRECT as int],
            forall|x: int| !old(self).bitmap_v().is_bitmap_block(x) && (r matches Ok(b) ==> x != b)
                && x != final(ip).dinode().addrs()[crate::layout::NDIRECT as int] ==> #[trigger] final(self).block(x) == old(self).block(x),
            old(ip).mapped(&old(self).cache_v(), old(self).disk(), l as int) == 0 ==> (r matches Ok(b) ==> {
                &&& final(self).log_v().has_home(b as int)
                &&& ((l as int) < crate::layout::NDIRECT || old(ip).dinode().addrs()[crate::layout::NDIRECT as int] != 0)
                    ==> old(self).bitmap_v().is_first_free(&old(self).cache_v(), old(self).disk(), b as int)
                &&& ((l as int) >= crate::layout::NDIRECT && old(ip).dinode().addrs()[crate::layout::NDIRECT as int] == 0)
                    ==> old(self).bitmap_v().is_second_free(
                    &old(self).cache_v(),
                    old(self).disk(),
                    final(ip).dinode().addrs()[crate::layout::NDIRECT as int] as int,
                    b as int,
                )
                &&& (l as int) >= crate::layout::NDIRECT ==> final(self).log_v().has_home(
                    final(ip).dinode().addrs()[crate::layout::NDIRECT as int] as int,
                )
            }),
            final(self).wf(),
            final(self).same_frame(old(self)),
            final(self).disk() == old(self).disk(),
            final(self).log_v().table().len() <= old(self).log_v().table().len() + 5,
            final(ip).ino_v() == old(ip).ino_v(),
            (r == Err::<usize, FsError>(FsError::BadRange)) <==> l >= crate::layout::MAXFILE,
            r is Ok <==> old(ip).bmap_ok(&old(self).bitmap_v(), &old(self).log_v(), &old(self).cache_v(), old(self).disk(), l as int),
            final(self).log_v().grows_from(&old(self).log_v()),
            (l < crate::layout::NDIRECT || old(ip).indirect_ok(&old(self).bitmap_v(), &old(self).log_v())) && l < crate::layout::MAXFILE
                && old(ip).mapped(&old(self).cache_v(), old(self).disk(), l as int) == 0
                && old(self).bitmap_v().full(&old(self).cache_v(), old(self).disk()) ==> {
                &&& r == Err::<usize, FsError>(FsError::OutOfSpace)
                &&& *final(ip) == *old(ip)
                &&& final(self).log_v().table() == old(self).log_v().table()
                &&& forall|x: int| #[trigger] final(self).block(x) == old(self).block(x)
            },
            crate::vfs::bits_grow(
                &old(self).bitmap_v(),
                &old(self).cache_v(),
                old(self).disk(),
                &final(self).cache_v(),
                final(self).disk(),
                match r {
                    Ok(b) => if old(ip).mapped(&old(self).cache_v(), old(self).disk(), l as int) == 0 { b as int } else { -1 },
                    Err(_) => -1,
                },
                final(ip).dinode().addrs()[crate::layout::NDIRECT as int] as int,
            ),
            r matches Ok(b) ==> b != 0 && final(ip).mapped(&final(self).cache_v(), final(self).disk(), l as int) == b,
            l < crate::layout::MAXFILE && (l < crate::layout::NDIRECT || old(ip).indirect_ok(&old(self).bitmap_v(), &old(self).log_v()))
                && old(ip).mapped(&old(self).cache_v(), old(self).disk(), l as int) != 0 ==> {
                &&& r == Ok::<usize, FsError>(old(ip).mapped(&old(self).cache_v(), old(self).disk(), l as int) as usize)
                &&& *final(ip) == *old(ip)
            },
            old(ip).mapped(&old(self).cache_v(), old(self).disk(), l as int) == 0 ==> (r matches Ok(b) ==> {
                &&& !old(self).allocated(b as int)
                &&& final(self).allocated(b as int)
                &&& final(self).block(b as int) == crate::device::zero_block()
            }),
    {
        let r = ip.bmap(l, &self.bitmap, &mut self.blk_cch_mgr, &mut self.log_mgr, &self.dev);
        proof {
            self.lemma_wf_frame(old(self));
        }
        r
    }

    /// Frees every block of `ip` and empties it; see `Inode::itrunc`.
    pub fn itrunc(&mut self, ip: &mut Inode) -> (r: Result<(), FsError>)
        requires
            old(self).wf(),
            old(self).log_v().outstanding() > 0,
            old(self).log_v().table().len() + 1 <= old(self).log_v().size(),
            old(ip).ino_v() < old(self).sb_v().n_inode,
        ensures
            final(self).wf(),
            final(self).same_frame(old(self)),
            final(ip).ino_v() == old(ip).ino_v(),
            final(self).log_v().table().len() + 1 <= final(self).log_v().size(),
            old(ip).trunc_ok(&old(self).sb_v(), &old(self).bitmap_v(), &old(self).log_v(), &old(self).cache_v(), old(self).disk())
                && (old(self).log_v().outstanding() == 1 || old(self).log_v().table().len() + old(ip).trunc_room(
                &old(self).cache_v(),
                old(self).disk(),
            ) <= old(self).log_v().size()) ==> r is Ok,
            r is Err ==> r == Err::<(), FsError>(FsError::Invariant) || r == Err::<(), FsError>(FsError::LogFull),
            r == Err::<(), FsError>(FsError::LogFull) ==> old(self).log_v().outstanding() != 1,
            r is Ok ==> final(ip).dinode().addrs() == Seq::new(13, |i: int| 0u32) && final(ip).dinode().size_v() == 0,
            r is Ok ==> forall|c: int| 0 <= c < old(self).bitmap_v().nbits() ==> #[trigger] final(self).allocated(c)
                == (old(self).allocated(c) && !old(ip).names(&old(self).cache_v(), old(self).disk(), c)),
    {
        proof {
            let inum = ip.ino_v() as int;
            assert(inode_block_ok(&self.super_blk, &self.log_mgr, inum) && !self.bitmap.is_bitmap_block(self.super_blk.iblock_spec(inum)));
        }
        ip.itrunc(&self.super_blk, &self.bitmap, &mut self.blk_cch_mgr, &mut self.log_mgr, &mut self.dev)
    }

    /// Reads `n` bytes of `ip` from byte `off`; see `Inode::readi`.
    pub fn readi(&mut self, ip: &Inode, off: usize, n: usize) -> (r: Result<Vec<u8>, FsError>)
        requires
            old(self).wf(),
        ensures
            final(self).wf(),
            final(self).same_frame(old(self)),
            final(self).log_v() == old(self).log_v(),
            final(self).disk() == old(self).disk(),
            forall|x: int| #[trigger] final(self).block(x) == old(self).block(x),
            r is Ok <==> forall|p: int| off <= p < off + ip.read_len(off as int, n as int)
                ==> #[trigger] ip.readable(&old(self).cache_v(), old(self).disk(), &old(self).log_v(), p / (BSIZE as int)),
            r is Err ==> r == Err::<Vec<u8>, FsError>(FsError::Invariant),
            r matches Ok(v) ==> v@ == Seq::new(
                ip.read_len(off as int, n as int) as nat,
                |i: int| ip.file_byte(&old(self).cache_v(), old(self).disk(), off + i),
            ),
    {
        ip.readi(off, n, &mut self.blk_cch_mgr, &self.log_mgr, &self.dev)
    }

    /// Writes the first bytes of `src` at byte `off` of `ip`, up to the end
    /// of the block holding `off`; see `Inode::writei`.
    pub fn writei(&mut self, ip: &mut Inode, src: &[u8], off: usize) -> (r: Result<usize, FsError>)
        requires
            old(self).wf(),
            old(self).log_v().outstanding() > 0,
            old(self).log_v().table().len() + 6 <= old(self).log_v().size(),
        ensures
            ({
                let l = off as int / (BSIZE as int);
                let nb = final(ip).mapped(&final(self).cache_v(), final(self).disk(), l);
                let ib = final(ip).dinode().addrs()[crate::layout::NDIRECT as int] as int;
                &&& forall|x: int| !old(self).bitmap_v().is_bitmap_block(x) && x != nb && x != ib
                    ==> #[trigger] final(self).block(x) == old(self).block(x)
                &&& crate::vfs::bits_grow(
                    &old(self).bitmap_v(),
                    &old(self).cache_v(),
                    old(self).disk(),
                    &final(self).cache_v(),
                    final(self).disk(),
                    nb,
                    ib,
                )
            }),
            final(self).wf(),
            final(self).same_frame(old(self)),
            final(self).disk() == old(self).disk(),
            final(self).log_v().table().len() <= old(self).log_v().table().len() + 6,
            final(ip).ino_v() == old(ip).ino_v(),
            (r == Err::<usize, FsError>(FsError::BadRange)) <==> off > old(ip).dinode().size_v(),
            ({
                let l = off as int / (BSIZE as int);
                let m = old(ip).mapped(&old(self).cache_v(), old(self).disk(), l);
                off <= old(ip).dinode().size_v() && (Inode::write_len(off as int, src@.len() as int) == 0 || (
                old(ip).bmap_ok(&old(self).bitmap_v(), &old(self).log_v(), &old(self).cache_v(), old(self).disk(), l)
                    && (m != 0 ==> m < old(self).log_v().nblocks() && !old(self).bitmap_v().reserved(&old(self).log_v(), m)
                    && (l >= crate::layout::NDIRECT ==> m != old(ip).dinode().addrs()[crate::layout::NDIRECT as int]))))
            }) ==> r is Ok,
            r matches Ok(k) ==> {
                &&& k == Inode::write_len(off as int, src@.len() as int)
                &&& final(ip).dinode().size_v() == if off + k > old(ip).dinode().size_v() {
                    (off + k) as u32
                } else {
                    old(ip).dinode().size_v()
                }
                &&& forall|i: int| 0 <= i < k ==> #[trigger] final(ip).file_byte(&final(self).cache_v(), final(self).disk(), off + i)
                    == src@[i]
            },
    {
        let r = ip.writei(src, off, &self.bitmap, &mut self.blk_cch_mgr, &mut self.log_mgr, &self.dev);
        proof {
            self.lemma_wf_frame(old(self));
        }
        r
    }
}

} // verus!
