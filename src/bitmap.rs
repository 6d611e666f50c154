//! The free-block bitmap: one bit per device block, least significant bit
//! first within each byte, byte 0 of the first bitmap block for block 0.
//! Changes go through the log; callers run inside an operation.
use vstd::prelude::*;
use crate::block_cache::BlockCacheManager;
use crate::device::{BlockDevice, zero_block};
use crate::error::FsError;
use crate::journal::in_log;
use crate::layout::{BPB, BSIZE, LOGSIZE};
use crate::logger::LogManager;

verus! {

/// Bit `k` of `byte`.
pub open spec fn bit_in(byte: u8, k: u8) -> bool {
    (byte >> k) & 1u8 == 1u8
}

/// The bit for block `b` within its bitmap block `blk`.
pub open spec fn bit_of(blk: Seq<u8>, b: int) -> bool {
    bit_in(blk[(b % BPB as int) / 8], (b % 8) as u8)
}

pub proof fn lemma_bit_ops(x: u8, k: u8)
    requires
        k < 8,
    ensures
        (x & (1u8 << k) == 0) == !bit_in(x, k),
        bit_in(x | (1u8 << k), k),
        !bit_in(x & !(1u8 << k), k),
        forall|m: u8| m < 8 && m != k ==> bit_in(x | (1u8 << k), m) == bit_in(x, m),
        forall|m: u8| m < 8 && m != k ==> bit_in(x & !(1u8 << k), m) == bit_in(x, m),
{
    assert((x & (1u8 << k) == 0) == !((x >> k) & 1u8 == 1u8)) by (bit_vector)
        requires
            k < 8,
    ;
    assert(((x | (1u8 << k)) >> k) & 1u8 == 1u8) by (bit_vector)
        requires
            k < 8,
    ;
    assert(!(((x & !(1u8 << k)) >> k) & 1u8 == 1u8)) by (bit_vector)
        requires
            k < 8,
    ;
    assert forall|m: u8| m < 8 && m != k implies bit_in(x | (1u8 << k), m) == bit_in(x, m) by {
        assert((((x | (1u8 << k)) >> m) & 1u8 == 1u8) == ((x >> m) & 1u8 == 1u8)) by (bit_vector)
            requires
                k < 8,
                m < 8,
                m != k,
        ;
    }
    assert forall|m: u8| m < 8 && m != k implies bit_in(x & !(1u8 << k), m) == bit_in(x, m) by {
        assert((((x & !(1u8 << k)) >> m) & 1u8 == 1u8) == ((x >> m) & 1u8 == 1u8)) by (bit_vector)
            requires
                k < 8,
                m < 8,
                m != k,
        ;
    }
}

/// Where block `b`'s bit lies: bitmap block `b / BPB`, byte `(b % BPB) / 8`,
/// bit `b % 8`.
pub proof fn lemma_bit_place(bi: int, j: int)
    requires
        0 <= bi,
        0 <= j < BPB,
    ensures
        (bi * BPB + j) / (BPB as int) == bi,
        (bi * BPB + j) % (BPB as int) == j,
        (bi * BPB + j) % 8 == j % 8,
{
    assert((bi * BPB + j) / (BPB as int) == bi && (bi * BPB + j) % (BPB as int) == j) by (nonlinear_arith)
        requires
            0 <= bi,
            0 <= j < BPB,
    ;
    assert((bi * BPB + j) % 8 == j % 8) by (nonlinear_arith)
        requires
            0 <= bi,
            0 <= j,
    ;
}

/// Two blocks with their bits in the same byte and bit position are equal.
pub proof fn lemma_bit_same(b: int, c: int)
    requires
        0 <= b,
        0 <= c,
        b / (BPB as int) == c / (BPB as int),
        (b % BPB as int) / 8 == (c % BPB as int) / 8,
        b % 8 == c % 8,
    ensures
        b == c,
{
    assert(b == c) by (nonlinear_arith)
        requires
            0 <= b,
            0 <= c,
            b / 8192 == c / 8192,
            (b % 8192) / 8 == (c % 8192) / 8,
            b % 8 == c % 8,
    ;
}

/// The allocator for the blocks `0..blocks`, whose bits start at block
/// `start`.
pub struct BitMap {
    start: usize,
    blocks: usize,
}

impl BitMap {
    /// First bitmap block.
    pub closed spec fn start(&self) -> int {
        self.start as int
    }

    /// Number of blocks tracked.
    pub closed spec fn nbits(&self) -> int {
        self.blocks as int
    }

    /// Number of bitmap blocks.
    pub open spec fn nbmap(&self) -> int {
        (self.nbits() + BPB - 1) / (BPB as int)
    }

    /// The bitmap block holding the bit for block `b`.
    pub open spec fn block_of(&self, b: int) -> int {
        self.start() + b / (BPB as int)
    }

    pub open spec fn is_bitmap_block(&self, x: int) -> bool {
        self.start() <= x < self.start() + self.nbmap()
    }

    /// Blocks the allocator must never hand out: block 0 (which stands for
    /// "no block" in an inode), the log and the bitmap.
    pub open spec fn reserved(&self, log: &LogManager, b: int) -> bool {
        b == 0 || in_log(log.start(), log.size(), b) || self.is_bitmap_block(b)
    }

    /// The bitmap fits the device and lies outside the log.
    pub open spec fn fits(&self, log: &LogManager) -> bool {
        &&& 0 <= self.start()
        &&& 0 <= self.nbits() <= log.nblocks()
        &&& self.start() + self.nbmap() <= log.nblocks()
        &&& (self.start() + self.nbmap() <= log.start() || log.start() + 1 + log.size()
            <= self.start())
    }

    /// Block `b` is marked in use, as read through the cache.
    pub open spec fn allocated(&self, cache: &BlockCacheManager, disk: Seq<Seq<u8>>, b: int) -> bool {
        bit_of(cache.content(disk, self.block_of(b)), b)
    }

    /// Block `b` is the lowest-numbered block marked free.
    pub open spec fn is_first_free(&self, cache: &BlockCacheManager, disk: Seq<Seq<u8>>, b: int) -> bool {
        &&& 0 <= b < self.nbits()
        &&& !self.allocated(cache, disk, b)
        &&& forall|c: int| 0 <= c < b ==> self.allocated(cache, disk, c)
    }

    /// An allocation would succeed: the lowest free block may be handed out.
    pub open spec fn can_alloc(&self, cache: &BlockCacheManager, disk: Seq<Seq<u8>>, log: &LogManager) -> bool {
        exists|b: int| self.is_first_free(cache, disk, b) && !self.reserved(log, b)
    }

    /// `b1` and `b2` are the two lowest-numbered free blocks.
    pub open spec fn is_second_free(&self, cache: &BlockCacheManager, disk: Seq<Seq<u8>>, b1: int, b2: int) -> bool {
        &&& self.is_first_free(cache, disk, b1)
        &&& b1 < b2 < self.nbits()
        &&& !self.allocated(cache, disk, b2)
        &&& forall|c: int| b1 < c < b2 ==> self.allocated(cache, disk, c)
    }

    /// Two allocations in a row would succeed.
    pub open spec fn can_alloc_two(&self, cache: &BlockCacheManager, disk: Seq<Seq<u8>>, log: &LogManager) -> bool {
        exists|b1: int, b2: int| self.is_second_free(cache, disk, b1, b2) && !self.reserved(log, b1) && !self.reserved(log, b2)
    }

    /// Equal bits give the same lowest free block and the same fullness.
    pub proof fn lemma_same_bits(
        &self,
        c0: &BlockCacheManager,
        d0: Seq<Seq<u8>>,
        c1: &BlockCacheManager,
        d1: Seq<Seq<u8>>,
    )
        requires
            forall|c: int| 0 <= c < self.nbits() ==> #[trigger] self.allocated(c1, d1, c) == self.allocated(c0, d0, c),
        ensures
            forall|b: int| #[trigger] self.is_first_free(c1, d1, b) == self.is_first_free(c0, d0, b),
            self.full(c1, d1) == self.full(c0, d0),
    {
        assert forall|b: int| #[trigger] self.is_first_free(c1, d1, b) == self.is_first_free(c0, d0, b) by {
            if self.is_first_free(c1, d1, b) {
                assert forall|c: int| 0 <= c < b implies self.allocated(c0, d0, c) by {
                    assert(self.allocated(c1, d1, c));
                }
            }
            if self.is_first_free(c0, d0, b) {
                assert forall|c: int| 0 <= c < b implies self.allocated(c1, d1, c) by {
                    assert(self.allocated(c0, d0, c));
                }
            }
        }
        if self.full(c1, d1) {
            assert forall|c: int| 0 <= c < self.nbits() implies self.allocated(c0, d0, c) by {
                assert(self.allocated(c1, d1, c));
            }
        }
        if self.full(c0, d0) {
            assert forall|c: int| 0 <= c < self.nbits() implies self.allocated(c1, d1, c) by {
                assert(self.allocated(c0, d0, c));
            }
        }
    }

    pub proof fn lemma_first_free_unique(&self, cache: &BlockCacheManager, disk: Seq<Seq<u8>>, a: int, b: int)
        requires
            self.is_first_free(cache, disk, a),
            self.is_first_free(cache, disk, b),
        ensures
            a == b,
    {
        if a < b {
            assert(self.allocated(cache, disk, a));
        } else if b < a {
            assert(self.allocated(cache, disk, b));
        }
    }

    /// Once the lowest free block `b1` is taken, the lowest free block is the
    /// second lowest before.
    pub proof fn lemma_next_free(
        &self,
        c0: &BlockCacheManager,
        d0: Seq<Seq<u8>>,
        c1: &BlockCacheManager,
        d1: Seq<Seq<u8>>,
        b1: int,
        b: int,
    )
        requires
            self.is_first_free(c0, d0, b1),
            forall|c: int| 0 <= c < self.nbits() ==> #[trigger] self.allocated(c1, d1, c) == (self.allocated(c0, d0, c) || c == b1),
        ensures
            self.is_first_free(c1, d1, b) <==> self.is_second_free(c0, d0, b1, b),
    {
        if self.is_first_free(c1, d1, b) {
            assert(b != b1);
            if b < b1 {
                assert(self.allocated(c0, d0, b));
            }
            assert forall|c: int| b1 < c < b implies self.allocated(c0, d0, c) by {
                assert(self.allocated(c1, d1, c));
            }
        }
        if self.is_second_free(c0, d0, b1, b) {
            assert forall|c: int| 0 <= c < b implies self.allocated(c1, d1, c) by {
                if c < b1 {
                    assert(self.allocated(c0, d0, c));
                } else if c > b1 {
                    assert(self.allocated(c0, d0, c));
                }
            }
        }
    }

    /// Every block is marked in use.
    pub open spec fn full(&self, cache: &BlockCacheManager, disk: Seq<Seq<u8>>) -> bool {
        forall|c: int| 0 <= c < self.nbits() ==> self.allocated(cache, disk, c)
    }

    pub fn new(start_block_no: usize, blocks: usize) -> (r: Self)
        ensures
            r.start() == start_block_no,
            r.nbits() == blocks,
    {
        BitMap { start: start_block_no, blocks }
    }

    /// Number of blocks tracked.
    pub fn nbits_exec(&self) -> (r: usize)
        ensures
            r == self.nbits(),
    {
        self.blocks
    }

    /// Number of bitmap blocks.
    fn bitmap_blocks(&self) -> (r: usize)
        ensures
            r == self.nbmap(),
    {
        let q = self.blocks / BPB;
        let r = if self.blocks % BPB == 0 {
            q
        } else {
            q + 1
        };
        proof {
            let n = self.nbits();
            assert(r == (n + BPB - 1) / (BPB as int)) by (nonlinear_arith)
                requires
                    n >= 0,
                    q == n / 8192,
                    r == if n % 8192 == 0 { q as int } else { q + 1 },
            ;
        }
        r
    }

    /// The bit of a block the bitmap tracks lies in a bitmap block.
    pub proof fn lemma_in_bitmap(&self, c: int)
        requires
            0 <= c < self.nbits(),
        ensures
            self.is_bitmap_block(self.block_of(c)),
    {
        let n = self.nbits();
        assert(c / 8192 < (n + 8191) / 8192) by (nonlinear_arith)
            requires
                0 <= c < n,
        ;
    }

    /// Whether `b` is a block the allocator must never hand out.
    pub fn is_reserved(&self, b: usize, log: &LogManager) -> (r: bool)
        requires
            self.fits(log),
            log.size() <= LOGSIZE,
        ensures
            r == self.reserved(log, b as int),
    {
        let nbmap = self.bitmap_blocks();
        let ls = log.start_block();
        b == 0 || (ls <= b && b - ls <= log.capacity()) || (self.start <= b && b - self.start < nbmap)
    }

    /// Allocates the lowest-numbered free block: sets its bit and zeroes the
    /// block, logging both. Fails with `OutOfSpace` when every bit is set,
    /// and with `Invariant` when the lowest free bit names block 0, a block
    /// of the log or of the bitmap itself.
    pub fn allocate<D: BlockDevice>(
        &self,
        cache: &mut BlockCacheManager,
        log: &mut LogManager,
        device: &D,
    ) -> (r: Result<usize, FsError>)
        requires
            old(log).wf(old(cache)),
            old(log).quiescent(old(cache)),
            old(log).disk_ok(device.blocks()),
            old(log).outstanding() > 0,
            old(log).table().len() + 2 <= old(log).size(),
            self.fits(old(log)),
        ensures
            final(log).wf(final(cache)),
            final(log).quiescent(final(cache)),
            final(log).start() == old(log).start(),
            final(log).size() == old(log).size(),
            final(log).nblocks() == old(log).nblocks(),
            final(log).outstanding() == old(log).outstanding(),
            final(log).table().len() <= old(log).table().len() + 2,
            final(log).grows_from(old(log)),
            final(cache).dev_id() == old(cache).dev_id(),
            (r == Err::<usize, FsError>(FsError::OutOfSpace)) <==> self.full(old(cache), device.blocks()),
            r is Ok <==> exists|b: int| self.is_first_free(old(cache), device.blocks(), b) && !self.reserved(old(log), b),
            r == Err::<usize, FsError>(FsError::Invariant) ==> exists|b: int|
                self.is_first_free(old(cache), device.blocks(), b) && self.reserved(old(log), b),
            r is Err ==> final(log).table() == old(log).table(),
            r is Err ==> r == Err::<usize, FsError>(FsError::OutOfSpace) || r == Err::<usize, FsError>(
                FsError::Invariant,
            ),
            r is Err ==> forall|x: int| #[trigger] final(cache).content(device.blocks(), x)
                == old(cache).content(device.blocks(), x),
            r matches Ok(b) ==> {
                &&& self.is_first_free(old(cache), device.blocks(), b as int)
                &&& !self.reserved(old(log), b as int)
                &&& final(log).has_home(self.block_of(b as int))
                &&& final(log).has_home(b as int)
                &&& self.allocated(final(cache), device.blocks(), b as int)
                &&& forall|c: int| 0 <= c < self.nbits() && c != b ==> self.allocated(final(cache), device.blocks(), c)
                    == self.allocated(old(cache), device.blocks(), c)
                &&& final(cache).content(device.blocks(), b as int) == zero_block()
                &&& forall|x: int| x != b && x != self.block_of(b as int) ==> #[trigger] final(cache).content(
                    device.blocks(),
                    x,
                ) == old(cache).content(device.blocks(), x)
            },
    {
        let ghost disk = device.blocks();
        let ghost c0 = *cache;
        let ghost l0 = *log;
        let nb = self.blocks;
        let nbmap = self.bitmap_blocks();
        let lstart = log.start_block();
        let lsize = log.capacity();
        let mut base: usize = 0;
        let mut bi: usize = 0;
        while base < nb
            invariant
                disk == device.blocks(),
                *log == l0,
                l0 == *old(log),
                c0 == *old(cache),
                log.wf(cache),
                log.quiescent(cache),
                log.disk_ok(disk),
                log.outstanding() > 0,
                log.table().len() + 2 <= log.size(),
                self.fits(log),
                nb == self.nbits(),
                nbmap == self.nbmap(),
                lstart == log.start(),
                lsize == log.size(),
                cache.dev_id() == c0.dev_id(),
                base == bi * BPB || base == nb,
                base <= nb,
                forall|x: int| #[trigger] cache.content(disk, x) == c0.content(disk, x),
                forall|c: int| 0 <= c < base && c < nb ==> self.allocated(&c0, disk, c),
            decreases nb - base,
        {
            let blk = self.start + bi;
            proof {
                lemma_bit_place(bi as int, 0);
                self.lemma_in_bitmap(base as int);
            }
            let ghost cp = *cache;
            let idx = log.acquire(cache, blk, device);
            let ghost c1 = *cache;
            proof {
                assert forall|x: int| #[trigger] c1.content(disk, x) == c0.content(disk, x) by {
                    assert(cp.content(disk, x) == c0.content(disk, x));
                    if 0 <= x < disk.len() {
                        assert(c1.content(disk, x) == cp.content(disk, x));
                    } else {
                        assert(!cp.holds(x) && !c1.holds(x)) by {
                            if cp.holds(x) {
                                let k = cp.slot_of(x);
                                assert(cp.live(k) && cp.entry(k).bno() == x);
                                assert(log.pins(k));
                                let i = choose|i: int| 0 <= i < log.table().len() && #[trigger] log.table()[i].1 == k;
                                assert(cp.live(log.table()[i].1 as int));
                            }
                            if c1.holds(x) {
                                let k = c1.slot_of(x);
                                assert(c1.live(k) && c1.entry(k).bno() == x);
                                if k != idx {
                                    assert(cp.live(k));
                                    assert(log.pins(k));
                                    let i = choose|i: int| 0 <= i < log.table().len() && #[trigger] log.table()[i].1 == k;
                                    assert(cp.live(log.table()[i].1 as int));
                                }
                            }
                        }
                    }
                }
            }
            let lim = if nb - base < BPB {
                nb - base
            } else {
                BPB
            };
            let mut j: usize = 0;
            while j < lim
                invariant
                    disk == device.blocks(),
                    *log == l0,
                    c1 == *cache,
                    c0 == *old(cache),
                    forall|x: int| #[trigger] c1.content(disk, x) == c0.content(disk, x),
                    c1.dev_id() == c0.dev_id(),
                    nb == self.nbits(),
                    nbmap == self.nbmap(),
                    lstart == log.start(),
                    lsize == log.size(),
                    self.fits(log),
                    log.disk_ok(disk),
                    log.outstanding() > 0,
                    log.table().len() + 2 <= log.size(),
                    l0 == *old(log),
                    log.wf(cache),
                    log.held(cache, idx as int),
                    cache.entry(idx as int).bno() == blk,
                    !log.pins(idx as int) ==> cache.entry(idx as int)@ == disk[blk as int],
                    cache.entry(idx as int)@ == c0.content(disk, blk as int),
                    cache.entry(idx as int)@.len() == BSIZE,
                    blk == self.start() + bi,
                    base == bi * BPB,
                    lim <= BPB,
                    base + lim <= nb,
                    j <= lim,
                    forall|c: int| 0 <= c < base + j && c < nb ==> self.allocated(&c0, disk, c),
                decreases lim - j,
            {
                let byte = cache.buffer(idx).byte(j / 8);
                let k = (j % 8) as u8;
                let mask: u8 = 1u8 << k;
                proof {
                    lemma_bit_place(bi as int, j as int);
                    lemma_bit_ops(byte, k);
                }
                if byte & mask == 0 {
                    let b = base + j;
                    let ghost bb = b as int;
                    proof {
                        assert(!self.allocated(&c0, disk, bb));
                        assert(self.is_first_free(&c0, disk, bb));
                    }
                    if b == 0 || (lstart <= b && b < lstart + 1 + lsize) || (self.start <= b && b < self.start
                        + nbmap) {
                        log.release_clean(idx, cache, Ghost(disk));
                        proof {
                            assert(!self.full(&c0, disk));
                            assert(self.reserved(old(log), bb));
                            assert(self.is_first_free(old(cache), disk, bb) && self.reserved(old(log), bb));
                            assert forall|b2: int| self.is_first_free(old(cache), disk, b2) implies b2 == bb by {
                                if b2 < bb {
                                    assert(self.allocated(old(cache), disk, b2));
                                } else if bb < b2 {
                                    assert(self.allocated(old(cache), disk, bb));
                                }
                            }
                        }
                        return Err(FsError::Invariant);
                    }
                    let ghost c2 = *cache;
                    let buf = cache.buffer_mut(idx);
                    buf.set_byte(j / 8, byte | mask);
                    proof {
                        cache.lemma_update_wf(&c2, idx as int);
                        assert forall|i: int| 0 <= i < log.table().len() implies {
                            let (h, s) = #[trigger] log.table()[i];
                            &&& cache.live(s as int)
                            &&& cache.entry(s as int).bno() == h
                        } by {
                            assert(c2.live(log.table()[i].1 as int));
                        }
                    }
                    let ghost c3 = *cache;
                    let ghost blk3 = cache.entry(idx as int)@;
                    log.write_release(idx, cache, Ghost(disk));
                    let ghost l4 = *log;
                    let ghost c4 = *cache;
                    let z = log.acquire(cache, b, device);
                    let ghost c5 = *cache;
                    let zb = cache.buffer_mut(z);
                    zb.zero();
                    proof {
                        cache.lemma_update_wf(&c5, z as int);
                        assert forall|i: int| 0 <= i < log.table().len() implies {
                            let (h, s) = #[trigger] log.table()[i];
                            &&& cache.live(s as int)
                            &&& cache.entry(s as int).bno() == h
                        } by {
                            assert(c5.live(log.table()[i].1 as int));
                        }
                    }
                    log.write_release(z, cache, Ghost(disk));
                    proof {
                        log.lemma_grows_trans(&l4, &l0);
                        log.lemma_grows_home(&l4, blk as int);
                        assert(!self.full(&c0, disk));
                        assert(self.block_of(bb) == blk);
                        assert forall|x: int| x != b && x != blk implies #[trigger] cache.content(disk, x)
                            == c0.content(disk, x) by {
                            assert(c4.content(disk, x) == c3.content(disk, x));
                            assert(c3.content(disk, x) == c2.content(disk, x)) by {
                                LogManager::lemma_content_frame(&c3, &c2, idx as int, blk as int, disk);
                            }
                        }
                        assert(cache.content(disk, blk as int) == blk3) by {
                            assert(c4.content(disk, blk as int) == blk3);
                        }
                        assert(blk3 == c0.content(disk, blk as int).update((j / 8) as int, byte | mask));
                        assert forall|c: int| 0 <= c < self.nbits() && c != b implies self.allocated(cache, disk, c)
                            == self.allocated(&c0, disk, c) by {
                            self.lemma_in_bitmap(c);
                            if self.block_of(c) == blk {
                                if (c % BPB as int) / 8 == j / 8 {
                                    if c % 8 == (j % 8) as int {
                                        lemma_bit_same(c, bb);
                                    }
                                    assert((c % 8) as u8 != k);
                                }
                            }
                        }
                        assert(self.allocated(cache, disk, bb));
                        assert(!self.reserved(old(log), bb));
                        assert(self.is_first_free(old(cache), disk, bb) && !self.reserved(old(log), bb));
                        assert forall|b2: int| self.is_first_free(&c0, disk, b2) implies b2 == bb by {
                            if b2 < bb {
                            } else if bb < b2 {
                            }
                        }
                    }
                    return Ok(b);
                }
                j = j + 1;
            }
            log.release_clean(idx, cache, Ghost(disk));
            if nb - base > BPB {
                base = base + BPB;
                bi = bi + 1;
            } else {
                base = nb;
            }
        }
        proof {
            assert(self.full(&c0, disk));
            assert forall|b2: int| !self.is_first_free(&c0, disk, b2) by {}
        }
        Err(FsError::OutOfSpace)
    }

    /// Whether block `bno` is marked in use.
    pub fn is_allocated<D: BlockDevice>(
        &self,
        bno: usize,
        cache: &mut BlockCacheManager,
        log: &LogManager,
        device: &D,
    ) -> (r: bool)
        requires
            log.wf(old(cache)),
            log.quiescent(old(cache)),
            log.disk_ok(device.blocks()),
            self.fits(log),
            bno < self.nbits(),
        ensures
            r == self.allocated(old(cache), device.blocks(), bno as int),
            log.wf(final(cache)),
            log.quiescent(final(cache)),
            final(cache).dev_id() == old(cache).dev_id(),
            forall|x: int| #[trigger] final(cache).content(device.blocks(), x) == old(cache).content(device.blocks(), x),
    {
        let ghost disk = device.blocks();
        let bi = bno / BPB;
        let j = bno % BPB;
        let blk = self.start + bi;
        proof {
            self.lemma_in_bitmap(bno as int);
            lemma_bit_place(bi as int, j as int);
            assert(bno == bi * BPB + j);
        }
        let idx = log.acquire(cache, blk, device);
        let byte = cache.buffer(idx).byte(j / 8);
        let k = (j % 8) as u8;
        proof {
            lemma_bit_ops(byte, k);
        }
        let r = byte & (1u8 << k) != 0;
        log.release_clean(idx, cache, Ghost(disk));
        r
    }

    /// Frees block `bno`, whose bit must be set: clears the bit and logs the
    /// bitmap block. The block itself is left as it is.
    pub fn dealloc<D: BlockDevice>(
        &self,
        bno: usize,
        cache: &mut BlockCacheManager,
        log: &mut LogManager,
        device: &D,
    )
        requires
            old(log).wf(old(cache)),
            old(log).quiescent(old(cache)),
            old(log).disk_ok(device.blocks()),
            old(log).outstanding() > 0,
            old(log).table().len() + 1 <= old(log).size(),
            self.fits(old(log)),
            bno < self.nbits(),
            self.allocated(old(cache), device.blocks(), bno as int),
        ensures
            final(log).wf(final(cache)),
            final(log).quiescent(final(cache)),
            final(log).start() == old(log).start(),
            final(log).size() == old(log).size(),
            final(log).nblocks() == old(log).nblocks(),
            final(log).outstanding() == old(log).outstanding(),
            final(log).table().len() <= old(log).table().len() + 1,
            final(log).grows_from(old(log)),
            final(log).has_home(self.block_of(bno as int)),
            final(cache).dev_id() == old(cache).dev_id(),
            !self.allocated(final(cache), device.blocks(), bno as int),
            forall|c: int| 0 <= c < self.nbits() && c != bno ==> self.allocated(final(cache), device.blocks(), c)
                == self.allocated(old(cache), device.blocks(), c),
            forall|x: int| x != self.block_of(bno as int) ==> #[trigger] final(cache).content(
                device.blocks(),
                x,
            ) == old(cache).content(device.blocks(), x),
    {
        let ghost disk = device.blocks();
        let ghost c0 = *cache;
        let bi = bno / BPB;
        let j = bno % BPB;
        let blk = self.start + bi;
        proof {
            self.lemma_in_bitmap(bno as int);
            lemma_bit_place(bi as int, j as int);
            assert(bno == bi * BPB + j);
        }
        let idx = log.acquire(cache, blk, device);
        let byte = cache.buffer(idx).byte(j / 8);
        let k = (j % 8) as u8;
        let mask: u8 = 1u8 << k;
        proof {
            lemma_bit_ops(byte, k);
        }
        let ghost c2 = *cache;
        let buf = cache.buffer_mut(idx);
        buf.set_byte(j / 8, byte & !mask);
        proof {
            cache.lemma_update_wf(&c2, idx as int);
            assert forall|i: int| 0 <= i < log.table().len() implies {
                let (h, s) = #[trigger] log.table()[i];
                &&& cache.live(s as int)
                &&& cache.entry(s as int).bno() == h
            } by {
                assert(c2.live(log.table()[i].1 as int));
            }
        }
        let ghost blk3 = cache.entry(idx as int)@;
        log.write_release(idx, cache, Ghost(disk));
        proof {
            assert(blk3 == c0.content(disk, blk as int).update((j / 8) as int, byte & !mask));
            assert(cache.content(disk, blk as int) == blk3);
            assert forall|c: int| 0 <= c < self.nbits() && c != bno implies self.allocated(cache, disk, c)
                == self.allocated(&c0, disk, c) by {
                self.lemma_in_bitmap(c);
                if self.block_of(c) == blk {
                    if (c % BPB as int) / 8 == j / 8 {
                        if c % 8 == (j % 8) as int {
                            lemma_bit_same(c, bno as int);
                        }
                        assert((c % 8) as u8 != k);
                    }
                }
            }
        }
    }
}

} // verus!
