//! The block cache: an identity map from block number to an in-memory buffer,
//! holding at most one live buffer per block. Buffers are reference-counted:
//! a buffer lives while some holder (a caller, or the log pinning it) holds a
//! reference, and is dropped when the last one is released.
use vstd::prelude::*;
use crate::device::{BlockDevice, blocks_ok, zero_block, zeroed_block};
use crate::layout::{BSIZE, le_u32, le_bytes_u32, splice, read_u32, write_u32};

verus! {

/// One cached block: its number, the device it belongs to, and its bytes.
pub struct BlockCache {
    cache: Vec<u8>,
    blockno: usize,
    dev: u32,
    refcnt: usize,
}

impl View for BlockCache {
    type V = Seq<u8>;

    closed spec fn view(&self) -> Seq<u8> {
        self.cache@
    }
}

impl BlockCache {
    /// The block this buffer caches.
    pub closed spec fn bno(&self) -> int {
        self.blockno as int
    }

    /// The identity of the device the block belongs to.
    pub closed spec fn dev_id(&self) -> u32 {
        self.dev
    }

    /// Number of holders of this buffer.
    pub closed spec fn refs(&self) -> nat {
        self.refcnt as nat
    }

    /// Same block, device and holders as `other`.
    pub open spec fn same_identity(&self, other: &BlockCache) -> bool {
        &&& self.bno() == other.bno()
        &&& self.dev_id() == other.dev_id()
        &&& self.refs() == other.refs()
    }

    pub fn blockno(&self) -> (r: usize)
        ensures
            r == self.bno(),
    {
        self.blockno
    }

    /// Number of holders of this buffer.
    pub fn refcnt(&self) -> (r: usize)
        ensures
            r == self.refs(),
    {
        self.refcnt
    }

    pub fn block_device(&self) -> (r: u32)
        ensures
            r == self.dev_id(),
    {
        self.dev
    }

    /// Copies the bytes of `src` into `dst`.
    pub fn memmove(dst: &mut Self, src: &Self)
        requires
            src@.len() == BSIZE,
        ensures
            final(dst)@ == src@,
            final(dst).same_identity(old(dst)),
    {
        let mut v: Vec<u8> = Vec::new();
        let mut i: usize = 0;
        while i < src.cache.len()
            invariant
                i <= src.cache@.len(),
                v@ == src.cache@.take(i as int),
            decreases src.cache@.len() - i,
        {
            v.push(src.cache[i]);
            i = i + 1;
            assert(v@ =~= src.cache@.take(i as int));
        }
        assert(v@ =~= src.cache@);
        dst.cache = v;
    }

    /// Loads block `blockno` of `device` into a new buffer with no holders.
    pub fn new<D: BlockDevice>(blockno: usize, dev: u32, device: &D) -> (r: Self)
        requires
            blockno < device.blocks().len(),
            blocks_ok(device.blocks()),
        ensures
            r@ == device.blocks()[blockno as int],
            r.bno() == blockno,
            r.dev_id() == dev,
            r.refs() == 0,
    {
        let mut cache = zeroed_block();
        device.read_block(blockno, cache.as_mut_slice());
        BlockCache { cache, blockno, dev, refcnt: 0 }
    }

    /// Writes the buffer to its home block on `device`.
    pub fn write<D: BlockDevice>(&self, device: &mut D)
        requires
            self.bno() < old(device).blocks().len(),
            self@.len() == BSIZE,
        ensures
            final(device).blocks() == old(device).blocks().update(self.bno(), self@),
            final(device).history() == old(device).history().push((self.bno(), self@)),
    {
        device.write_block(self.blockno, self.cache.as_slice());
    }

    /// The bytes of the buffer.
    pub fn data(&self) -> (r: &[u8])
        ensures
            r@ == self@,
    {
        self.cache.as_slice()
    }

    /// The byte at `off`.
    pub fn byte(&self, off: usize) -> (r: u8)
        requires
            off < self@.len(),
        ensures
            r == self@[off as int],
    {
        self.cache[off]
    }

    /// Sets the byte at `off` to `v`.
    pub fn set_byte(&mut self, off: usize, v: u8)
        requires
            off < old(self)@.len(),
        ensures
            final(self)@ == old(self)@.update(off as int, v),
            final(self).same_identity(old(self)),
    {
        self.cache.set(off, v);
    }

    /// The little-endian `u32` at `off`.
    pub fn get_u32(&self, off: usize) -> (r: u32)
        requires
            off + 4 <= self@.len(),
        ensures
            r as int == le_u32(self@, off as int),
    {
        read_u32(self.cache.as_slice(), off)
    }

    /// Stores `v` as a little-endian `u32` at `off`.
    pub fn set_u32(&mut self, off: usize, v: u32)
        requires
            off + 4 <= old(self)@.len(),
        ensures
            final(self)@ == splice(old(self)@, off as int, le_bytes_u32(v)),
            le_u32(final(self)@, off as int) == v as int,
            final(self).same_identity(old(self)),
    {
        write_u32(&mut self.cache, off, v);
    }

    /// Replaces the bytes of the buffer with those of `src`.
    pub fn copy_from(&mut self, src: &[u8])
        requires
            src@.len() == BSIZE,
        ensures
            final(self)@ == src@,
            final(self).same_identity(old(self)),
    {
        let mut v: Vec<u8> = Vec::new();
        let mut i: usize = 0;
        while i < src.len()
            invariant
                i <= src@.len(),
                v@ == src@.take(i as int),
            decreases src@.len() - i,
        {
            v.push(src[i]);
            i = i + 1;
            assert(v@ =~= src@.take(i as int));
        }
        assert(v@ =~= src@);
        self.cache = v;
    }

    /// Fills the buffer with zero bytes.
    pub fn zero(&mut self)
        ensures
            final(self)@ == zero_block(),
            final(self).same_identity(old(self)),
    {
        self.cache = zeroed_block();
    }
}

/// The table of live buffers. A slot is either free or holds a buffer.
pub struct BlockCacheManager {
    slots: Vec<Option<BlockCache>>,
    dev: u32,
}

impl BlockCacheManager {
    pub closed spec fn nslots(&self) -> nat {
        self.slots@.len()
    }

    pub closed spec fn slot(&self, i: int) -> Option<BlockCache> {
        self.slots@[i]
    }

    /// The device identity given to every buffer of this cache.
    pub closed spec fn dev_id(&self) -> u32 {
        self.dev
    }

    pub open spec fn live(&self, i: int) -> bool {
        0 <= i < self.nslots() && self.slot(i) is Some
    }

    pub open spec fn entry(&self, i: int) -> BlockCache {
        self.slot(i)->Some_0
    }

    /// Some live buffer caches block `b`.
    pub open spec fn holds(&self, b: int) -> bool {
        exists|i: int| self.live(i) && #[trigger] self.entry(i).bno() == b
    }

    /// The slot of the live buffer for block `b`.
    pub open spec fn slot_of(&self, b: int) -> int {
        choose|i: int| self.live(i) && #[trigger] self.entry(i).bno() == b
    }

    /// No two live buffers cache the same block.
    pub open spec fn unique(&self) -> bool {
        forall|i: int, j: int|
            self.live(i) && self.live(j) && #[trigger] self.entry(i).bno() == #[trigger] self.entry(
                j,
            ).bno() ==> i == j
    }

    pub open spec fn wf(&self) -> bool {
        &&& self.unique()
        &&& forall|i: int| #[trigger] self.live(i) ==> {
            &&& self.entry(i)@.len() == BSIZE
            &&& self.entry(i).refs() >= 1
            &&& self.entry(i).dev_id() == self.dev_id()
        }
    }

    /// What a read of block `b` through the cache sees: the live buffer for
    /// `b` if there is one, else the device's block.
    pub open spec fn content(&self, disk: Seq<Seq<u8>>, b: int) -> Seq<u8> {
        if self.holds(b) {
            self.entry(self.slot_of(b))@
        } else {
            disk[b]
        }
    }

    /// Every slot but `idx` is as in `old`.
    pub open spec fn others_same(&self, old: &BlockCacheManager, idx: int) -> bool {
        &&& self.nslots() >= old.nslots()
        &&& forall|j: int| j != idx ==> (#[trigger] self.live(j) <==> old.live(j))
        &&& forall|j: int| j != idx && #[trigger] old.live(j) ==> self.entry(j) == old.entry(j)
    }

    /// The cache holds at most one live buffer for any block.
    pub proof fn lemma_one_buffer_per_block(&self, i: int, j: int)
        requires
            self.wf(),
            self.live(i),
            self.live(j),
            self.entry(i).bno() == self.entry(j).bno(),
        ensures
            i == j,
    {
    }

    pub proof fn lemma_others_same_trans(&self, mid: &BlockCacheManager, old: &BlockCacheManager, idx: int)
        requires
            self.others_same(mid, idx),
            mid.others_same(old, idx) || *mid == *old,
        ensures
            self.others_same(old, idx),
    {
        assert forall|j: int| j != idx implies (#[trigger] self.live(j) <==> old.live(j)) by {
            assert(self.live(j) <==> mid.live(j));
            assert(mid.live(j) <==> old.live(j));
        }
        assert forall|j: int| j != idx && #[trigger] old.live(j) implies self.entry(j) == old.entry(j) by {
            assert(mid.live(j));
        }
    }

    pub proof fn lemma_slot_of(&self, i: int)
        requires
            self.wf(),
            self.live(i),
        ensures
            self.holds(self.entry(i).bno()),
            self.slot_of(self.entry(i).bno()) == i,
    {
        let b = self.entry(i).bno();
        assert(self.live(i) && self.entry(i).bno() == b);
        let k = self.slot_of(b);
        assert(self.live(k) && self.entry(k).bno() == b);
    }

    /// Changing the buffer in one live slot, keeping its block number and
    /// its length, keeps the table well formed.
    pub proof fn lemma_update_wf(&self, old: &BlockCacheManager, idx: int)
        requires
            old.wf(),
            old.live(idx),
            self.nslots() == old.nslots(),
            self.dev_id() == old.dev_id(),
            self.live(idx),
            self.entry(idx).bno() == old.entry(idx).bno(),
            self.entry(idx).dev_id() == old.entry(idx).dev_id(),
            self.entry(idx)@.len() == BSIZE,
            self.entry(idx).refs() >= 1,
            forall|j: int| 0 <= j < old.nslots() && j != idx ==> self.slot(j) == old.slot(j),
        ensures
            self.wf(),
            self.others_same(old, idx),
    {
        assert forall|i: int, j: int|
            self.live(i) && self.live(j) && #[trigger] self.entry(i).bno() == #[trigger] self.entry(
                j,
            ).bno() implies i == j by {
            assert(old.live(i) && old.live(j));
            assert(old.entry(i).bno() == old.entry(j).bno());
        }
        assert forall|i: int| #[trigger] self.live(i) implies {
            &&& self.entry(i)@.len() == BSIZE
            &&& self.entry(i).refs() >= 1
            &&& self.entry(i).dev_id() == self.dev_id()
        } by {
            if i != idx {
                assert(old.live(i));
            }
        }
    }

    /// Emptying a slot, or filling a free one with a buffer for a block no
    /// live buffer holds, keeps the table well formed.
    pub proof fn lemma_set_wf(&self, old: &BlockCacheManager, idx: int)
        requires
            old.wf(),
            0 <= idx < self.nslots(),
            self.nslots() >= old.nslots(),
            self.dev_id() == old.dev_id(),
            forall|j: int| 0 <= j < self.nslots() && j != idx ==> (j < old.nslots() && self.slot(j) == old.slot(j)),
            self.live(idx) ==> {
                &&& !old.live(idx)
                &&& !old.holds(self.entry(idx).bno())
                &&& self.entry(idx)@.len() == BSIZE
                &&& self.entry(idx).refs() >= 1
                &&& self.entry(idx).dev_id() == self.dev_id()
            },
        ensures
            self.wf(),
            self.others_same(old, idx),
    {
        assert forall|i: int, j: int|
            self.live(i) && self.live(j) && #[trigger] self.entry(i).bno() == #[trigger] self.entry(
                j,
            ).bno() implies i == j by {
            if i != idx && j != idx {
                assert(old.live(i) && old.live(j));
            } else if i == idx && j != idx {
                assert(old.live(j) && old.entry(j).bno() == self.entry(idx).bno());
            } else if j == idx && i != idx {
                assert(old.live(i) && old.entry(i).bno() == self.entry(idx).bno());
            }
        }
        assert forall|i: int| #[trigger] self.live(i) implies {
            &&& self.entry(i)@.len() == BSIZE
            &&& self.entry(i).refs() >= 1
            &&& self.entry(i).dev_id() == self.dev_id()
        } by {
            if i != idx {
                assert(old.live(i));
            }
        }
        assert forall|j: int| j != idx implies (#[trigger] self.live(j) <==> old.live(j)) by {
            if 0 <= j < self.nslots() {
            }
        }
    }

    /// A cache with no buffers.
    pub fn new(dev: u32) -> (r: Self)
        ensures
            r.wf(),
            r.nslots() == 0,
            r.dev_id() == dev,
            forall|b: int| !r.holds(b),
    {
        BlockCacheManager { slots: Vec::new(), dev }
    }

    /// The device identity given to every buffer of this cache.
    pub fn device_id(&self) -> (r: u32)
        ensures
            r == self.dev_id(),
    {
        self.dev
    }

    /// No live buffer.
    pub open spec fn is_empty(&self) -> bool {
        forall|i: int| !#[trigger] self.live(i)
    }

    /// The buffer in slot `idx`.
    pub fn buffer(&self, idx: usize) -> (r: &BlockCache)
        requires
            self.live(idx as int),
        ensures
            *r == self.entry(idx as int),
    {
        self.slots[idx].as_ref().unwrap()
    }

    /// Exclusive access to the buffer in slot `idx`.
    pub fn buffer_mut(&mut self, idx: usize) -> (r: &mut BlockCache)
        requires
            old(self).live(idx as int),
        ensures
            *r == old(self).entry(idx as int),
            final(self).nslots() == old(self).nslots(),
            final(self).dev_id() == old(self).dev_id(),
            final(self).slot(idx as int) == Some(*final(r)),
            forall|j: int|
                0 <= j < old(self).nslots() && j != idx ==> final(self).slot(j) == old(self).slot(
                    j,
                ),
    {
        self.slots[idx].as_mut().unwrap()
    }

    /// The slot of the live buffer for `blockno`, if any.
    fn find(&self, blockno: usize) -> (r: Option<usize>)
        requires
            self.wf(),
        ensures
            r is Some <==> self.holds(blockno as int),
            r is Some ==> r->Some_0 == self.slot_of(blockno as int),
    {
        let mut i: usize = 0;
        while i < self.slots.len()
            invariant
                self.wf(),
                i <= self.slots@.len(),
                forall|j: int| 0 <= j < i ==> !(self.live(j) && self.entry(j).bno() == blockno),
            decreases self.slots@.len() - i,
        {
            match &self.slots[i] {
                Some(e) => {
                    if e.blockno == blockno {
                        proof {
                            self.lemma_slot_of(i as int);
                        }
                        return Some(i);
                    }
                },
                None => {},
            }
            i = i + 1;
        }
        None
    }

    /// The first free slot, if any.
    fn free_slot(&self) -> (r: Option<usize>)
        ensures
            r is Some ==> r->Some_0 < self.nslots() && !self.live(r->Some_0 as int),
    {
        let mut i: usize = 0;
        while i < self.slots.len()
            invariant
                i <= self.slots@.len(),
            decreases self.slots@.len() - i,
        {
            if self.slots[i].is_none() {
                return Some(i);
            }
            i = i + 1;
        }
        None
    }

    /// Returns the slot of the unique buffer for `blockno`, taking a
    /// reference to it. The block is read from `device` when no live buffer
    /// holds it.
    pub fn get_block_cache<D: BlockDevice>(&mut self, blockno: usize, device: &D) -> (idx: usize)
        requires
            old(self).wf(),
            blockno < device.blocks().len(),
            blocks_ok(device.blocks()),
            old(self).holds(blockno as int) ==> old(self).entry(
                old(self).slot_of(blockno as int),
            ).refs() < usize::MAX,
        ensures
            final(self).wf(),
            final(self).dev_id() == old(self).dev_id(),
            final(self).live(idx as int),
            final(self).entry(idx as int).bno() == blockno,
            final(self).entry(idx as int)@ == old(self).content(device.blocks(), blockno as int),
            old(self).holds(blockno as int) ==> {
                &&& idx == old(self).slot_of(blockno as int)
                &&& final(self).entry(idx as int).refs() == old(self).entry(idx as int).refs() + 1
            },
            !old(self).holds(blockno as int) ==> {
                &&& !old(self).live(idx as int)
                &&& final(self).entry(idx as int).refs() == 1
            },
            final(self).others_same(old(self), idx as int),
    {
        match self.find(blockno) {
            Some(i) => {
                let e = self.buffer_mut(i);
                e.refcnt = e.refcnt + 1;
                proof {
                    self.lemma_update_wf(old(self), i as int);
                }
                i
            },
            None => {
                let mut e = BlockCache::new(blockno, self.dev, device);
                e.refcnt = 1;
                match self.free_slot() {
                    Some(i) => {
                        self.slots.set(i, Some(e));
                        proof {
                            self.lemma_set_wf(old(self), i as int);
                        }
                        i
                    },
                    None => {
                        self.slots.push(Some(e));
                        proof {
                            self.lemma_set_wf(old(self), old(self).nslots() as int);
                        }
                        self.slots.len() - 1
                    },
                }
            },
        }
    }

    /// Takes one more reference to the buffer in slot `idx`.
    pub fn pin(&mut self, idx: usize)
        requires
            old(self).wf(),
            old(self).live(idx as int),
            old(self).entry(idx as int).refs() < usize::MAX,
        ensures
            final(self).wf(),
            final(self).dev_id() == old(self).dev_id(),
            final(self).live(idx as int),
            final(self).entry(idx as int)@ == old(self).entry(idx as int)@,
            final(self).entry(idx as int).bno() == old(self).entry(idx as int).bno(),
            final(self).entry(idx as int).refs() == old(self).entry(idx as int).refs() + 1,
            final(self).others_same(old(self), idx as int),
    {
        let e = self.buffer_mut(idx);
        e.refcnt = e.refcnt + 1;
        proof {
            self.lemma_update_wf(old(self), idx as int);
        }
    }

    /// Drops one reference to the buffer in slot `idx`; the buffer is dropped
    /// with its last reference.
    pub fn release(&mut self, idx: usize)
        requires
            old(self).wf(),
            old(self).live(idx as int),
        ensures
            final(self).wf(),
            final(self).dev_id() == old(self).dev_id(),
            old(self).entry(idx as int).refs() == 1 ==> !final(self).live(idx as int),
            old(self).entry(idx as int).refs() > 1 ==> {
                &&& final(self).live(idx as int)
                &&& final(self).entry(idx as int)@ == old(self).entry(idx as int)@
                &&& final(self).entry(idx as int).bno() == old(self).entry(idx as int).bno()
                &&& final(self).entry(idx as int).refs() == old(self).entry(idx as int).refs() - 1
            },
            final(self).others_same(old(self), idx as int),
    {
        let n = self.buffer(idx).refcnt;
        if n == 1 {
            self.slots.set(idx, None);
        } else {
            let e = self.buffer_mut(idx);
            e.refcnt = e.refcnt - 1;
        }
        proof {
            if n != 1 {
                self.lemma_update_wf(old(self), idx as int);
            } else {
                self.lemma_set_wf(old(self), idx as int);
            }
        }
    }
}

} // verus!
