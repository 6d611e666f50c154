//! The block device: a fixed number of equal-sized blocks, read and written
//! whole and synchronously.
use vstd::prelude::*;
use crate::layout::BSIZE;

verus! {

/// Every block of `s` holds exactly `BSIZE` bytes.
pub open spec fn blocks_ok(s: Seq<Seq<u8>>) -> bool {
    forall|i: int| 0 <= i < s.len() ==> (#[trigger] s[i]).len() == BSIZE
}

/// A block of `BSIZE` zero bytes.
pub open spec fn zero_block() -> Seq<u8> {
    Seq::new(BSIZE as nat, |i: int| 0u8)
}

/// A synchronous, block-granular storage device.
pub trait BlockDevice {
    /// The contents of the device, block by block. Devices written outside
    /// the verified library (an image file) keep this default and are not
    /// modelled; verified code sees this function only abstractly.
    closed spec fn blocks(&self) -> Seq<Seq<u8>> {
        Seq::empty()
    }

    /// Every block write the device has taken, in order: the block number
    /// and the bytes written. Devices outside the verified library keep
    /// this default.
    closed spec fn history(&self) -> Seq<(int, Seq<u8>)> {
        Seq::empty()
    }

    /// Number of blocks of the device.
    fn num_blocks(&self) -> (r: usize)
        ensures
            r == self.blocks().len(),
    ;

    /// Copies block `blockno` into `buf`.
    fn read_block(&self, blockno: usize, buf: &mut [u8])
        requires
            blockno < self.blocks().len(),
            blocks_ok(self.blocks()),
            old(buf)@.len() == BSIZE,
        ensures
            final(buf)@ == self.blocks()[blockno as int],
    ;

    /// Replaces block `blockno` with the bytes of `buf`.
    fn write_block(&mut self, blockno: usize, buf: &[u8])
        requires
            blockno < old(self).blocks().len(),
            buf@.len() == BSIZE,
        ensures
            final(self).blocks() == old(self).blocks().update(blockno as int, buf@),
            final(self).history() == old(self).history().push((blockno as int, buf@)),
    ;
}

/// A device held in memory.
pub struct RamDisk {
    data: Vec<Vec<u8>>,
    writes: Ghost<Seq<(int, Seq<u8>)>>,
}

/// A zero-filled buffer of one block.
pub fn zeroed_block() -> (r: Vec<u8>)
    ensures
        r@ == zero_block(),
{
    let mut r: Vec<u8> = Vec::new();
    let mut i: usize = 0;
    while i < BSIZE
        invariant
            i <= BSIZE,
            r@ == Seq::new(i as nat, |j: int| 0u8),
        decreases BSIZE - i,
    {
        r.push(0u8);
        i = i + 1;
        assert(r@ =~= Seq::new(i as nat, |j: int| 0u8));
    }
    r
}

impl RamDisk {
    /// A device of `nblocks` zero-filled blocks.
    pub fn new(nblocks: usize) -> (r: RamDisk)
        ensures
            r.blocks() == Seq::new(nblocks as nat, |i: int| zero_block()),
            r.history() == Seq::<(int, Seq<u8>)>::empty(),
    {
        let mut data: Vec<Vec<u8>> = Vec::new();
        let mut i: usize = 0;
        while i < nblocks
            invariant
                i <= nblocks,
                data@.len() == i,
                forall|j: int| 0 <= j < i ==> (#[trigger] data@[j])@ == zero_block(),
            decreases nblocks - i,
        {
            data.push(zeroed_block());
            i = i + 1;
        }
        let r = RamDisk { data, writes: Ghost(Seq::empty()) };
        assert(r.blocks() =~= Seq::new(nblocks as nat, |i: int| zero_block()));
        r
    }

    /// Number of blocks of the device.
    pub fn len(&self) -> (r: usize)
        ensures
            r == self.blocks().len(),
    {
        self.data.len()
    }
}

impl BlockDevice for RamDisk {
    closed spec fn blocks(&self) -> Seq<Seq<u8>> {
        self.data@.map_values(|b: Vec<u8>| b@)
    }

    closed spec fn history(&self) -> Seq<(int, Seq<u8>)> {
        self.writes@
    }

    fn num_blocks(&self) -> usize {
        self.data.len()
    }

    fn read_block(&self, blockno: usize, buf: &mut [u8]) {
        let src = &self.data[blockno];
        assert(src@ == self.blocks()[blockno as int]);
        let n = buf.len();
        let mut i: usize = 0;
        while i < n
            invariant
                n == buf@.len(),
                n == BSIZE,
                i <= n,
                src@ == self.blocks()[blockno as int],
                src@.len() == BSIZE,
                forall|j: int| 0 <= j < i ==> buf@[j] == src@[j],
            decreases n - i,
        {
            buf[i] = src[i];
            i = i + 1;
        }
        assert(buf@ =~= src@);
    }

    fn write_block(&mut self, blockno: usize, buf: &[u8]) {
        let mut v: Vec<u8> = Vec::new();
        let mut i: usize = 0;
        while i < buf.len()
            invariant
                i <= buf@.len(),
                v@ == buf@.take(i as int),
            decreases buf@.len() - i,
        {
            v.push(buf[i]);
            i = i + 1;
            assert(v@ =~= buf@.take(i as int));
        }
        assert(v@ =~= buf@);
        self.data.set(blockno, v);
        self.writes = Ghost(self.writes@.push((blockno as int, buf@)));
        assert(self.blocks() =~= old(self).blocks().update(blockno as int, buf@));
    }
}

} // verus!
