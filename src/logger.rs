//! The transaction manager: a write-ahead redo log with group commit.
//!
//! Operations run between `begin_op` and `end_op`. Each block an operation
//! dirties is registered with `log_write`, which pins its buffer in the
//! cache. When the last outstanding operation ends, the group is committed:
//! the buffers are copied to the log data blocks, the header naming their
//! homes is written (the commit point), the buffers are installed at their
//! homes, and the header is cleared.
use vstd::prelude::*;
use crate::block_cache::{BlockCache, BlockCacheManager};
use crate::device::{BlockDevice, blocks_ok, zeroed_block};
use crate::error::FsError;
use crate::journal::{
    lemma_last_write_concat, lemma_last_write_single, lemma_last_write_unique,
    BlockWrite, header_home, header_homes, header_valid, homes_ok, last_write, lemma_apply_at,
    lemma_last_write_none, lemma_recover_idempotent, recover, recovery_writes, apply, commit_writes, entries_ok, header_block, header_count, header_fill,
    homes_of, in_log, install_writes, lemma_apply_blocks_ok, lemma_apply_concat,
    lemma_apply_len, lemma_apply_step, lemma_header_roundtrip, log_fits, log_writes,
};
use crate::layout::{BSIZE, LOGSIZE, MAXOPBLOCKS, le_u32, write_u32};

verus! {

/// The group after registering block `b` through cache slot `s`: a block
/// already in the group is absorbed, any other is appended.
pub open spec fn table_after_write(t: Seq<(usize, usize)>, b: usize, s: usize) -> Seq<(usize, usize)> {
    if exists|i: int| 0 <= i < t.len() && #[trigger] t[i].0 == b {
        t
    } else {
        t.push((b, s))
    }
}

/// Absorption: registering the same block twice in one transaction leaves
/// the group as registering it once does.
pub proof fn lemma_absorption(t: Seq<(usize, usize)>, b: usize, s: usize)
    ensures
        table_after_write(table_after_write(t, b, s), b, s) == table_after_write(t, b, s),
{
    let t1 = table_after_write(t, b, s);
    if !(exists|i: int| 0 <= i < t.len() && #[trigger] t[i].0 == b) {
        assert(t1[t.len() as int].0 == b);
    }
}

/// Admission control: when `begin_op` admits an operation, the group has
/// room for `MAXOPBLOCKS` more blocks from each outstanding operation; so
/// if each adds at most `MAXOPBLOCKS` blocks (`added[k]` for operation `k`),
/// the group never exceeds `LOGSIZE` blocks.
pub proof fn lemma_admission_bound(len: nat, outstanding: nat, added: Seq<nat>)
    requires
        len + outstanding * MAXOPBLOCKS <= LOGSIZE,
        added.len() == outstanding,
        forall|k: int| 0 <= k < added.len() ==> #[trigger] added[k] <= MAXOPBLOCKS,
    ensures
        len + added.fold_left(0nat, |acc: nat, a: nat| acc + a) <= LOGSIZE,
    decreases added.len(),
{
    if added.len() > 0 {
        let init = added.drop_last();
        assert forall|k: int| 0 <= k < init.len() implies #[trigger] init[k] <= MAXOPBLOCKS by {
            assert(init[k] == added[k]);
        }
        lemma_admission_bound((len + MAXOPBLOCKS) as nat, (outstanding - 1) as nat, init);
        assert((outstanding - 1) as nat * MAXOPBLOCKS + MAXOPBLOCKS == outstanding * MAXOPBLOCKS) by (nonlinear_arith)
            requires
                outstanding >= 1,
        ;
        assert(added.last() <= MAXOPBLOCKS);
    }
}

/// The in-memory state of the log.
pub struct LogManager {
    start: usize,
    size: usize,
    nblocks: usize,
    outstanding: usize,
    table: Vec<(usize, usize)>,
}

impl LogManager {
    /// Block number of the log header.
    pub closed spec fn start(&self) -> int {
        self.start as int
    }

    /// Number of log data blocks.
    pub closed spec fn size(&self) -> int {
        self.size as int
    }

    /// Number of blocks of the device.
    pub closed spec fn nblocks(&self) -> int {
        self.nblocks as int
    }

    /// Number of operations inside a transaction.
    pub closed spec fn outstanding(&self) -> int {
        self.outstanding as int
    }

    /// The current group: home block and cache slot of each dirtied buffer,
    /// in the order they were first logged.
    pub closed spec fn table(&self) -> Seq<(usize, usize)> {
        self.table@
    }

    pub open spec fn homes(&self) -> Seq<int> {
        self.table().map_values(|e: (usize, usize)| e.0 as int)
    }

    /// Block `b` is in the current group.
    pub open spec fn has_home(&self, b: int) -> bool {
        exists|i: int| 0 <= i < self.table().len() && #[trigger] self.table()[i].0 == b
    }

    /// The group holds `old`'s entries first, in order.
    pub open spec fn grows_from(&self, old: &LogManager) -> bool {
        &&& self.table().len() >= old.table().len()
        &&& forall|i: int| 0 <= i < old.table().len() ==> #[trigger] self.table()[i] == old.table()[i]
    }

    /// A block in the group stays there while the group grows.
    pub proof fn lemma_grows_home(&self, old: &LogManager, b: int)
        requires
            self.grows_from(old),
            old.has_home(b),
        ensures
            self.has_home(b),
    {
        let i = choose|i: int| 0 <= i < old.table().len() && #[trigger] old.table()[i].0 == b;
        assert(self.table()[i] == old.table()[i]);
    }

    pub proof fn lemma_grows_trans(&self, mid: &LogManager, old: &LogManager)
        requires
            self.grows_from(mid),
            mid.grows_from(old),
        ensures
            self.grows_from(old),
    {
        assert forall|i: int| 0 <= i < old.table().len() implies #[trigger] self.table()[i] == old.table()[i] by {
            assert(mid.table()[i] == old.table()[i]);
        }
    }

    /// Slot `s` of the cache is pinned by the current group.
    pub open spec fn pins(&self, s: int) -> bool {
        exists|i: int| 0 <= i < self.table().len() && #[trigger] self.table()[i].1 == s
    }

    /// The group as block writes: each home with the bytes of its buffer.
    pub open spec fn entries(&self, cache: &BlockCacheManager) -> Seq<BlockWrite> {
        Seq::new(
            self.table().len(),
            |i: int| (self.table()[i].0 as int, cache.entry(self.table()[i].1 as int)@),
        )
    }

    /// The log and the cache agree: every entry names a distinct home block
    /// outside the log region, whose live buffer it pins.
    pub open spec fn wf(&self, cache: &BlockCacheManager) -> bool {
        &&& cache.wf()
        &&& 0 <= self.size() <= LOGSIZE
        &&& self.start() + 1 + self.size() <= self.nblocks() <= u32::MAX
        &&& self.table().len() <= self.size()
        &&& forall|i: int, j: int|
            0 <= i < self.table().len() && 0 <= j < self.table().len() && #[trigger] self.table()[i].0
                == #[trigger] self.table()[j].0 ==> i == j
        &&& forall|i: int|
            0 <= i < self.table().len() ==> {
                let (h, s) = #[trigger] self.table()[i];
                &&& h < self.nblocks()
                &&& !in_log(self.start(), self.size(), h as int)
                &&& cache.live(s as int)
                &&& cache.entry(s as int).bno() == h
            }
    }

    pub proof fn lemma_outstanding_nonneg(&self)
        ensures
            self.outstanding() >= 0,
    {
    }

    /// The group never holds more than `LOGSIZE` blocks.
    pub proof fn lemma_table_bound(&self, cache: &BlockCacheManager)
        requires
            self.wf(cache),
        ensures
            self.table().len() <= self.size() <= LOGSIZE,
    {
    }

    /// The device matches the log: the right size, and an empty header.
    pub open spec fn disk_ok(&self, disk: Seq<Seq<u8>>) -> bool {
        &&& disk.len() == self.nblocks()
        &&& log_fits(disk, self.start(), self.size())
        &&& header_count(disk[self.start()]) == 0
    }

    pub proof fn lemma_entries_ok(&self, cache: &BlockCacheManager, disk: Seq<Seq<u8>>)
        requires
            self.wf(cache),
            self.disk_ok(disk),
        ensures
            entries_ok(disk, self.start(), self.size(), self.entries(cache)),
            homes_of(self.entries(cache)) == self.homes(),
            forall|i: int|
                0 <= i < self.table().len() ==> 0 <= #[trigger] self.homes()[i] <= u32::MAX,
    {
        let e = self.entries(cache);
        assert(homes_of(e) =~= self.homes());
        assert forall|i: int| 0 <= i < e.len() implies (#[trigger] e[i]).1.len() == BSIZE by {
            assert(cache.live(self.table()[i].1 as int));
        }
    }

    /// Copies each buffer of the group into its log data block.
    fn write_log<D: BlockDevice>(&self, cache: &BlockCacheManager, device: &mut D)
        requires
            self.wf(cache),
            self.disk_ok(old(device).blocks()),
        ensures
            final(device).blocks() == apply(
                old(device).blocks(),
                log_writes(self.start(), self.entries(cache)),
            ),
            final(device).history() == old(device).history() + log_writes(self.start(), self.entries(cache)),
    {
        let ghost d0 = device.blocks();
        let ghost h0 = device.history();
        let ghost ws = log_writes(self.start(), self.entries(cache));
        let mut i: usize = 0;
        while i < self.table.len()
            invariant
                self.wf(cache),
                self.disk_ok(d0),
                i <= self.table@.len(),
                ws == log_writes(self.start(), self.entries(cache)),
                device.blocks() == apply(d0, ws.take(i as int)),
                device.history() == h0 + ws.take(i as int),
            decreases self.table@.len() - i,
        {
            let (_, slot) = self.table[i];
            let buf = cache.buffer(slot);
            proof {
                lemma_apply_len(d0, ws.take(i as int));
                lemma_apply_step(d0, ws, i as int);
            }
            device.write_block(self.start + 1 + i, buf.data());
            proof {
                assert(device.history() =~= h0 + ws.take(i + 1));
            }
            i = i + 1;
        }
        assert(ws.take(i as int) =~= ws);
    }

    /// The header block recording the first `n` homes of the group.
    fn head_block(&self, n: usize) -> (r: Vec<u8>)
        requires
            n <= self.table().len(),
            self.table().len() <= LOGSIZE,
            forall|i: int| 0 <= i < self.table().len() ==> (#[trigger] self.table()[i]).0 <= u32::MAX,
        ensures
            r@ == header_block(self.homes().take(n as int)),
    {
        let ghost homes = self.homes().take(n as int);
        let mut buf = zeroed_block();
        write_u32(&mut buf, 0, n as u32);
        let mut i: usize = 0;
        while i < n
            invariant
                i <= n,
                n <= self.table().len() <= LOGSIZE,
                forall|i: int| 0 <= i < self.table().len() ==> (#[trigger] self.table()[i]).0 <= u32::MAX,
                homes == self.homes().take(n as int),
                buf@.len() == BSIZE,
                buf@ == header_fill(homes, i as int),
            decreases n - i,
        {
            let (h, _) = self.table[i];
            write_u32(&mut buf, 4 + 4 * i, h as u32);
            assert(homes[i as int] == h);
            i = i + 1;
        }
        buf
    }

    /// Installs each buffer of the group at its home block.
    fn install_trans<D: BlockDevice>(&self, cache: &BlockCacheManager, device: &mut D)
        requires
            self.wf(cache),
            old(device).blocks().len() == self.nblocks(),
        ensures
            final(device).blocks() == apply(
                old(device).blocks(),
                install_writes(self.entries(cache)),
            ),
            final(device).history() == old(device).history() + install_writes(self.entries(cache)),
    {
        let ghost d0 = device.blocks();
        let ghost h0 = device.history();
        let ghost ws = install_writes(self.entries(cache));
        let mut i: usize = 0;
        while i < self.table.len()
            invariant
                self.wf(cache),
                d0.len() == self.nblocks(),
                i <= self.table@.len(),
                ws == install_writes(self.entries(cache)),
                device.blocks() == apply(d0, ws.take(i as int)),
                device.history() == h0 + ws.take(i as int),
            decreases self.table@.len() - i,
        {
            let (_, slot) = self.table[i];
            let buf = cache.buffer(slot);
            proof {
                lemma_apply_len(d0, ws.take(i as int));
                lemma_apply_step(d0, ws, i as int);
            }
            buf.write(device);
            proof {
                assert(device.history() =~= h0 + ws.take(i + 1));
            }
            i = i + 1;
        }
        assert(ws.take(i as int) =~= ws);
    }

    /// Drops the group's pins on its buffers and empties the group.
    fn unpin_all(&mut self, cache: &mut BlockCacheManager)
        requires
            old(self).wf(old(cache)),
        ensures
            final(self).table().len() == 0,
            final(self).start() == old(self).start(),
            final(self).size() == old(self).size(),
            final(self).nblocks() == old(self).nblocks(),
            final(self).outstanding() == old(self).outstanding(),
            final(self).wf(final(cache)),
            final(cache).dev_id() == old(cache).dev_id(),
            final(cache).nslots() >= old(cache).nslots(),
            forall|j: int| #[trigger] final(cache).live(j) ==> old(cache).live(j) && final(cache).entry(j)@
                == old(cache).entry(j)@ && final(cache).entry(j).bno() == old(cache).entry(j).bno(),
            forall|j: int| #[trigger] old(cache).live(j) && !old(self).pins(j) ==> final(cache).live(j)
                && final(cache).entry(j) == old(cache).entry(j),
            forall|j: int| #[trigger] old(self).pins(j) && old(cache).entry(j).refs() > 1 ==> final(cache).live(j)
                && final(cache).entry(j).refs() == old(cache).entry(j).refs() - 1,
            forall|j: int| #[trigger] old(self).pins(j) && old(cache).entry(j).refs() == 1 ==> !final(cache).live(j),
    {
        let ghost c0 = *cache;
        let mut i: usize = 0;
        while i < self.table.len()
            invariant
                self.wf(&c0),
                *self == *old(self),
                cache.wf(),
                cache.dev_id() == c0.dev_id(),
                cache.nslots() >= c0.nslots(),
                i <= self.table@.len(),
                forall|j: int| #[trigger] cache.live(j) ==> c0.live(j) && cache.entry(j)@
                    == c0.entry(j)@ && cache.entry(j).bno() == c0.entry(j).bno(),
                forall|j: int| #[trigger] c0.live(j) && !self.pins(j) ==> cache.live(j)
                    && cache.entry(j) == c0.entry(j),
                forall|m: int| i <= m < self.table@.len() ==> cache.live(#[trigger] self.table@[m].1 as int)
                    && cache.entry(self.table@[m].1 as int) == c0.entry(self.table@[m].1 as int),
                forall|m: int| 0 <= m < i && c0.entry(#[trigger] self.table@[m].1 as int).refs() == 1
                    ==> !cache.live(self.table@[m].1 as int),
                forall|m: int| 0 <= m < i && c0.entry(#[trigger] self.table@[m].1 as int).refs() > 1
                    ==> cache.live(self.table@[m].1 as int)
                    && cache.entry(self.table@[m].1 as int).refs() == c0.entry(self.table@[m].1 as int).refs() - 1,
            decreases self.table@.len() - i,
        {
            let (_, slot) = self.table[i];
            cache.release(slot);
            proof {
                assert forall|m: int| i < m < self.table@.len() implies self.table@[m].1 != slot by {
                    assert(self.table@[m].0 != self.table@[i as int].0);
                    assert(c0.entry(self.table@[m].1 as int).bno() == self.table@[m].0);
                }
                assert forall|m: int| 0 <= m < i implies self.table@[m].1 != slot by {
                    assert(self.table@[m].0 != self.table@[i as int].0);
                    assert(c0.entry(self.table@[m].1 as int).bno() == self.table@[m].0);
                }
                assert forall|j: int| #[trigger] c0.live(j) && !self.pins(j) implies cache.live(j)
                    && cache.entry(j) == c0.entry(j) by {
                    if j == slot {
                        assert(self.table@[i as int].1 == j);
                    }
                }
            }
            i = i + 1;
        }
        proof {
            assert forall|j: int| #[trigger] old(self).pins(j) && c0.entry(j).refs() > 1 implies cache.live(j)
                && cache.entry(j).refs() == c0.entry(j).refs() - 1 by {
                let m = choose|m: int| 0 <= m < self.table@.len() && #[trigger] self.table@[m].1 == j;
                assert(c0.entry(self.table@[m].1 as int).refs() > 1);
            }
            assert forall|j: int| #[trigger] old(self).pins(j) && c0.entry(j).refs() == 1 implies !cache.live(j) by {
                let m = choose|m: int| 0 <= m < self.table@.len() && #[trigger] self.table@[m].1 == j;
                assert(c0.entry(self.table@[m].1 as int).refs() == 1);
            }
        }
        self.table.clear();
    }

    /// Commits the group: write_log, the header (the commit point),
    /// install_trans, and the empty header; then unpins the buffers.
    fn commit<D: BlockDevice>(&mut self, cache: &mut BlockCacheManager, device: &mut D)
        requires
            old(self).wf(old(cache)),
            old(self).disk_ok(old(device).blocks()),
        ensures
            final(device).blocks() == apply(
                old(device).blocks(),
                commit_writes(old(self).start(), old(self).entries(old(cache))),
            ),
            final(device).history() == old(device).history() + commit_writes(old(self).start(), old(self).entries(old(cache))),
            final(self).table().len() == 0,
            final(self).start() == old(self).start(),
            final(self).size() == old(self).size(),
            final(self).nblocks() == old(self).nblocks(),
            final(self).outstanding() == old(self).outstanding(),
            final(self).wf(final(cache)),
            final(self).disk_ok(final(device).blocks()),
            final(cache).dev_id() == old(cache).dev_id(),
            forall|j: int| #[trigger] final(cache).live(j) ==> old(cache).live(j) && final(cache).entry(j)@
                == old(cache).entry(j)@ && final(cache).entry(j).bno() == old(cache).entry(j).bno(),
            forall|j: int| #[trigger] old(cache).live(j) && !old(self).pins(j) ==> final(cache).live(j)
                && final(cache).entry(j) == old(cache).entry(j),
            forall|j: int| #[trigger] old(self).pins(j) && old(cache).entry(j).refs() > 1 ==> final(cache).live(j)
                && final(cache).entry(j).refs() == old(cache).entry(j).refs() - 1,
            forall|j: int| #[trigger] old(self).pins(j) && old(cache).entry(j).refs() == 1 ==> !final(cache).live(j),
    {
        let ghost d0 = device.blocks();
        let ghost h0 = device.history();
        let ghost e = self.entries(cache);
        proof {
            self.lemma_entries_ok(cache, d0);
        }
        if self.table.len() > 0 {
            let ghost homes = self.homes();
            self.write_log(cache, device);
            let ghost d1 = device.blocks();
            proof {
                lemma_apply_len(d0, log_writes(self.start(), e));
                assert(self.homes().take(self.table@.len() as int) =~= homes);
                lemma_header_roundtrip(homes);
            }
            let head = self.head_block(self.table.len());
            device.write_block(self.start, head.as_slice());
            let ghost d2 = device.blocks();
            proof {
                let w = seq![(self.start(), header_block(homes))];
                assert(w.drop_last() =~= Seq::<BlockWrite>::empty());
                assert(apply(d1, w.drop_last()) == d1);
                assert(w.last() == (self.start(), header_block(homes)));
                assert(d2 == apply(d1, w));
            }
            self.install_trans(cache, device);
            let ghost d3 = device.blocks();
            let empty = self.head_block(0);
            proof {
                assert(self.homes().take(0) =~= Seq::<int>::empty());
                lemma_apply_len(d2, install_writes(e));
            }
            device.write_block(self.start, empty.as_slice());
            proof {
                let w = seq![(self.start(), header_block(Seq::<int>::empty()))];
                assert(w.drop_last() =~= Seq::<BlockWrite>::empty());
                assert(apply(d3, w.drop_last()) == d3);
                assert(w.last() == (self.start(), header_block(Seq::<int>::empty())));
                assert(device.blocks() == apply(d3, w));
                lemma_apply_concat(d0, log_writes(self.start(), e), seq![(self.start(), header_block(homes))]);
                let a = log_writes(self.start(), e) + seq![(self.start(), header_block(homes))];
                lemma_apply_concat(d0, a, install_writes(e));
                lemma_apply_concat(d0, a + install_writes(e), w);
                assert(homes_of(e) == homes);
                assert(a + install_writes(e) + w == commit_writes(self.start(), e));
                lemma_header_roundtrip(Seq::<int>::empty());
                lemma_apply_len(d0, commit_writes(self.start(), e));
                let c = commit_writes(self.start(), e);
                assert forall|i: int| 0 <= i < c.len() implies (#[trigger] c[i]).1.len() == BSIZE by {
                    let n = e.len() as int;
                    if i < n {
                        assert(c[i] == log_writes(self.start(), e)[i]);
                    } else if n + 1 <= i < 2 * n + 1 {
                        assert(c[i] == e[i - n - 1]);
                    } else if i == n {
                        lemma_header_roundtrip(homes);
                    }
                }
                lemma_apply_blocks_ok(d0, c);
                assert(device.history() =~= h0 + c);
            }
        } else {
            proof {
                assert(e.len() == 0);
                assert(commit_writes(self.start(), e) =~= Seq::<BlockWrite>::empty());
                assert(h0 + commit_writes(self.start(), e) =~= h0);
            }
        }
        self.unpin_all(cache);
    }

    /// Block number of the log header.
    pub fn start_block(&self) -> (r: usize)
        ensures
            r == self.start(),
    {
        self.start
    }

    /// Number of blocks of the device.
    pub fn nblocks_exec(&self) -> (r: usize)
        ensures
            r == self.nblocks(),
    {
        self.nblocks
    }

    /// Number of log data blocks.
    pub fn capacity(&self) -> (r: usize)
        ensures
            r == self.size(),
    {
        self.size
    }

    /// Number of operations inside a transaction.
    pub fn num_outstanding(&self) -> (r: usize)
        ensures
            r == self.outstanding(),
    {
        self.outstanding
    }

    /// Number of blocks in the current group.
    pub fn pending(&self) -> (r: usize)
        ensures
            r == self.table().len(),
    {
        self.table.len()
    }

    /// Registers the buffer in slot `idx`, which caches block `blockno`, with
    /// the current group. A block already in the group is absorbed: nothing
    /// changes. Otherwise the entry is appended and the log pins the buffer.
    pub fn log_write(&mut self, blockno: usize, idx: usize, cache: &mut BlockCacheManager)
        requires
            old(self).wf(old(cache)),
            old(self).outstanding() > 0,
            old(self).table().len() < old(self).size(),
            old(cache).live(idx as int),
            old(cache).entry(idx as int).bno() == blockno,
            old(cache).entry(idx as int).refs() < usize::MAX,
            blockno < old(self).nblocks(),
            !in_log(old(self).start(), old(self).size(), blockno as int),
        ensures
            final(self).wf(final(cache)),
            final(self).start() == old(self).start(),
            final(self).size() == old(self).size(),
            final(self).nblocks() == old(self).nblocks(),
            final(self).outstanding() == old(self).outstanding(),
            final(self).has_home(blockno as int),
            final(self).table() == table_after_write(old(self).table(), blockno, idx),
            final(self).table().len() <= old(self).table().len() + 1,
            old(self).has_home(blockno as int) ==> {
                &&& final(self).table() == old(self).table()
                &&& *final(cache) == *old(cache)
            },
            !old(self).has_home(blockno as int) ==> {
                &&& final(self).table() == old(self).table().push((blockno, idx))
                &&& final(cache).live(idx as int)
                &&& final(cache).entry(idx as int)@ == old(cache).entry(idx as int)@
                &&& final(cache).entry(idx as int).bno() == blockno
                &&& final(cache).entry(idx as int).refs() == old(cache).entry(idx as int).refs() + 1
                &&& final(cache).others_same(old(cache), idx as int)
                &&& final(cache).dev_id() == old(cache).dev_id()
            },
    {
        let mut i: usize = 0;
        while i < self.table.len()
            invariant
                *self == *old(self),
                *cache == *old(cache),
                old(self).wf(old(cache)),
                i <= self.table@.len(),
                forall|m: int| 0 <= m < i ==> (#[trigger] self.table@[m]).0 != blockno,
            decreases self.table@.len() - i,
        {
            if self.table[i].0 == blockno {
                proof {
                    assert(self.table()[i as int].0 == blockno);
                    assert(self.has_home(blockno as int));
                }
                return;
            }
            i = i + 1;
        }
        cache.pin(idx);
        self.table.push((blockno, idx));
        proof {
            let t = self.table@;
            assert(t[t.len() - 1].0 == blockno);
            assert(self.table()[t.len() - 1].0 == blockno);
            assert forall|m: int| 0 <= m < t.len() - 1 implies cache.live(#[trigger] t[m].1 as int)
                && cache.entry(t[m].1 as int).bno() == t[m].0 by {
                assert(t[m] == old(self).table@[m]);
                if t[m].1 == idx {
                    assert(old(cache).entry(idx as int).bno() == t[m].0);
                }
            }
        }
    }

    /// Enters an operation if the log has room for it: room for
    /// `MAXOPBLOCKS` more blocks from each outstanding operation and this
    /// one. Otherwise nothing changes and the caller waits for a commit.
    pub fn begin_op(&mut self) -> (admitted: bool)
        ensures
            admitted == (old(self).table().len() + (old(self).outstanding() + 1) * MAXOPBLOCKS
                <= LOGSIZE),
            admitted ==> final(self).outstanding() == old(self).outstanding() + 1,
            admitted ==> final(self).table().len() + final(self).outstanding() * MAXOPBLOCKS <= LOGSIZE,
            !admitted ==> final(self).outstanding() == old(self).outstanding(),
            final(self).table() == old(self).table(),
            final(self).start() == old(self).start(),
            final(self).size() == old(self).size(),
            final(self).nblocks() == old(self).nblocks(),
    {
        if self.table.len() > LOGSIZE {
            return false;
        }
        if self.outstanding >= LOGSIZE {
            proof {
                assert((self.outstanding + 1) * MAXOPBLOCKS > LOGSIZE) by (nonlinear_arith)
                    requires self.outstanding >= LOGSIZE;
            }
            return false;
        }
        if self.table.len() + (self.outstanding + 1) * MAXOPBLOCKS <= LOGSIZE {
            self.outstanding = self.outstanding + 1;
            true
        } else {
            false
        }
    }

    /// Leaves an operation. When the last outstanding operation leaves, the
    /// group is committed.
    pub fn end_op<D: BlockDevice>(&mut self, cache: &mut BlockCacheManager, device: &mut D)
        requires
            old(self).wf(old(cache)),
            old(self).disk_ok(old(device).blocks()),
            old(self).outstanding() > 0,
        ensures
            final(self).outstanding() == old(self).outstanding() - 1,
            final(self).start() == old(self).start(),
            final(self).size() == old(self).size(),
            final(self).nblocks() == old(self).nblocks(),
            final(self).wf(final(cache)),
            final(self).disk_ok(final(device).blocks()),
            old(self).outstanding() > 1 ==> {
                &&& final(self).table() == old(self).table()
                &&& *final(cache) == *old(cache)
                &&& final(device).blocks() == old(device).blocks()
                &&& final(device).history() == old(device).history()
            },
            old(self).outstanding() == 1 ==> {
                &&& final(device).blocks() == apply(
                    old(device).blocks(),
                    commit_writes(old(self).start(), old(self).entries(old(cache))),
                )
                &&& final(device).history() == old(device).history() + commit_writes(
                    old(self).start(),
                    old(self).entries(old(cache)),
                )
                &&& final(self).table().len() == 0
                &&& final(cache).dev_id() == old(cache).dev_id()
                &&& forall|j: int| #[trigger] final(cache).live(j) ==> old(cache).live(j)
                    && final(cache).entry(j)@ == old(cache).entry(j)@
                    && final(cache).entry(j).bno() == old(cache).entry(j).bno()
                &&& forall|j: int| #[trigger] old(cache).live(j) && !old(self).pins(j)
                    ==> final(cache).live(j) && final(cache).entry(j) == old(cache).entry(j)
                &&& forall|j: int| #[trigger] old(self).pins(j) && old(cache).entry(j).refs() > 1
                    ==> final(cache).live(j)
                    && final(cache).entry(j).refs() == old(cache).entry(j).refs() - 1
                &&& forall|j: int| #[trigger] old(self).pins(j) && old(cache).entry(j).refs() == 1
                    ==> !final(cache).live(j)
            },
    {
        self.outstanding = self.outstanding - 1;
        let ghost pre = *self;
        proof {
            assert(pre.table() == old(self).table());
            assert forall|j: int| #[trigger] old(self).pins(j) == pre.pins(j) by {
                if old(self).pins(j) {
                    let i = choose|i: int| 0 <= i < old(self).table().len() && #[trigger] old(self).table()[i].1 == j;
                    assert(pre.table()[i].1 == j);
                }
                if pre.pins(j) {
                    let i = choose|i: int| 0 <= i < pre.table().len() && #[trigger] pre.table()[i].1 == j;
                    assert(old(self).table()[i].1 == j);
                }
            }
            assert(pre.entries(cache) == old(self).entries(cache));
        }
        if self.outstanding == 0 {
            self.commit(cache, device);
        }
    }

    /// Mounts the log at `start`, with `size` data blocks, on `device`,
    /// running recovery: every block the header records is
    /// copied from the log to its home, then the header is cleared. A header
    /// that records more than `size` blocks, or a home outside the device or
    /// inside the log, is refused and nothing is written.
    pub fn new<D: BlockDevice>(
        start: usize,
        size: usize,
        cache: &mut BlockCacheManager,
        device: &mut D,
    ) -> (r: Result<LogManager, FsError>)
        requires
            log_fits(old(device).blocks(), start as int, size as int),
            old(cache).wf(),
            old(cache).is_empty(),
        ensures
            r is Ok <==> header_valid(old(device).blocks(), start as int, size as int),
            final(cache).wf(),
            final(cache).is_empty(),
            final(cache).dev_id() == old(cache).dev_id(),
            r is Err ==> r == Err::<LogManager, FsError>(FsError::Invariant) && final(device).blocks()
                == old(device).blocks() && final(device).history() == old(device).history(),
            r matches Ok(log) ==> {
                &&& log.start() == start
                &&& log.size() == size
                &&& log.nblocks() == old(device).blocks().len()
                &&& log.outstanding() == 0
                &&& log.table().len() == 0
                &&& log.wf(final(cache))
                &&& log.disk_ok(final(device).blocks())
                &&& final(device).blocks() == recover(old(device).blocks(), start as int)
                &&& final(device).history() == old(device).history() + recovery_writes(old(device).blocks(), start as int)
            },
    {
        let ghost d0 = device.blocks();
        let ghost h0 = device.history();
        let ghost hd = d0[start as int];
        let nblocks = device.num_blocks();
        let dev = cache.device_id();
        let head = BlockCache::new(start, dev, device);
        let n = head.get_u32(0);
        if n as usize > size {
            return Err(FsError::Invariant);
        }
        let n = n as usize;
        let mut homes: Vec<usize> = Vec::new();
        let mut i: usize = 0;
        while i < n
            invariant
                log_fits(d0, start as int, size as int),
                nblocks == d0.len(),
                hd == d0[start as int],
                d0 == old(device).blocks(),
                device.blocks() == d0,
                device.history() == h0,
                h0 == old(device).history(),
                *cache == *old(cache),
                cache.wf(),
                cache.is_empty(),
                n <= size <= LOGSIZE,
                n == header_count(hd),
                head@ == hd,
                hd.len() == BSIZE,
                i <= n,
                homes@.len() == i,
                forall|m: int| 0 <= m < i ==> #[trigger] homes@[m] == header_home(hd, m),
                forall|m: int| 0 <= m < i ==> #[trigger] homes@[m] < nblocks && !in_log(start as int, size as int, homes@[m] as int),
            decreases n - i,
        {
            let h = head.get_u32(4 + 4 * i) as usize;
            if h >= nblocks || (start <= h && h < start + 1 + size) {
                proof {
                    assert(header_homes(hd)[i as int] == h);
                }
                return Err(FsError::Invariant);
            }
            homes.push(h);
            i = i + 1;
        }
        proof {
            assert forall|m: int| 0 <= m < header_homes(hd).len() implies 0 <= #[trigger] header_homes(hd)[m] < d0.len()
                && !in_log(start as int, size as int, header_homes(hd)[m]) by {
                assert(homes@[m] == header_home(hd, m));
            }
            assert(header_valid(d0, start as int, size as int));
        }
        let ghost ri = Seq::new(n as nat, |m: int| (header_home(hd, m), d0[start + 1 + m]));
        let mut i: usize = 0;
        while i < n
            invariant
                log_fits(d0, start as int, size as int),
                n <= size <= LOGSIZE,
                nblocks == d0.len(),
                i <= n,
                homes@.len() == n,
                forall|m: int| 0 <= m < n ==> #[trigger] homes@[m] == header_home(hd, m),
                forall|m: int| 0 <= m < n ==> #[trigger] homes@[m] < nblocks && !in_log(start as int, size as int, homes@[m] as int),
                ri == Seq::new(n as nat, |m: int| (header_home(hd, m), d0[start + 1 + m])),
                device.blocks() == apply(d0, ri.take(i as int)),
                device.history() == h0 + ri.take(i as int),
                cache.wf(),
                cache.is_empty(),
                cache.dev_id() == dev,
            decreases n - i,
        {
            let ghost di = device.blocks();
            proof {
                let b = start + 1 + i;
                let ws = ri.take(i as int);
                assert forall|m: int| 0 <= m < ws.len() implies (#[trigger] ws[m]).0 != b by {
                    assert(ws[m] == ri[m]);
                    assert(homes@[m] == header_home(hd, m));
                }
                lemma_last_write_none(ws, b as int);
                lemma_apply_at(d0, ws, b as int);
                lemma_apply_len(d0, ws);
                assert forall|m: int| 0 <= m < ws.len() implies (#[trigger] ws[m]).1.len() == BSIZE by {
                    assert(ws[m] == ri[m]);
                }
                lemma_apply_blocks_ok(d0, ws);
            }
            let logged = BlockCache::new(start + 1 + i, dev, device);
            let home = homes[i];
            let idx = cache.get_block_cache(home, device);
            let ghost c1 = *cache;
            let buf = cache.buffer_mut(idx);
            BlockCache::memmove(buf, &logged);
            proof {
                cache.lemma_update_wf(&c1, idx as int);
            }
            cache.buffer(idx).write(device);
            cache.release(idx);
            proof {
                assert(ri[i as int] == (home as int, d0[start + 1 + i]));
                assert(device.history() =~= h0 + ri.take(i + 1));
                lemma_apply_step(d0, ri, i as int);
                assert forall|j: int| !#[trigger] cache.live(j) by {
                    if j != idx {
                        assert(!c1.live(j));
                    }
                }
            }
            i = i + 1;
        }
        let empty = LogManager { start, size, nblocks, outstanding: 0, table: Vec::new() };
        let clear = empty.head_block(0);
        let ghost d1 = device.blocks();
        proof {
            assert(ri.take(n as int) =~= ri);
            lemma_apply_len(d0, ri);
        }
        device.write_block(start, clear.as_slice());
        proof {
            assert(empty.homes().take(0) =~= Seq::<int>::empty());
            let w = seq![(start as int, header_block(Seq::<int>::empty()))];
            assert(w.drop_last() =~= Seq::<BlockWrite>::empty());
            assert(apply(d1, w.drop_last()) == d1);
            assert(ri.take(n as int) =~= ri);
            lemma_apply_len(d0, ri);
            assert(device.blocks() == apply(d1, w));
            lemma_apply_concat(d0, ri, w);
            assert(recovery_writes(d0, start as int) == ri + w);
            lemma_recover_idempotent(d0, start as int, size as int);
            lemma_header_roundtrip(Seq::<int>::empty());
            assert(device.history() =~= h0 + (ri + w));
        }
        Ok(empty)
    }

    /// Between operations the cache holds exactly the group's buffers, each
    /// with the log's reference alone.
    pub open spec fn quiescent(&self, cache: &BlockCacheManager) -> bool {
        forall|j: int| #[trigger] cache.live(j) ==> cache.entry(j).refs() == 1 && self.pins(j)
    }

    /// As `quiescent`, but the caller also holds the buffer in slot `idx`.
    pub open spec fn held(&self, cache: &BlockCacheManager, idx: int) -> bool {
        &&& cache.live(idx)
        &&& cache.entry(idx).refs() == if self.pins(idx) {
            2nat
        } else {
            1nat
        }
        &&& forall|j: int| j != idx && #[trigger] cache.live(j) ==> cache.entry(j).refs() == 1 && self.pins(j)
    }

    /// The group pins the slot of a live buffer exactly when its block is in
    /// the group.
    pub proof fn lemma_pins_home(&self, cache: &BlockCacheManager, idx: int)
        requires
            self.wf(cache),
            cache.live(idx),
        ensures
            self.pins(idx) <==> self.has_home(cache.entry(idx).bno()),
    {
        if self.has_home(cache.entry(idx).bno()) {
            let i = choose|i: int| 0 <= i < self.table().len() && #[trigger] self.table()[i].0 == cache.entry(idx).bno();
            let s = self.table()[i].1 as int;
            assert(cache.live(s) && cache.entry(s).bno() == cache.entry(idx).bno());
            assert(self.table()[i].1 == idx);
        }
        if self.pins(idx) {
            let i = choose|i: int| 0 <= i < self.table().len() && #[trigger] self.table()[i].1 == idx;
            assert(self.table()[i].0 == cache.entry(idx).bno());
        }
    }

    /// Takes a reference to the buffer for `blockno` between operations.
    pub fn acquire<D: BlockDevice>(&self, cache: &mut BlockCacheManager, blockno: usize, device: &D) -> (idx: usize)
        requires
            self.wf(old(cache)),
            self.quiescent(old(cache)),
            blockno < device.blocks().len(),
            blocks_ok(device.blocks()),
        ensures
            self.wf(final(cache)),
            self.held(final(cache), idx as int),
            final(cache).entry(idx as int).bno() == blockno,
            final(cache).entry(idx as int)@ == old(cache).content(device.blocks(), blockno as int),
            self.pins(idx as int) <==> self.has_home(blockno as int),
            !self.pins(idx as int) ==> final(cache).entry(idx as int)@ == device.blocks()[blockno as int],
            forall|x: int| 0 <= x < device.blocks().len() ==> #[trigger] final(cache).content(device.blocks(), x)
                == old(cache).content(device.blocks(), x),
            final(cache).others_same(old(cache), idx as int),
            final(cache).dev_id() == old(cache).dev_id(),
    {
        let ghost c0 = *cache;
        proof {
            if c0.holds(blockno as int) {
                let k = c0.slot_of(blockno as int);
                assert(c0.live(k));
            }
        }
        let idx = cache.get_block_cache(blockno, device);
        proof {
            let disk = device.blocks();
            if c0.holds(blockno as int) {
                c0.lemma_slot_of(idx as int);
            } else {
                assert forall|i: int| 0 <= i < self.table().len() implies (#[trigger] self.table()[i]).1 != idx by {
                    assert(c0.live(self.table()[i].1 as int));
                }
            }
            assert forall|i: int| 0 <= i < self.table().len() implies {
                let (h, s) = #[trigger] self.table()[i];
                &&& cache.live(s as int)
                &&& cache.entry(s as int).bno() == h
            } by {
                let s = self.table()[i].1 as int;
                assert(c0.live(s));
                if s == idx {
                    c0.lemma_slot_of(s);
                }
            }
            self.lemma_pins_home(cache, idx as int);
            assert forall|x: int| 0 <= x < disk.len() implies #[trigger] cache.content(disk, x)
                == c0.content(disk, x) by {
                if x == blockno {
                    cache.lemma_slot_of(idx as int);
                } else if c0.holds(x) {
                    let k = c0.slot_of(x);
                    c0.lemma_slot_of(k);
                    assert(cache.live(k) && cache.entry(k).bno() == x);
                    cache.lemma_slot_of(k);
                } else if cache.holds(x) {
                    let k = cache.slot_of(x);
                    assert(cache.live(k) && cache.entry(k).bno() == x);
                    assert(k != idx);
                    assert(c0.live(k));
                }
            }
        }
        idx
    }

    /// Outside block `b`, a change confined to slot `idx` (whose buffer, if
    /// live before or after, caches `b`) leaves what reads see unchanged.
    pub proof fn lemma_content_frame(
        new: &BlockCacheManager,
        old: &BlockCacheManager,
        idx: int,
        b: int,
        disk: Seq<Seq<u8>>,
    )
        requires
            new.wf(),
            old.wf(),
            new.others_same(old, idx),
            old.live(idx) ==> old.entry(idx).bno() == b,
            new.live(idx) ==> new.entry(idx).bno() == b,
        ensures
            forall|x: int| x != b ==> #[trigger] new.content(disk, x) == old.content(disk, x),
    {
        assert forall|x: int| x != b implies #[trigger] new.content(disk, x) == old.content(disk, x) by {
            if old.holds(x) {
                let k = old.slot_of(x);
                old.lemma_slot_of(k);
                assert(k != idx);
                assert(new.live(k) && new.entry(k).bno() == x);
                new.lemma_slot_of(k);
            } else if new.holds(x) {
                let k = new.slot_of(x);
                assert(new.live(k) && new.entry(k).bno() == x);
                assert(k != idx);
                assert(old.live(k));
            }
        }
    }

    /// Logs the held buffer in slot `idx` and drops the caller's reference.
    /// Reads of its block then see the buffer's bytes.
    pub fn write_release(&mut self, idx: usize, cache: &mut BlockCacheManager, Ghost(disk): Ghost<Seq<Seq<u8>>>)
        requires
            old(self).wf(old(cache)),
            old(self).held(old(cache), idx as int),
            old(self).outstanding() > 0,
            old(self).table().len() < old(self).size(),
            old(cache).entry(idx as int).bno() < old(self).nblocks(),
            !in_log(old(self).start(), old(self).size(), old(cache).entry(idx as int).bno()),
        ensures
            final(self).wf(final(cache)),
            final(self).quiescent(final(cache)),
            final(self).start() == old(self).start(),
            final(self).size() == old(self).size(),
            final(self).nblocks() == old(self).nblocks(),
            final(self).outstanding() == old(self).outstanding(),
            final(self).has_home(old(cache).entry(idx as int).bno()),
            final(self).grows_from(old(self)),
            old(self).pins(idx as int) ==> final(self).table() == old(self).table(),
            !old(self).pins(idx as int) ==> final(self).table() == old(self).table().push(
                (old(cache).entry(idx as int).bno() as usize, idx),
            ),
            final(cache).content(disk, old(cache).entry(idx as int).bno()) == old(cache).entry(idx as int)@,
            forall|x: int| x != old(cache).entry(idx as int).bno() ==> #[trigger] final(cache).content(disk, x)
                == old(cache).content(disk, x),
            final(cache).dev_id() == old(cache).dev_id(),
    {
        let ghost c0 = *cache;
        let bno = cache.buffer(idx).blockno();
        proof {
            self.lemma_pins_home(cache, idx as int);
        }
        self.log_write(bno, idx, cache);
        let ghost c1 = *cache;
        cache.release(idx);
        proof {
            assert(self.pins(idx as int)) by {
                let i = choose|i: int| 0 <= i < self.table().len() && #[trigger] self.table()[i].0 == bno;
                assert(c1.live(self.table()[i].1 as int));
                c1.lemma_slot_of(idx as int);
                c1.lemma_slot_of(self.table()[i].1 as int);
                assert(self.table()[i].1 == idx);
            }
            assert(cache.live(idx as int));
            assert forall|i: int| 0 <= i < self.table().len() implies {
                let (h, s) = #[trigger] self.table()[i];
                &&& cache.live(s as int)
                &&& cache.entry(s as int).bno() == h
            } by {
                let s = self.table()[i].1 as int;
                assert(c1.live(s));
            }
            assert forall|j: int| #[trigger] cache.live(j) implies cache.entry(j).refs() == 1 && self.pins(j) by {
                if j != idx {
                    assert(c0.live(j));
                    assert(old(self).pins(j));
                    let i = choose|i: int| 0 <= i < old(self).table().len() && #[trigger] old(self).table()[i].1 == j;
                    assert(self.table()[i] == old(self).table()[i]);
                }
            }
            cache.lemma_others_same_trans(&c1, &c0, idx as int);
            Self::lemma_content_frame(cache, &c0, idx as int, bno as int, disk);
            cache.lemma_slot_of(idx as int);
        }
    }

    /// Drops the caller's reference to the held buffer in slot `idx`, which
    /// it has not changed.
    pub fn release_clean(&self, idx: usize, cache: &mut BlockCacheManager, Ghost(disk): Ghost<Seq<Seq<u8>>>)
        requires
            self.wf(old(cache)),
            self.held(old(cache), idx as int),
            !self.pins(idx as int) ==> old(cache).entry(idx as int)@ == disk[old(cache).entry(idx as int).bno()],
        ensures
            self.wf(final(cache)),
            self.quiescent(final(cache)),
            forall|x: int| #[trigger] final(cache).content(disk, x) == old(cache).content(disk, x),
            final(cache).dev_id() == old(cache).dev_id(),
    {
        let ghost c0 = *cache;
        let ghost bno = c0.entry(idx as int).bno();
        cache.release(idx);
        proof {
            assert forall|i: int| 0 <= i < self.table().len() implies {
                let (h, s) = #[trigger] self.table()[i];
                &&& cache.live(s as int)
                &&& cache.entry(s as int).bno() == h
            } by {
                let s = self.table()[i].1 as int;
                assert(c0.live(s));
                if s == idx {
                    assert(self.pins(idx as int));
                }
            }
            assert forall|j: int| #[trigger] cache.live(j) implies cache.entry(j).refs() == 1 && self.pins(j) by {
                if j != idx {
                    assert(c0.live(j));
                }
            }
            Self::lemma_content_frame(cache, &c0, idx as int, bno, disk);
            c0.lemma_slot_of(idx as int);
            if cache.live(idx as int) {
                cache.lemma_slot_of(idx as int);
            } else if cache.holds(bno) {
                let k = cache.slot_of(bno);
                assert(cache.live(k) && cache.entry(k).bno() == bno);
                assert(c0.live(k));
                c0.lemma_slot_of(k);
            }
        }
    }

    /// Between operations, committing leaves an empty cache, and every block
    /// outside the log reads as it read before.
    pub proof fn lemma_commit_content(
        &self,
        cache: &BlockCacheManager,
        disk: Seq<Seq<u8>>,
        new_cache: &BlockCacheManager,
        new_disk: Seq<Seq<u8>>,
    )
        requires
            self.wf(cache),
            self.quiescent(cache),
            self.disk_ok(disk),
            new_cache.wf(),
            new_disk == apply(disk, commit_writes(self.start(), self.entries(cache))),
            forall|j: int| #[trigger] new_cache.live(j) ==> cache.live(j) && new_cache.entry(j)@
                == cache.entry(j)@ && new_cache.entry(j).bno() == cache.entry(j).bno(),
            forall|j: int| #[trigger] self.pins(j) && cache.entry(j).refs() == 1 ==> !new_cache.live(j),
        ensures
            new_cache.is_empty(),
            forall|b: int| 0 <= b < disk.len() && !in_log(self.start(), self.size(), b)
                ==> #[trigger] new_cache.content(new_disk, b) == cache.content(disk, b),
    {
        let e = self.entries(cache);
        let w = commit_writes(self.start(), e);
        self.lemma_entries_ok(cache, disk);
        assert forall|j: int| !#[trigger] new_cache.live(j) by {
            if new_cache.live(j) {
                assert(cache.live(j));
                assert(self.pins(j));
            }
        }
        assert forall|b: int| 0 <= b < disk.len() && !in_log(self.start(), self.size(), b)
            implies #[trigger] new_cache.content(new_disk, b) == cache.content(disk, b) by {
            assert(!new_cache.holds(b));
            lemma_apply_at(disk, w, b);
            let n = e.len() as int;
            if n > 0 {
                let big_l = log_writes(self.start(), e);
                let hdr = seq![(self.start(), header_block(homes_of(e)))];
                let emp = seq![(self.start(), header_block(Seq::<int>::empty()))];
                assert(w == big_l + hdr + e + emp);
                lemma_last_write_concat(big_l + hdr + e, emp, b);
                lemma_last_write_single((self.start(), header_block(Seq::<int>::empty())), b);
                lemma_last_write_concat(big_l + hdr, e, b);
                lemma_last_write_concat(big_l, hdr, b);
                lemma_last_write_single((self.start(), header_block(homes_of(e))), b);
                assert forall|i: int| 0 <= i < big_l.len() implies (#[trigger] big_l[i]).0 != b by {}
                lemma_last_write_none(big_l, b);
            } else {
                assert(w =~= Seq::<BlockWrite>::empty());
            }
            if self.has_home(b) {
                let i = choose|i: int| 0 <= i < self.table().len() && #[trigger] self.table()[i].0 == b;
                let s = self.table()[i].1 as int;
                assert(e[i] == (b, cache.entry(s)@));
                assert forall|m: int| 0 <= m < e.len() && m != i implies (#[trigger] e[m]).0 != b by {
                    assert(self.table()[m].0 != self.table()[i].0);
                }
                lemma_last_write_unique(e, b, i);
                cache.lemma_slot_of(s);
            } else {
                assert forall|m: int| 0 <= m < e.len() implies (#[trigger] e[m]).0 != b by {
                    assert(self.table()[m].0 == e[m].0);
                }
                lemma_last_write_none(e, b);
                if cache.holds(b) {
                    let k = cache.slot_of(b);
                    assert(cache.live(k) && cache.entry(k).bno() == b);
                    assert(self.pins(k));
                    let i = choose|i: int| 0 <= i < self.table().len() && #[trigger] self.table()[i].1 == k;
                    assert(self.table()[i].0 == b);
                }
            }
        }
    }
}

} // verus!
