//! The on-disk redo-log protocol, stated over sequences of block writes.
//!
//! A device state is a sequence of blocks. The log occupies a header block at
//! `start` followed by `size` data blocks. Commit is a fixed sequence of
//! single-block writes; recovery is a function of the device state alone.
//! The laws here say that a crash after any prefix of a commit recovers to
//! the state before the transaction or to the state after it, and that
//! recovery is idempotent.
use vstd::prelude::*;
use crate::device::{blocks_ok, zero_block};
use crate::layout::{BSIZE, LOGSIZE, le_u32, le_bytes_u32, splice, lemma_le_u32_bytes};

verus! {

/// One block write: the block number and the new contents.
pub type BlockWrite = (int, Seq<u8>);

/// The device after performing `ws` in order. Writes out of range are lost.
pub open spec fn apply(d: Seq<Seq<u8>>, ws: Seq<BlockWrite>) -> Seq<Seq<u8>>
    decreases ws.len(),
{
    if ws.len() == 0 {
        d
    } else {
        let d1 = apply(d, ws.drop_last());
        let w = ws.last();
        if 0 <= w.0 < d1.len() {
            d1.update(w.0, w.1)
        } else {
            d1
        }
    }
}

/// The contents written last to block `b` by `ws`, if any write targets it.
pub open spec fn last_write(ws: Seq<BlockWrite>, b: int) -> Option<Seq<u8>>
    decreases ws.len(),
{
    if ws.len() == 0 {
        None
    } else if ws.last().0 == b {
        Some(ws.last().1)
    } else {
        last_write(ws.drop_last(), b)
    }
}

/// The header block recording `homes`: the count at byte 0, then the home
/// block numbers, four little-endian bytes each; zero elsewhere.
pub open spec fn header_block(homes: Seq<int>) -> Seq<u8> {
    header_fill(homes, homes.len() as int)
}

/// The header block with the count and the first `k` homes filled in.
pub open spec fn header_fill(homes: Seq<int>, k: int) -> Seq<u8>
    decreases k,
{
    if k <= 0 {
        splice(zero_block(), 0, le_bytes_u32(homes.len() as u32))
    } else {
        splice(header_fill(homes, k - 1), 4 + 4 * (k - 1), le_bytes_u32(homes[k - 1] as u32))
    }
}

/// The number of entries a header block records.
pub open spec fn header_count(h: Seq<u8>) -> int {
    le_u32(h, 0)
}

/// The home block of entry `i` of a header block.
pub open spec fn header_home(h: Seq<u8>, i: int) -> int {
    le_u32(h, 4 + 4 * i)
}

/// The home blocks a header block records.
pub open spec fn header_homes(h: Seq<u8>) -> Seq<int> {
    Seq::new(header_count(h) as nat, |i: int| header_home(h, i))
}

/// Block `b` lies in the log region: the header or one of the data blocks.
pub open spec fn in_log(start: int, size: int, b: int) -> bool {
    start <= b < start + 1 + size
}

/// The log region fits the device and its header can name every data block.
pub open spec fn log_fits(d: Seq<Seq<u8>>, start: int, size: int) -> bool {
    &&& blocks_ok(d)
    &&& 0 <= start
    &&& 0 <= size <= LOGSIZE
    &&& start + 1 + size <= d.len()
    &&& d.len() <= u32::MAX
}

/// `homes` may be recorded in the log: no more than `size` of them, each a
/// block of the device outside the log region.
pub open spec fn homes_ok(d: Seq<Seq<u8>>, start: int, size: int, homes: Seq<int>) -> bool {
    &&& homes.len() <= size
    &&& forall|i: int|
        0 <= i < homes.len() ==> 0 <= #[trigger] homes[i] < d.len() && !in_log(start, size, homes[i])
}

/// Recovery can act on `d`: the header records homes that may be logged.
pub open spec fn header_valid(d: Seq<Seq<u8>>, start: int, size: int) -> bool {
    &&& log_fits(d, start, size)
    &&& header_count(d[start]) <= size
    &&& homes_ok(d, start, size, header_homes(d[start]))
}

/// The writes of recovery: each logged block to its home, then the empty
/// header.
pub open spec fn recovery_writes(d: Seq<Seq<u8>>, start: int) -> Seq<BlockWrite> {
    let h = d[start];
    Seq::new(header_count(h) as nat, |i: int| (header_home(h, i), d[start + 1 + i]))
        + seq![(start, header_block(Seq::empty()))]
}

/// The device after recovery.
pub open spec fn recover(d: Seq<Seq<u8>>, start: int) -> Seq<Seq<u8>> {
    apply(d, recovery_writes(d, start))
}

/// The writes that copy each entry's bytes into its log data block.
pub open spec fn log_writes(start: int, entries: Seq<BlockWrite>) -> Seq<BlockWrite> {
    Seq::new(entries.len(), |i: int| (start + 1 + i, entries[i].1))
}

/// The writes that install each entry at its home block.
pub open spec fn install_writes(entries: Seq<BlockWrite>) -> Seq<BlockWrite> {
    entries
}

/// The home blocks of `entries`.
pub open spec fn homes_of(entries: Seq<BlockWrite>) -> Seq<int> {
    entries.map_values(|e: BlockWrite| e.0)
}

/// The writes of a commit of `entries`, in order: the log data blocks, the
/// header naming the homes (the commit point), the homes, and the empty
/// header. Committing nothing writes nothing.
pub open spec fn commit_writes(start: int, entries: Seq<BlockWrite>) -> Seq<BlockWrite> {
    if entries.len() == 0 {
        Seq::empty()
    } else {
        log_writes(start, entries) + seq![(start, header_block(homes_of(entries)))]
            + install_writes(entries) + seq![(start, header_block(Seq::empty()))]
    }
}

/// The two states agree on every block outside the log region.
pub open spec fn same_outside_log(a: Seq<Seq<u8>>, b: Seq<Seq<u8>>, start: int, size: int) -> bool {
    &&& a.len() == b.len()
    &&& forall|k: int| 0 <= k < a.len() && !in_log(start, size, k) ==> #[trigger] a[k] == b[k]
}

/// A transaction that may be committed on `d`: it names homes that may be
/// logged, and each entry holds a whole block.
pub open spec fn entries_ok(d: Seq<Seq<u8>>, start: int, size: int, entries: Seq<BlockWrite>) -> bool {
    &&& homes_ok(d, start, size, homes_of(entries))
    &&& forall|i: int| 0 <= i < entries.len() ==> (#[trigger] entries[i]).1.len() == BSIZE
}

// ---------------------------------------------------------------------------
// Writes

pub proof fn lemma_apply_len(d: Seq<Seq<u8>>, ws: Seq<BlockWrite>)
    ensures
        apply(d, ws).len() == d.len(),
    decreases ws.len(),
{
    if ws.len() > 0 {
        lemma_apply_len(d, ws.drop_last());
    }
}

/// Performing `a` then `b` is performing `a + b`.
pub proof fn lemma_apply_concat(d: Seq<Seq<u8>>, a: Seq<BlockWrite>, b: Seq<BlockWrite>)
    ensures
        apply(apply(d, a), b) == apply(d, a + b),
    decreases b.len(),
{
    if b.len() == 0 {
        assert(a + b =~= a);
    } else {
        assert((a + b).drop_last() =~= a + b.drop_last());
        assert((a + b).last() == b.last());
        lemma_apply_concat(d, a, b.drop_last());
    }
}

/// One more write at the end.
pub proof fn lemma_apply_step(d: Seq<Seq<u8>>, ws: Seq<BlockWrite>, i: int)
    requires
        0 <= i < ws.len(),
        0 <= ws[i].0 < d.len(),
    ensures
        apply(d, ws.take(i + 1)) == apply(d, ws.take(i)).update(ws[i].0, ws[i].1),
{
    assert(ws.take(i + 1).drop_last() =~= ws.take(i));
    lemma_apply_len(d, ws.take(i));
}

/// A block of the result holds what was written to it last, or what it held.
pub proof fn lemma_apply_at(d: Seq<Seq<u8>>, ws: Seq<BlockWrite>, b: int)
    requires
        0 <= b < d.len(),
    ensures
        apply(d, ws)[b] == match last_write(ws, b) {
            Some(v) => v,
            None => d[b],
        },
    decreases ws.len(),
{
    if ws.len() > 0 {
        lemma_apply_at(d, ws.drop_last(), b);
        lemma_apply_len(d, ws.drop_last());
    }
}

pub proof fn lemma_last_write_concat(s1: Seq<BlockWrite>, s2: Seq<BlockWrite>, b: int)
    ensures
        last_write(s1 + s2, b) == match last_write(s2, b) {
            Some(v) => Some(v),
            None => last_write(s1, b),
        },
    decreases s2.len(),
{
    if s2.len() == 0 {
        assert(s1 + s2 =~= s1);
    } else {
        assert((s1 + s2).drop_last() =~= s1 + s2.drop_last());
        assert((s1 + s2).last() == s2.last());
        lemma_last_write_concat(s1, s2.drop_last(), b);
    }
}

pub proof fn lemma_last_write_single(w: BlockWrite, b: int)
    ensures
        last_write(seq![w], b) == if w.0 == b {
            Some(w.1)
        } else {
            None::<Seq<u8>>
        },
{
    let s = seq![w];
    assert(s.drop_last() =~= Seq::<BlockWrite>::empty());
    assert(s.last() == w);
    assert(last_write(s.drop_last(), b) is None);
}

pub proof fn lemma_last_write_none(ws: Seq<BlockWrite>, b: int)
    requires
        forall|i: int| 0 <= i < ws.len() ==> (#[trigger] ws[i]).0 != b,
    ensures
        last_write(ws, b) is None,
    decreases ws.len(),
{
    if ws.len() > 0 {
        assert(ws.last() == ws[ws.len() - 1]);
        lemma_last_write_none(ws.drop_last(), b);
    }
}

/// When `ws` writes block `b` exactly once, at `i`, `b` ends with that write.
pub proof fn lemma_last_write_unique(ws: Seq<BlockWrite>, b: int, i: int)
    requires
        0 <= i < ws.len(),
        ws[i].0 == b,
        forall|j: int| 0 <= j < ws.len() && j != i ==> (#[trigger] ws[j]).0 != b,
    ensures
        last_write(ws, b) == Some(ws[i].1),
    decreases ws.len(),
{
    if i == ws.len() - 1 {
    } else {
        assert(ws.last() == ws[ws.len() - 1]);
        lemma_last_write_unique(ws.drop_last(), b, i);
    }
}

// ---------------------------------------------------------------------------
// Header codec

proof fn lemma_splice_len(s: Seq<u8>, off: int, w: Seq<u8>)
    requires
        0 <= off,
        off + w.len() <= s.len(),
    ensures
        splice(s, off, w).len() == s.len(),
        forall|k: int| 0 <= k < w.len() ==> splice(s, off, w)[off + k] == w[k],
        forall|k: int|
            0 <= k < s.len() && !(off <= k < off + w.len()) ==> splice(s, off, w)[k] == s[k],
{
    let r = splice(s, off, w);
    assert forall|k: int| 0 <= k < w.len() implies r[off + k] == w[k] by {
        assert(r[off + k] == (s.take(off) + w)[off + k]);
    }
    assert forall|k: int| 0 <= k < s.len() && !(off <= k < off + w.len()) implies r[k] == s[k] by {
        if k < off {
            assert(r[k] == (s.take(off) + w)[k]);
        } else {
            assert(r[k] == s.skip(off + w.len())[k - off - w.len()]);
        }
    }
}

/// Reading back four bytes spliced at `off`.
pub proof fn lemma_splice_read(s: Seq<u8>, off: int, v: u32)
    requires
        0 <= off,
        off + 4 <= s.len(),
    ensures
        splice(s, off, le_bytes_u32(v)).len() == s.len(),
        le_u32(splice(s, off, le_bytes_u32(v)), off) == v as int,
        forall|o: int|
            0 <= o && o + 4 <= s.len() && (o + 4 <= off || off + 4 <= o) ==> le_u32(
                splice(s, off, le_bytes_u32(v)),
                o,
            ) == le_u32(s, o),
{
    let w = le_bytes_u32(v);
    lemma_splice_len(s, off, w);
    let r = splice(s, off, w);
    assert(r[off] == w[0] && r[off + 1] == w[1] && r[off + 2] == w[2] && r[off + 3] == w[3]);
    lemma_le_u32_bytes(v);
    assert forall|o: int|
        0 <= o && o + 4 <= s.len() && (o + 4 <= off || off + 4 <= o) implies le_u32(r, o) == le_u32(
        s,
        o,
    ) by {
        assert(r[o] == s[o] && r[o + 1] == s[o + 1] && r[o + 2] == s[o + 2] && r[o + 3] == s[o + 3]);
    }
}

proof fn lemma_header_fill(homes: Seq<int>, k: int)
    requires
        0 <= k <= homes.len(),
        homes.len() <= LOGSIZE,
        forall|i: int| 0 <= i < homes.len() ==> 0 <= #[trigger] homes[i] <= u32::MAX,
    ensures
        header_fill(homes, k).len() == BSIZE,
        le_u32(header_fill(homes, k), 0) == homes.len(),
        forall|i: int| 0 <= i < k ==> le_u32(header_fill(homes, k), 4 + 4 * i) == homes[i],
    decreases k,
{
    if k == 0 {
        lemma_splice_read(zero_block(), 0, homes.len() as u32);
    } else {
        lemma_header_fill(homes, k - 1);
        let prev = header_fill(homes, k - 1);
        lemma_splice_read(prev, 4 + 4 * (k - 1), homes[k - 1] as u32);
    }
}

/// A header block reads back as the homes it records.
pub proof fn lemma_header_roundtrip(homes: Seq<int>)
    requires
        homes.len() <= LOGSIZE,
        forall|i: int| 0 <= i < homes.len() ==> 0 <= #[trigger] homes[i] <= u32::MAX,
    ensures
        header_block(homes).len() == BSIZE,
        header_count(header_block(homes)) == homes.len(),
        header_homes(header_block(homes)) == homes,
{
    lemma_header_fill(homes, homes.len() as int);
    assert(header_homes(header_block(homes)) =~= homes);
}

// ---------------------------------------------------------------------------
// Laws

/// Recovery is idempotent: recovering a recovered device changes nothing.
pub proof fn lemma_recover_idempotent(d: Seq<Seq<u8>>, start: int, size: int)
    requires
        header_valid(d, start, size),
    ensures
        header_valid(recover(d, start), start, size),
        recover(recover(d, start), start) == recover(d, start),
{
    let ws = recovery_writes(d, start);
    let r = recover(d, start);
    lemma_apply_len(d, ws);
    lemma_header_roundtrip(Seq::empty());
    let n = header_count(d[start]);
    let installs = Seq::new(n as nat, |i: int| (header_home(d[start], i), d[start + 1 + i]));
    assert(ws == installs + seq![(start, header_block(Seq::empty()))]);
    lemma_last_write_concat(installs, seq![(start, header_block(Seq::empty()))], start);
    lemma_last_write_single((start, header_block(Seq::empty())), start);
    lemma_apply_at(d, ws, start);
    assert(r[start] == header_block(Seq::empty()));
    assert(header_homes(r[start]) =~= Seq::<int>::empty());
    assert forall|i: int| 0 <= i < r.len() implies (#[trigger] r[i]).len() == BSIZE by {
        lemma_apply_at(d, ws, i);
        lemma_last_write_concat(installs, seq![(start, header_block(Seq::empty()))], i);
        lemma_last_write_single((start, header_block(Seq::empty())), i);
        if i != start {
            match last_write(installs, i) {
                Some(v) => {
                    lemma_last_write_in(installs, i);
                    let j = choose|j: int|
                        0 <= j < installs.len() && installs[j].0 == i && #[trigger] installs[j].1
                            == last_write(installs, i)->Some_0;
                    assert(installs[j].1 == d[start + 1 + j]);
                },
                None => {},
            }
        }
    }
    let ws2 = recovery_writes(r, start);
    assert(ws2 =~= seq![(start, header_block(Seq::empty()))]);
    assert(ws2.drop_last() =~= Seq::<BlockWrite>::empty());
    assert(apply(r, ws2.drop_last()) == r);
    assert(apply(r, ws2) =~= r.update(start, header_block(Seq::empty())));
    assert(r.update(start, header_block(Seq::empty())) =~= r);
}

/// Writing whole blocks keeps every block whole.
pub proof fn lemma_apply_blocks_ok(d: Seq<Seq<u8>>, ws: Seq<BlockWrite>)
    requires
        blocks_ok(d),
        forall|i: int| 0 <= i < ws.len() ==> (#[trigger] ws[i]).1.len() == BSIZE,
    ensures
        blocks_ok(apply(d, ws)),
        apply(d, ws).len() == d.len(),
{
    lemma_apply_len(d, ws);
    assert forall|b: int| 0 <= b < apply(d, ws).len() implies (#[trigger] apply(d, ws)[b]).len()
        == BSIZE by {
        lemma_apply_at(d, ws, b);
        if last_write(ws, b) is Some {
            lemma_last_write_in(ws, b);
        }
    }
}

/// The state after a crash at write `k` of the commit of `entries`.
pub open spec fn crashed(d: Seq<Seq<u8>>, start: int, entries: Seq<BlockWrite>, k: int) -> Seq<
    Seq<u8>,
> {
    apply(d, commit_writes(start, entries).take(k))
}

/// Crash atomicity of commit. Let a transaction of `entries` be committed on
/// a device whose log is empty, and let the device stop after any number `k`
/// of the commit's block writes. Recovery then accepts the device, and
/// restores every block outside the log region either as it was before the
/// transaction (when the crash came before the header naming the homes was
/// written) or as the transaction leaves it (when it came at or after that
/// write). `LogManager::end_op` states that a commit appends exactly
/// `commit_writes` to the device's write history, in this order.
pub proof fn lemma_crash_atomicity(
    d: Seq<Seq<u8>>,
    start: int,
    size: int,
    entries: Seq<BlockWrite>,
    k: int,
)
    requires
        log_fits(d, start, size),
        header_count(d[start]) == 0,
        entries_ok(d, start, size, entries),
        0 <= k <= commit_writes(start, entries).len(),
    ensures
        header_valid(crashed(d, start, entries, k), start, size),
        k <= entries.len() ==> same_outside_log(
            recover(crashed(d, start, entries, k), start),
            d,
            start,
            size,
        ),
        k > entries.len() ==> same_outside_log(
            recover(crashed(d, start, entries, k), start),
            apply(d, install_writes(entries)),
            start,
            size,
        ),
{
    let n = entries.len() as int;
    let homes = homes_of(entries);
    let w = commit_writes(start, entries);
    let ws = w.take(k);
    let c = apply(d, ws);
    let big_l = log_writes(start, entries);
    let hdr = header_block(homes);
    let emp = header_block(Seq::<int>::empty());
    let big_i = install_writes(entries);
    let post = apply(d, big_i);
    lemma_header_roundtrip(Seq::<int>::empty());
    assert(header_homes(emp) =~= Seq::<int>::empty());
    assert forall|i: int| 0 <= i < homes.len() implies 0 <= #[trigger] homes[i] <= u32::MAX by {
        assert(homes[i] == entries[i].0);
    }
    lemma_header_roundtrip(homes);
    assert forall|i: int| 0 <= i < w.len() implies (#[trigger] w[i]).1.len() == BSIZE by {
        if i < n {
            assert(w[i] == big_l[i]);
        } else if n + 1 <= i < 2 * n + 1 {
            assert(w[i] == big_i[i - n - 1]);
        }
    }
    assert forall|i: int| 0 <= i < ws.len() implies (#[trigger] ws[i]).1.len() == BSIZE by {
        assert(ws[i] == w[i]);
    }
    lemma_apply_blocks_ok(d, ws);
    lemma_apply_blocks_ok(d, big_i);
    // What no write of the transaction touches stays as it was.
    assert forall|b: int|
        0 <= b < d.len() && !in_log(start, size, b) && (forall|i: int|
            0 <= i < n ==> homes[i] != b) implies #[trigger] c[b] == d[b] && post[b] == d[b] by {
        assert forall|i: int| 0 <= i < ws.len() implies (#[trigger] ws[i]).0 != b by {
            assert(ws[i] == w[i]);
            if i < n {
                assert(w[i] == big_l[i]);
            } else if n + 1 <= i < 2 * n + 1 {
                assert(w[i] == big_i[i - n - 1]);
                assert(homes[i - n - 1] == entries[i - n - 1].0);
            }
        }
        lemma_last_write_none(ws, b);
        lemma_apply_at(d, ws, b);
        assert forall|i: int| 0 <= i < big_i.len() implies (#[trigger] big_i[i]).0 != b by {
            assert(homes[i] == entries[i].0);
        }
        lemma_last_write_none(big_i, b);
        lemma_apply_at(d, big_i, b);
    }
    if k <= n {
        // Only log data blocks were written; the header still says empty.
        assert forall|i: int| 0 <= i < ws.len() implies (#[trigger] ws[i]).0 != start by {
            assert(ws[i] == w[i]);
            assert(w[i] == big_l[i]);
        }
        lemma_last_write_none(ws, start);
        lemma_apply_at(d, ws, start);
        assert(c[start] == d[start]);
        assert(header_homes(c[start]) =~= Seq::<int>::empty());
        let rw = recovery_writes(c, start);
        assert(rw =~= seq![(start, emp)]);
        assert forall|b: int| 0 <= b < c.len() && !in_log(start, size, b) implies #[trigger] recover(
            c,
            start,
        )[b] == d[b] by {
            lemma_apply_at(c, rw, b);
            lemma_last_write_single((start, emp), b);
            assert forall|i: int| 0 <= i < ws.len() implies (#[trigger] ws[i]).0 != b by {
                assert(ws[i] == w[i]);
                assert(w[i] == big_l[i]);
            }
            lemma_last_write_none(ws, b);
            lemma_apply_at(d, ws, b);
        }
        lemma_apply_len(c, rw);
    } else {
        // The header names the homes (or, after the last write, nothing).
        let full = k == 2 * n + 2;
        let j = if full {
            n
        } else {
            k - n - 1
        };
        let pre = big_l + seq![(start, hdr)] + big_i.take(j);
        if full {
            assert(ws =~= pre + seq![(start, emp)]);
        } else {
            assert(ws =~= pre);
        }
        // The log data blocks hold the entries.
        assert forall|i: int| 0 <= i < n implies #[trigger] c[start + 1 + i] == entries[i].1 by {
            let b = start + 1 + i;
            assert(ws[i] == big_l[i]);
            assert forall|m: int| 0 <= m < ws.len() && m != i implies (#[trigger] ws[m]).0 != b by {
                if m < n {
                    assert(ws[m] == big_l[m]);
                } else if m == n {
                } else if m < 2 * n + 1 {
                    assert(ws[m] == big_i[m - n - 1]);
                    assert(homes[m - n - 1] == entries[m - n - 1].0);
                }
            }
            lemma_last_write_unique(ws, b, i);
            lemma_apply_at(d, ws, b);
        }
        // The header block.
        assert forall|m: int| 0 <= m < pre.len() && m != n implies (#[trigger] pre[m]).0 != start by {
            if m < n {
                assert(pre[m] == big_l[m]);
            } else {
                assert(pre[m] == big_i[m - n - 1]);
                assert(homes[m - n - 1] == entries[m - n - 1].0);
            }
        }
        lemma_last_write_unique(pre, start, n);
        if full {
            lemma_last_write_concat(pre, seq![(start, emp)], start);
            lemma_last_write_single((start, emp), start);
        }
        lemma_apply_at(d, ws, start);
        if full {
            assert(c[start] == emp);
            let rw = recovery_writes(c, start);
            assert(rw =~= seq![(start, emp)]);
            lemma_apply_len(c, rw);
            assert forall|b: int|
                0 <= b < c.len() && !in_log(start, size, b) implies #[trigger] recover(c, start)[b]
                == post[b] by {
                lemma_apply_at(c, rw, b);
                lemma_last_write_single((start, emp), b);
                lemma_last_write_concat(pre, seq![(start, emp)], b);
                lemma_last_write_single((start, emp), b);
                lemma_last_write_concat(big_l + seq![(start, hdr)], big_i, b);
                lemma_last_write_concat(big_l, seq![(start, hdr)], b);
                lemma_last_write_single((start, hdr), b);
                assert forall|i: int| 0 <= i < big_l.len() implies (#[trigger] big_l[i]).0 != b by {}
                lemma_last_write_none(big_l, b);
                assert(big_i.take(j) =~= big_i);
                lemma_apply_at(d, ws, b);
                lemma_apply_at(d, big_i, b);
            }
        } else {
            assert(c[start] == hdr);
            let rw = recovery_writes(c, start);
            assert(header_count(c[start]) == n);
            let rinst = Seq::new(n as nat, |i: int| (header_home(c[start], i), c[start + 1 + i]));
            assert(rw == rinst + seq![(start, emp)]);
            assert forall|i: int| 0 <= i < n implies #[trigger] rinst[i] == big_i[i] by {
                assert(header_homes(c[start])[i] == homes[i]);
                assert(homes[i] == entries[i].0);
            }
            assert(rinst =~= big_i);
            lemma_apply_len(c, rw);
            assert forall|b: int|
                0 <= b < c.len() && !in_log(start, size, b) implies #[trigger] recover(c, start)[b]
                == post[b] by {
                lemma_apply_at(c, rw, b);
                lemma_last_write_concat(big_i, seq![(start, emp)], b);
                lemma_last_write_single((start, emp), b);
                lemma_apply_at(d, big_i, b);
                if last_write(big_i, b) is None {
                    assert forall|i: int| 0 <= i < n implies homes[i] != b by {
                        assert(homes[i] == entries[i].0);
                        if homes[i] == b {
                            lemma_last_write_some(big_i, b, i);
                        }
                    }
                }
            }
        }
        assert(header_homes(c[start]) == homes || header_homes(c[start]) == Seq::<int>::empty());
    }
}

/// A sequence that writes `b` somewhere writes it last somewhere.
proof fn lemma_last_write_some(ws: Seq<BlockWrite>, b: int, i: int)
    requires
        0 <= i < ws.len(),
        ws[i].0 == b,
    ensures
        last_write(ws, b) is Some,
    decreases ws.len(),
{
    if ws.last().0 != b {
        assert(i != ws.len() - 1);
        assert(ws.drop_last()[i] == ws[i]);
        lemma_last_write_some(ws.drop_last(), b, i);
    }
}

/// The contents last written to a block come from one of the writes.
proof fn lemma_last_write_in(ws: Seq<BlockWrite>, b: int)
    requires
        last_write(ws, b) is Some,
    ensures
        exists|i: int| 0 <= i < ws.len() && ws[i].0 == b && #[trigger] ws[i].1 == last_write(ws, b)->Some_0,
    decreases ws.len(),
{
    if ws.last().0 == b {
        assert(ws[ws.len() - 1].1 == last_write(ws, b)->Some_0);
    } else {
        lemma_last_write_in(ws.drop_last(), b);
        let i = choose|i: int|
            0 <= i < ws.drop_last().len() && ws.drop_last()[i].0 == b && #[trigger] ws.drop_last()[i].1
                == last_write(ws.drop_last(), b)->Some_0;
        assert(ws[i] == ws.drop_last()[i]);
    }
}

} // verus!
