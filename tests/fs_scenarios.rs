use xv6fs::block_cache::BlockCacheManager;
use xv6fs::device::{BlockDevice, RamDisk};
use xv6fs::disk::{DiskInode, FileKind};
use xv6fs::error::FsError;
use xv6fs::layout::{BSIZE, FSMAGIC, MAXFILE, NDIRECT};
use xv6fs::logger::LogManager;
use xv6fs::xv6fs::XV6FS;

const NBLOCKS: usize = 200;
const LOG_START: usize = 2;
const NLOG: usize = 30;
const INODE_START: usize = 33;
const NINODES: usize = 200;
const BMAP_START: usize = 46;
const FIRST_DATA: usize = 47;

/// A device that remembers every block write, in order.
struct Recorder {
    disk: RamDisk,
    writes: Vec<(usize, Vec<u8>)>,
}

impl BlockDevice for Recorder {
    fn num_blocks(&self) -> usize {
        self.disk.num_blocks()
    }

    fn read_block(&self, blockno: usize, buf: &mut [u8]) {
        self.disk.read_block(blockno, buf)
    }

    fn write_block(&mut self, blockno: usize, buf: &[u8]) {
        self.writes.push((blockno, buf.to_vec()));
        self.disk.write_block(blockno, buf)
    }
}

fn put_u32(buf: &mut [u8], off: usize, v: u32) {
    buf[off..off + 4].copy_from_slice(&v.to_le_bytes());
}

fn get_u32(buf: &[u8], off: usize) -> u32 {
    u32::from_le_bytes([buf[off], buf[off + 1], buf[off + 2], buf[off + 3]])
}

fn block_of(d: &impl BlockDevice, b: usize) -> Vec<u8> {
    let mut buf = vec![0u8; BSIZE];
    d.read_block(b, &mut buf);
    buf
}

fn copy_disk(d: &impl BlockDevice) -> RamDisk {
    let mut r = RamDisk::new(d.num_blocks());
    for b in 0..d.num_blocks() {
        r.write_block(b, &block_of(d, b));
    }
    r
}

/// A formatted image: boot, superblock, log (header at 2, 30 data blocks),
/// 13 inode blocks for 200 inodes, one bitmap block, data blocks from 47.
fn mkfs() -> RamDisk {
    let mut d = RamDisk::new(NBLOCKS);
    let mut sb = vec![0u8; BSIZE];
    put_u32(&mut sb, 0, FSMAGIC);
    put_u32(&mut sb, 4, NBLOCKS as u32);
    put_u32(&mut sb, 8, (NBLOCKS - FIRST_DATA) as u32);
    put_u32(&mut sb, 12, NINODES as u32);
    put_u32(&mut sb, 16, NLOG as u32);
    put_u32(&mut sb, 20, LOG_START as u32);
    put_u32(&mut sb, 24, INODE_START as u32);
    put_u32(&mut sb, 28, BMAP_START as u32);
    d.write_block(1, &sb);
    let mut bm = vec![0u8; BSIZE];
    for b in 0..FIRST_DATA {
        bm[b / 8] |= 1 << (b % 8);
    }
    d.write_block(BMAP_START, &bm);
    d
}

fn bit(bm: &[u8], b: usize) -> bool {
    bm[b / 8] & (1 << (b % 8)) != 0
}

#[test]
fn alloc_free_round_trip() {
    let mut d = mkfs();
    d.write_block(FIRST_DATA, &vec![0x55u8; BSIZE]);
    let mut fs = XV6FS::mount(d, 1).unwrap();
    assert!(fs.begin_op());
    let b = fs.balloc().unwrap();
    assert_eq!(b, FIRST_DATA);
    assert!(bit(&fs.read_block(BMAP_START), b));
    assert_eq!(fs.read_block(b), vec![0u8; BSIZE]);
    fs.bfree(b);
    fs.end_op();
    let bm = fs.read_block(BMAP_START);
    assert_eq!(bm[b / 8] & (1 << (b % 8)), 0);
    let dev = fs.unmount();
    assert_eq!(block_of(&dev, BMAP_START)[b / 8] & (1 << (b % 8)), 0);
    assert_eq!(block_of(&dev, b), vec![0u8; BSIZE]);
}

#[test]
fn balloc_picks_lowest_free_block() {
    let mut d = mkfs();
    let mut bm = block_of(&d, BMAP_START);
    bm[FIRST_DATA / 8] |= 1 << (FIRST_DATA % 8);
    bm[(FIRST_DATA + 1) / 8] |= 1 << ((FIRST_DATA + 1) % 8);
    d.write_block(BMAP_START, &bm);
    let mut fs = XV6FS::mount(d, 1).unwrap();
    assert!(fs.begin_op());
    assert_eq!(fs.balloc().unwrap(), FIRST_DATA + 2);
    assert_eq!(fs.balloc().unwrap(), FIRST_DATA + 3);
    fs.end_op();
}

#[test]
fn absorption_one_header_entry() {
    let rec = Recorder { disk: mkfs(), writes: Vec::new() };
    let mut fs = XV6FS::mount(rec, 1).unwrap();
    let before = fs.device().writes.len();
    assert!(fs.begin_op());
    fs.write_block(42, &vec![1u8; BSIZE]);
    fs.write_block(42, &vec![2u8; BSIZE]);
    assert_eq!(fs.log_mgr().pending(), 1);
    fs.end_op();
    let w = &fs.device().writes[before..];
    assert_eq!(w.len(), 4);
    assert_eq!(w[0], (LOG_START + 1, vec![2u8; BSIZE]));
    assert_eq!(w[1].0, LOG_START);
    assert_eq!(get_u32(&w[1].1, 0), 1);
    assert_eq!(get_u32(&w[1].1, 4), 42);
    assert_eq!(w[2], (42, vec![2u8; BSIZE]));
    assert_eq!(w[3].0, LOG_START);
    assert_eq!(get_u32(&w[3].1, 0), 0);
}

#[test]
fn log_write_twice_is_absorbed() {
    let mut d = mkfs();
    let mut cache = BlockCacheManager::new(1);
    let mut log = LogManager::new(LOG_START, NLOG, &mut cache, &mut d).unwrap();
    assert!(log.begin_op());
    let idx = cache.get_block_cache(42, &d);
    log.log_write(42, idx, &mut cache);
    log.log_write(42, idx, &mut cache);
    assert_eq!(log.pending(), 1);
    assert_eq!(cache.buffer(idx).refcnt(), 2);
    cache.release(idx);
    log.end_op(&mut cache, &mut d);
    assert_eq!(log.pending(), 0);
}

/// Runs one transaction writing 0xAA to block 100 on a recording device and
/// returns the image before it and the commit's writes.
fn committed_writes() -> (RamDisk, Vec<(usize, Vec<u8>)>) {
    let rec = Recorder { disk: mkfs(), writes: Vec::new() };
    let mut fs = XV6FS::mount(rec, 1).unwrap();
    let pre = copy_disk(fs.device());
    let before = fs.device().writes.len();
    assert!(fs.begin_op());
    fs.write_block(100, &vec![0xAAu8; BSIZE]);
    fs.end_op();
    let w = fs.device().writes[before..].to_vec();
    (pre, w)
}

fn crash_after(pre: &RamDisk, w: &[(usize, Vec<u8>)], k: usize) -> RamDisk {
    let mut img = copy_disk(pre);
    for (b, data) in &w[..k] {
        img.write_block(*b, data);
    }
    img
}

#[test]
fn crash_before_commit_point() {
    let (pre, w) = committed_writes();
    let img = crash_after(&pre, &w, 1);
    let mut fs = XV6FS::mount(img, 1).unwrap();
    assert_eq!(fs.read_block(100), vec![0u8; BSIZE]);
    assert_eq!(get_u32(&fs.read_block(LOG_START), 0), 0);
}

#[test]
fn crash_after_commit_point() {
    let (pre, w) = committed_writes();
    let img = crash_after(&pre, &w, 2);
    assert_eq!(get_u32(&block_of(&img, LOG_START), 0), 1);
    assert_eq!(get_u32(&block_of(&img, LOG_START), 4), 100);
    let mut fs = XV6FS::mount(img, 1).unwrap();
    assert_eq!(fs.read_block(100), vec![0xAAu8; BSIZE]);
    let dev = fs.unmount();
    assert_eq!(block_of(&dev, 100), vec![0xAAu8; BSIZE]);
    assert_eq!(get_u32(&block_of(&dev, LOG_START), 0), 0);
}

#[test]
fn crash_at_every_step_is_all_or_nothing() {
    let (pre, w) = committed_writes();
    assert_eq!(w.len(), 4);
    for k in 0..=w.len() {
        let img = crash_after(&pre, &w, k);
        let dev = XV6FS::mount(img, 1).unwrap().unmount();
        let expect = if k <= 1 { vec![0u8; BSIZE] } else { vec![0xAAu8; BSIZE] };
        assert_eq!(block_of(&dev, 100), expect, "crash after {} writes", k);
        for b in INODE_START..NBLOCKS {
            if b != 100 {
                assert_eq!(block_of(&dev, b), block_of(&pre, b));
            }
        }
    }
}

#[test]
fn recovery_twice_equals_once() {
    let (pre, w) = committed_writes();
    let img = crash_after(&pre, &w, 3);
    let once = XV6FS::mount(img, 1).unwrap().unmount();
    let snapshot = copy_disk(&once);
    let twice = XV6FS::mount(once, 1).unwrap().unmount();
    for b in 0..NBLOCKS {
        assert_eq!(block_of(&twice, b), block_of(&snapshot, b));
    }
}

#[test]
fn indirect_allocation() {
    let mut fs = XV6FS::mount(mkfs(), 1).unwrap();
    assert!(fs.begin_op());
    let h = fs.ialloc(FileKind::File).unwrap();
    let mut ip = fs.ilock(h).unwrap();
    let bno1 = fs.bmap(&mut ip, 12).unwrap();
    assert_ne!(bno1, 0);
    let ind = ip.disk_inode().bnos()[NDIRECT] as usize;
    assert_ne!(ind, 0);
    assert_ne!(ind, bno1);
    fs.iupdate(&ip);
    fs.iunlock(h, &ip);
    fs.end_op();
    let inum = ip.ino();
    let iblock = INODE_START + inum as usize / 16;
    let dev = fs.unmount();
    let buf = xv6fs::block_cache::BlockCache::new(iblock, 1, &dev);
    let di = DiskInode::decode(&buf, (inum as usize % 16) * 64).unwrap();
    assert_eq!(*di.kind(), FileKind::File);
    assert_eq!(di.bnos()[NDIRECT] as usize, ind);
    assert_eq!(get_u32(&block_of(&dev, ind), 0) as usize, bno1);
}

#[test]
fn bmap_returns_existing_mapping() {
    let mut fs = XV6FS::mount(mkfs(), 1).unwrap();
    assert!(fs.begin_op());
    let h = fs.ialloc(FileKind::File).unwrap();
    let mut ip = fs.ilock(h).unwrap();
    let a = fs.bmap(&mut ip, 3).unwrap();
    let b = fs.bmap(&mut ip, 3).unwrap();
    assert_eq!(a, b);
    assert_eq!(ip.disk_inode().bnos()[3] as usize, a);
    fs.end_op();
}

#[test]
fn truncate_frees_everything() {
    let mut fs = XV6FS::mount(mkfs(), 1).unwrap();
    assert!(fs.begin_op());
    let h = fs.ialloc(FileKind::File).unwrap();
    let mut ip = fs.ilock(h).unwrap();
    fs.iupdate(&ip);
    fs.end_op();
    let bitmap_before = fs.read_block(BMAP_START);
    for l in 0..NDIRECT + 2 {
        assert!(fs.begin_op());
        let b = fs.bmap(&mut ip, l).unwrap();
        fs.write_block(b, &vec![l as u8 + 1; BSIZE]);
        *ip.disk_inode_mut().size_mut() = ((l + 1) * BSIZE) as u32;
        fs.iupdate(&ip);
        fs.end_op();
    }
    assert_ne!(fs.read_block(BMAP_START), bitmap_before);
    assert!(fs.begin_op());
    fs.itrunc(&mut ip).unwrap();
    fs.iupdate(&ip);
    fs.end_op();
    assert_eq!(fs.read_block(BMAP_START), bitmap_before);
    assert_eq!(ip.disk_inode().bnos(), &[0u32; 13]);
    assert_eq!(ip.disk_inode().size(), 0);
    let inum = ip.ino() as usize;
    let dev = fs.unmount();
    let buf = xv6fs::block_cache::BlockCache::new(INODE_START + inum / 16, 1, &dev);
    let di = DiskInode::decode(&buf, (inum % 16) * 64).unwrap();
    assert_eq!(di.bnos(), &[0u32; 13]);
    assert_eq!(di.size(), 0);
    assert_eq!(block_of(&dev, BMAP_START), bitmap_before);
}

#[test]
fn truncate_refuses_a_block_already_free() {
    let mut fs = XV6FS::mount(mkfs(), 1).unwrap();
    assert!(fs.begin_op());
    let h = fs.ialloc(FileKind::File).unwrap();
    let mut ip = fs.ilock(h).unwrap();
    ip.disk_inode_mut().bnos_mut()[0] = 150;
    assert_eq!(fs.itrunc(&mut ip), Err(FsError::Invariant));
    fs.end_op();
}

#[test]
fn cache_holds_one_buffer_per_block() {
    let d = mkfs();
    let mut cache = BlockCacheManager::new(1);
    let a = cache.get_block_cache(5, &d);
    let b = cache.get_block_cache(5, &d);
    let c = cache.get_block_cache(6, &d);
    assert_eq!(a, b);
    assert_ne!(a, c);
    assert_eq!(cache.buffer(a).blockno(), 5);
    assert_eq!(cache.buffer(a).refcnt(), 2);
    cache.release(a);
    cache.release(b);
    let e = cache.get_block_cache(5, &d);
    assert_eq!(cache.buffer(e).refcnt(), 1);
}

#[test]
fn begin_op_admits_three_operations() {
    let mut fs = XV6FS::mount(mkfs(), 1).unwrap();
    assert!(fs.begin_op());
    assert!(fs.begin_op());
    assert!(fs.begin_op());
    assert!(!fs.begin_op());
    assert_eq!(fs.log_mgr().num_outstanding(), 3);
    fs.end_op();
    assert!(fs.begin_op());
}

#[test]
fn group_commits_when_last_op_ends() {
    let rec = Recorder { disk: mkfs(), writes: Vec::new() };
    let mut fs = XV6FS::mount(rec, 1).unwrap();
    let before = fs.device().writes.len();
    assert!(fs.begin_op());
    assert!(fs.begin_op());
    fs.write_block(60, &vec![7u8; BSIZE]);
    fs.end_op();
    assert_eq!(fs.device().writes.len(), before);
    assert_eq!(fs.log_mgr().pending(), 1);
    fs.end_op();
    assert_eq!(fs.log_mgr().pending(), 0);
    assert_eq!(fs.device().writes.len(), before + 4);
    assert_eq!(block_of(fs.device(), 60), vec![7u8; BSIZE]);
}

#[test]
fn balloc_out_of_space() {
    let mut d = mkfs();
    let mut bm = vec![0u8; BSIZE];
    for b in 0..NBLOCKS {
        bm[b / 8] |= 1 << (b % 8);
    }
    d.write_block(BMAP_START, &bm);
    let mut fs = XV6FS::mount(d, 1).unwrap();
    assert!(fs.begin_op());
    assert_eq!(fs.balloc(), Err(FsError::OutOfSpace));
    fs.end_op();
}

#[test]
fn balloc_refuses_reserved_free_bit() {
    let mut d = mkfs();
    let mut bm = block_of(&d, BMAP_START);
    bm[0] &= !(1u8 << 3);
    d.write_block(BMAP_START, &bm);
    let mut fs = XV6FS::mount(d, 1).unwrap();
    assert!(fs.begin_op());
    assert_eq!(fs.balloc(), Err(FsError::Invariant));
    fs.end_op();
}

#[test]
fn bmap_out_of_range() {
    let mut fs = XV6FS::mount(mkfs(), 1).unwrap();
    assert!(fs.begin_op());
    let h = fs.ialloc(FileKind::File).unwrap();
    let mut ip = fs.ilock(h).unwrap();
    assert_eq!(fs.bmap(&mut ip, MAXFILE), Err(FsError::BadRange));
    assert!(fs.bmap(&mut ip, MAXFILE - 1).is_ok());
    fs.end_op();
}

#[test]
fn ialloc_takes_lowest_free_inode() {
    let mut fs = XV6FS::mount(mkfs(), 1).unwrap();
    assert!(fs.begin_op());
    let h1 = fs.ialloc(FileKind::Directory).unwrap();
    let h2 = fs.ialloc(FileKind::File).unwrap();
    fs.end_op();
    let ip1 = fs.ilock(h1).unwrap();
    let ip2 = fs.ilock(h2).unwrap();
    assert_eq!(ip1.ino(), 1);
    assert_eq!(ip2.ino(), 2);
    assert_eq!(*ip1.disk_inode().kind(), FileKind::Directory);
    assert_eq!(*ip2.disk_inode().kind(), FileKind::File);
}

#[test]
fn ialloc_out_of_inodes() {
    let mut d = mkfs();
    for blk in INODE_START..BMAP_START {
        let mut buf = vec![0u8; BSIZE];
        for slot in 0..16 {
            buf[slot * 64] = 2;
        }
        d.write_block(blk, &buf);
    }
    let mut fs = XV6FS::mount(d, 1).unwrap();
    assert!(fs.begin_op());
    assert_eq!(fs.ialloc(FileKind::File), Err(FsError::OutOfInodes));
    fs.end_op();
}

#[test]
fn iget_shares_one_entry() {
    let mut fs = XV6FS::mount(mkfs(), 1).unwrap();
    let a = fs.iget(7).unwrap();
    let b = fs.iget(7).unwrap();
    let c = fs.iget(8).unwrap();
    assert_eq!(a, b);
    assert_ne!(a, c);
    assert_eq!(fs.inodes().entry(a).refcnt(), 2);
    assert!(!fs.inodes().entry(a).valid());
    fs.iput(a);
    assert_eq!(fs.inodes().entry(a).refcnt(), 1);
}

#[test]
fn mount_refuses_bad_magic() {
    let mut d = mkfs();
    d.write_block(1, &vec![0u8; BSIZE]);
    assert_eq!(XV6FS::mount(d, 1).err(), Some(FsError::Invariant));
}

#[test]
fn mount_refuses_corrupt_log_header() {
    let mut d = mkfs();
    let mut hdr = vec![0u8; BSIZE];
    put_u32(&mut hdr, 0, NLOG as u32 + 1);
    d.write_block(LOG_START, &hdr);
    assert_eq!(XV6FS::mount(d, 1).err(), Some(FsError::Invariant));
    let mut d = mkfs();
    let mut hdr = vec![0u8; BSIZE];
    put_u32(&mut hdr, 0, 1);
    put_u32(&mut hdr, 4, (LOG_START + 1) as u32);
    d.write_block(LOG_START, &hdr);
    assert_eq!(XV6FS::mount(d, 1).err(), Some(FsError::Invariant));
}

#[test]
fn mount_refuses_overlapping_layout() {
    let mut d = mkfs();
    let mut sb = block_of(&d, 1);
    put_u32(&mut sb, 28, 20);
    d.write_block(1, &sb);
    assert_eq!(XV6FS::mount(d, 1).err(), Some(FsError::Invariant));
}

#[test]
fn writei_then_readi() {
    let mut fs = XV6FS::mount(mkfs(), 1).unwrap();
    assert!(fs.begin_op());
    let h = fs.ialloc(FileKind::File).unwrap();
    let mut ip = fs.ilock(h).unwrap();
    assert_eq!(fs.writei(&mut ip, b"hello", 0), Ok(5));
    assert_eq!(ip.disk_inode().size(), 5);
    fs.iupdate(&ip);
    fs.end_op();
    assert_eq!(fs.readi(&ip, 0, 100).unwrap(), b"hello".to_vec());
    assert_eq!(fs.readi(&ip, 1, 3).unwrap(), b"ell".to_vec());
    assert_eq!(fs.readi(&ip, 5, 3).unwrap(), Vec::<u8>::new());
}

#[test]
fn writei_is_short_at_block_end() {
    let mut fs = XV6FS::mount(mkfs(), 1).unwrap();
    let h = {
        assert!(fs.begin_op());
        let h = fs.ialloc(FileKind::File).unwrap();
        fs.end_op();
        h
    };
    let mut ip = fs.ilock(h).unwrap();
    let data: Vec<u8> = (0..3000u32).map(|i| (i % 251) as u8).collect();
    let mut off = 0;
    while off < data.len() {
        assert!(fs.begin_op());
        let k = fs.writei(&mut ip, &data[off..], off).unwrap();
        assert_eq!(k, std::cmp::min(BSIZE - off % BSIZE, data.len() - off));
        fs.iupdate(&ip);
        fs.end_op();
        off += k;
    }
    assert_eq!(ip.disk_inode().size(), 3000);
    assert_eq!(fs.readi(&ip, 0, 5000).unwrap(), data);
    assert_eq!(fs.readi(&ip, 1020, 8).unwrap(), data[1020..1028].to_vec());
}

#[test]
fn writei_past_end_is_refused() {
    let mut fs = XV6FS::mount(mkfs(), 1).unwrap();
    assert!(fs.begin_op());
    let h = fs.ialloc(FileKind::File).unwrap();
    let mut ip = fs.ilock(h).unwrap();
    assert_eq!(fs.writei(&mut ip, b"x", 1), Err(FsError::BadRange));
    assert_eq!(ip.disk_inode().size(), 0);
    fs.end_op();
}

#[test]
fn readi_of_a_hole_is_zeros() {
    let mut fs = XV6FS::mount(mkfs(), 1).unwrap();
    assert!(fs.begin_op());
    let h = fs.ialloc(FileKind::File).unwrap();
    fs.end_op();
    let mut ip = fs.ilock(h).unwrap();
    *ip.disk_inode_mut().size_mut() = 2048;
    assert_eq!(fs.readi(&ip, 1000, 100).unwrap(), vec![0u8; 100]);
}

#[test]
fn readi_stops_at_largest_file() {
    let mut fs = XV6FS::mount(mkfs(), 1).unwrap();
    assert!(fs.begin_op());
    let h = fs.ialloc(FileKind::File).unwrap();
    fs.end_op();
    let mut ip = fs.ilock(h).unwrap();
    *ip.disk_inode_mut().size_mut() = u32::MAX;
    let end = MAXFILE * BSIZE;
    assert_eq!(fs.readi(&ip, end - 10, 100).unwrap().len(), 10);
    assert_eq!(fs.readi(&ip, end, 100).unwrap().len(), 0);
}

#[test]
fn bitmap_marks_exactly_the_named_blocks() {
    let mut fs = XV6FS::mount(mkfs(), 1).unwrap();
    assert!(fs.begin_op());
    let h = fs.ialloc(FileKind::File).unwrap();
    fs.end_op();
    let mut ip = fs.ilock(h).unwrap();
    let before = fs.read_block(BMAP_START);
    for l in [0usize, 5, 11, 12, 40] {
        assert!(fs.begin_op());
        fs.bmap(&mut ip, l).unwrap();
        fs.iupdate(&ip);
        fs.end_op();
    }
    let mut named: Vec<usize> = ip.disk_inode().bnos().iter().filter(|&&b| b != 0).map(|&b| b as usize).collect();
    let ind = ip.disk_inode().bnos()[NDIRECT] as usize;
    let entries = fs.read_block(ind);
    for m in 0..BSIZE / 4 {
        let e = get_u32(&entries, 4 * m) as usize;
        if e != 0 {
            named.push(e);
        }
    }
    named.sort();
    assert_eq!(named.len(), 6);
    let after = fs.read_block(BMAP_START);
    for b in 0..NBLOCKS {
        let changed = bit(&after, b) && !bit(&before, b);
        assert_eq!(changed, named.binary_search(&b).is_ok(), "block {}", b);
        assert!(!(bit(&before, b) && !bit(&after, b)));
    }
}

fn file_with_blocks(fs: &mut XV6FS<RamDisk>, n: usize) -> (usize, xv6fs::vfs::Inode) {
    assert!(fs.begin_op());
    let h = fs.ialloc(FileKind::File).unwrap();
    let mut ip = fs.ilock(h).unwrap();
    for l in 0..n {
        fs.bmap(&mut ip, l).unwrap();
    }
    fs.iupdate(&ip);
    fs.end_op();
    (h, ip)
}

#[test]
fn truncate_inside_a_shared_transaction() {
    let mut fs = XV6FS::mount(mkfs(), 1).unwrap();
    let before = fs.read_block(BMAP_START);
    let (_, mut ip) = file_with_blocks(&mut fs, 2);
    assert!(fs.begin_op());
    assert!(fs.begin_op());
    fs.itrunc(&mut ip).unwrap();
    fs.iupdate(&ip);
    fs.end_op();
    fs.end_op();
    assert_eq!(ip.disk_inode().bnos(), &[0u32; 13]);
    let after = fs.read_block(BMAP_START);
    for b in FIRST_DATA..NBLOCKS {
        if b != FIRST_DATA && b != FIRST_DATA + 1 {
            assert_eq!(bit(&after, b), bit(&before, b));
        }
    }
    assert!(!bit(&after, FIRST_DATA + 1));
}

#[test]
fn truncate_reports_a_full_log_when_it_cannot_commit() {
    let mut fs = XV6FS::mount(mkfs(), 1).unwrap();
    let (_, mut ip) = file_with_blocks(&mut fs, 1);
    assert!(fs.begin_op());
    assert!(fs.begin_op());
    for b in 150..178 {
        fs.write_block(b, &vec![1u8; BSIZE]);
    }
    assert_eq!(fs.itrunc(&mut ip), Err(FsError::LogFull));
    fs.end_op();
    fs.end_op();
}
