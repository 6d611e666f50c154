use xv6fs::block_cache::BlockCache;
use xv6fs::device::{BlockDevice, RamDisk};
use xv6fs::disk::{DirEnt, DiskInode, FileKind, SuperBlock};
use xv6fs::layout::{read_u32, write_u32, BSIZE, FSMAGIC};

fn buffer_with(bytes: &[u8]) -> BlockCache {
    let mut d = RamDisk::new(4);
    let mut blk = vec![0u8; BSIZE];
    blk[..bytes.len()].copy_from_slice(bytes);
    d.write_block(2, &blk);
    BlockCache::new(2, 9, &d)
}

#[test]
fn u32_is_little_endian() {
    let mut v = vec![0u8; 8];
    write_u32(&mut v, 2, FSMAGIC);
    assert_eq!(v, vec![0, 0, 0x40, 0x30, 0x20, 0x10, 0, 0]);
    assert_eq!(read_u32(&v, 2), 0x10203040);
}

#[test]
fn file_kind_codes() {
    assert_eq!(FileKind::Invalid.code(), 0);
    assert_eq!(FileKind::Directory.code(), 1);
    assert_eq!(FileKind::File.code(), 2);
    assert_eq!(FileKind::Device.code(), 3);
    assert_eq!(FileKind::Symlink.code(), 4);
    assert_eq!(FileKind::from_code(4), Some(FileKind::Symlink));
    assert_eq!(FileKind::from_code(5), None);
    assert_eq!(FileKind::from_code(-1), None);
}

#[test]
fn disk_inode_layout() {
    let mut di = DiskInode::new();
    *di.kind_mut() = FileKind::File;
    *di.major_mut() = -2;
    *di.minor_mut() = 3;
    *di.n_link_mut() = 1;
    *di.size_mut() = 0x01020304;
    di.bnos_mut()[0] = 47;
    di.bnos_mut()[12] = 0xA0B0C0D0;
    let mut buf = buffer_with(&[0xEEu8; BSIZE]);
    di.write_to(&mut buf, 64);
    let b = buf.data();
    assert_eq!(&b[64..76], &[2, 0, 0xFE, 0xFF, 3, 0, 1, 0, 4, 3, 2, 1]);
    assert_eq!(&b[76..80], &[47, 0, 0, 0]);
    assert_eq!(&b[124..128], &[0xD0, 0xC0, 0xB0, 0xA0]);
    assert_eq!(b[63], 0xEE);
    assert_eq!(b[128], 0xEE);
    let back = DiskInode::decode(&buf, 64).unwrap();
    assert_eq!(*back.kind(), FileKind::File);
    assert_eq!(back.major(), -2);
    assert_eq!(back.minor(), 3);
    assert_eq!(back.n_link(), 1);
    assert_eq!(back.size(), 0x01020304);
    assert_eq!(back.bnos()[0], 47);
    assert_eq!(back.bnos()[12], 0xA0B0C0D0);
}

#[test]
fn disk_inode_unknown_kind() {
    let buf = buffer_with(&[9, 0]);
    assert!(DiskInode::decode(&buf, 0).is_none());
    let buf = buffer_with(&[0, 0]);
    let free = DiskInode::decode(&buf, 0).unwrap();
    assert_eq!(*free.kind(), FileKind::Invalid);
}

#[test]
fn superblock_decode() {
    let mut bytes = vec![];
    for v in [FSMAGIC, 1000, 950, 200, 30, 2, 33, 46] {
        bytes.extend_from_slice(&v.to_le_bytes());
    }
    let sb = SuperBlock::decode(&buffer_with(&bytes)).unwrap();
    assert_eq!(sb.magic, FSMAGIC);
    assert_eq!(sb.size, 1000);
    assert_eq!(sb.n_inode, 200);
    assert_eq!(sb.log_start, 2);
    assert_eq!(sb.inode_start(), 33);
    assert_eq!(sb.iblock(17), 34);
    assert_eq!(sb.bmapstart, 46);
    bytes[0] = 0;
    assert!(SuperBlock::decode(&buffer_with(&bytes)).is_none());
}

#[test]
fn dirent_layout() {
    let e = DirEnt::new(0x0102, b"hello");
    assert_eq!(e.inum(), 0x0102);
    assert_eq!(&e.name()[..6], b"hello\0");
    let mut buf = buffer_with(&[]);
    e.write_to(&mut buf, 16);
    assert_eq!(&buf.data()[16..23], &[2, 1, b'h', b'e', b'l', b'l', b'o']);
    assert_eq!(&buf.data()[23..32], &[0u8; 9]);
    let back = DirEnt::decode(&buf, 16);
    assert_eq!(back.inum(), 0x0102);
    assert_eq!(back.name(), e.name());
    let long = DirEnt::new(3, b"a-very-long-file-name");
    assert_eq!(long.name(), b"a-very-long-fi");
}

#[test]
fn block_cache_memmove_and_write() {
    let mut d = RamDisk::new(4);
    d.write_block(1, &vec![7u8; BSIZE]);
    let src = BlockCache::new(1, 9, &d);
    let mut dst = BlockCache::new(3, 9, &d);
    assert_eq!(dst.data(), &vec![0u8; BSIZE][..]);
    BlockCache::memmove(&mut dst, &src);
    assert_eq!(dst.blockno(), 3);
    assert_eq!(dst.block_device(), 9);
    dst.write(&mut d);
    let mut out = vec![0u8; BSIZE];
    d.read_block(3, &mut out);
    assert_eq!(out, vec![7u8; BSIZE]);
}
