//! A crash-safe block filesystem core in the xv6 layout: a block cache, a
//! redo-log transaction manager, a free-block bitmap and the inode layer.

pub mod layout;
pub mod device;
pub mod block_cache;
pub mod journal;
pub mod error;
pub mod logger;
pub mod bitmap;
pub mod disk;
pub mod vfs;
pub mod xv6fs;
