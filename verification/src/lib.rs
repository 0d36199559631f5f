//! A minimal fixed-size filesystem: 64 blocks of 4096 bytes, with a
//! superblock, two allocation bitmaps, an 80-entry inode table and a
//! 56-block data region, kept mutually consistent across remount.

pub mod bitmap;
pub mod bytes;
pub mod dir;
pub mod inode;
pub mod sb;
pub mod storage;
pub mod error;
pub mod fs;

pub use error::SFSError;
pub use fs::OpenMode;
pub use fs::SFS;
