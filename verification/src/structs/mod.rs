//! On-disk records and the geometry that places them.

pub mod bitmap;
pub mod block;
pub mod inode;
pub mod superblock;
pub mod text;

use vstd::prelude::*;
use std::marker::PhantomData;

verus! {

/// Number of metadata slots in an inode.
pub const METADATA_IN_INODE: usize = 5;

/// Payload bytes accounted to one inode when sizing the inode region.
pub const DATA_PER_INODE: u64 = 4096;

/// Signature stored in every superblock.
pub const MAGIC_SIGNATURE: u16 = 0xEF53;

/// Next-pointer of the last block of a chain.
pub const NULL_BLOCK: u64 = u64::MAX;

/// Length of a serialized superblock.
pub const SUPERBLOCK_SIZE: u64 = 1024;

/// Length of a serialized inode.
pub const INODE_SIZE: u64 = 128;

/// Offset of the magic signature inside a serialized superblock.
pub const MAGIC_OFFSET: u64 = 0x38;

/// Geometry header of a formatted device.
#[derive(Debug, Clone, Copy)]
pub struct Superblock {
    /// Total count of inodes in the filesystem
    pub inode_count: u64,
    /// Count of free inodes in the filesystem
    pub inodes_free: u64,
    /// Total count of blocks in the filesystem
    pub block_count: u64,
    /// Count of free blocks in the filesystem
    pub blocks_free: u64,
    /// Block size in bytes
    pub block_size: u32,
    pub __padding_1: [u8; 20],
    /// Magic signature
    pub magic: u16,
    pub __padding_2: [u8; 966],
}

/// Marks the record types that an occupancy bitmap can index.
pub trait AsBitmap {

}

/// Occupancy map of one region: bit `i` is set when index `i` is allocated.
#[derive(Debug)]
pub struct Bitmap<T: AsBitmap> {
    /// Bits mapping to indexes
    pub bitfield: Vec<usize>,
    /// Number of valid indexes
    pub count: u64,
    /// Position
    pub position: u64,
    pub __type: PhantomData<T>,
}

impl<T: AsBitmap> Clone for Bitmap<T> {
    fn clone(&self) -> (copy: Self)
        ensures
            copy.bitfield@ == self.bitfield@,
            copy.count == self.count,
            copy.position == self.position,
    {
        Self {
            bitfield: self.bitfield.clone(),
            count: self.count,
            position: self.position,
            __type: PhantomData,
        }
    }
}

/// A data block: its index in the block region and its bytes.
#[derive(Debug, Clone)]
pub struct Block {
    /// Block's index
    pub index: u64,
    /// Raw data as bytes
    pub data: Vec<u8>,
}

impl AsBitmap for Block {

}

/// What an inode describes. The stored byte of each kind is its position in this list.
#[derive(Debug, Clone, Copy, PartialEq, Eq, Structural)]
pub enum FileType {
    NamedPipe,
    CharDevice,
    BlockDevice,
    Directory,
    RegularFile,
    Symlink,
    Socket,
}

/// Record of one filesystem object.
#[derive(Debug, Clone, Copy)]
pub struct Inode {
    /// Inode's index
    pub index: u64,
    /// File mode (permissions)
    pub mode: u16,
    /// File type
    pub kind: FileType,
    /// File size in bytes
    pub size: u64,
    /// Owner UID
    pub uid: u32,
    /// Owner GID
    pub gid: u32,
    /// Last access timestamp in seconds
    pub atime: u64,
    /// Last metadata modification timestamp in seconds
    pub ctime: u64,
    /// Last data modification timestamp in seconds
    pub mtime: u64,
    /// Deletion timestamp in seconds (`u64::MAX` if not deleted)
    pub dtime: u64,
    /// Occupied block count
    pub block_count: u64,
    /// Raw slice for additional optional metadata
    pub metadata: [u64; 5],
    /// Index of file's first block.
    /// Every extra block references next in sequence in its first 8 bytes.
    pub first_block: u64,
    /// Index of file's last block.
    pub last_block: u64,
}

impl AsBitmap for Inode {

}

/// Attributes of a filesystem object as a host reports them. Times are in
/// seconds since the epoch.
#[derive(Debug, Clone, Copy)]
pub struct FileAttributes {
    pub ino: u64,
    pub size: u64,
    pub blocks: u64,
    pub atime: u64,
    pub mtime: u64,
    pub ctime: u64,
    pub crtime: u64,
    pub kind: FileType,
    pub perm: u16,
    pub nlink: u32,
    pub uid: u32,
    pub gid: u32,
    pub rdev: u32,
    pub blksize: u32,
    pub flags: u32,
}

} // verus!
