use std::io::{Error as IoError, ErrorKind};

use tananfs::error::Error;
use tananfs::filesystem::device::{BlockDevice, MemoryDevice, Stored};
use tananfs::filesystem::{Filesystem, FuseFs};
use tananfs::filetypes::RawByteFile;
use tananfs::structs::FileType;

/// A device in memory that refuses every transfer once it is switched off.
struct Switched {
    inner: MemoryDevice,
    on: bool,
}

impl BlockDevice for Switched {
    fn contents(&self) -> Stored {
        unreachable!("the bytes of a device are never asked for at run time")
    }

    fn read_exact_at(&mut self, position: u64, length: usize) -> Result<Vec<u8>, IoError> {
        if !self.on {
            return Err(IoError::from(ErrorKind::Other));
        }
        self.inner.read_exact_at(position, length)
    }

    fn write_all_at(&mut self, position: u64, data: &[u8]) -> Result<(), IoError> {
        if !self.on {
            return Err(IoError::from(ErrorKind::Other));
        }
        self.inner.write_all_at(position, data)
    }
}

fn switched(size: usize) -> FuseFs<Switched> {
    let device = Switched {
        inner: MemoryDevice::new(vec![0u8; size]),
        on: true,
    };
    let mut bridge = FuseFs::new(Filesystem::new(device, size as u64, 512));
    bridge.init().unwrap();
    bridge
}

#[test]
fn what_is_cached_is_read_without_the_device() {
    let mut bridge = switched(10_000_000);
    let a = bridge.mkdir(1, "a", 0o755).unwrap().value;
    let f = bridge.mknod(a.ino, "f", 0o644).unwrap().value;
    bridge.write(f.ino, 0, b"hello world").unwrap();
    bridge.filesystem.device.on = false;
    assert_eq!(bridge.getattr(f.ino).unwrap().size, 11);
    assert_eq!(bridge.lookup(1, "a").unwrap().ino, a.ino);
    assert_eq!(bridge.lookup(a.ino, "f").unwrap().kind, FileType::RegularFile);
    let listed = bridge.readdir(a.ino, 0).unwrap();
    assert_eq!(listed.len(), 3);
    assert_eq!(listed[2].name, "f");
    assert_eq!(bridge.read(f.ino, 6, 100).unwrap(), b"world".to_vec());
    assert!(matches!(bridge.lookup(a.ino, "g"), Err(Error::NotFound)));
}

#[test]
fn what_is_not_cached_fails_with_the_device() {
    let mut bridge = switched(10_000_000);
    let f = bridge.mknod(1, "f", 0o644).unwrap().value;
    bridge.write(f.ino, 0, &[3u8; 2000]).unwrap();
    bridge.fsync().unwrap();
    let superblock = bridge.filesystem.superblock;
    let device = bridge.filesystem.device;
    let mut mounted = FuseFs::new(Filesystem::load(device, 512).unwrap());
    assert_eq!(mounted.filesystem.superblock.blocks_free, superblock.blocks_free);
    mounted.filesystem.device.on = false;
    assert!(matches!(mounted.getattr(f.ino), Err(Error::Io(_))));
    assert!(matches!(mounted.lookup(1, "f"), Err(Error::Io(_))));
    assert!(matches!(mounted.fsync(), Err(Error::Io(_))));
    mounted.filesystem.device.on = true;
    assert_eq!(mounted.read(f.ino, 0, 5000).unwrap(), vec![3u8; 2000]);
}

#[test]
fn a_write_fails_for_want_of_blocks_only_when_none_is_free() {
    let device = MemoryDevice::new(vec![0u8; 100_000]);
    let mut fs = Filesystem::new(device, 100_000, 512);
    let free = fs.superblock.blocks_free;
    let mut file = RawByteFile::new(&fs).unwrap();
    let wanted = (free as usize + 1) * 504;
    assert!(matches!(
        file.write(&mut fs, &vec![1u8; wanted]),
        Err(Error::OutOfMemory)
    ));
    assert_eq!(fs.superblock.blocks_free, 0);
    assert!(matches!(fs.acquire_block(), Err(Error::OutOfMemory)));
    let mut other = RawByteFile::new(&fs).unwrap();
    assert!(matches!(
        other.write(&mut fs, &[1u8; 1]),
        Err(Error::OutOfMemory)
    ));
    assert!(matches!(
        RawByteFile::with_capacity(&mut fs, 10),
        Err(Error::OutOfMemory)
    ));
}

#[test]
fn a_file_has_as_many_blocks_as_hold_its_bytes() {
    let device = MemoryDevice::new(vec![0u8; 1_000_000]);
    let mut fs = Filesystem::new(device, 1_000_000, 512);
    let mut file = RawByteFile::with_capacity(&mut fs, 50_000).unwrap();
    assert_eq!(file.block_count, 100);
    file.extend(&mut fs, 60_000).unwrap();
    assert_eq!(file.block_count, 120);
    file.extend(&mut fs, 60_000).unwrap();
    assert_eq!(file.block_count, 120);
    let mut small = RawByteFile::new(&fs).unwrap();
    small.write(&mut fs, &[]).unwrap();
    assert_eq!(small.block_count, 1);
    small.write(&mut fs, &[7u8; 504]).unwrap();
    assert_eq!(small.block_count, 1);
    small.write(&mut fs, &[7u8; 1]).unwrap();
    assert_eq!(small.block_count, 2);
    let empty = RawByteFile::with_capacity(&mut fs, 0).unwrap();
    assert_eq!(empty.block_count, 1);
}

#[test]
fn a_write_back_that_fails_is_handed_on() {
    let device = MemoryDevice::new(vec![0u8; 100_000]);
    let mut bridge = FuseFs::new(Filesystem::new(device, 100_000, 512));
    assert!(bridge.init().unwrap().write_back.is_ok());
    let f = bridge.mknod(1, "f", 0o644).unwrap();
    assert!(f.write_back.is_ok());
    let free = bridge.filesystem.superblock.blocks_free as usize;
    let filled = bridge.write(f.value.ino, 0, &vec![5u8; free * 504]).unwrap();
    assert!(filled.write_back.is_ok());
    assert_eq!(bridge.filesystem.superblock.blocks_free, 0);
    // The directory is made and entered in the root, but its own stream
    // finds no block.
    let made = bridge.mkdir(1, "d", 0o755).unwrap();
    assert!(matches!(made.write_back, Err(Error::OutOfMemory)));
    assert_eq!(made.value.kind, FileType::Directory);
    let root = tananfs::filetypes::Directory::load(&mut bridge.filesystem, 1).unwrap();
    assert_eq!(root.children.len(), 2);
    assert_eq!(root.children[1].name, "d");
    assert_eq!(root.children[1].inode, made.value.ino);
}

#[test]
fn a_rename_is_found_under_the_new_name() {
    let mut bridge = switched(10_000_000);
    let a = bridge.mkdir(1, "a", 0o755).unwrap();
    assert!(a.write_back.is_ok());
    let f = bridge.mknod(a.value.ino, "f", 0o644).unwrap();
    assert!(f.write_back.is_ok());
    let same = bridge.rename(a.value.ino, "f", a.value.ino, "g").unwrap();
    assert!(same.write_back.is_ok());
    assert_eq!(bridge.lookup(a.value.ino, "g").unwrap().ino, f.value.ino);
    assert!(matches!(bridge.lookup(a.value.ino, "f"), Err(Error::NotFound)));
    let across = bridge.rename(a.value.ino, "g", 1, "h").unwrap();
    assert!(across.write_back.is_ok());
    assert_eq!(bridge.lookup(1, "h").unwrap().ino, f.value.ino);
    assert!(matches!(bridge.lookup(a.value.ino, "g"), Err(Error::NotFound)));
    let names: Vec<String> = bridge
        .readdir(1, 0)
        .unwrap()
        .into_iter()
        .map(|entry| entry.name)
        .collect();
    assert_eq!(names, vec![".", "..", "a", "h"]);
    assert!(bridge.unlink(1, "h").unwrap().write_back.is_ok());
    assert!(bridge.rmdir(1, "a").unwrap().write_back.is_ok());
    assert_eq!(bridge.readdir(1, 0).unwrap().len(), 2);
}
