use tananfs::error::{Errno, Error};
use tananfs::filesystem::device::MemoryDevice;
use tananfs::filesystem::{Filesystem, FuseFs};
use tananfs::structs::FileType;

fn formatted(size: usize, block_size: u32) -> FuseFs<MemoryDevice> {
    let dev = MemoryDevice::new(vec![0u8; size]);
    let mut bridge = FuseFs::new(Filesystem::new(dev, size as u64, block_size));
    bridge.init().unwrap();
    bridge
}

#[test]
fn format_and_detect() {
    let dev = MemoryDevice::new(vec![0u8; 10_000_000]);
    let mut fs = Filesystem::new(dev, 10_000_000, 512);
    fs.force_flush().unwrap();
    let mut dev = fs.device;
    assert!(matches!(Filesystem::detect_existing(&mut dev), Ok(Some(512))));
    let blank = MemoryDevice::new(vec![0u8; 10_000_000]);
    let mut blank = blank;
    assert!(matches!(Filesystem::detect_existing(&mut blank), Ok(None)));
    let mut short = MemoryDevice::new(vec![0u8; 4000]);
    assert!(matches!(
        Filesystem::detect_existing(&mut short),
        Err(Error::Io(_))
    ));
    let dev = MemoryDevice::new(vec![0u8; 10_000_000]);
    let mut fs = Filesystem::new(dev, 10_000_000, 4096);
    fs.force_flush().unwrap();
    let mut dev = fs.device;
    assert!(matches!(
        Filesystem::detect_existing(&mut dev),
        Ok(Some(4096))
    ));
}

#[test]
fn acquire_release_sequence() {
    let dev = MemoryDevice::new(vec![0u8; 10_000_000]);
    let mut fs = Filesystem::new(dev, 10_000_000, 512);
    let total = fs.superblock.inode_count;
    assert_eq!(fs.acquire_inode().unwrap(), 0);
    assert_eq!(fs.acquire_inode().unwrap(), 1);
    assert_eq!(fs.acquire_inode().unwrap(), 2);
    assert_eq!(fs.superblock.inodes_free + fs.inodes.count_used(), total);
    fs.release_inode(1).unwrap();
    assert_eq!(fs.superblock.inodes_free + fs.inodes.count_used(), total);
    assert_eq!(fs.acquire_inode().unwrap(), 1);
    assert_eq!(fs.acquire_inode().unwrap(), 3);
    fs.release_inode(1).unwrap();
    assert!(matches!(fs.release_inode(1), Err(Error::DoubleRelease)));
    assert!(matches!(fs.release_inode(total), Err(Error::OutOfBounds)));
    assert_eq!(fs.superblock.inodes_free, total - 3);
    assert_eq!(fs.superblock.inodes_free + fs.inodes.count_used(), total);
}

#[test]
fn out_of_memory_when_every_index_is_taken() {
    let dev = MemoryDevice::new(vec![0u8; 100_000]);
    let mut fs = Filesystem::new(dev, 100_000, 4096);
    assert_eq!(fs.superblock.inode_count, 21);
    for index in 0..21 {
        assert_eq!(fs.acquire_inode().unwrap(), index);
    }
    assert!(matches!(fs.acquire_inode(), Err(Error::OutOfMemory)));
    assert_eq!(fs.superblock.inodes_free, 0);
    assert!(matches!(fs.load_inode(21), Err(Error::OutOfBounds)));
    assert!(matches!(fs.load_block(0, false), Err(Error::OutOfBounds)));
}

#[test]
fn directory_lifecycle() {
    let mut bridge = formatted(10_000_000, 512);
    let inodes_free = bridge.filesystem.superblock.inodes_free;
    let blocks_free = bridge.filesystem.superblock.blocks_free;
    let a = bridge.mkdir(1, "a", 0o755).unwrap().value;
    assert_eq!(a.kind, FileType::Directory);
    assert_eq!(a.perm, 0o755);
    let f = bridge.mknod(a.ino, "f", 0o644).unwrap().value;
    assert_eq!(f.kind, FileType::RegularFile);
    assert_eq!(bridge.write(f.ino, 0, b"hello").unwrap().value, 5);
    assert!(bridge.rename(a.ino, "f", 1, "g").unwrap().write_back.is_ok());
    assert!(matches!(bridge.lookup(a.ino, "f"), Err(Error::NotFound)));
    let g = bridge.lookup(1, "g").unwrap();
    assert_eq!(g.ino, f.ino);
    assert_eq!(g.size, 5);
    assert_eq!(bridge.read(g.ino, 0, 5).unwrap(), b"hello".to_vec());
    assert_eq!(bridge.read(g.ino, 1, 100).unwrap(), b"ello".to_vec());
    bridge.unlink(1, "g").unwrap();
    bridge.rmdir(1, "a").unwrap();
    assert_eq!(bridge.filesystem.superblock.inodes_free, inodes_free);
    assert_eq!(bridge.filesystem.superblock.blocks_free, blocks_free);
    assert!(matches!(bridge.lookup(1, "g"), Err(Error::NotFound)));
    assert!(matches!(bridge.lookup(1, "a"), Err(Error::NotFound)));
}

#[test]
fn persistence() {
    let mut bridge = formatted(10_000_000, 512);
    let d = bridge.mkdir(1, "data", 0o755).unwrap().value;
    let f = bridge.mknod(d.ino, "blob", 0o644).unwrap().value;
    let known = (0..5000u32).map(|v| (v * 7 % 251) as u8).collect::<Vec<u8>>();
    assert_eq!(bridge.write(f.ino, 0, &known).unwrap().value, 5000);
    bridge.fsync().unwrap();
    let statistics = bridge.statfs();
    let dev = bridge.filesystem.device;
    let mut bridge = FuseFs::new(Filesystem::load(dev, 512).unwrap());
    bridge.init().unwrap();
    assert_eq!(bridge.statfs(), statistics);
    let d = bridge.lookup(1, "data").unwrap();
    assert_eq!(d.kind, FileType::Directory);
    let f = bridge.lookup(d.ino, "blob").unwrap();
    assert_eq!(f.size, 5000);
    assert_eq!(bridge.read(f.ino, 0, 5000).unwrap(), known);
    assert_eq!(bridge.read(f.ino, 4990, 100).unwrap(), known[4990..].to_vec());
}

#[test]
fn listing_a_directory() {
    let mut bridge = formatted(10_000_000, 512);
    let a = bridge.mkdir(1, "a", 0o755).unwrap().value;
    let b = bridge.mknod(1, "b", 0o600).unwrap().value;
    let entries = bridge.readdir(1, 0).unwrap();
    let listed = entries
        .iter()
        .map(|e| (e.ino, e.cookie, e.kind, e.name.as_str()))
        .collect::<Vec<_>>();
    assert_eq!(
        listed,
        vec![
            (1, 1, FileType::Directory, "."),
            (1, 2, FileType::Directory, ".."),
            (a.ino, 3, FileType::Directory, "a"),
            (b.ino, 4, FileType::RegularFile, "b"),
        ]
    );
    let rest = bridge.readdir(1, 3).unwrap();
    assert_eq!(rest.len(), 1);
    assert_eq!((rest[0].ino, rest[0].cookie), (b.ino, 4));
    assert!(bridge.readdir(1, 4).unwrap().is_empty());
    let inside = bridge.readdir(a.ino, 0).unwrap();
    assert_eq!(inside.len(), 2);
    assert_eq!(inside[1].ino, 1);
}

#[test]
fn attributes_and_open() {
    let mut bridge = formatted(10_000_000, 512);
    let f = bridge.mknod(1, "f", 0o644).unwrap().value;
    let d = bridge.mkdir(1, "d", 0o700).unwrap().value;
    assert!(bridge.open(f.ino).is_ok());
    assert_eq!(bridge.open(d.ino), Err(Errno::AccessDenied));
    assert!(bridge.opendir(d.ino).is_ok());
    assert_eq!(bridge.opendir(f.ino), Err(Errno::AccessDenied));
    assert_eq!(bridge.open(400), Err(Errno::IllegalSeek));
    let changed = bridge.setattr(f.ino, Some(0o600), Some(7), None).unwrap();
    assert_eq!((changed.perm, changed.uid, changed.gid), (0o600, 7, 0));
    let read_back = bridge.getattr(f.ino).unwrap();
    assert_eq!((read_back.perm, read_back.uid, read_back.gid), (0o600, 7, 0));
    assert_eq!(read_back.blksize, 512);
    assert_eq!(read_back.kind, FileType::RegularFile);
    assert!(matches!(bridge.getattr(400), Err(Error::OutOfBounds)));
    assert!(bridge.access(f.ino, 0).is_ok());
}

#[test]
fn statistics_and_fallocate() {
    let mut bridge = formatted(10_000_000, 512);
    let statistics = bridge.statfs();
    assert_eq!(statistics.blocks, 18907);
    assert_eq!(statistics.block_size, 504);
    assert_eq!(statistics.fragment_size, 504);
    assert_eq!(statistics.name_length, 65535);
    assert_eq!(statistics.files, 2);
    assert_eq!(statistics.files_free, 2361);
    assert_eq!(statistics.blocks_free, statistics.blocks_available);
    let f = bridge.mknod(1, "f", 0o644).unwrap().value;
    bridge.write(f.ino, 0, &[1, 2, 3, 4]).unwrap();
    bridge.fallocate(f.ino, 0, 6, 0o644).unwrap();
    assert_eq!(bridge.getattr(f.ino).unwrap().size, 10);
    assert_eq!(
        bridge.read(f.ino, 0, 100).unwrap(),
        vec![1, 2, 3, 4, 0, 0, 0, 0, 0, 0]
    );
    bridge.fallocate(f.ino, 8, 0, 0o644).unwrap();
    assert_eq!(bridge.read(f.ino, 0, 100).unwrap(), vec![1, 2]);
    assert!(matches!(
        bridge.fallocate(f.ino, 100, 0, 0o644),
        Err(Error::OutOfBounds)
    ));
    bridge.flush().unwrap();
    bridge.destroy().unwrap();
}

#[test]
fn duplicate_and_missing_entries() {
    let mut bridge = formatted(10_000_000, 512);
    bridge.mkdir(1, "a", 0o755).unwrap();
    assert!(matches!(bridge.rmdir(1, "nothing"), Err(Error::NotFound)));
    let inner = bridge.lookup(1, "a").unwrap();
    bridge.mknod(inner.ino, "f", 0o644).unwrap();
    assert!(matches!(
        bridge.rmdir(1, "a"),
        Err(Error::DirectoryNotEmpty)
    ));
    bridge.unlink(inner.ino, "f").unwrap();
    bridge.rmdir(1, "a").unwrap();
}

#[test]
fn making_and_removing_changes_one_inode() {
    let mut bridge = formatted(10_000_000, 512);
    let free = bridge.statfs().files_free;
    let f = bridge.mknod(1, "f", 0o600).unwrap().value;
    assert_eq!(f.ino, 2);
    assert_eq!(bridge.statfs().files_free, free - 1);
    let stored = bridge.filesystem.load_inode(2).unwrap();
    assert_eq!(stored.index, 2);
    assert_eq!(stored.kind, FileType::RegularFile);
    assert_eq!(stored.mode, 0o600);
    assert_eq!(stored.metadata[0], 1);
    assert_eq!((stored.size, stored.block_count), (0, 0));
    let d = bridge.mkdir(1, "d", 0o700).unwrap().value;
    assert_eq!(d.ino, 3);
    assert_eq!(bridge.statfs().files_free, free - 2);
    bridge.unlink(1, "f").unwrap();
    assert_eq!(bridge.statfs().files_free, free - 1);
    assert!(matches!(bridge.getattr(2), Err(Error::OutOfBounds)));
    assert!(bridge.getattr(3).is_ok());
    bridge.rmdir(1, "d").unwrap();
    assert_eq!(bridge.statfs().files_free, free);
    assert!(matches!(bridge.getattr(3), Err(Error::OutOfBounds)));
}

#[test]
fn a_write_lays_the_bytes_over_the_file() {
    let mut bridge = formatted(10_000_000, 512);
    let f = bridge.mknod(1, "f", 0o644).unwrap().value;
    let first: Vec<u8> = (0..1200u32).map(|v| (v % 251) as u8).collect();
    assert_eq!(bridge.write(f.ino, 0, &first).unwrap().value, 1200);
    assert_eq!(bridge.write(f.ino, 500, &[9u8; 10]).unwrap().value, 10);
    let mut wanted = first.clone();
    wanted[500..510].copy_from_slice(&[9u8; 10]);
    assert_eq!(bridge.getattr(f.ino).unwrap().size, 1200);
    assert_eq!(bridge.read(f.ino, 0, 5000).unwrap(), wanted);
    assert_eq!(bridge.write(f.ino, 1200, &[7u8; 3]).unwrap().value, 3);
    assert_eq!(bridge.getattr(f.ino).unwrap().size, 1203);
    assert!(matches!(
        bridge.write(f.ino, 1300, &[1]),
        Err(Error::OutOfBounds)
    ));
    assert!(matches!(
        bridge.write(f.ino, -1, &[1]),
        Err(Error::OutOfBounds)
    ));
    bridge.fallocate(f.ino, 1203, 4, 0o600).unwrap();
    assert_eq!(bridge.read(f.ino, 0, 100).unwrap(), first[0..4].to_vec());
    assert_eq!(bridge.getattr(f.ino).unwrap().perm, 0o600);
}

#[test]
fn init_allocates_the_sentinel_and_the_root() {
    let dev = MemoryDevice::new(vec![0u8; 10_000_000]);
    let mut bridge = FuseFs::new(Filesystem::new(dev, 10_000_000, 512));
    let free = bridge.filesystem.superblock.inodes_free;
    bridge.init().unwrap();
    assert_eq!(bridge.filesystem.superblock.inodes_free, free - 2);
    assert_eq!(bridge.filesystem.inodes.get(0).unwrap(), true);
    assert_eq!(bridge.filesystem.inodes.get(1).unwrap(), true);
    assert_eq!(bridge.filesystem.inodes.get(2).unwrap(), false);
    bridge.init().unwrap();
    assert_eq!(bridge.filesystem.superblock.inodes_free, free - 2);
    let root = bridge.getattr(1).unwrap();
    assert_eq!(root.kind, FileType::Directory);
    assert_eq!(root.perm, 0o750);
}

#[test]
fn making_under_what_is_no_directory_fails() {
    let mut bridge = formatted(10_000_000, 512);
    assert!(matches!(
        bridge.mknod(99, "f", 0o644),
        Err(Error::OutOfBounds)
    ));
    assert!(matches!(
        bridge.mkdir(99, "d", 0o755),
        Err(Error::OutOfBounds)
    ));
    assert!(matches!(
        bridge.rename(99, "a", 1, "b"),
        Err(Error::OutOfBounds)
    ));
    assert!(matches!(
        bridge.rename(1, "nothing", 1, "b"),
        Err(Error::NotFound)
    ));
    assert!(matches!(bridge.readdir(99, 0), Err(Error::OutOfBounds)));
    assert!(matches!(bridge.open(99), Err(Errno::IllegalSeek)));
}

#[test]
fn other_files_keep_their_bytes() {
    let mut bridge = formatted(10_000_000, 512);
    let d = bridge.mkdir(1, "d", 0o755).unwrap().value;
    let kept = bridge.mknod(1, "kept", 0o644).unwrap().value;
    let known = (0..1500u32).map(|v| (v % 199) as u8).collect::<Vec<u8>>();
    assert_eq!(bridge.write(kept.ino, 0, &known).unwrap().value, 1500);
    let blocks_free = bridge.filesystem.superblock.blocks_free;
    let f = bridge.mknod(d.ino, "f", 0o644).unwrap().value;
    assert_eq!(bridge.read(f.ino, 0, 10).unwrap(), Vec::<u8>::new());
    assert_eq!(bridge.write(f.ino, 0, &[9; 700]).unwrap().value, 700);
    assert_eq!(bridge.filesystem.superblock.blocks_free, blocks_free - 2);
    assert!(bridge.fallocate(f.ino, 0, 1000, 0o644).unwrap().write_back.is_ok());
    assert_eq!(bridge.filesystem.superblock.blocks_free, blocks_free - 4);
    assert_eq!(bridge.read(kept.ino, 0, 1500).unwrap(), known);
    assert!(bridge.fallocate(f.ino, 1690, 0, 0o644).unwrap().write_back.is_ok());
    assert_eq!(bridge.filesystem.superblock.blocks_free, blocks_free - 1);
    assert_eq!(bridge.read(f.ino, 0, 100).unwrap(), vec![9; 10]);
    assert_eq!(bridge.read(kept.ino, 0, 1500).unwrap(), known);
    assert!(bridge.rename(d.ino, "f", 1, "g").unwrap().write_back.is_ok());
    assert_eq!(bridge.read(kept.ino, 0, 1500).unwrap(), known);
    assert_eq!(bridge.getattr(kept.ino).unwrap().size, 1500);
    assert!(bridge.unlink(1, "g").unwrap().write_back.is_ok());
    assert_eq!(bridge.filesystem.superblock.blocks_free, blocks_free);
    assert_eq!(bridge.read(kept.ino, 0, 1500).unwrap(), known);
    let listed = bridge
        .readdir(1, 0)
        .unwrap()
        .iter()
        .map(|e| e.name.clone())
        .collect::<Vec<_>>();
    assert_eq!(listed, vec![".", "..", "d", "kept"]);
}

#[test]
fn a_line_cached_once_is_not_written() {
    let size = 10_000_000;
    let dev = MemoryDevice::new(vec![0xAAu8; size]);
    let mut bridge = FuseFs::new(Filesystem::new(dev, size as u64, 512));
    bridge.init().unwrap();
    let f = bridge.mknod(1, "f", 0o644).unwrap().value;
    assert_eq!(bridge.write(f.ino, 0, &[0; 10]).unwrap().value, 10);
    assert_eq!(bridge.read(f.ino, 0, 10).unwrap(), vec![0; 10]);
    let g = bridge.mknod(1, "g", 0o644).unwrap().value;
    assert_eq!(bridge.write(g.ino, 0, &[1; 10]).unwrap().value, 10);
    bridge.fsync().unwrap();
    let dev = bridge.filesystem.device;
    let mut bridge = FuseFs::new(Filesystem::load(dev, 512).unwrap());
    bridge.init().unwrap();
    let g = bridge.lookup(1, "g").unwrap();
    assert_eq!(bridge.read(g.ino, 0, 10).unwrap(), vec![1; 10]);
    let f = bridge.lookup(1, "f").unwrap();
    assert_eq!(f.size, 10);
    assert_eq!(bridge.read(f.ino, 0, 10).unwrap(), vec![0xAA; 10]);
}
