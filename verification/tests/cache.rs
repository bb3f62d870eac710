use tananfs::filesystem::cache::{
    is_ordered, key_before, ordered, ordered_by_insertion, Cache, CacheLine, LruLine,
    LRU_MAX_ENTRIES,
};
use tananfs::filesystem::device::MemoryDevice;
use tananfs::filesystem::{flush_due, Filesystem};
use tananfs::structs::{Block, Inode};

fn block(index: u64, fill: u8) -> Block {
    Block {
        index,
        data: vec![fill; 16],
    }
}

#[test]
fn cache_line_is_modified_by_a_different_value_only() {
    let mut line = CacheLine::new(&block(3, 1), 10);
    assert!(!line.modified);
    assert_eq!(line.atime, 10);
    line.update(&block(3, 1), 20);
    assert!(!line.modified);
    assert_eq!(line.atime, 10);
    line.update(&block(3, 2), 30);
    assert!(line.modified);
    assert_eq!(line.atime, 30);
    assert_eq!(line.value.data, vec![2; 16]);
    assert_eq!(line.get(40).data, vec![2; 16]);
    assert_eq!(line.atime, 40);
    assert!(matches!(line.lru_line(), LruLine::Block(40, 3)));
    assert_eq!(LruLine::Block(40, 3).duration(100), 60);
    assert_eq!(LruLine::Inode(40, 3).duration(30), 0);
    assert_eq!(LruLine::Inode(40, 3).sort_key(), (40, 0, 3));
    assert_eq!(LruLine::Block(40, 3).sort_key(), (40, 1, 3));
}

#[test]
fn cache_set_and_get() {
    let mut cache = Cache::new();
    assert!(cache.get_block(5, 1).is_none());
    cache.set_block(&block(5, 1), 2);
    assert!(!cache.blocks[&5].modified);
    let held = cache.get_block(5, 3).unwrap();
    assert_eq!((held.index, held.data), (5, vec![1; 16]));
    assert_eq!(cache.blocks[&5].atime, 3);
    cache.set_block(&block(5, 9), 4);
    assert!(cache.blocks[&5].modified);
    assert_eq!(cache.get_block(5, 5).unwrap().data, vec![9; 16]);
    let mut inode = Inode::default();
    inode.index = 7;
    assert!(cache.get_inode(7, 1).is_none());
    cache.set_inode(&inode, 1);
    assert!(!cache.inodes[&7].modified);
    inode.size = 11;
    cache.set_inode(&inode, 2);
    assert!(cache.inodes[&7].modified);
    assert_eq!(cache.get_inode(7, 3).unwrap().size, 11);
    assert!(matches!(cache.inodes[&7].lru_line(), LruLine::Inode(3, 7)));
}

#[test]
fn prune_keeps_the_newest_unmodified_lines() {
    let mut cache = Cache::new();
    let extra = 5u64;
    let total = LRU_MAX_ENTRIES as u64 + extra;
    // Stored, unmodified lines with an access that grows as the index falls.
    for index in 0..total {
        cache.hold_block(&block(index, 0), total - index);
    }
    // Three modified lines and three that were never stored, the oldest of all.
    for index in total..total + 3 {
        cache.set_block(&block(index, 0), 0);
        cache.set_block(&block(index, 1), 0);
    }
    for index in total + 3..total + 6 {
        cache.set_block(&block(index, 0), 0);
    }
    let mut inode = Inode::default();
    inode.index = 1;
    cache.hold_inode(&inode, total + 1);
    assert!(cache.prune().is_ok());
    // One inode line and `total` block lines were spare; the limit stays.
    let spare = cache
        .blocks
        .values()
        .filter(|line| !line.modified && line.stored)
        .count()
        + cache
            .inodes
            .values()
            .filter(|line| !line.modified && line.stored)
            .count();
    assert_eq!(spare, LRU_MAX_ENTRIES);
    for index in total..total + 3 {
        assert!(cache.blocks[&index].modified);
        assert!(!cache.blocks[&index].stored);
    }
    for index in total + 3..total + 6 {
        assert!(!cache.blocks[&index].modified);
        assert!(!cache.blocks[&index].stored);
    }
    assert!(cache.inodes.contains_key(&1));
    // The oldest spare lines are the ones with the highest indexes.
    for index in total - extra - 1..total {
        assert!(!cache.blocks.contains_key(&index));
    }
    assert!(cache.blocks.contains_key(&(total - extra - 2)));
    assert!(cache.blocks.contains_key(&0));
    // Pruning again changes nothing.
    let lines = cache.blocks.len();
    assert!(cache.prune().is_ok());
    assert_eq!(cache.blocks.len(), lines);
}

#[test]
fn a_line_is_stored_once_read_or_written() {
    let dev = MemoryDevice::new(vec![0u8; 1_000_000]);
    let mut fs = Filesystem::new(dev, 1_000_000, 512);
    let index = fs.acquire_inode().unwrap();
    let mut record = Inode::default();
    record.index = index;
    fs.flush_inode(&record).unwrap();
    assert!(!fs.cache.inodes[&index].modified);
    assert!(!fs.cache.inodes[&index].stored);
    record.size = 9;
    fs.flush_inode(&record).unwrap();
    assert!(fs.cache.inodes[&index].modified);
    assert!(!fs.cache.inodes[&index].stored);
    fs.force_flush().unwrap();
    assert!(!fs.cache.inodes[&index].modified);
    assert!(fs.cache.inodes[&index].stored);
    // A forced flush keeps the lines that it wrote.
    assert_eq!(fs.cache.inodes[&index].value.size, 9);
    let superblock = fs.superblock;
    let mut mounted = Filesystem::load(fs.device, 512).unwrap();
    assert_eq!(mounted.superblock.inodes_free, superblock.inodes_free);
    assert_eq!(mounted.load_inode(index).unwrap().size, 9);
    assert!(mounted.cache.inodes[&index].stored);
}

#[test]
fn ordering_of_lines() {
    assert!(key_before((1, 1, 9), (2, 0, 0)));
    assert!(key_before((1, 0, 9), (1, 1, 0)));
    assert!(key_before((1, 1, 3), (1, 1, 4)));
    assert!(!key_before((1, 1, 4), (1, 1, 4)));
    assert!(!key_before((2, 0, 0), (1, 1, 9)));
    let lines = vec![(5, 0, 1), (3, 1, 2), (3, 0, 7), (9, 0, 0), (3, 0, 1)];
    let wanted = vec![(3, 0, 1), (3, 0, 7), (3, 1, 2), (5, 0, 1), (9, 0, 0)];
    assert_eq!(ordered(&lines), wanted);
    assert_eq!(ordered_by_insertion(&lines), wanted);
    assert!(is_ordered(&wanted));
    assert!(!is_ordered(&lines));
    assert!(is_ordered(&Vec::new()));
}

#[test]
fn after_force_flush_no_line_is_modified() {
    let dev = MemoryDevice::new(vec![0u8; 1_000_000]);
    let mut fs = Filesystem::new(dev, 1_000_000, 512);
    let first = fs.acquire_block().unwrap();
    let second = fs.acquire_block().unwrap();
    let mut loaded = fs.load_block(first, true).unwrap();
    assert_eq!(&loaded.data[..8], &[0xff; 8]);
    assert!(loaded.data[8..].iter().all(|&byte| byte == 0));
    loaded.data[100] = 42;
    fs.flush_block(&loaded).unwrap();
    let mut other = fs.load_block(second, false).unwrap();
    other.data[7] = 1;
    fs.flush_block(&other).unwrap();
    let inode = fs.acquire_inode().unwrap();
    let mut record = Inode::default();
    record.index = inode;
    fs.flush_inode(&record).unwrap();
    record.size = 9;
    fs.flush_inode(&record).unwrap();
    assert!(fs.cache.blocks.values().any(|line| line.modified));
    assert!(fs.cache.inodes.values().any(|line| line.modified));
    fs.force_flush().unwrap();
    assert!(fs.cache.blocks.values().all(|line| !line.modified));
    assert!(fs.cache.inodes.values().all(|line| !line.modified));
    assert!(fs.last_flush.is_some());
    // What was modified is on the device.
    let position = fs.superblock.block_position(first).unwrap() as usize;
    assert_eq!(fs.device.data[position + 100], 42);
    let position = fs.superblock.inode_position(inode).unwrap() as usize;
    assert_eq!(&fs.device.data[position + 11..position + 19], &9u64.to_le_bytes());
    // The cached copy is what a load returns.
    assert_eq!(fs.load_block(first, false).unwrap().data[100], 42);
    assert_eq!(fs.load_inode(inode).unwrap().size, 9);
    // Records that do not belong to the filesystem are refused.
    let foreign = Block {
        index: fs.superblock.block_count,
        data: vec![0; 512],
    };
    assert!(fs.flush_block(&foreign).is_err());
    let short = Block {
        index: first,
        data: vec![0; 100],
    };
    assert!(fs.flush_block(&short).is_err());
}

#[test]
fn a_flush_is_due_after_the_window() {
    assert!(flush_due(None, 0));
    assert!(!flush_due(Some(100), 100));
    assert!(!flush_due(Some(100), 1099));
    assert!(flush_due(Some(100), 1100));
    assert!(flush_due(Some(100), 99));
    let dev = MemoryDevice::new(vec![0u8; 1_000_000]);
    let mut fs = Filesystem::new(dev, 1_000_000, 512);
    assert!(fs.last_flush.is_none());
    fs.flush_at(5).unwrap();
    assert_eq!(fs.last_flush, Some(5));
    fs.flush_at(1004).unwrap();
    assert_eq!(fs.last_flush, Some(5));
    fs.flush_at(1005).unwrap();
    assert_eq!(fs.last_flush, Some(1005));
    fs.force_flush_at(1006).unwrap();
    assert_eq!(fs.last_flush, Some(1006));
    fs.flush().unwrap();
}

#[test]
fn a_forced_flush_stores_the_modified_records() {
    let dev = MemoryDevice::new(vec![0u8; 1_000_000]);
    let mut fs = Filesystem::new(dev, 1_000_000, 512);
    let index = fs.acquire_inode().unwrap();
    let mut record = Inode::default();
    record.index = index;
    fs.flush_inode(&record).unwrap();
    record.size = 77;
    record.mode = 0o640;
    fs.flush_inode(&record).unwrap();
    let held = fs.acquire_block().unwrap();
    let mut stored = fs.load_block(held, true).unwrap();
    stored.data[8] = 42;
    fs.flush_block(&stored).unwrap();
    fs.force_flush().unwrap();
    let superblock = fs.superblock;
    let mut device = fs.device;
    let on_disk = Inode::load(&mut device, &superblock, index).unwrap();
    assert_eq!(on_disk.size, 77);
    assert_eq!(on_disk.mode, 0o640);
    let block_on_disk = Block::load(&mut device, &superblock, held).unwrap();
    assert_eq!(block_on_disk.data, stored.data);
    let mut mounted = Filesystem::load(device, 512).unwrap();
    assert_eq!(mounted.superblock.inodes_free, superblock.inodes_free);
    assert_eq!(mounted.superblock.blocks_free, superblock.blocks_free);
    assert_eq!(mounted.load_inode(index).unwrap().size, 77);
    assert_eq!(mounted.load_block(held, false).unwrap().data[8], 42);
}

#[test]
fn the_first_flush_is_forced() {
    let dev = MemoryDevice::new(vec![0u8; 1_000_000]);
    let mut fs = Filesystem::new(dev, 1_000_000, 512);
    assert!(fs.last_flush.is_none());
    assert_eq!(Filesystem::detect_existing(&mut fs.device).unwrap(), None);
    fs.flush().unwrap();
    assert!(fs.last_flush.is_some());
    assert_eq!(
        Filesystem::detect_existing(&mut fs.device).unwrap(),
        Some(512)
    );
    let mut bridge = tananfs::filesystem::FuseFs::new(Filesystem::new(
        MemoryDevice::new(vec![0u8; 1_000_000]),
        1_000_000,
        512,
    ));
    bridge.flush().unwrap();
    assert!(bridge.filesystem.last_flush.is_some());
}
