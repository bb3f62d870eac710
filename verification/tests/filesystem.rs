use tananfs::filesystem::device::MemoryDevice;
use tananfs::filesystem::Filesystem;

#[test]
fn filesystem_load_and_flush() {
    let dev = MemoryDevice::new(vec![0u8; 10_000_000]);
    let mut fs = Filesystem::new(dev, 10_000_000, 512);
    assert![fs.acquire_block().is_ok()];
    assert!(fs.flush().is_ok());
    let dev = fs.device;
    let fs = Filesystem::load(dev, 512).unwrap();
    assert_eq![fs.blocks.get(0).unwrap(), true];
    assert_eq![fs.superblock.block_count - fs.superblock.blocks_free, 1];
}

#[test]
fn filesystem_acquire_and_release_inode() {
    let dev = MemoryDevice::new(vec![0u8; 10_000_000]);
    let mut fs = Filesystem::new(dev, 10_000_000, 512);
    assert_eq![fs.acquire_inode().unwrap(), 0];
    assert_eq![fs.acquire_inode().unwrap(), 1];
    assert_eq![fs.acquire_inode().unwrap(), 2];
    assert![fs.release_inode(1).is_ok()];
    assert![fs.release_inode(1).is_err()];
    assert_eq![fs.acquire_inode().unwrap(), 1];
    assert_eq![fs.acquire_inode().unwrap(), 3];
}

#[test]
fn filesystem_acquire_and_release_block() {
    let dev = MemoryDevice::new(vec![0u8; 10_000_000]);
    let mut fs = Filesystem::new(dev, 10_000_000, 4096);
    assert_eq![fs.acquire_block().unwrap(), 0];
    assert_eq![fs.acquire_block().unwrap(), 1];
    assert_eq![fs.acquire_block().unwrap(), 2];
    assert![fs.release_block(0).is_ok()];
    assert![fs.release_block(0).is_err()];
    assert_eq![fs.acquire_block().unwrap(), 0];
    assert_eq![fs.acquire_block().unwrap(), 3];
}

#[test]
fn mod_load_and_flush() {
    let dev = MemoryDevice::new(vec![0u8; 10_000_000]);
    let mut fs = Filesystem::new(dev, 10_000_000, 512);
    assert![fs.acquire_block().is_ok()];
    assert!(fs.flush().is_ok());
    let dev = fs.device;
    let fs = Filesystem::load(dev, 512).unwrap();
    assert_eq![fs.blocks.get(0).unwrap(), true];
    assert_eq![fs.superblock.block_count - fs.superblock.blocks_free, 1];
}

#[test]
fn mod_acquire_and_release_inode() {
    let dev = MemoryDevice::new(vec![0u8; 10_000_000]);
    let mut fs = Filesystem::new(dev, 10_000_000, 512);
    assert_eq![fs.acquire_inode().unwrap(), 0];
    assert_eq![fs.acquire_inode().unwrap(), 1];
    assert_eq![fs.acquire_inode().unwrap(), 2];
    assert![fs.release_inode(1).is_ok()];
    assert![fs.release_inode(1).is_err()];
    assert_eq![fs.acquire_inode().unwrap(), 1];
    assert_eq![fs.acquire_inode().unwrap(), 3];
    for index in 4..fs.superblock.inode_count {
        assert_eq![fs.acquire_inode().unwrap(), index];
    }
    for index in 4..fs.superblock.inode_count {
        assert![fs.release_inode(index).is_ok()];
    }
}

#[test]
fn mod_acquire_and_release_block() {
    let dev = MemoryDevice::new(vec![0u8; 10_000_000]);
    let mut fs = Filesystem::new(dev, 10_000_000, 4096);
    assert_eq![fs.acquire_block().unwrap(), 0];
    assert_eq![fs.acquire_block().unwrap(), 1];
    assert_eq![fs.acquire_block().unwrap(), 2];
    assert![fs.release_block(0).is_ok()];
    assert![fs.release_block(0).is_err()];
    assert_eq![fs.acquire_block().unwrap(), 0];
    assert_eq![fs.acquire_block().unwrap(), 3];
    for index in 4..fs.superblock.block_count {
        assert_eq![fs.acquire_block().unwrap(), index];
    }
    for index in 4..fs.superblock.block_count {
        assert![fs.release_block(index).is_ok()];
    }
}
