use tananfs::structs::{Bitmap, Block, Inode, Superblock};

#[test]
fn superblock_size() {
    assert_eq!(std::mem::size_of::<Superblock>(), 1024);
}

#[test]
fn usable_capacity() {
    for block_exp in 9..=14 {
        let block_size = 1u64 << block_exp;
        assert_eq!(
            Superblock::usable_capacity(1_000_000, block_size as u32) % block_size,
            0
        );
        assert_eq!(
            Superblock::usable_capacity(10_000_000, block_size as u32) % block_size,
            0
        );
        assert_eq!(
            Superblock::usable_capacity(1_000_000_000, block_size as u32) % block_size,
            0
        );
    }
}

#[test]
fn align_position() {
    let superblock = Superblock::new(2_048_000, 512);
    assert_eq!(superblock.align(3000), 3072);
    assert_eq!(superblock.align(4000), 4096);
    assert_eq!(superblock.align(5000), 5120);
    assert_eq!(superblock.align(5500), 5632);
}

#[test]
fn regions() {
    for block_exp in 9..=14 {
        let block_size = 1u64 << block_exp;
        let superblock = Superblock::new(100_000_000, block_size as u32);
        assert_eq!(
            superblock.bitmap_region_start(),
            block_size + std::mem::size_of::<Superblock>() as u64
        );
        let inodes = block_size
            + std::mem::size_of::<Superblock>() as u64
            + (Bitmap::<Inode>::size_in_bytes(superblock.inode_count)
                + Bitmap::<Block>::size_in_bytes(superblock.block_count)) as u64;
        assert_eq!(superblock.inode_region_start(), superblock.align(inodes));
        let blocks = inodes + superblock.inode_count * std::mem::size_of::<Inode>() as u64;
        assert_eq!(superblock.block_region_start(), superblock.align(blocks));
        assert_eq!(
            superblock.block_region_end(),
            superblock.align(blocks) + superblock.block_count * block_size
        );
    }
}

#[test]
fn usable_capacity_has_the_documented_values() {
    assert_eq!(Superblock::usable_capacity(10_000_000, 512), 9_680_384);
    assert_eq!(Superblock::usable_capacity(100_000, 4096), 86_016);
    let superblock = Superblock::new(10_000_000, 512);
    assert_eq!(superblock.inode_count, 2363);
    assert_eq!(superblock.block_count, 18907);
    assert_eq!(superblock.inodes_free, 2363);
    assert_eq!(superblock.blocks_free, 18907);
    assert_eq!(superblock.magic, 0xEF53);
    assert_eq!(superblock.inode_region_start(), 6656);
    assert_eq!(superblock.block_region_start(), 309_248);
    assert_eq!(superblock.block_region_end(), 9_989_632);
    assert_eq!(superblock.inode_position(0).unwrap(), 6656);
    assert_eq!(superblock.inode_position(2).unwrap(), 6656 + 256);
    assert!(superblock.inode_position(1 << 40).is_err());
    assert_eq!(superblock.block_position(1).unwrap(), 309_248 + 512);
    assert!(superblock.block_position(18907).is_err());
    let bytes = superblock.to_bytes();
    assert_eq!(bytes.len(), 1024);
    assert_eq!(&bytes[0x38..0x3a], &[0x53, 0xEF]);
    assert_eq!(&bytes[32..36], &512u32.to_le_bytes());
    let back = Superblock::from_bytes(&bytes).unwrap();
    assert_eq!(back.inode_count, 2363);
    assert_eq!(back.block_size, 512);
}
