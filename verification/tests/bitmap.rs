use tananfs::filesystem::device::MemoryDevice;
use tananfs::structs::bitmap::BITS_IN_USIZE;
use tananfs::structs::{Bitmap, Inode, Superblock};

#[test]
fn bitmap_size() {
    assert_eq!(Bitmap::<Inode>::size_in_bytes(0), 1024);
    assert_eq!(Bitmap::<Inode>::size_in_bytes(10), 1024);
    assert_eq!(Bitmap::<Inode>::size_in_bytes(200), 1024);
    assert_eq!(Bitmap::<Inode>::size_in_bytes(1024), 1024);
    assert_eq!(Bitmap::<Inode>::size_in_bytes(8192), 1024);
    assert_eq!(Bitmap::<Inode>::size_in_bytes(8200), 2048);
    assert_eq!(Bitmap::<Inode>::size_in_bytes(100_000), 16384);
}

#[test]
fn empty() {
    let superblock = Superblock::new(100_000, 512);
    let bitmap = Bitmap::<Inode>::new(&superblock);
    assert_eq!(bitmap.bitfield.len(), 128);
    bitmap
        .bitfield
        .iter()
        .for_each(|&chunk| assert_eq!(chunk, 0));
}

#[test]
fn set_and_get() {
    let superblock = Superblock::new(100_000_000, 512);
    let mut bitmap = Bitmap::<Inode>::new(&superblock);
    assert!(bitmap.set(100, true).is_ok());
    assert!(bitmap.set(1000, true).is_ok());
    assert!(bitmap.set(10000, true).is_ok());
    assert!(bitmap.set(30000, true).is_err());
    assert_eq!(bitmap.get(10).unwrap(), false);
    assert_eq!(bitmap.get(99).unwrap(), false);
    assert_eq!(bitmap.get(100).unwrap(), true);
    assert_eq!(bitmap.get(101).unwrap(), false);
    assert_eq!(bitmap.get(999).unwrap(), false);
    assert_eq!(bitmap.get(1000).unwrap(), true);
    assert_eq!(bitmap.get(1001).unwrap(), false);
    assert_eq!(bitmap.get(9999).unwrap(), false);
    assert_eq!(bitmap.get(10000).unwrap(), true);
    assert_eq!(bitmap.get(10001).unwrap(), false);
    assert_eq!(bitmap.get(20000).unwrap(), false);
    assert!(bitmap.get(30000).is_err());
}

#[test]
fn bitmap_load_and_flush() {
    let superblock = Superblock::new(100_000, 4096);
    let mut bitmap = Bitmap::<Inode>::new(&superblock);
    let mut dev = MemoryDevice::new(vec![0u8; superblock.inode_region_start() as usize]);
    assert!(bitmap.load(&mut dev).is_ok());
    assert!(bitmap.flush(&mut dev).is_ok());
}

#[test]
fn next_free() {
    let superblock = Superblock::new(10_000_000, 512);
    let mut bitmap = Bitmap::<Inode>::new(&superblock);
    for index in 0..BITS_IN_USIZE * 2 {
        assert_eq!(bitmap.get(index).unwrap(), false);
        assert_eq!(bitmap.next_free(index), Some(index));
        assert!(bitmap.set(index, true).is_ok());
    }
}

#[test]
fn next_free_is_the_least_free_index() {
    let superblock = Superblock::new(10_000_000, 512);
    let mut bitmap = Bitmap::<Inode>::new(&superblock);
    for index in [0u64, 1, 2, 4, 64, 65, 200] {
        bitmap.set(index, true).unwrap();
    }
    assert_eq!(bitmap.next_free(0), Some(3));
    assert_eq!(bitmap.next_free(4), Some(5));
    assert_eq!(bitmap.next_free(64), Some(66));
    bitmap.set(3, true).unwrap();
    assert_eq!(bitmap.next_free(0), Some(5));
    assert_eq!(bitmap.count_used(), 8);
    bitmap.set(1, false).unwrap();
    assert_eq!(bitmap.next_free(0), Some(1));
    assert_eq!(bitmap.count_used(), 7);
}

#[test]
fn bitmap_flush_then_load_gives_the_bits_back() {
    let superblock = Superblock::new(10_000_000, 512);
    let mut bitmap = Bitmap::<Inode>::new(&superblock);
    let taken = [0u64, 7, 8, 9, 63, 64, 1000, 2000, 2362];
    for index in taken {
        bitmap.set(index, true).unwrap();
    }
    let stored = bitmap.flush_content();
    assert_eq!(stored.len(), 1024);
    assert_eq!(stored[0], 0b1000_0001);
    assert_eq!(stored[1], 0b0000_0011);
    assert_eq!(stored[7], 0b1000_0000);
    assert_eq!(stored[8], 0b0000_0001);
    let mut fresh = Bitmap::<Inode>::new(&superblock);
    fresh.load_content(&stored).unwrap();
    assert_eq!(fresh.bitfield, bitmap.bitfield);
    for index in 0..superblock.inode_count {
        assert_eq!(fresh.get(index).unwrap(), taken.contains(&index));
    }
    let mut dev = MemoryDevice::new(vec![0u8; 100_000]);
    bitmap.flush(&mut dev).unwrap();
    let mut again = Bitmap::<Inode>::new(&superblock);
    again.load(&mut dev).unwrap();
    assert_eq!(again.bitfield, bitmap.bitfield);
    assert!(fresh.load_content(&stored[..100]).is_err());
}

#[test]
fn a_bitmap_and_a_block_are_laid_out_as_text() {
    let mut bitmap = Bitmap::<Inode>::empty(20, 1536);
    bitmap.set(3, true).unwrap();
    bitmap.set(17, true).unwrap();
    assert_eq!(
        bitmap.describe(),
        "Bitmap {\n    count: 20\n    position: 1536\n    bitfield: [\n        3\n        17\n    ]\n}"
    );
    let block = tananfs::structs::Block {
        index: 9,
        data: vec![b'a', 0, 0x1f, b'Z', b'7', 0xff, 0, 0, 0, 0, 0, 0, 0, 0, 0, 0, b'x'],
    };
    let text = block.describe();
    let lines: Vec<&str> = text.lines().collect();
    assert_eq!(lines[0], "Block {");
    assert_eq!(lines[1], "    index: 9");
    assert_eq!(lines[2], "    data: [");
    assert_eq!(
        lines[3],
        "           0  1  2  3  4  5  6  7  8  9 10 11 12 13 14 15"
    );
    assert_eq!(
        lines[4],
        "       0:  a  \u{b7} 1F  Z  7 FF  \u{b7}  \u{b7}  \u{b7}  \u{b7}  \u{b7}  \u{b7}  \u{b7}  \u{b7}  \u{b7}  \u{b7}"
    );
    assert_eq!(lines[5], "      16:  x    ]");
    assert_eq!(lines[6], "}");
}
