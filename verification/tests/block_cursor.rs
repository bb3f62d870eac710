use tananfs::filesystem::device::MemoryDevice;
use tananfs::filesystem::Filesystem;
use tananfs::filetypes::BlockCursor;

#[test]
fn advance_without_overflow() {
    let dev = MemoryDevice::new(vec![0u8; 10_000_000]);
    let fs = Filesystem::new(dev, 10_000_000, 512);
    let mut cursor = BlockCursor::new(&fs, (0, 0));
    assert_eq!(cursor.current_block, 0);
    assert_eq!(cursor.current_byte, 0);
    cursor.advance(400);
    assert_eq!(cursor.current_block, 0);
    assert_eq!(cursor.current_byte, 400);
    cursor.advance(111);
    assert_eq!(cursor.current_block, 0);
    assert_eq!(cursor.current_byte, 511);
}

#[test]
fn regress_without_overflow() {
    let dev = MemoryDevice::new(vec![0u8; 10_000_000]);
    let fs = Filesystem::new(dev, 10_000_000, 512);
    let mut cursor = BlockCursor::from(&fs, 10, 200, (0, 0));
    assert_eq!(cursor.current_block, 10);
    assert_eq!(cursor.current_byte, 200);
    cursor.regress(100);
    assert_eq!(cursor.current_block, 10);
    assert_eq!(cursor.current_byte, 100);
    cursor.regress(55);
    assert_eq!(cursor.current_block, 10);
    assert_eq!(cursor.current_byte, 45);
}

#[test]
fn advance_with_overflow() {
    let dev = MemoryDevice::new(vec![0u8; 10_000_000]);
    let fs = Filesystem::new(dev, 10_000_000, 512);
    let mut cursor = BlockCursor::new(&fs, (0, 0));
    cursor.advance(600);
    assert_eq!(cursor.current_block, 1);
    assert_eq!(cursor.current_byte, 88);
    cursor.advance(1000);
    assert_eq!(cursor.current_block, 3);
    assert_eq!(cursor.current_byte, 64);
}

#[test]
fn regress_with_overflow() {
    let dev = MemoryDevice::new(vec![0u8; 10_000_000]);
    let fs = Filesystem::new(dev, 10_000_000, 512);
    let mut cursor = BlockCursor::from(&fs, 10, 200, (0, 0));
    assert_eq!(cursor.current_block, 10);
    assert_eq!(cursor.current_byte, 200);
    cursor.regress(400);
    assert_eq!(cursor.current_block, 9);
    assert_eq!(cursor.current_byte, 312);
    cursor.regress(111);
    assert_eq!(cursor.current_block, 9);
    assert_eq!(cursor.current_byte, 201);
    cursor.regress(512);
    assert_eq!(cursor.current_block, 8);
    assert_eq!(cursor.current_byte, 201);
    cursor.regress(4000);
    assert_eq!(cursor.current_block, 0);
    assert_eq!(cursor.current_byte, 297);
    cursor.regress(1000);
    assert_eq!(cursor.current_block, 0);
    assert_eq!(cursor.current_byte, 0);
}

#[test]
fn advance_with_padding() {
    let dev = MemoryDevice::new(vec![0u8; 10_000_000]);
    let fs = Filesystem::new(dev, 10_000_000, 512);
    let mut cursor = BlockCursor::from(&fs, 0, 0, (8, 16));
    cursor.advance(500);
    assert_eq!(cursor.current_block, 1);
    assert_eq!(cursor.current_byte, 12);
    cursor.advance(1234);
    assert_eq!(cursor.current_block, 3);
    assert_eq!(cursor.current_byte, 270);
    cursor.advance(225);
    assert_eq!(cursor.current_block, 3);
    assert_eq!(cursor.current_byte, 495);
    cursor.advance(2);
    assert_eq!(cursor.current_block, 4);
    assert_eq!(cursor.current_byte, 9);
}

#[test]
fn regress_with_padding() {
    let dev = MemoryDevice::new(vec![0u8; 10_000_000]);
    let fs = Filesystem::new(dev, 10_000_000, 512);
    let mut cursor = BlockCursor::from(&fs, 10, 200, (8, 16));
    assert_eq!(cursor.current_block, 10);
    assert_eq!(cursor.current_byte, 200);
    cursor.regress(400);
    assert_eq!(cursor.current_block, 9);
    assert_eq!(cursor.current_byte, 288);
    cursor.regress(111);
    assert_eq!(cursor.current_block, 9);
    assert_eq!(cursor.current_byte, 177);
    cursor.regress(488);
    assert_eq!(cursor.current_block, 8);
    assert_eq!(cursor.current_byte, 177);
}

#[test]
fn cursor_position_is_block_times_payload_plus_byte() {
    let dev = MemoryDevice::new(vec![0u8; 10_000_000]);
    let fs = Filesystem::new(dev, 10_000_000, 512);
    let mut cursor = BlockCursor::new(&fs, (8, 0));
    assert_eq!(cursor.position(), 0);
    assert_eq!(cursor.advance(1000), 1000);
    assert_eq!(cursor.block(), 1);
    assert_eq!(cursor.byte(), 8 + 496);
    assert_eq!(cursor.padded_byte(), 496);
    assert_eq!(cursor.position(), 1000);
    assert_eq!(cursor.current(), 1000);
    assert_eq!(cursor.set(504), 504);
    assert_eq!((cursor.block(), cursor.byte()), (1, 8));
    assert_eq!(cursor.regress(1), 503);
    assert_eq!((cursor.block(), cursor.byte()), (0, 511));
    assert_eq!(cursor.regress(10_000), 0);
    assert_eq!((cursor.block(), cursor.byte()), (0, 8));
    cursor.reset();
    assert_eq!(cursor.position(), 0);
}
