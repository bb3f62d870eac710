use tananfs::bytes::{
    reversed, u16_from_be_bytes, u16_to_be_bytes, u64_from_be_bytes, u64_to_be_bytes,
};
use tananfs::error::{Errno, Error};
use tananfs::filesystem::device::{BlockDevice, MemoryDevice};
use tananfs::filesystem::{layout_end, valid_block_size, Filesystem};
use tananfs::filetypes::helpers::{
    bytes_per_block, empty_block, empty_block_data, get_next_block, read_from_block,
    read_sized_string, read_string, read_u16, read_u64, set_next_block, timestamp_now,
    u16_from_bytes, u64_from_bytes, write_to_block, zeroed,
};
use tananfs::filetypes::raw_file::seek_target;
use tananfs::filetypes::{RawByteFile, SeekFrom};
use tananfs::math::{next_power_of_two, power_of_two};
use tananfs::structs::superblock::can_format;
use tananfs::structs::{Block, FileType, Superblock, NULL_BLOCK};

#[test]
fn next_pointers_are_little_endian() {
    let mut block = Block {
        index: 3,
        data: vec![5u8; 32],
    };
    set_next_block(&mut block, 0x0102_0304_0506_0708);
    assert_eq!(&block.data[..8], &[8, 7, 6, 5, 4, 3, 2, 1]);
    assert!(block.data[8..].iter().all(|&byte| byte == 5));
    assert_eq!(get_next_block(&block), 0x0102_0304_0506_0708);
    set_next_block(&mut block, NULL_BLOCK);
    assert_eq!(get_next_block(&block), u64::MAX);
    assert_eq!(u64_from_bytes(&[1, 0, 0, 0, 0, 0, 0, 0]), 1);
    assert_eq!(u16_from_bytes(&[1, 2]), 0x0201);
    assert_eq!(bytes_per_block(512), 504);
    let empty = empty_block(16);
    assert_eq!(empty, vec![255, 255, 255, 255, 255, 255, 255, 255, 0, 0, 0, 0, 0, 0, 0, 0]);
    assert_eq!(empty_block_data(&mut block, 20), 12);
    assert!(block.data[8..20].iter().all(|&byte| byte == 5));
    assert!(block.data[20..].iter().all(|&byte| byte == 0));
    assert_eq!(empty_block_data(&mut block, 4), 28);
    assert_eq!(&block.data[..8], &[255, 255, 255, 255, 255, 255, 255, 255]);
    assert_eq!(zeroed(3), vec![0, 0, 0]);
}

#[test]
fn bytes_move_between_blocks_and_buffers() {
    let mut block = Block {
        index: 0,
        data: vec![0u8; 16],
    };
    assert_eq!(write_to_block(&mut block, 12, &[1, 2, 3, 4, 5, 6], 1), 4);
    assert_eq!(&block.data[12..], &[2, 3, 4, 5]);
    assert_eq!(write_to_block(&mut block, 8, &[9, 9], 0), 2);
    assert_eq!(&block.data[8..10], &[9, 9]);
    let mut buffer = vec![7u8; 5];
    assert_eq!(read_from_block(&block, 13, &mut buffer, 1), 3);
    assert_eq!(buffer, vec![7, 3, 4, 5, 7]);
    assert_eq!(read_from_block(&block, 8, &mut buffer, 3), 2);
    assert_eq!(buffer, vec![7, 3, 4, 9, 9]);
    let rest = block.write_bytes(14, &[1, 2, 3, 4]).unwrap().to_vec();
    assert_eq!(rest, vec![3, 4]);
    assert_eq!(&block.data[14..], &[1, 2]);
    let rest = block.write_bytes(0, &[6, 6]).unwrap().to_vec();
    assert!(rest.is_empty());
    assert_eq!(&block.data[..2], &[6, 6]);
    assert!(matches!(
        block.write_bytes(17, &[1]),
        Err(Error::OutOfBounds)
    ));
    assert!(block.same_as(&block.duplicate()));
    let mut other = block.duplicate();
    other.data[3] = 1;
    assert!(!block.same_as(&other));
}

#[test]
fn integers_in_both_byte_orders() {
    assert_eq!(u64_to_be_bytes(0x0102_0304_0506_0708), vec![1, 2, 3, 4, 5, 6, 7, 8]);
    assert_eq!(u64_from_be_bytes(&[0, 0, 0, 0, 0, 0, 1, 0xa4]), 420);
    assert_eq!(u16_to_be_bytes(0x0102), vec![1, 2]);
    assert_eq!(u16_from_be_bytes(&[0xff, 0x01]), 0xff01);
    assert_eq!(reversed(&[1, 2, 3]), vec![3, 2, 1]);
    for value in [0u64, 1, 255, 256, u64::MAX, 0xdead_beef] {
        assert_eq!(u64_from_be_bytes(&u64_to_be_bytes(value)), value);
    }
}

#[test]
fn powers_of_two_and_block_sizes() {
    assert_eq!(next_power_of_two(0), 1);
    assert_eq!(next_power_of_two(1), 1);
    assert_eq!(next_power_of_two(3), 4);
    assert_eq!(next_power_of_two(4096), 4096);
    assert_eq!(next_power_of_two(4097), 8192);
    assert!(power_of_two(1) && power_of_two(512) && power_of_two(1 << 63));
    assert!(!power_of_two(0) && !power_of_two(3) && !power_of_two(u64::MAX));
    assert!(valid_block_size(512) && valid_block_size(8192));
    assert!(!valid_block_size(256) && !valid_block_size(16384) && !valid_block_size(1000));
    assert!(can_format(100_000, 512));
    assert!(can_format(1_000_000, 16384));
    assert!(!can_format(100_000, 500));
    assert!(!can_format(1500, 512));
    assert!(!can_format(3000, 512));
    assert!(!can_format(u64::MAX, 512));
    let superblock = Superblock::new(100_000, 512);
    assert_eq!(layout_end(&superblock), superblock.block_region_end() as u128);
    assert_eq!(Superblock::align_to_block_start(3072, 512), 3072);
    assert_eq!(Superblock::align_to_block_start(3073, 512), 3584);
    assert_eq!(FileType::Directory.code(), 3);
    assert_eq!(FileType::RegularFile.code(), 4);
    assert_eq!(FileType::from_code(0), Some(FileType::NamedPipe));
    assert_eq!(FileType::from_code(6), Some(FileType::Socket));
    assert_eq!(FileType::from_code(7), None);
}

#[test]
fn seek_targets() {
    assert_eq!(seek_target(SeekFrom::Start(5), 10, 3), Some(5));
    assert_eq!(seek_target(SeekFrom::Start(10), 10, 3), Some(10));
    assert_eq!(seek_target(SeekFrom::Start(11), 10, 3), None);
    assert_eq!(seek_target(SeekFrom::End(0), 10, 3), Some(10));
    assert_eq!(seek_target(SeekFrom::End(-10), 10, 3), Some(0));
    assert_eq!(seek_target(SeekFrom::End(-11), 10, 3), None);
    assert_eq!(seek_target(SeekFrom::End(1), 10, 3), None);
    assert_eq!(seek_target(SeekFrom::Current(7), 10, 3), Some(10));
    assert_eq!(seek_target(SeekFrom::Current(8), 10, 3), None);
    assert_eq!(seek_target(SeekFrom::Current(-3), 10, 3), Some(0));
    assert_eq!(seek_target(SeekFrom::Current(-4), 10, 3), None);
    assert_eq!(seek_target(SeekFrom::Current(0), 10, 3), Some(3));
    assert_eq!(seek_target(SeekFrom::Current(i64::MIN), u64::MAX, u64::MAX), Some((1 << 63) - 1));
}

#[test]
fn reading_values_from_a_stream() {
    let dev = MemoryDevice::new(vec![0u8; 1_000_000]);
    let mut fs = Filesystem::new(dev, 1_000_000, 512);
    let mut file = RawByteFile::new(&fs).unwrap();
    let mut stream = vec![0, 0, 0, 0, 0, 0, 1, 0xa4];
    stream.extend_from_slice(&[0, 4]);
    stream.extend_from_slice("grüß".as_bytes());
    stream.extend_from_slice(&[0xff, 0xfe]);
    file.write(&mut fs, &stream).unwrap();
    file.seek(SeekFrom::Start(0)).unwrap();
    assert_eq!(read_u64(&mut file, &mut fs).unwrap(), 420);
    assert_eq!(read_sized_string(&mut file, &mut fs).unwrap(), "grü");
    file.seek(SeekFrom::Start(8)).unwrap();
    assert_eq!(read_u16(&mut file, &mut fs).unwrap(), 4);
    assert_eq!(read_string(&mut file, &mut fs, 6).unwrap(), "grüß");
    assert!(matches!(
        read_string(&mut file, &mut fs, 2),
        Err(Error::Utf8(_))
    ));
    assert!(matches!(read_u64(&mut file, &mut fs), Err(Error::OutOfBounds)));
}

#[test]
fn the_clock_reads_a_time_after_2020() {
    assert!(timestamp_now() > 1_577_836_800);
}

#[test]
fn failures_have_error_numbers_and_texts() {
    assert_eq!(Error::DoubleAcquire.errno(), Errno::Io);
    assert_eq!(Error::DoubleRelease.errno(), Errno::BadDescriptor);
    assert_eq!(Error::OutOfBounds.errno(), Errno::IllegalSeek);
    assert_eq!(Error::OutOfMemory.errno(), Errno::NoSpace);
    assert_eq!(Error::InsufficientBytes.errno(), Errno::NoBuffers);
    assert_eq!(Error::ThreadSync.errno(), Errno::Deadlock);
    assert_eq!(Error::NameOrInodeDuplicate.errno(), Errno::Exists);
    assert_eq!(Error::NotFound.errno(), Errno::NoEntry);
    assert_eq!(Error::NullBlock.errno(), Errno::IllegalSeek);
    assert_eq!(Error::DirectoryNotEmpty.errno(), Errno::NotEmpty);
    assert_eq!(Error::OutOfBounds.message(), "out of bounds");
    assert_eq!(Error::DirectoryNotEmpty.message(), "directory not empty");
    let mut device = MemoryDevice::new(vec![0u8; 10]);
    let refused = Error::from(device.read_exact_at(8, 4).unwrap_err());
    assert_eq!(refused.errno(), Errno::Io);
    assert!(!refused.message().is_empty());
    let invalid = Error::from(std::str::from_utf8(&[0xff]).unwrap_err());
    assert_eq!(invalid.errno(), Errno::BadMessage);
    assert!(invalid.message().contains("utf-8"));
    let sliced = Error::from(<[u8; 2]>::try_from(&[1u8][..]).unwrap_err());
    assert_eq!(sliced.errno(), Errno::NoBuffers);
    assert!(!sliced.message().is_empty());
}

#[test]
fn a_device_in_memory_keeps_its_length() {
    let mut device = MemoryDevice::new(vec![1, 2, 3, 4, 5]);
    assert_eq!(device.read_exact_at(1, 3).unwrap(), vec![2, 3, 4]);
    assert_eq!(device.read_exact_at(5, 0).unwrap(), Vec::<u8>::new());
    assert!(device.read_exact_at(3, 3).is_err());
    assert!(device.read_exact_at(u64::MAX, 1).is_err());
    device.write_all_at(3, &[9, 8]).unwrap();
    assert!(device.write_all_at(4, &[7, 7]).is_err());
    assert_eq!(device.into_inner(), vec![1, 2, 3, 9, 8]);
}

#[test]
fn loading_what_is_no_filesystem_fails() {
    let blank = MemoryDevice::new(vec![0u8; 1_000_000]);
    assert!(matches!(
        Filesystem::load(blank, 512),
        Err(Error::InsufficientBytes)
    ));
    let blank = MemoryDevice::new(vec![0u8; 1_000_000]);
    assert!(matches!(
        Filesystem::load(blank, 1000),
        Err(Error::InsufficientBytes)
    ));
    let short = MemoryDevice::new(vec![0u8; 1000]);
    assert!(matches!(Filesystem::load(short, 512), Err(Error::Io(_))));
    let dev = MemoryDevice::new(vec![0u8; 1_000_000]);
    let mut fs = Filesystem::new(dev, 1_000_000, 1024);
    fs.force_flush().unwrap();
    assert!(matches!(
        Filesystem::load(fs.device, 512),
        Err(Error::InsufficientBytes)
    ));
}
