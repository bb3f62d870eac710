use tananfs::error::Error;
use tananfs::filesystem::device::MemoryDevice;
use tananfs::filesystem::Filesystem;
use tananfs::filetypes::{RawByteFile, SeekFrom};

#[test]
fn seek_file() {
    let dev = MemoryDevice::new(vec![0u8; 100_000]);
    let mut fs = Filesystem::new(dev, 100_000, 512);
    let mut file = RawByteFile::with_capacity(&mut fs, 10_000).unwrap();
    assert_eq![file.seek(SeekFrom::Start(1_000)).unwrap(), 1_000];
    assert_eq![file.seek(SeekFrom::Current(111)).unwrap(), 1_111];
    assert_eq![file.seek(SeekFrom::Current(-50)).unwrap(), 1_061];
    assert_eq![file.seek(SeekFrom::End(-999)).unwrap(), 9_001];
    assert![file.seek(SeekFrom::Start(11_000)).is_err()];
    _ = file.seek(SeekFrom::Start(9_001));
    assert![file.seek(SeekFrom::Current(1_000)).is_err()];
    assert![file.seek(SeekFrom::End(11_000)).is_err()];
}

#[test]
fn raw_file_extend_and_shrink() {
    let dev = MemoryDevice::new(vec![0u8; 100_000]);
    let mut fs = Filesystem::new(dev, 100_000, 512);
    let mut file = RawByteFile::new(&fs).unwrap();
    assert_eq!(file.block_count, 0);
    _ = file.extend(&mut fs, 1024);
    assert_eq!(file.block_count, 3);
    _ = file.extend(&mut fs, 90_000);
    assert_eq!(file.block_count, 179);
    _ = file.shrink(&mut fs, 80_000);
    assert_eq!(file.block_count, 159);
    _ = file.shrink(&mut fs, 2000);
    assert_eq!(file.block_count, 4);
    _ = file.shrink(&mut fs, 1800);
    assert_eq!(file.block_count, 4);
    _ = file.shrink(&mut fs, 100);
    assert_eq!(file.block_count, 1);
    _ = file.shrink(&mut fs, 1);
    assert_eq!(file.block_count, 1);
    _ = file.shrink(&mut fs, 0);
    assert_eq!(file.block_count, 0);
    drop(file);
    let mut file = RawByteFile::with_capacity(&mut fs, 50_000).unwrap();
    assert_eq!(file.block_count, 100);
    _ = file.extend(&mut fs, 60_000);
    assert_eq!(file.block_count, 120);
    assert_eq!(file.size, 60_000);
    _ = file.shrink(&mut fs, 50_000);
    assert_eq!(file.block_count, 100);
    _ = file.shrink(&mut fs, 0);
    drop(file);
    let blocks_used = fs.superblock.block_count - fs.superblock.blocks_free;
    assert_eq!(blocks_used, 0);
}

#[test]
fn write_and_read() {
    let dev = MemoryDevice::new(vec![0u8; 20_000_000]);
    let mut fs = Filesystem::new(dev, 20_000_000, 512);
    for capacity in (0..=1001).step_by(331) {
        for write_buffer in (400..=100_000).step_by(2017) {
            for read_buffer in (201..=write_buffer - 100).step_by(1013) {
                for seek in (30..50).step_by(1013) {
                    let mut file = RawByteFile::with_capacity(&mut fs, capacity * 123).unwrap();
                    let buff = (1..=write_buffer)
                        .map(|v| (v / 504 + 1) as u8)
                        .collect::<Vec<u8>>();
                    let mut buff1 = vec![0u8; read_buffer];
                    assert!(buff1.len() <= buff.len());
                    assert!(file.write(&mut fs, &buff).is_ok());
                    assert!(file.seek(SeekFrom::Start(seek as u64)).is_ok());
                    assert!(file.read(&mut fs, &mut buff1).is_ok());
                    assert_eq![&buff[seek..seek + read_buffer], &buff1[..]];
                    assert!(file.shrink(&mut fs, 0).is_ok());
                }
            }
        }
    }
}

#[test]
fn raw_file_extend_and_shrink_contents() {
    let dev = MemoryDevice::new(vec![0u8; 100_000]);
    let mut fs = Filesystem::new(dev, 100_000, 512);
    let mut file = RawByteFile::new(&fs).unwrap();
    let buff = (1..=50).map(|v| v as u8).collect::<Vec<u8>>();
    _ = file.write(&mut fs, &buff);
    _ = file.extend(&mut fs, 200);
    let mut buff1 = vec![0u8; 200];
    _ = file.seek(SeekFrom::Start(0));
    _ = file.read(&mut fs, &mut buff1);
    assert_eq![&buff, &buff1[0..50]];
    assert_eq![&buff1[50..200], [0u8; 150]];
    let mut buff2 = vec![0u8; 30];
    _ = file.shrink(&mut fs, 30);
    _ = file.seek(SeekFrom::Start(0));
    _ = file.read(&mut fs, &mut buff2);
    assert_eq![&buff[0..30], &buff2];
    _ = file.extend(&mut fs, 20000);
    _ = file.shrink(&mut fs, 15);
    let mut buff3 = vec![0u8; 15];
    _ = file.read(&mut fs, &mut buff3);
    assert_eq![&buff[0..15], &buff3];
}

#[test]
fn block_chain_round_trip() {
    let dev = MemoryDevice::new(vec![0u8; 1_000_000]);
    let mut fs = Filesystem::new(dev, 1_000_000, 512);
    let mut file = RawByteFile::new(&fs).unwrap();
    let data = (1..=1000u32).map(|v| v as u8).collect::<Vec<u8>>();
    file.write(&mut fs, &data).unwrap();
    assert_eq!(file.size, 1000);
    assert_eq!(file.block_count, 2);
    assert_eq!(file.seek(SeekFrom::Start(100)).unwrap(), 100);
    let mut read = vec![0u8; 200];
    file.read(&mut fs, &mut read).unwrap();
    assert_eq!(&read[..], &data[100..300]);
}

#[test]
fn read_beyond_the_end_is_out_of_bounds() {
    let dev = MemoryDevice::new(vec![0u8; 1_000_000]);
    let mut fs = Filesystem::new(dev, 1_000_000, 512);
    let mut file = RawByteFile::new(&fs).unwrap();
    file.write(&mut fs, &[1, 2, 3]).unwrap();
    file.seek(SeekFrom::Start(1)).unwrap();
    let mut read = vec![0u8; 3];
    assert!(matches!(file.read(&mut fs, &mut read), Err(Error::OutOfBounds)));
    assert_eq!(read, vec![0u8; 3]);
    let mut read = vec![0u8; 2];
    file.read(&mut fs, &mut read).unwrap();
    assert_eq!(read, vec![2, 3]);
    assert!(matches!(file.shrink(&mut fs, 4), Err(Error::OutOfBounds)));
    assert!(matches!(file.extend(&mut fs, 2), Err(Error::InsufficientBytes)));
    assert!(matches!(file.seek(SeekFrom::End(1)), Err(Error::OutOfBounds)));
    assert_eq!(file.seek(SeekFrom::End(0)).unwrap(), 3);
    assert!(matches!(file.seek(SeekFrom::Current(-4)), Err(Error::OutOfBounds)));
}

#[test]
fn write_at_a_block_boundary_appends() {
    let dev = MemoryDevice::new(vec![0u8; 1_000_000]);
    let mut fs = Filesystem::new(dev, 1_000_000, 512);
    let mut file = RawByteFile::new(&fs).unwrap();
    let first = vec![7u8; 504];
    file.write(&mut fs, &first).unwrap();
    assert_eq!(file.block_count, 1);
    assert_eq!(file.size, 504);
    let second = vec![9u8; 10];
    file.write(&mut fs, &second).unwrap();
    assert_eq!(file.block_count, 2);
    assert_eq!(file.size, 514);
    file.seek(SeekFrom::Start(500)).unwrap();
    let mut read = vec![0u8; 14];
    file.read(&mut fs, &mut read).unwrap();
    assert_eq!(read, vec![7, 7, 7, 7, 9, 9, 9, 9, 9, 9, 9, 9, 9, 9]);
    // The chain is as long as the block count says.
    assert!(file.get_nth_block(&mut fs, 1).is_ok());
    assert!(matches!(file.get_nth_block(&mut fs, 2), Err(Error::OutOfBounds)));
    assert!(file.block_count * 504 >= file.size);
}

#[test]
fn walking_the_chain_of_a_file() {
    let dev = MemoryDevice::new(vec![0u8; 1_000_000]);
    let mut fs = Filesystem::new(dev, 1_000_000, 512);
    let empty = RawByteFile::new(&fs).unwrap();
    assert!(matches!(
        empty.get_nth_block(&mut fs, 0),
        Err(Error::NullBlock)
    ));
    let mut file = RawByteFile::new(&fs).unwrap();
    file.write(&mut fs, &[7u8; 1200]).unwrap();
    assert_eq!(file.block_count, 3);
    let first = file.get_nth_block(&mut fs, 0).unwrap();
    assert_eq!(first.index, file.first_block);
    assert_eq!(&first.data[8..12], &[7u8; 4]);
    let second = file.get_nth_block(&mut fs, 1).unwrap();
    assert_eq!(&first.data[0..8], &second.index.to_le_bytes());
    let last = file.get_nth_block(&mut fs, 2).unwrap();
    assert_eq!(last.index, file.last_block);
    assert_eq!(&last.data[0..8], &u64::MAX.to_le_bytes());
    assert!(matches!(
        file.get_nth_block(&mut fs, 3),
        Err(Error::OutOfBounds)
    ));
}

#[test]
fn removing_a_file_releases_its_blocks_and_its_inode() {
    let dev = MemoryDevice::new(vec![0u8; 1_000_000]);
    let mut fs = Filesystem::new(dev, 1_000_000, 512);
    let inode = fs.acquire_inode().unwrap();
    let inodes_free = fs.superblock.inodes_free;
    let blocks_free = fs.superblock.blocks_free;
    let mut file = RawByteFile::new(&fs).unwrap();
    file.write(&mut fs, &[1u8; 2000]).unwrap();
    assert_eq!(fs.superblock.blocks_free, blocks_free - 4);
    let mut record = tananfs::structs::Inode::default();
    record.index = inode;
    record.size = file.size;
    record.block_count = file.block_count;
    file.update_inode(&mut record);
    fs.flush_inode(&record).unwrap();
    RawByteFile::remove(&mut fs, inode).unwrap();
    assert_eq!(fs.superblock.blocks_free, blocks_free);
    assert_eq!(fs.superblock.inodes_free, inodes_free + 1);
    assert!(matches!(
        RawByteFile::remove(&mut fs, inode),
        Err(Error::OutOfBounds)
    ));
}
