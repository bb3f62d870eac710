use tananfs::filesystem::device::MemoryDevice;
use tananfs::structs::{FileType, Inode, Superblock};

#[test]
fn inode_size() {
    assert_eq!(std::mem::size_of::<Inode>(), 128);
}

#[test]
fn inode_load_and_flush() {
    let superblock = Superblock::new(100_000, 4096);
    let mut dev = MemoryDevice::new(vec![0u8; superblock.block_region_start() as usize]);
    let inode = Inode::load(&mut dev, &superblock, 10);
    assert!(inode.is_ok());
    assert!(inode.unwrap().flush(&mut dev, &superblock).is_ok());
}

#[test]
fn inode_bytes_are_the_fields_in_order() {
    let inode = Inode {
        index: 0x0102_0304_0506_0708,
        mode: 0o644,
        kind: FileType::Directory,
        size: 5000,
        uid: 1000,
        gid: 100,
        atime: 11,
        ctime: 12,
        mtime: 13,
        dtime: u64::MAX,
        block_count: 10,
        metadata: [1, 2, 3, 4, 5],
        first_block: 77,
        last_block: 88,
    };
    let bytes = inode.to_bytes();
    assert_eq!(bytes.len(), 128);
    assert_eq!(&bytes[0..8], &[8, 7, 6, 5, 4, 3, 2, 1]);
    assert_eq!(&bytes[8..10], &[0xa4, 0x01]);
    assert_eq!(bytes[10], 3);
    assert_eq!(&bytes[11..19], &5000u64.to_le_bytes());
    assert_eq!(&bytes[19..23], &1000u32.to_le_bytes());
    assert_eq!(&bytes[51..59], &[0xff; 8]);
    assert_eq!(&bytes[67..75], &1u64.to_le_bytes());
    assert_eq!(&bytes[99..107], &5u64.to_le_bytes());
    assert_eq!(&bytes[107..112], &[0; 5]);
    assert_eq!(&bytes[112..120], &77u64.to_le_bytes());
    assert_eq!(&bytes[120..128], &88u64.to_le_bytes());
    let back = Inode::from_bytes(&bytes).unwrap();
    assert!(back.same_as(&inode));
    assert!(Inode::from_bytes(&bytes[..127]).is_err());
    let mut bad = bytes.clone();
    bad[10] = 7;
    assert!(Inode::from_bytes(&bad).is_err());
}

#[test]
fn an_inode_is_laid_out_as_text() {
    let mut inode = Inode::default();
    inode.index = 12;
    inode.mode = 0o644;
    inode.kind = tananfs::structs::FileType::Directory;
    inode.size = 1024;
    inode.metadata = [1, 255, 16, u64::MAX, 0];
    inode.first_block = 7;
    let lines: Vec<String> = inode.describe().lines().map(str::to_owned).collect();
    assert_eq!(lines[0], "Inode {");
    assert_eq!(lines[1], "    index: 12");
    assert_eq!(lines[2], "    mode: 420");
    assert_eq!(lines[3], "    r#tDirectory");
    assert_eq!(lines[4], "    size: 1024");
    assert_eq!(lines[12], "    metadata: [");
    assert_eq!(lines[13], "        1");
    assert_eq!(lines[14], "        ff");
    assert_eq!(lines[15], "        10");
    assert_eq!(lines[16], "        ffffffffffffffff");
    assert_eq!(lines[17], "        0");
    assert_eq!(lines[18], "    ]");
    assert_eq!(lines[19], "    first_block: 7");
    assert_eq!(lines[20], "}");
    assert_eq!(lines.len(), 21);
}
