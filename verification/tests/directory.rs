use tananfs::error::Error;
use tananfs::filesystem::device::MemoryDevice;
use tananfs::filesystem::{Filesystem, FuseFs};
use tananfs::filetypes::directory::{position_of, same_text, without};
use tananfs::filetypes::{
    Directory, DirectoryChild, DirectoryChildIdentifier, RawByteFile, RegularFile, SeekFrom,
};
use tananfs::structs::{FileType, NULL_BLOCK};

fn rooted() -> Filesystem<MemoryDevice> {
    let dev = MemoryDevice::new(vec![0u8; 10_000_000]);
    let mut bridge = FuseFs::new(Filesystem::new(dev, 10_000_000, 512));
    bridge.init().unwrap();
    bridge.filesystem
}

#[test]
fn entry_bytes_are_big_endian() {
    let child = DirectoryChild {
        inode: 0x0102_0304_0506_0708,
        name: "héllo".into(),
    };
    let bytes = child.as_bytes();
    assert_eq!(&bytes[..8], &[1, 2, 3, 4, 5, 6, 7, 8]);
    assert_eq!(&bytes[8..10], &[0, 6]);
    assert_eq!(&bytes[10..], "héllo".as_bytes());
    let mut longer = bytes.clone();
    longer.extend_from_slice(&[9, 9, 9]);
    let back = DirectoryChild::from_bytes(&longer).unwrap();
    assert_eq!((back.inode, back.name.as_str()), (child.inode, "héllo"));
    assert!(matches!(
        DirectoryChild::from_bytes(&bytes[..9]),
        Err(Error::InsufficientBytes)
    ));
    assert!(matches!(
        DirectoryChild::from_bytes(&bytes[..12]),
        Err(Error::InsufficientBytes)
    ));
    let mut broken = bytes.clone();
    broken[11] = 0xff;
    assert!(matches!(
        DirectoryChild::from_bytes(&broken),
        Err(Error::Utf8(_))
    ));
}

#[test]
fn entries_of_a_directory() {
    let mut fs = rooted();
    let mut root = Directory::load(&mut fs, 1).unwrap();
    assert_eq!(root.name, "root");
    assert!(root.children.is_empty());
    assert_eq!(root.inode.kind, FileType::Directory);
    assert_eq!(root.inode.mode, 0o750);
    assert_eq!(root.inode.metadata[0], 1);
    assert_eq!(root.inode.metadata[2], 4);
    root.add_child("a", 5).unwrap();
    root.add_child("b", 6).unwrap();
    root.add_child("a", 7).unwrap();
    assert!(matches!(
        root.add_child("a", 5),
        Err(Error::NameOrInodeDuplicate)
    ));
    assert!(matches!(
        root.add_child(&"x".repeat(65536), 8),
        Err(Error::OutOfBounds)
    ));
    assert!(root.add_child(&"x".repeat(65535), 8).is_ok());
    assert!(root.modified);
    assert_eq!(
        root.get_child_inode(DirectoryChildIdentifier::Name("a")).unwrap(),
        5
    );
    assert_eq!(
        root.get_child_inode(DirectoryChildIdentifier::Name("b")).unwrap(),
        6
    );
    assert_eq!(
        root.get_child_inode(DirectoryChildIdentifier::Inode(99)).unwrap(),
        99
    );
    assert!(matches!(
        root.get_child_inode(DirectoryChildIdentifier::Name("c")),
        Err(Error::NotFound)
    ));
    root.transfer_child(&mut fs, DirectoryChildIdentifier::Name("b"), 1, "c")
        .unwrap();
    assert_eq!(root.children[1].name, "c");
    assert_eq!(root.children[1].inode, 6);
    assert!(matches!(
        root.transfer_child(&mut fs, DirectoryChildIdentifier::Inode(99), 1, "d"),
        Err(Error::NotFound)
    ));
    assert_eq!(position_of(&root.children, 7), Some(2));
    assert_eq!(position_of(&root.children, 70), None);
    let kept = without(&root.children, 5);
    assert_eq!(kept.len(), 3);
    assert_eq!(kept[0].name, "c");
    assert!(same_text("a", "a"));
    assert!(!same_text("a", "b"));
}

#[test]
fn a_directory_is_read_back_as_written() {
    let mut fs = rooted();
    let mut root = Directory::load(&mut fs, 1).unwrap();
    root.add_child("first", 10).unwrap();
    root.add_child("zweite", 11).unwrap();
    root.add_child(&"n".repeat(700), 12).unwrap();
    root.flush(&mut fs).unwrap();
    assert!(!root.modified);
    assert_eq!(root.inode.metadata[1], 3);
    assert_eq!(root.inode.size, 4 + 15 + 16 + 710);
    assert_eq!(root.inode.block_count, 2);
    let back = Directory::load(&mut fs, 1).unwrap();
    assert_eq!(back.name, "root");
    let entries = back
        .children
        .iter()
        .map(|c| (c.inode, c.name.clone()))
        .collect::<Vec<_>>();
    assert_eq!(
        entries,
        vec![
            (10, "first".to_string()),
            (11, "zweite".to_string()),
            (12, "n".repeat(700))
        ]
    );
    // The stream is the name and then the entries.
    let mut file = RawByteFile::load(&fs, back.inode).unwrap();
    file.seek(SeekFrom::Start(0)).unwrap();
    let mut stream = vec![0u8; 4 + 15];
    file.read(&mut fs, &mut stream).unwrap();
    let mut wanted = b"root".to_vec();
    wanted.extend_from_slice(&back.children[0].as_bytes());
    assert_eq!(stream, wanted);
    assert!(back.close(&mut fs).is_ok());
}

#[test]
fn making_and_removing_files() {
    let mut fs = rooted();
    let inodes_free = fs.superblock.inodes_free;
    let blocks_free = fs.superblock.blocks_free;
    let sub = Directory::new(&mut fs, 1, "sub", 0o700).unwrap().value;
    assert_eq!(sub.inode.index, 2);
    assert_eq!(sub.inode.kind, FileType::Directory);
    assert_eq!(sub.inode.mode, 0o700);
    assert_eq!(sub.inode.dtime, u64::MAX);
    assert_eq!(sub.inode.metadata, [1, 0, 3, NULL_BLOCK, NULL_BLOCK]);
    assert_eq!(sub.inode.first_block, NULL_BLOCK);
    assert!(sub.modified && !sub.removed);
    sub.close(&mut fs).unwrap();
    let mut file = RegularFile::new(&mut fs, 2, "data", 0o644).unwrap().value;
    assert_eq!(file.inode.index, 3);
    assert_eq!(file.inode.kind, FileType::RegularFile);
    assert_eq!(file.inode.metadata[0], 2);
    file.write(&mut fs, 0, &[1, 2, 3, 4, 5, 6]).unwrap();
    assert!(matches!(
        file.write(&mut fs, 7, &[1]),
        Err(Error::OutOfBounds)
    ));
    assert_eq!(file.read(&mut fs, 2, 2).unwrap(), vec![3, 4]);
    assert_eq!(file.read(&mut fs, 4, 100).unwrap(), vec![5, 6]);
    assert_eq!(file.read(&mut fs, 6, 100).unwrap(), Vec::<u8>::new());
    assert!(matches!(file.read(&mut fs, 7, 1), Err(Error::OutOfBounds)));
    file.flush(&mut fs).unwrap();
    assert_eq!(file.inode.size, 6);
    assert_eq!(file.inode.block_count, 1);
    let loaded = RegularFile::load(&mut fs, 3).unwrap();
    assert_eq!(loaded.inode.size, 6);
    assert_eq!(loaded.file.first_block, file.file.first_block);
    let mut sub = Directory::load(&mut fs, 2).unwrap();
    assert_eq!(sub.children.len(), 1);
    assert!(matches!(
        Directory::load(&mut fs, 2).unwrap().remove_empty(&mut fs),
        Err(Error::DirectoryNotEmpty)
    ));
    sub.remove_child(&mut fs, DirectoryChildIdentifier::Name("data"))
        .unwrap();
    assert!(sub.children.is_empty());
    sub.close(&mut fs).unwrap();
    assert!(matches!(fs.load_inode(3), Err(Error::OutOfBounds)));
    let mut root = Directory::load(&mut fs, 1).unwrap();
    root.remove_child(&mut fs, DirectoryChildIdentifier::Inode(2))
        .unwrap();
    root.close(&mut fs).unwrap();
    assert_eq!(fs.superblock.inodes_free, inodes_free);
    assert_eq!(fs.superblock.blocks_free, blocks_free);
}

#[test]
fn removing_a_tree() {
    let mut fs = rooted();
    let inodes_free = fs.superblock.inodes_free;
    let blocks_free = fs.superblock.blocks_free;
    let top = Directory::new(&mut fs, 1, "top", 0o700).unwrap();
    assert!(top.write_back.is_ok());
    top.value.close(&mut fs).unwrap();
    let inner = Directory::new(&mut fs, 2, "inner", 0o700).unwrap();
    assert!(inner.write_back.is_ok());
    inner.value.close(&mut fs).unwrap();
    let mut file = RegularFile::new(&mut fs, 3, "leaf", 0o600).unwrap().value;
    file.write(&mut fs, 0, &[7; 2000]).unwrap();
    file.close(&mut fs).unwrap();
    let other = RegularFile::new(&mut fs, 2, "other", 0o600).unwrap().value;
    let other_inode = other.inode.index;
    other.close(&mut fs).unwrap();
    let removed = RegularFile::load(&mut fs, other_inode)
        .unwrap()
        .remove_from_parent(&mut fs)
        .unwrap();
    assert!(removed.write_back.is_ok());
    assert_eq!(Directory::load(&mut fs, 2).unwrap().children.len(), 1);
    Directory::load(&mut fs, 2).unwrap().remove(&mut fs).unwrap();
    let mut root = Directory::load(&mut fs, 1).unwrap();
    root.children = without(&root.children, 2);
    root.modified = true;
    root.close(&mut fs).unwrap();
    assert_eq!(fs.superblock.inodes_free, inodes_free);
    assert_eq!(fs.superblock.blocks_free, blocks_free);
}

#[test]
fn removing_entries_keeps_the_order_of_the_others() {
    let mut fs = rooted();
    let mut root = Directory::load(&mut fs, 1).unwrap();
    root.add_child("a", 5).unwrap();
    root.add_child("b", 6).unwrap();
    root.add_child("c", 5).unwrap();
    root.add_child("d", 7).unwrap();
    let kept = without(&root.children, 5);
    let listing = kept
        .iter()
        .map(|c| (c.inode, c.name.clone()))
        .collect::<Vec<_>>();
    assert_eq!(listing, vec![(6, "b".to_string()), (7, "d".to_string())]);
    let all = without(&root.children, 99);
    assert_eq!(all.len(), 4);
    assert_eq!(all[0].name, "a");
    assert_eq!(all[3].name, "d");
}

#[test]
fn renaming_in_place_renames_the_first_entry_of_the_inode() {
    let mut fs = rooted();
    let mut root = Directory::load(&mut fs, 1).unwrap();
    root.add_child("a", 5).unwrap();
    root.add_child("b", 6).unwrap();
    root.add_child("c", 6).unwrap();
    root.transfer_child(&mut fs, DirectoryChildIdentifier::Name("c"), 1, "z")
        .unwrap();
    let listing = root
        .children
        .iter()
        .map(|c| (c.inode, c.name.clone()))
        .collect::<Vec<_>>();
    assert_eq!(
        listing,
        vec![
            (5, "a".to_string()),
            (6, "z".to_string()),
            (6, "c".to_string())
        ]
    );
    assert!(root.modified);
    let long = "n".repeat(65536);
    assert!(matches!(
        root.transfer_child(&mut fs, DirectoryChildIdentifier::Inode(5), 1, &long),
        Err(Error::OutOfBounds)
    ));
    assert_eq!(root.children[0].name, "a");
}

#[test]
fn files_and_directories_through_their_common_operations() {
    use_operations::<Directory>(FileType::Directory);
    use_operations::<RegularFile>(FileType::RegularFile);
}

fn use_operations<T: tananfs::filetypes::FileOperations<MemoryDevice>>(kind: FileType) {
    let mut fs = rooted();
    let free = fs.superblock.inodes_free;
    assert!(matches!(
        T::new(&mut fs, 99, "x", 0o600),
        Err(Error::OutOfBounds)
    ));
    let mut fs = rooted();
    let mut made = T::new(&mut fs, 1, "x", 0o600).unwrap().value;
    assert_eq!(fs.superblock.inodes_free, free - 1);
    made.flush(&mut fs).unwrap();
    let record = fs.load_inode(2).unwrap();
    assert_eq!(record.kind, kind);
    assert_eq!(record.mode, 0o600);
    assert_eq!(record.metadata[0], 1);
    assert!(matches!(T::load(&mut fs, 50), Err(Error::OutOfBounds)));
    let loaded = T::load(&mut fs, 2).unwrap();
    loaded.remove(&mut fs).unwrap();
    assert_eq!(fs.superblock.inodes_free, free);
    assert!(matches!(T::load(&mut fs, 2), Err(Error::OutOfBounds)));
}
