use tananfs::filetypes::DirectoryChild;

#[test]
fn byte_conversion() {
    let dc = DirectoryChild {
        inode: 420,
        name: "foobar.exe".into(),
    };
    let bytes = dc.as_bytes();
    let dc1 = DirectoryChild::from_bytes(&bytes).unwrap();
    assert_eq!(dc1.inode, dc.inode);
    assert_eq!(dc1.name, dc.name);
}
