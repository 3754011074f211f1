use rcore_fs::bitvec_map::BlockMap;
use rcore_fs::devfs::{DevFS, DevNode, NullINode};
use rcore_fs::dirty::Dirty;
use rcore_fs::rcore_vfs::{metadata_from_host, FileType, FsError};
use rcore_fs::structs::{Str256, Str32};

#[test]
fn null_inode() {
    let null = NullINode::new(7);
    let mut buf = [5u8; 4];
    assert_eq!(null.read_at(0, &mut buf), Ok(0));
    assert_eq!(buf, [5u8; 4]);
    assert_eq!(null.write_at(10, b"abc"), Ok(3));
    let m = null.metadata().unwrap();
    assert_eq!(m.inode, 7);
    assert_eq!(m.rdev, 0x103);
    assert_eq!(m.type_, FileType::CharDevice);
    assert_eq!(m.mode, 0o666);
    assert_eq!(m.dev, 1);
    assert_eq!(null.resize(1), Err(FsError::NotSupported));
}

#[test]
fn block_map_bytes() {
    let mut m = BlockMap::new();
    m.extend(false, 8);
    m.extend(true, 8);
    m.set(0, true);
    assert_eq!(m.len(), 16);
    assert_eq!(m.as_bytes(), vec![0x80u8, 0xff]);
    let n = BlockMap::from_bytes(&[0x40u8]);
    assert_eq!(n.len(), 8);
    assert!(n.get(1));
    assert!(!n.get(0));
    let mut a = BlockMap::from_bytes(&[0x00u8, 0x20]);
    assert_eq!(a.allocate(), Some(10));
    assert_eq!(a.allocate(), None);
}

#[test]
fn dirty_flags() {
    let mut d = Dirty::new(3u32);
    assert!(!d.dirty());
    *d.get_mut() = 4;
    assert!(d.dirty());
    assert_eq!(*d.get(), 4);
    d.sync();
    assert!(!d.dirty());
    let n = Dirty::new_dirty(1u8);
    assert!(n.dirty());
    *d.get_mut() = 5;
    assert!(d.dirty());
    assert_eq!(*d.read(), 5);
    assert!(!d.dirty());
}

#[test]
fn fixed_names() {
    let s = Str32::from_slice(b"abc");
    assert_eq!(s.name(), Some(b"abc".to_vec()));
    let t = Str256::from_str("file1");
    assert!(t.name_eq(b"file1"));
    assert!(!t.name_eq(b"file"));
    let full = Str32::from_slice(&[1u8; 32]);
    assert_eq!(full.name(), None);
}

#[test]
fn devfs_add_find_remove() {
    let mut fs: DevFS<NullINode> = DevFS::new();
    assert_eq!(fs.add("zero", NullINode::new(3)), Ok(()));
    assert_eq!(fs.add("null", NullINode::new(2)), Ok(()));
    assert_eq!(fs.add("null", NullINode::new(9)), Err(FsError::EntryExist));
    assert_eq!(fs.len(), 2);
    assert_eq!(fs.get_entry(0), Ok(b".".to_vec()));
    assert_eq!(fs.get_entry(1), Ok(b"..".to_vec()));
    assert_eq!(fs.get_entry(2), Ok(b"null".to_vec()));
    assert_eq!(fs.get_entry(3), Ok(b"zero".to_vec()));
    assert_eq!(fs.get_entry(4), Err(FsError::EntryNotFound));
    match fs.find("null") {
        Ok(DevNode::Dev(d)) => assert_eq!(d.metadata().unwrap().inode, 2),
        _ => panic!("null not found"),
    }
    assert!(matches!(fs.find(".."), Ok(DevNode::Root)));
    assert!(matches!(fs.find("tty"), Err(FsError::EntryNotFound)));
    assert_eq!(fs.metadata().size, 2);
    assert_eq!(fs.remove("null"), Ok(()));
    assert_eq!(fs.remove("null"), Err(FsError::EntryNotFound));
    assert!(matches!(fs.find("null"), Err(FsError::EntryNotFound)));
    assert_eq!(fs.get_entry(2), Ok(b"zero".to_vec()));
}

#[test]
fn host_metadata() {
    let times = [(1, 2), (3, 4), (5, 6)];
    let m = metadata_from_host(8, 9, 100, 4096, 8, times, 0o100644, 1, 1000, 100, 0).unwrap();
    assert_eq!(m.type_, FileType::File);
    assert_eq!(m.mode, 0o644);
    assert_eq!(m.inode, 9);
    assert_eq!(m.size, 100);
    assert_eq!(m.mtime.sec, 3);
    assert_eq!(m.mtime.nsec, 4);
    assert_eq!(m.uid, 1000);
    let d = metadata_from_host(8, 10, 0, 4096, 0, times, 0o040755, 2, 0, 0, 0).unwrap();
    assert_eq!(d.type_, FileType::Dir);
    assert_eq!(d.mode, 0o755);
    assert_eq!(metadata_from_host(8, 11, 0, 4096, 0, times, 0o010644, 1, 0, 0, 0), None);
}

#[test]
fn devfs_root_operations() {
    let mut fs: DevFS<NullINode> = DevFS::new();
    assert!(fs.add("null", NullINode::new(2)).is_ok());
    assert_eq!(fs.add("null", NullINode::new(3)), Err(FsError::EntryExist));
    let mut buf = [1u8; 2];
    assert_eq!(fs.read_at(0, &mut buf), Err(FsError::IsDir));
    assert_eq!(buf, [1u8; 2]);
    assert_eq!(fs.write_at(0, b"x"), Err(FsError::IsDir));
    assert_eq!(fs.resize(1), Err(FsError::IsDir));
    assert_eq!(fs.create("x", FileType::File, 0o644), Err(FsError::NotSupported));
    assert_eq!(fs.unlink("null"), Err(FsError::NotSupported));
    assert_eq!(fs.move_("null", 1, "nil"), Err(FsError::NotSupported));
    assert_eq!(fs.link("x", 2), Err(FsError::NotSupported));
    assert_eq!(fs.io_control(0, 0), Err(FsError::NotSupported));
    assert!(fs.sync_all().is_ok());
    assert!(fs.sync_data().is_ok());
    assert_eq!(fs.metadata().size, 1);
}
