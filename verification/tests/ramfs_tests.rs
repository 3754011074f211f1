use rcore_fs::ramfs::RamFS;
use rcore_fs::rcore_vfs::{FileType, FsError};

#[test]
fn ramfs_create_find_get_entry() {
    let mut fs = RamFS::new();
    let root = fs.root_inode();
    let f = fs.create(root, b"file1", FileType::File, 0o644).unwrap();
    let d = fs.create(root, b"dir1", FileType::Dir, 0o755).unwrap();
    assert_eq!(fs.find(root, b"file1"), Ok(f));
    assert_eq!(fs.find(root, b"dir1"), Ok(d));
    assert_eq!(fs.find(root, b"."), Ok(root));
    assert_eq!(fs.find(root, b".."), Ok(root));
    assert_eq!(fs.find(d, b".."), Ok(root));
    assert_eq!(fs.find(root, b"nothing"), Err(FsError::EntryNotFound));
    assert_eq!(fs.find(f, b"x"), Err(FsError::NotDir));
    assert_eq!(fs.get_entry(root, 0), Ok(b".".to_vec()));
    assert_eq!(fs.get_entry(root, 1), Ok(b"..".to_vec()));
    assert_eq!(fs.get_entry(root, 2), Ok(b"file1".to_vec()));
    assert_eq!(fs.get_entry(root, 3), Ok(b"dir1".to_vec()));
    assert_eq!(fs.get_entry(root, 4), Err(FsError::EntryNotFound));
    assert_eq!(fs.create(root, b"file1", FileType::File, 0o644), Err(FsError::EntryExist));
    assert_eq!(fs.create(f, b"x", FileType::File, 0o644), Err(FsError::NotDir));
}

#[test]
fn ramfs_write_then_read() {
    let mut fs = RamFS::new();
    let root = fs.root_inode();
    let f = fs.create(root, b"file1", FileType::File, 0o644).unwrap();
    assert_eq!(fs.write_at(f, 3, b"abc"), Ok(3));
    let mut buf = [9u8; 8];
    assert_eq!(fs.read_at(f, 0, &mut buf), Ok(6));
    assert_eq!(&buf[..6], b"\0\0\0abc");
    assert_eq!(fs.metadata(f).unwrap().size, 6);
    assert_eq!(fs.read_at(root, 0, &mut buf), Err(FsError::IsDir));
    assert_eq!(fs.write_at(root, 0, b"x"), Err(FsError::IsDir));
}

#[test]
fn ramfs_link_unlink_nlinks() {
    let mut fs = RamFS::new();
    let root = fs.root_inode();
    let f = fs.create(root, b"file1", FileType::File, 0o644).unwrap();
    assert_eq!(fs.metadata(f).unwrap().nlinks, 0);
    fs.link(root, b"file2", f).unwrap();
    assert_eq!(fs.metadata(f).unwrap().nlinks, 1);
    assert_eq!(fs.find(root, b"file2"), Ok(f));
    assert_eq!(fs.link(root, b"file2", f), Err(FsError::EntryExist));
    fs.unlink(root, b"file1").unwrap();
    assert_eq!(fs.metadata(f).unwrap().nlinks, 0);
    assert_eq!(fs.find(root, b"file1"), Err(FsError::EntryNotFound));
    assert_eq!(fs.unlink(root, b"."), Err(FsError::DirNotEmpty));
    assert_eq!(fs.unlink(root, b"missing"), Ok(()));
    let d = fs.create(root, b"dir", FileType::Dir, 0o755).unwrap();
    assert_eq!(fs.link(root, b"dir2", d), Err(FsError::IsDir));
    fs.create(d, b"inner", FileType::File, 0o644).unwrap();
    assert_eq!(fs.unlink(root, b"dir"), Err(FsError::DirNotEmpty));
}

#[test]
fn ramfs_move_and_lookup() {
    let mut fs = RamFS::new();
    let root = fs.root_inode();
    let d = fs.create(root, b"dir", FileType::Dir, 0o755).unwrap();
    let f = fs.create(root, b"file1", FileType::File, 0o644).unwrap();
    fs.move_(root, b"file1", d, b"moved").unwrap();
    assert_eq!(fs.find(root, b"file1"), Err(FsError::EntryNotFound));
    assert_eq!(fs.find(d, b"moved"), Ok(f));
    assert_eq!(fs.lookup(root, b"dir/moved"), Ok(f));
    assert_eq!(fs.lookup(root, b"/dir/moved"), Ok(f));
    assert_eq!(fs.lookup(root, b"dir/../dir/./moved"), Ok(f));
    assert_eq!(fs.lookup(root, b"dir/none"), Err(FsError::EntryNotFound));
}

#[test]
fn ramfs_resize_and_info() {
    let mut fs = RamFS::new();
    let root = fs.root_inode();
    let f = fs.create(root, b"file1", FileType::File, 0o644).unwrap();
    fs.resize(f, 10).unwrap();
    assert_eq!(fs.metadata(f).unwrap().size, 10);
    fs.resize(f, 4).unwrap();
    assert_eq!(fs.metadata(f).unwrap().size, 4);
    assert_eq!(fs.resize(root, 4), Err(FsError::NotFile));
    assert_eq!(fs.sync(), Ok(()));
    assert_eq!(fs.info().namemax, 0);
}

#[test]
fn ramfs_device_number() {
    let mut fs = RamFS::new();
    let root = fs.root_inode();
    let c = fs.create2(root, b"tty", FileType::CharDevice, 0o600, 0x401).unwrap();
    assert_eq!(fs.metadata(c).unwrap().rdev, 0x401);
    assert_eq!(fs.metadata(c).unwrap().type_, FileType::CharDevice);
}
