use rcore_fs::rcore_vfs::{FileType, FsError, Timespec};
use rcore_fs::sefs::SEFS;
use rcore_fs::sefs_dev::{DevResult, DeviceError, File, SefsUuid, Storage, TimeProvider, UuidProvider};
use rcore_fs::sefs_structs::{BLKN_ROOT, MAX_FNAME_LEN};
use std::cell::RefCell;
use std::collections::HashMap;
use std::rc::Rc;

/// A file shared by every handle opened on it
struct SharedFile(Rc<RefCell<Vec<u8>>>);

impl File for SharedFile {
    fn content(&self) -> vstd::seq::Seq<u8> {
        panic!("a description for the verifier, never called")
    }
    fn reliable(&self) -> bool {
        true
    }
    fn read_at(&mut self, buf: &mut [u8], offset: usize) -> DevResult<usize> {
        let data = self.0.borrow();
        if offset > data.len() {
            return Err(DeviceError);
        }
        let n = buf.len().min(data.len() - offset);
        buf[..n].copy_from_slice(&data[offset..offset + n]);
        Ok(n)
    }
    fn write_at(&mut self, buf: &[u8], offset: usize) -> DevResult<usize> {
        let mut data = self.0.borrow_mut();
        if data.len() < offset + buf.len() {
            data.resize(offset + buf.len(), 0);
        }
        data[offset..offset + buf.len()].copy_from_slice(buf);
        Ok(buf.len())
    }
    fn set_len(&mut self, len: usize) -> DevResult<()> {
        self.0.borrow_mut().resize(len, 0);
        Ok(())
    }
    fn flush(&mut self) -> DevResult<()> {
        Ok(())
    }
}

/// Files kept in memory by name
#[derive(Clone)]
struct MapStorage(Rc<RefCell<HashMap<String, Rc<RefCell<Vec<u8>>>>>>);

impl Storage for MapStorage {
    type F = SharedFile;
    fn reliable(&self) -> bool {
        true
    }
    fn integrity_only(&self) -> bool {
        false
    }
    fn is_integrity_only(&self) -> bool {
        false
    }
    fn open(&mut self, file_id: &str) -> DevResult<SharedFile> {
        match self.0.borrow().get(file_id) {
            Some(f) => Ok(SharedFile(f.clone())),
            None => Err(DeviceError),
        }
    }
    fn create(&mut self, file_id: &str) -> DevResult<SharedFile> {
        let f = Rc::new(RefCell::new(Vec::new()));
        self.0.borrow_mut().insert(file_id.to_string(), f.clone());
        Ok(SharedFile(f))
    }
    fn remove(&mut self, file_id: &str) -> DevResult<()> {
        match self.0.borrow_mut().remove(file_id) {
            Some(_) => Ok(()),
            None => Err(DeviceError),
        }
    }
}

struct ZeroTime;

impl TimeProvider for ZeroTime {
    fn current_time(&mut self) -> Timespec {
        Timespec { sec: 0, nsec: 0 }
    }
}

/// Ids counting up from one
struct CountingIds(u8);

impl UuidProvider for CountingIds {
    fn generate_uuid(&mut self) -> SefsUuid {
        self.0 += 1;
        let mut b = [0u8; 16];
        b[15] = self.0;
        SefsUuid::new(b)
    }
}

fn new_sefs() -> (SEFS<MapStorage, ZeroTime, CountingIds>, MapStorage) {
    let storage = MapStorage(Rc::new(RefCell::new(HashMap::new())));
    let fs = SEFS::create(storage.clone(), ZeroTime, CountingIds(0)).expect("failed to create SEFS");
    (fs, storage)
}

#[test]
fn sefs_create_root() {
    let (mut fs, storage) = new_sefs();
    let root = fs.root_inode().unwrap();
    assert_eq!(root, BLKN_ROOT);
    let meta = fs.metadata(root).unwrap();
    assert_eq!(meta.type_, FileType::Dir);
    assert_eq!(meta.nlinks, 2);
    assert_eq!(meta.size, 2);
    assert_eq!(meta.mode, 0o644);
    assert_eq!(fs.get_entry(root, 0), Ok(b".".to_vec()));
    assert_eq!(fs.get_entry(root, 1), Ok(b"..".to_vec()));
    assert_eq!(fs.get_entry(root, 2), Err(FsError::EntryNotFound));
    assert_eq!(fs.find(root, "."), Ok(root));
    assert_eq!(fs.find(root, ".."), Ok(root));
    let info = fs.info();
    assert_eq!(info.blocks, 1024);
    assert_eq!(info.bfree, 1021);
    assert_eq!(info.namemax, MAX_FNAME_LEN);
    assert!(storage.0.borrow().contains_key("metadata"));
    assert!(storage.0.borrow().contains_key("00000000000000000000000000000001"));
}

#[test]
fn sefs_uuid_to_string() {
    let u = SefsUuid::new([0x01, 0xab, 0, 0, 0, 0, 0, 0, 0, 0, 0, 0, 0, 0, 0xff, 0x10]);
    assert_eq!(u.to_string(), "01ab000000000000000000000000ff10");
    assert_eq!(u.to_string().len(), 32);
    assert_eq!(SefsUuid::new([0u8; 16]).to_string(), "00000000000000000000000000000000");
}

#[test]
fn sefs_create_then_find() {
    let (mut fs, _) = new_sefs();
    let root = fs.root_inode().unwrap();
    let f = fs.create_child(root, "file1", FileType::File, 0o777).unwrap();
    assert_eq!(fs.find(root, "file1"), Ok(f));
    assert_eq!(fs.find(root, "file2"), Err(FsError::EntryNotFound));
    assert_eq!(fs.create_child(root, "file1", FileType::File, 0o777), Err(FsError::EntryExist));
    assert_eq!(fs.create_child(root, "dev", FileType::CharDevice, 0o777), Err(FsError::InvalidParam));
    assert_eq!(fs.create_child(f, "x", FileType::File, 0o777), Err(FsError::NotDir));
    let meta = fs.metadata(f).unwrap();
    assert_eq!(meta.type_, FileType::File);
    assert_eq!(meta.nlinks, 1);
    assert_eq!(meta.size, 0);
    assert_eq!(meta.mode, 0o777);
    assert_eq!(meta.inode, f);
    let d = fs.create_child(root, "dir1", FileType::Dir, 0o777).unwrap();
    assert_eq!(fs.metadata(d).unwrap().nlinks, 2);
    assert_eq!(fs.metadata(root).unwrap().nlinks, 3);
    assert_eq!(fs.find(d, ".."), Ok(root));
    assert_eq!(fs.find(d, "."), Ok(d));
    assert_eq!(fs.get_entry(root, 2), Ok(b"file1".to_vec()));
    assert_eq!(fs.get_entry(root, 3), Ok(b"dir1".to_vec()));
    assert_eq!(fs.info().bfree, 1019);
}

#[test]
fn sefs_write_then_read() {
    let (mut fs, _) = new_sefs();
    let root = fs.root_inode().unwrap();
    let f = fs.create_child(root, "file1", FileType::File, 0o777).unwrap();
    assert_eq!(fs.write_at(f, 4, b"hello"), Ok(5));
    assert_eq!(fs.metadata(f).unwrap().size, 9);
    let mut buf = [7u8; 16];
    assert_eq!(fs.read_at(f, 0, &mut buf), Ok(9));
    assert_eq!(&buf[..9], b"\0\0\0\0hello");
    assert_eq!(fs.read_at(root, 0, &mut buf), Err(FsError::NotFile));
    assert_eq!(fs.write_at(root, 0, b"x"), Err(FsError::NotFile));
    fs.resize(f, 2).unwrap();
    assert_eq!(fs.metadata(f).unwrap().size, 2);
    assert_eq!(fs.resize(root, 2), Err(FsError::NotFile));
}

#[test]
fn nlinks() {
    let (mut fs, _) = new_sefs();
    let root = fs.root_inode().unwrap();
    assert_eq!(fs.metadata(root).unwrap().nlinks, 2);
    let file1 = fs.create_child(root, "file1", FileType::File, 0o777).unwrap();
    assert_eq!(fs.metadata(file1).unwrap().nlinks, 1);
    assert_eq!(fs.metadata(root).unwrap().nlinks, 2);
    let dir1 = fs.create_child(root, "dir1", FileType::Dir, 0o777).unwrap();
    assert_eq!(fs.metadata(dir1).unwrap().nlinks, 2);
    assert_eq!(fs.metadata(root).unwrap().nlinks, 3);
    fs.move_(root, "dir1", root, "dir_1").unwrap();
    assert_eq!(fs.metadata(dir1).unwrap().nlinks, 2);
    assert_eq!(fs.metadata(root).unwrap().nlinks, 3);
    fs.link(dir1, "file1_", file1).unwrap();
    assert_eq!(fs.metadata(dir1).unwrap().nlinks, 2);
    assert_eq!(fs.metadata(file1).unwrap().nlinks, 2);
    let dir2 = fs.create_child(root, "dir2", FileType::Dir, 0o777).unwrap();
    assert_eq!(fs.metadata(root).unwrap().nlinks, 4);
    fs.move_(root, "file1", dir2, "file__1").unwrap();
    assert_eq!(fs.metadata(file1).unwrap().nlinks, 2);
    assert_eq!(fs.metadata(root).unwrap().nlinks, 4);
    assert_eq!(fs.metadata(dir2).unwrap().nlinks, 2);
    fs.move_(root, "dir_1", dir2, "dir__1").unwrap();
    assert_eq!(fs.metadata(dir1).unwrap().nlinks, 2);
    assert_eq!(fs.metadata(root).unwrap().nlinks, 3);
    assert_eq!(fs.metadata(dir2).unwrap().nlinks, 3);
    fs.unlink(dir2, "file__1").unwrap();
    assert_eq!(fs.metadata(file1).unwrap().nlinks, 1);
    assert_eq!(fs.unlink(dir2, "dir__1"), Err(FsError::DirNotEmpty));
    fs.unlink(dir1, "file1_").unwrap();
    assert_eq!(fs.metadata(file1).unwrap().nlinks, 0);
    fs.unlink(dir2, "dir__1").unwrap();
    assert_eq!(fs.metadata(dir1).unwrap().nlinks, 0);
    assert_eq!(fs.metadata(dir2).unwrap().nlinks, 2);
    fs.unlink(root, "dir2").unwrap();
    assert_eq!(fs.metadata(dir2).unwrap().nlinks, 0);
    assert_eq!(fs.metadata(root).unwrap().nlinks, 2);
}

#[test]
fn sefs_errors() {
    let (mut fs, _) = new_sefs();
    let root = fs.root_inode().unwrap();
    let f = fs.create_child(root, "f", FileType::File, 0o777).unwrap();
    let d = fs.create_child(root, "d", FileType::Dir, 0o777).unwrap();
    assert_eq!(fs.unlink(root, "."), Err(FsError::IsDir));
    assert_eq!(fs.unlink(root, ".."), Err(FsError::IsDir));
    assert_eq!(fs.unlink(root, "none"), Err(FsError::EntryNotFound));
    assert_eq!(fs.unlink(f, "x"), Err(FsError::NotDir));
    assert_eq!(fs.link(root, "d2", d), Err(FsError::IsDir));
    assert_eq!(fs.link(root, "f", f), Err(FsError::EntryExist));
    assert_eq!(fs.link(f, "g", f), Err(FsError::NotDir));
    assert_eq!(fs.move_(root, ".", d, "x"), Err(FsError::IsDir));
    assert_eq!(fs.move_(root, "none", d, "x"), Err(FsError::EntryNotFound));
    assert_eq!(fs.move_(root, "f", d, "x"), Ok(()));
    assert_eq!(fs.move_(d, "x", root, "d"), Err(FsError::EntryExist));
    assert_eq!(fs.move_(root, "d", f, "x"), Err(FsError::NotDir));
    assert_eq!(fs.find(f, "x"), Err(FsError::NotDir));
    assert_eq!(fs.get_entry(f, 0), Err(FsError::NotDir));
}

#[test]
fn sefs_rename_in_place() {
    let (mut fs, _) = new_sefs();
    let root = fs.root_inode().unwrap();
    let f = fs.create_child(root, "old", FileType::File, 0o777).unwrap();
    fs.move_(root, "old", root, "new").unwrap();
    assert_eq!(fs.find(root, "new"), Ok(f));
    assert_eq!(fs.find(root, "old"), Err(FsError::EntryNotFound));
    assert_eq!(fs.get_entry(root, 2), Ok(b"new".to_vec()));
}

#[test]
fn sefs_unlink_moves_last_entry() {
    let (mut fs, _) = new_sefs();
    let root = fs.root_inode().unwrap();
    fs.create_child(root, "a", FileType::File, 0o777).unwrap();
    fs.create_child(root, "b", FileType::File, 0o777).unwrap();
    fs.create_child(root, "c", FileType::File, 0o777).unwrap();
    fs.unlink(root, "a").unwrap();
    assert_eq!(fs.get_entry(root, 2), Ok(b"c".to_vec()));
    assert_eq!(fs.get_entry(root, 3), Ok(b"b".to_vec()));
    assert_eq!(fs.get_entry(root, 4), Err(FsError::EntryNotFound));
}

#[test]
fn sefs_sync_then_open() {
    let (mut fs, storage) = new_sefs();
    let root = fs.root_inode().unwrap();
    let f = fs.create_child(root, "file1", FileType::File, 0o777).unwrap();
    fs.write_at(f, 0, b"persisted").unwrap();
    fs.sync().unwrap();
    let info = fs.info();
    let mut fs2 = SEFS::open(storage.clone(), ZeroTime, CountingIds(100)).expect("failed to open SEFS");
    assert_eq!(fs2.info(), info);
    let root2 = fs2.root_inode().unwrap();
    let f2 = fs2.find(root2, "file1").unwrap();
    assert_eq!(f2, f);
    let mut buf = [0u8; 9];
    assert_eq!(fs2.read_at(f2, 0, &mut buf), Ok(9));
    assert_eq!(&buf, b"persisted");
    assert_eq!(fs2.metadata(f2).unwrap().size, 9);
}

#[test]
fn sefs_open_missing_metadata() {
    let storage = MapStorage(Rc::new(RefCell::new(HashMap::new())));
    assert!(matches!(SEFS::open(storage, ZeroTime, CountingIds(0)), Err(FsError::DeviceError)));
}

#[test]
fn sefs_open_wrong_magic() {
    let storage = MapStorage(Rc::new(RefCell::new(HashMap::new())));
    storage.0.borrow_mut().insert("metadata".to_string(), Rc::new(RefCell::new(vec![0u8; 128 * 1024])));
    assert!(matches!(SEFS::open(storage, ZeroTime, CountingIds(0)), Err(FsError::WrongFs)));
}

#[test]
fn sefs_release_frees_unlinked() {
    let (mut fs, storage) = new_sefs();
    let root = fs.root_inode().unwrap();
    let f = fs.create_child(root, "file1", FileType::File, 0o777).unwrap();
    let g = fs.create_child(root, "file2", FileType::File, 0o777).unwrap();
    assert_eq!(fs.info().bfree, 1019);
    fs.unlink(root, "file1").unwrap();
    fs.release(f).unwrap();
    assert_eq!(fs.info().bfree, 1020);
    assert!(!storage.0.borrow().contains_key("00000000000000000000000000000002"));
    fs.release(g).unwrap();
    assert_eq!(fs.info().bfree, 1020);
    assert!(storage.0.borrow().contains_key("00000000000000000000000000000003"));
    assert_eq!(fs.find(root, "file2"), Ok(g));
    assert_eq!(fs.metadata(g).unwrap().nlinks, 1);
}

#[test]
fn mem_file_set_len() {
    let mut f = rcore_fs::sefs_dev::MemFile::new();
    assert!(f.write_at(&[1, 2, 3], 0).is_ok());
    assert!(f.set_len(5).is_ok());
    assert_eq!(f.bytes().clone(), vec![1u8, 2, 3, 0, 0]);
    assert!(f.set_len(2).is_ok());
    assert_eq!(f.bytes().clone(), vec![1u8, 2]);
}

#[test]
fn hard_link() {
    let (mut fs, _) = new_sefs();
    let root = fs.root_inode().unwrap();
    let file1 = fs.create_child(root, "file1", FileType::File, 0o777).unwrap();
    fs.link(root, "file2", file1).unwrap();
    let file2 = fs.find(root, "file2").unwrap();
    fs.resize(file1, 100).unwrap();
    assert_eq!(fs.metadata(file2).unwrap().size, 100);
    fs.sync().unwrap();
}

#[test]
fn sefs_move_dir_renames_parent() {
    let (mut fs, _) = new_sefs();
    let root = fs.root_inode().unwrap();
    let d = fs.create_child(root, "d", FileType::Dir, 0o755).unwrap();
    let t = fs.create_child(root, "t", FileType::Dir, 0o755).unwrap();
    assert_eq!(fs.find(d, ".."), Ok(root));
    fs.move_(root, "d", t, "d2").unwrap();
    assert_eq!(fs.metadata(t).unwrap().nlinks, 3);
    assert_eq!(fs.metadata(root).unwrap().nlinks, 3);
    assert_eq!(fs.find(d, ".."), Ok(t));
    assert_eq!(fs.find(t, "d2"), Ok(d));
    assert_eq!(fs.find(root, "d"), Err(FsError::EntryNotFound));
}
