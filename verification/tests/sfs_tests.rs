use rcore_fs::block_range::{BlockIter, BlockRange};
use rcore_fs::device::MemDevice;
use rcore_fs::sfs::SimpleFileSystem;
use rcore_fs::structs::{DiskEntry, DiskINode, IndirectBlock, SuperBlock, BLKSIZE};
use rcore_fs::vfs::{FileType, FsError};
use std::mem::size_of;

fn create_new_sfs(space: usize) -> SimpleFileSystem<MemDevice> {
    let device = MemDevice::new(space);
    match SimpleFileSystem::create(device, space) {
        Ok(sfs) => sfs,
        Err(e) => panic!("failed to create SFS: {:?}", e),
    }
}

#[test]
fn block_iter() {
    let mut iter = BlockIter { begin: 0x123, end: 0x2018 };
    assert_eq!(iter.next(), Some(BlockRange { block: 0, begin: 0x123, end: 0x1000 }));
    assert_eq!(iter.next(), Some(BlockRange { block: 1, begin: 0, end: 0x1000 }));
    assert_eq!(iter.next(), Some(BlockRange { block: 2, begin: 0, end: 0x18 }));
    assert_eq!(iter.next(), None);
}

#[test]
fn struct_size() {
    assert!(size_of::<SuperBlock>() <= BLKSIZE);
    assert!(size_of::<DiskINode>() <= BLKSIZE);
    assert!(size_of::<DiskEntry>() <= BLKSIZE);
    assert_eq!(size_of::<IndirectBlock>(), BLKSIZE);
}

#[test]
fn tests_create_new_sfs() {
    let mut sfs = create_new_sfs(16 * 4096);
    let root = sfs.root_inode().expect("failed to load the root");
    assert_eq!(root, 1);
}

#[test]
fn tests_create_file() {
    let mut sfs = create_new_sfs(16 * 4096);
    let root = sfs.root_inode().unwrap();
    let file1 = sfs.create_child(root, b"file1", FileType::File).unwrap();
    let info = sfs.info(file1).unwrap();
    assert_eq!(info.size, 0);
    assert_eq!(info.type_, FileType::File);
    assert_eq!(info.mode, 0);
    sfs.sync().unwrap();
}

#[test]
fn lookup() {
    let mut sfs = create_new_sfs(16 * 4096);
    let root = sfs.root_inode().unwrap();
    let file1 = sfs.create_child(root, b"file1", FileType::File).unwrap();
    let found = sfs.lookup(root, b"file1").expect("lookup not found");
    assert_eq!(found, file1, "found wrong INode");
    sfs.sync().unwrap();
}

#[test]
fn resize() {
    let mut sfs = create_new_sfs(32 * 4096);
    let root = sfs.root_inode().unwrap();
    let file1 = sfs.create_child(root, b"file1", FileType::File).unwrap();
    assert_eq!(sfs.info(file1).unwrap().size, 0, "empty file size != 0");

    const SIZE1: usize = 0x1234;
    const SIZE2: usize = 0x1250;
    sfs.resize(file1, SIZE1).unwrap();
    assert_eq!(sfs.info(file1).unwrap().size, SIZE1, "wrong size after resize");
    let mut data1 = [7u8; SIZE2];
    let len = sfs.read_at(file1, 0, &mut data1).unwrap();
    assert_eq!(len, SIZE1, "wrong size returned by read_at()");
    assert_eq!(&data1[..SIZE1], &[0u8; SIZE1][..], "expanded data should be 0");

    sfs.sync().unwrap();
}

#[test]
fn create_then_lookup() {
    let mut sfs = create_new_sfs(32 * 4096);
    let root = sfs.root_inode().unwrap();

    assert_eq!(sfs.lookup(root, b".").unwrap(), root, "failed to find .");
    assert_eq!(sfs.lookup(root, b"..").unwrap(), root, "failed to find ..");

    let file1 = sfs.create_child(root, b"file1", FileType::File).expect("failed to create file1");
    assert_eq!(sfs.lookup(root, b"file1").unwrap(), file1, "failed to find file1");
    assert!(sfs.lookup(root, b"file2").is_err(), "found non-existent file");

    let dir1 = sfs.create_child(root, b"dir1", FileType::Dir).expect("failed to create dir1");
    let file2 = sfs.create_child(dir1, b"file2", FileType::File).expect("failed to create /dir1/file2");
    assert_eq!(sfs.lookup(root, b"dir1/file2").unwrap(), file2, "failed to find dir1/file1");
    assert_eq!(sfs.lookup(dir1, b"..").unwrap(), root, "failed to find .. from dir1");

    sfs.sync().unwrap();
}

#[test]
fn sfs_write_then_read() {
    let mut sfs = create_new_sfs(32 * 4096);
    let root = sfs.root_inode().unwrap();
    let file1 = sfs.create_child(root, b"file1", FileType::File).unwrap();
    sfs.resize(file1, 10).unwrap();
    let n = sfs.write_at(file1, 2, b"hello world").unwrap();
    assert_eq!(n, 8);
    let mut buf = [0u8; 10];
    let n = sfs.read_at(file1, 0, &mut buf).unwrap();
    assert_eq!(n, 10);
    assert_eq!(&buf, b"\0\0hello wo");
}

#[test]
fn sfs_list_root() {
    let mut sfs = create_new_sfs(32 * 4096);
    let root = sfs.root_inode().unwrap();
    sfs.create_child(root, b"a", FileType::File).unwrap();
    sfs.create_child(root, b"bb", FileType::Dir).unwrap();
    let names = sfs.list(root).unwrap();
    assert_eq!(names, vec![b".".to_vec(), b"..".to_vec(), b"a".to_vec(), b"bb".to_vec()]);
    let info = sfs.info(root).unwrap();
    assert_eq!(info.type_, FileType::Dir);
}

#[test]
fn sfs_lookup_missing_and_through_file() {
    let mut sfs = create_new_sfs(32 * 4096);
    let root = sfs.root_inode().unwrap();
    sfs.create_child(root, b"f", FileType::File).unwrap();
    assert_eq!(sfs.lookup(root, b"nothing"), Err(FsError::EntryNotFound));
    assert_eq!(sfs.lookup(root, b"f/x"), Err(FsError::NotDir));
}

fn sfs_image(blocks: u32, unused: u32, free_byte0: u8, len: usize) -> Vec<u8> {
    let mut img = vec![0u8; len];
    img[0..4].copy_from_slice(&0x2f8dbe2au32.to_le_bytes());
    img[4..8].copy_from_slice(&blocks.to_le_bytes());
    img[8..12].copy_from_slice(&unused.to_le_bytes());
    img[2 * BLKSIZE] = free_byte0;
    img
}

#[test]
fn open_checks_image() {
    assert!(SimpleFileSystem::open(MemDevice::new(4 * BLKSIZE)).is_none());
    assert!(SimpleFileSystem::open(MemDevice::from_bytes(sfs_image(3, 0, 0, 3 * BLKSIZE))).is_some());
    // block 3 free (bit 3 of the first little-endian word), counted by the superblock
    assert!(SimpleFileSystem::open(MemDevice::from_bytes(sfs_image(4, 1, 0x08, 4 * BLKSIZE))).is_some());
    // the count disagrees with the free map
    assert!(SimpleFileSystem::open(MemDevice::from_bytes(sfs_image(4, 0, 0x08, 4 * BLKSIZE))).is_none());
    // the root block marked free
    assert!(SimpleFileSystem::open(MemDevice::from_bytes(sfs_image(4, 1, 0x02, 4 * BLKSIZE))).is_none());
    // the device is shorter than the block count
    assert!(SimpleFileSystem::open(MemDevice::from_bytes(sfs_image(4, 1, 0x08, 3 * BLKSIZE))).is_none());
}

#[test]
fn create_sync_then_open() {
    let mut sfs = create_new_sfs(16 * 4096);
    let root = sfs.root_inode().unwrap();
    let f = sfs.create_child(root, b"f", FileType::File).unwrap();
    sfs.resize(f, 5).unwrap();
    assert_eq!(sfs.write_at(f, 0, b"hello").unwrap(), 5);
    sfs.sync().unwrap();
    let image = sfs.device().bytes().clone();
    let mut again = SimpleFileSystem::open(MemDevice::from_bytes(image)).expect("image written by sync refused");
    let root2 = again.root_inode().unwrap();
    assert_eq!(again.list(root2).unwrap(), vec![b".".to_vec(), b"..".to_vec(), b"f".to_vec()]);
    let f2 = again.lookup(root2, b"f").unwrap();
    let mut buf = [0u8; 5];
    assert_eq!(again.read_at(f2, 0, &mut buf).unwrap(), 5);
    assert_eq!(&buf, b"hello");
    // the reopened free map hands out a block that no inode holds
    let g = again.create_child(root2, b"g", FileType::File).unwrap();
    assert!(g > 4 && g != f2);
}

#[test]
fn resize_on_dir_should_panic() {
    let mut sfs = create_new_sfs(32 * 4096);
    let root = sfs.root_inode().unwrap();
    assert!(sfs.resize(root, 4096).is_err());
    sfs.sync().unwrap();
}

#[test]
fn resize_too_large_should_panic() {
    let mut sfs = create_new_sfs(32 * 4096);
    let root = sfs.root_inode().unwrap();
    let file1 = sfs.create_child(root, b"file1", FileType::File).unwrap();
    assert!(sfs.resize(file1, 1 << 28).is_err());
    assert_eq!(sfs.info(file1).unwrap().size, 0);
    sfs.sync().unwrap();
}

#[test]
fn resize_regrow_within_block_reads_zero() {
    let mut sfs = create_new_sfs(32 * 4096);
    let root = sfs.root_inode().unwrap();
    let file1 = sfs.create_child(root, b"file1", FileType::File).unwrap();
    sfs.resize(file1, 100).unwrap();
    assert_eq!(sfs.write_at(file1, 0, &[0xAAu8; 100]).unwrap(), 100);
    sfs.resize(file1, 50).unwrap();
    sfs.resize(file1, 100).unwrap();
    let mut buf = [1u8; 100];
    assert_eq!(sfs.read_at(file1, 0, &mut buf).unwrap(), 100);
    assert_eq!(&buf[..50], &[0xAAu8; 50][..]);
    assert_eq!(&buf[50..], &[0u8; 50][..]);
}

#[test]
fn create_until_full() {
    // 16 blocks: 3 of metadata and 2 of the root's entries leave 11 free; each
    // file takes one block for its inode and one for its entry in the root
    let mut sfs = create_new_sfs(16 * 4096);
    let root = sfs.root_inode().unwrap();
    for i in 0..5u8 {
        sfs.create_child(root, &[b'a' + i], FileType::File).unwrap();
    }
    assert_eq!(sfs.create_child(root, b"z", FileType::File), Err(FsError::NoDeviceSpace));
}
