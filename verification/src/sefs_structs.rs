//! On-disk structures in SEFS

use vstd::prelude::*;
use vstd::bytes::{spec_u32_to_le_bytes, spec_u16_to_le_bytes};
use crate::codec::{spec_u32_at, spec_u16_at, lemma_u32_le_bytes, lemma_u16_le_bytes, extend_bytes, push_u32, push_u16, read_u32, read_u16};
use crate::sefs_dev::{SefsMac, SefsUuid};
use crate::structs::AsBuf;

verus! {

pub type BlockId = usize;

pub type INodeId = BlockId;

/// magic number for sfs
pub const MAGIC: u32 = 0x2f8dbe2a;

/// log2( size of block )
pub const BLKSIZE_LOG2: u8 = 7;

/// size of block
pub const BLKSIZE: usize = 128;

/// max length of filename
pub const MAX_FNAME_LEN: usize = 255;

/// block the superblock lives in
pub const BLKN_SUPER: BlockId = 0;

/// location of the root dir inode
pub const BLKN_ROOT: BlockId = 2;

/// 1st block of the freemap
pub const BLKN_FREEMAP: BlockId = 1;

/// number of bits in a block
pub const BLKBITS: usize = 1024;

/// size of a dirent used in the size field
pub const DIRENT_SIZE: usize = 260;

/// The name of the file that holds the superblock, the free map and the inodes
pub const METAFILE_NAME: &'static str = "metadata";

/// Bytes of an on-disk superblock
pub const SUPER_BLOCK_SIZE: usize = 16;

/// Bytes of an on-disk inode
pub const DISK_INODE_SIZE: usize = 64;

/// file types
#[derive(Debug, Eq, PartialEq, Structural, Copy, Clone)]
pub enum FileType {
    Invalid,
    File,
    Dir,
    SymLink,
}

impl FileType {
    /// The on-disk number of a file type
    pub open spec fn spec_code(self) -> u16 {
        match self {
            FileType::Invalid => 0,
            FileType::File => 1,
            FileType::Dir => 2,
            FileType::SymLink => 3,
        }
    }

    /// The file type an on-disk number stands for; unknown numbers are invalid
    pub open spec fn spec_from_code(c: u16) -> FileType {
        if c == 1 {
            FileType::File
        } else if c == 2 {
            FileType::Dir
        } else if c == 3 {
            FileType::SymLink
        } else {
            FileType::Invalid
        }
    }

    pub fn code(&self) -> (c: u16)
        ensures
            c == self.spec_code(),
    {
        match self {
            FileType::Invalid => 0,
            FileType::File => 1,
            FileType::Dir => 2,
            FileType::SymLink => 3,
        }
    }

    pub fn from_code(c: u16) -> (t: FileType)
        ensures
            t == FileType::spec_from_code(c),
    {
        if c == 1 {
            FileType::File
        } else if c == 2 {
            FileType::Dir
        } else if c == 3 {
            FileType::SymLink
        } else {
            FileType::Invalid
        }
    }
}

/// On-disk superblock
#[derive(Debug, Copy, Clone)]
pub struct SuperBlock {
    /// magic number, should be SFS_MAGIC
    pub magic: u32,
    /// number of blocks in fs
    pub blocks: u32,
    /// number of unused blocks in fs
    pub unused_blocks: u32,
    /// number of block groups
    pub groups: u32,
}

impl SuperBlock {
    pub fn check(&self) -> (b: bool)
        ensures
            b == (self.magic == MAGIC),
    {
        self.magic == MAGIC
    }
}

/// On-disk inode
#[derive(Debug, Copy, Clone)]
pub struct DiskINode {
    /// size of the file (in bytes)
    pub size: u32,
    /// one of SYS_TYPE_* above
    pub type_: FileType,
    /// permission
    pub mode: u16,
    /// number of hard links to this file
    /// Note: "." and ".." is counted in this nlinks
    pub nlinks: u16,
    /// number of blocks
    pub blocks: u32,
    pub uid: u16,
    pub gid: u8,
    pub atime: u32,
    pub mtime: u32,
    pub ctime: u32,
    pub disk_filename: SefsUuid,
    pub inode_mac: SefsMac,
}

fn read_array16(buf: &[u8], pos: usize) -> (a: [u8; 16])
    requires
        pos + 16 <= buf@.len(),
    ensures
        a@ == buf@.subrange(pos as int, pos + 16),
{
    let n = buf.len();
    let mut a = [0u8; 16];
    let mut i: usize = 0;
    while i < 16
        invariant
            n == buf@.len(),
            pos + 16 <= buf@.len(),
            i <= 16,
            forall|k: int| 0 <= k < i ==> a@[k] == buf@[pos + k],
        decreases 16 - i,
    {
        a[i] = buf[pos + i];
        i = i + 1;
    }
    assert(a@ =~= buf@.subrange(pos as int, pos + 16));
    a
}

impl AsBuf for SuperBlock {
    open spec fn spec_buf(&self) -> Seq<u8> {
        spec_u32_to_le_bytes(self.magic) + spec_u32_to_le_bytes(self.blocks) + spec_u32_to_le_bytes(
            self.unused_blocks,
        ) + spec_u32_to_le_bytes(self.groups)
    }

    open spec fn spec_decodes(buf: Seq<u8>, v: SuperBlock) -> bool {
        &&& buf.len() == SUPER_BLOCK_SIZE
        &&& v.magic == spec_u32_at(buf, 0)
        &&& v.blocks == spec_u32_at(buf, 4)
        &&& v.unused_blocks == spec_u32_at(buf, 8)
        &&& v.groups == spec_u32_at(buf, 12)
    }

    open spec fn spec_size() -> nat {
        SUPER_BLOCK_SIZE as nat
    }

    fn as_buf(&self) -> (r: Vec<u8>) {
        let mut v: Vec<u8> = Vec::new();
        push_u32(&mut v, self.magic);
        push_u32(&mut v, self.blocks);
        push_u32(&mut v, self.unused_blocks);
        push_u32(&mut v, self.groups);
        proof {
            lemma_u32_le_bytes(self.magic);
            lemma_u32_le_bytes(self.blocks);
            lemma_u32_le_bytes(self.unused_blocks);
            lemma_u32_le_bytes(self.groups);
            assert(v@ =~= self.spec_buf());
        }
        v
    }

    fn from_buf(buf: &[u8]) -> (r: SuperBlock) {
        SuperBlock {
            magic: read_u32(buf, 0),
            blocks: read_u32(buf, 4),
            unused_blocks: read_u32(buf, 8),
            groups: read_u32(buf, 12),
        }
    }

    proof fn lemma_round_trip(v: SuperBlock) {
        lemma_u32_le_bytes(v.magic);
        lemma_u32_le_bytes(v.blocks);
        lemma_u32_le_bytes(v.unused_blocks);
        lemma_u32_le_bytes(v.groups);
        let b = v.spec_buf();
        assert(b.subrange(0, 4) =~= spec_u32_to_le_bytes(v.magic));
        assert(b.subrange(4, 8) =~= spec_u32_to_le_bytes(v.blocks));
        assert(b.subrange(8, 12) =~= spec_u32_to_le_bytes(v.unused_blocks));
        assert(b.subrange(12, 16) =~= spec_u32_to_le_bytes(v.groups));
    }

    proof fn lemma_decodes_unique(buf: Seq<u8>, a: SuperBlock, b: SuperBlock) {
    }
}

impl AsBuf for DiskINode {
    open spec fn spec_buf(&self) -> Seq<u8> {
        spec_u32_to_le_bytes(self.size) + spec_u16_to_le_bytes(self.type_.spec_code()) + spec_u16_to_le_bytes(self.mode)
            + spec_u16_to_le_bytes(self.nlinks) + seq![0u8, 0u8] + spec_u32_to_le_bytes(self.blocks)
            + spec_u16_to_le_bytes(self.uid) + seq![self.gid, 0u8] + spec_u32_to_le_bytes(self.atime)
            + spec_u32_to_le_bytes(self.mtime) + spec_u32_to_le_bytes(self.ctime) + self.disk_filename.0@
            + self.inode_mac.0@
    }

    open spec fn spec_decodes(buf: Seq<u8>, v: DiskINode) -> bool {
        &&& buf.len() == DISK_INODE_SIZE
        &&& v.size == spec_u32_at(buf, 0)
        &&& v.type_ == FileType::spec_from_code(spec_u16_at(buf, 4))
        &&& v.mode == spec_u16_at(buf, 6)
        &&& v.nlinks == spec_u16_at(buf, 8)
        &&& v.blocks == spec_u32_at(buf, 12)
        &&& v.uid == spec_u16_at(buf, 16)
        &&& v.gid == buf[18]
        &&& v.atime == spec_u32_at(buf, 20)
        &&& v.mtime == spec_u32_at(buf, 24)
        &&& v.ctime == spec_u32_at(buf, 28)
        &&& v.disk_filename.0@ == buf.subrange(32, 48)
        &&& v.inode_mac.0@ == buf.subrange(48, 64)
    }

    open spec fn spec_size() -> nat {
        DISK_INODE_SIZE as nat
    }

    fn as_buf(&self) -> (r: Vec<u8>) {
        let mut v: Vec<u8> = Vec::new();
        push_u32(&mut v, self.size);
        push_u16(&mut v, self.type_.code());
        push_u16(&mut v, self.mode);
        push_u16(&mut v, self.nlinks);
        v.push(0u8);
        v.push(0u8);
        push_u32(&mut v, self.blocks);
        push_u16(&mut v, self.uid);
        v.push(self.gid);
        v.push(0u8);
        push_u32(&mut v, self.atime);
        push_u32(&mut v, self.mtime);
        push_u32(&mut v, self.ctime);
        extend_bytes(&mut v, self.disk_filename.0.as_slice());
        extend_bytes(&mut v, self.inode_mac.0.as_slice());
        proof {
            lemma_u32_le_bytes(self.size);
            lemma_u16_le_bytes(self.type_.spec_code());
            lemma_u16_le_bytes(self.mode);
            lemma_u16_le_bytes(self.nlinks);
            lemma_u32_le_bytes(self.blocks);
            lemma_u16_le_bytes(self.uid);
            lemma_u32_le_bytes(self.atime);
            lemma_u32_le_bytes(self.mtime);
            lemma_u32_le_bytes(self.ctime);
            assert(v@ =~= self.spec_buf());
        }
        v
    }

    fn from_buf(buf: &[u8]) -> (r: DiskINode) {
        DiskINode {
            size: read_u32(buf, 0),
            type_: FileType::from_code(read_u16(buf, 4)),
            mode: read_u16(buf, 6),
            nlinks: read_u16(buf, 8),
            blocks: read_u32(buf, 12),
            uid: read_u16(buf, 16),
            gid: buf[18],
            atime: read_u32(buf, 20),
            mtime: read_u32(buf, 24),
            ctime: read_u32(buf, 28),
            disk_filename: SefsUuid(read_array16(buf, 32)),
            inode_mac: SefsMac(read_array16(buf, 48)),
        }
    }

    proof fn lemma_round_trip(v: DiskINode) {
        lemma_u32_le_bytes(v.size);
        lemma_u16_le_bytes(v.type_.spec_code());
        lemma_u16_le_bytes(v.mode);
        lemma_u16_le_bytes(v.nlinks);
        lemma_u32_le_bytes(v.blocks);
        lemma_u16_le_bytes(v.uid);
        lemma_u32_le_bytes(v.atime);
        lemma_u32_le_bytes(v.mtime);
        lemma_u32_le_bytes(v.ctime);
        let b = v.spec_buf();
        assert(b.subrange(0, 4) =~= spec_u32_to_le_bytes(v.size));
        assert(b.subrange(4, 6) =~= spec_u16_to_le_bytes(v.type_.spec_code()));
        assert(b.subrange(6, 8) =~= spec_u16_to_le_bytes(v.mode));
        assert(b.subrange(8, 10) =~= spec_u16_to_le_bytes(v.nlinks));
        assert(b.subrange(12, 16) =~= spec_u32_to_le_bytes(v.blocks));
        assert(b.subrange(16, 18) =~= spec_u16_to_le_bytes(v.uid));
        assert(b.subrange(20, 24) =~= spec_u32_to_le_bytes(v.atime));
        assert(b.subrange(24, 28) =~= spec_u32_to_le_bytes(v.mtime));
        assert(b.subrange(28, 32) =~= spec_u32_to_le_bytes(v.ctime));
        assert(b.subrange(32, 48) =~= v.disk_filename.0@);
        assert(b.subrange(48, 64) =~= v.inode_mac.0@);
        assert(FileType::spec_from_code(v.type_.spec_code()) == v.type_);
    }

    proof fn lemma_decodes_unique(buf: Seq<u8>, a: DiskINode, b: DiskINode) {
        assert(a.disk_filename.0 =~= b.disk_filename.0);
        assert(a.inode_mac.0 =~= b.inode_mac.0);
    }
}

/// Every on-disk structure fits in one block.
pub proof fn lemma_struct_sizes()
    ensures
        <SuperBlock as AsBuf>::spec_size() <= BLKSIZE,
        <DiskINode as AsBuf>::spec_size() <= BLKSIZE,
{
}

} // verus!
