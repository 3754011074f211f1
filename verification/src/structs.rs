//! On-disk structures in SFS

use vstd::prelude::*;
use vstd::bytes::*;
use vstd::string::StringSliceAdditionalSpecFns;
use crate::codec::{spec_words_to_le_bytes, spec_u32_at, spec_u16_at, lemma_u32_le_bytes, lemma_u16_le_bytes, lemma_words_to_le_bytes, extend_bytes, push_u32, push_u16, push_words, read_u32, read_u16};

verus! {

broadcast use vstd::array::group_array_axioms;

pub type BlockId = usize;

pub type INodeId = BlockId;

/// magic number for sfs
pub const MAGIC: u32 = 0x2f8dbe2a;

/// size of block
pub const BLKSIZE: usize = 4096;

/// number of direct blocks in inode
pub const NDIRECT: usize = 12;

/// max length of infomation
pub const MAX_INFO_LEN: usize = 31;

/// max length of filename
pub const MAX_FNAME_LEN: usize = 255;

/// max file size (128M)
pub const MAX_FILE_SIZE: usize = 1024 * 1024 * 128;

/// block the superblock lives in
pub const BLKN_SUPER: BlockId = 0;

/// location of the root dir inode
pub const BLKN_ROOT: BlockId = 1;

/// 1st block of the freemap
pub const BLKN_FREEMAP: BlockId = 2;

/// number of bits in a block
pub const BLKBITS: usize = BLKSIZE * 8;

/// size of one entry of an indirect block
pub const ENTRY_SIZE: usize = 4;

/// number of entries in a block
pub const BLK_NENTRY: usize = BLKSIZE / ENTRY_SIZE;

/// Encoded size of `SuperBlock`
pub const SUPER_BLOCK_SIZE: usize = 44;

/// Encoded size of `DiskINode`
pub const DISK_INODE_SIZE: usize = 68;

/// Encoded size of `DiskEntry`
pub const DISK_ENTRY_SIZE: usize = 260;

/// file types
#[derive(Debug, PartialEq, Eq, Structural, Copy, Clone)]
pub enum FileType {
    Invalid,
    File,
    Dir,
    Link,
}

impl FileType {
    /// The on-disk code of the type
    pub open spec fn spec_code(self) -> u16 {
        match self {
            FileType::Invalid => 0,
            FileType::File => 1,
            FileType::Dir => 2,
            FileType::Link => 3,
        }
    }

    /// The type of an on-disk code; unknown codes read as `Invalid`
    pub open spec fn spec_from_code(c: u16) -> FileType {
        if c == 1 {
            FileType::File
        } else if c == 2 {
            FileType::Dir
        } else if c == 3 {
            FileType::Link
        } else {
            FileType::Invalid
        }
    }

    pub fn code(&self) -> (c: u16)
        ensures
            c == self.spec_code(),
    {
        match self {
            FileType::Invalid => 0,
            FileType::File => 1,
            FileType::Dir => 2,
            FileType::Link => 3,
        }
    }

    pub fn from_code(c: u16) -> (t: FileType)
        ensures
            t == FileType::spec_from_code(c),
    {
        if c == 1 {
            FileType::File
        } else if c == 2 {
            FileType::Dir
        } else if c == 3 {
            FileType::Link
        } else {
            FileType::Invalid
        }
    }
}

/// Position of the first zero byte of `s` at or after `i`, or `s.len()` if there is none.
pub open spec fn first_zero(s: Seq<u8>, i: int) -> int
    decreases s.len() - i,
{
    if i >= s.len() {
        s.len() as int
    } else if s[i] == 0 {
        i
    } else {
        first_zero(s, i + 1)
    }
}

pub proof fn lemma_first_zero(s: Seq<u8>, i: int)
    requires
        0 <= i <= s.len(),
    ensures
        i <= first_zero(s, i) <= s.len(),
        forall|k: int| i <= k < first_zero(s, i) ==> s[k] != 0,
        first_zero(s, i) < s.len() ==> s[first_zero(s, i)] == 0,
    decreases s.len() - i,
{
    if i < s.len() && s[i] != 0 {
        lemma_first_zero(s, i + 1);
    }
}

/// The name held by a zero-terminated byte string, or `None` when no zero byte ends it.
pub open spec fn spec_c_name(s: Seq<u8>) -> Option<Seq<u8>> {
    let n = first_zero(s, 0);
    if n < s.len() {
        Some(s.subrange(0, n))
    } else {
        None
    }
}

/// `s` padded with zero bytes up to `n` bytes
pub open spec fn spec_zero_padded(s: Seq<u8>, n: nat) -> Seq<u8> {
    s + Seq::new((n - s.len()) as nat, |i: int| 0u8)
}

/// A fixed-size 256-byte zero-terminated name
pub struct Str256(pub [u8; 256]);

/// A fixed-size 32-byte zero-terminated string
pub struct Str32(pub [u8; 32]);

fn first_zero_exec(s: &[u8]) -> (n: usize)
    ensures
        n == first_zero(s@, 0),
{
    let mut i: usize = 0;
    while i < s.len()
        invariant
            i <= s@.len(),
            first_zero(s@, 0) == first_zero(s@, i as int),
        decreases s@.len() - i,
    {
        if s[i] == 0 {
            return i;
        }
        i = i + 1;
    }
    i
}

fn bytes_eq(a: &[u8], b: &[u8]) -> (r: bool)
    ensures
        r == (a@ == b@),
{
    if a.len() != b.len() {
        return false;
    }
    let mut i: usize = 0;
    while i < a.len()
        invariant
            i <= a@.len(),
            a@.len() == b@.len(),
            forall|k: int| 0 <= k < i ==> a@[k] == b@[k],
        decreases a@.len() - i,
    {
        if a[i] != b[i] {
            return false;
        }
        i = i + 1;
    }
    assert(a@ =~= b@);
    true
}

impl Str32 {
    /// Copy `s` into a zero-padded 32-byte string
    pub fn from_slice(s: &[u8]) -> (r: Self)
        requires
            s@.len() <= 32,
        ensures
            r.0@ == spec_zero_padded(s@, 32),
    {
        let mut ret = [0u8; 32];
        let mut i: usize = 0;
        while i < s.len()
            invariant
                s@.len() <= 32,
                i <= s@.len(),
                forall|k: int| 0 <= k < i ==> ret@[k] == s@[k],
                forall|k: int| i <= k < 32 ==> ret@[k] == 0,
            decreases s@.len() - i,
        {
            ret[i] = s[i];
            i = i + 1;
        }
        assert(ret@ =~= spec_zero_padded(s@, 32));
        Str32(ret)
    }

    /// Copy the bytes of `s` into a zero-padded 32-byte string
    pub fn from_str(s: &str) -> (r: Self)
        requires
            s.spec_bytes().len() <= 32,
        ensures
            r.0@ == spec_zero_padded(s.spec_bytes(), 32),
    {
        Self::from_slice(s.as_bytes())
    }

    /// The bytes before the terminating zero, if there is one
    pub fn name(&self) -> (r: Option<Vec<u8>>)
        ensures
            r matches Some(v) ==> spec_c_name(self.0@) == Some(v@),
            r is None ==> spec_c_name(self.0@) is None,
    {
        let s = self.0.as_slice();
        let n = first_zero_exec(s);
        if n < 32 {
            let v = vstd::slice::slice_to_vec(vstd::slice::slice_subrange(s, 0, n));
            Some(v)
        } else {
            None
        }
    }
}

impl Str256 {
    /// Copy the bytes of `s` into a zero-padded 256-byte name
    pub fn from_str(s: &str) -> (r: Self)
        requires
            s.spec_bytes().len() <= 256,
        ensures
            r.0@ == spec_zero_padded(s.spec_bytes(), 256),
    {
        Self::from_slice(s.as_bytes())
    }

    /// Copy `s` into a zero-padded 256-byte name
    pub fn from_slice(s: &[u8]) -> (r: Self)
        requires
            s@.len() <= 256,
        ensures
            r.0@ == spec_zero_padded(s@, 256),
    {
        let mut ret = [0u8; 256];
        let mut i: usize = 0;
        while i < s.len()
            invariant
                s@.len() <= 256,
                i <= s@.len(),
                forall|k: int| 0 <= k < i ==> ret@[k] == s@[k],
                forall|k: int| i <= k < 256 ==> ret@[k] == 0,
            decreases s@.len() - i,
        {
            ret[i] = s[i];
            i = i + 1;
        }
        assert(ret@ =~= spec_zero_padded(s@, 256));
        Str256(ret)
    }

    /// The bytes before the terminating zero, if there is one
    pub fn name(&self) -> (r: Option<Vec<u8>>)
        ensures
            r matches Some(v) ==> spec_c_name(self.0@) == Some(v@),
            r is None ==> spec_c_name(self.0@) is None,
    {
        let s = self.0.as_slice();
        let n = first_zero_exec(s);
        if n < 256 {
            let v = vstd::slice::slice_to_vec(vstd::slice::slice_subrange(s, 0, n));
            Some(v)
        } else {
            None
        }
    }

    /// Whether this zero-terminated name equals `name`
    pub fn name_eq(&self, name: &[u8]) -> (r: bool)
        ensures
            r == (spec_c_name(self.0@) == Some(name@)),
    {
        let s = self.0.as_slice();
        let n = first_zero_exec(s);
        if n < 256 {
            bytes_eq(vstd::slice::slice_subrange(s, 0, n), name)
        } else {
            false
        }
    }
}

/// A name stored with `spec_zero_padded` reads back as that name when it has no zero byte.
pub proof fn lemma_padded_name(s: Seq<u8>, n: nat)
    requires
        s.len() < n,
        forall|k: int| 0 <= k < s.len() ==> s[k] != 0,
    ensures
        spec_c_name(spec_zero_padded(s, n)) == Some(s),
{
    let p = spec_zero_padded(s, n);
    assert forall|k: int| 0 <= k <= s.len() implies first_zero(p, k) == s.len() by {
        lemma_first_zero_from(p, s.len() as int, k);
    }
    assert(p.subrange(0, s.len() as int) =~= s);
}

proof fn lemma_first_zero_from(p: Seq<u8>, z: int, k: int)
    requires
        0 <= k <= z < p.len(),
        p[z] == 0,
        forall|j: int| k <= j < z ==> p[j] != 0,
    ensures
        first_zero(p, k) == z,
    decreases z - k,
{
    if k < z {
        lemma_first_zero_from(p, z, k + 1);
    }
}

/// On-disk superblock
pub struct SuperBlock {
    /// magic number, should be SFS_MAGIC
    pub magic: u32,
    /// number of blocks in fs
    pub blocks: u32,
    /// number of unused blocks in fs
    pub unused_blocks: u32,
    /// information for sfs
    pub info: Str32,
}

impl SuperBlock {
    pub fn check(&self) -> (b: bool)
        ensures
            b == (self.magic == MAGIC),
    {
        self.magic == MAGIC
    }
}

/// inode (on disk)
pub struct DiskINode {
    /// size of the file (in bytes)
    pub size: u32,
    /// one of SYS_TYPE_* above
    pub type_: FileType,
    /// number of hard links to this file
    pub nlinks: u16,
    /// number of blocks
    pub blocks: u32,
    /// direct blocks
    pub direct: [u32; NDIRECT],
    /// indirect blocks
    pub indirect: u32,
    /// double indirect blocks
    pub db_indirect: u32,
}

impl DiskINode {
    /// A new empty file inode
    pub fn new_file() -> (d: DiskINode)
        ensures
            d.size == 0,
            d.type_ == FileType::File,
            d.nlinks == 0,
            d.blocks == 0,
            forall|i: int| 0 <= i < NDIRECT ==> d.direct[i] == 0,
            d.indirect == 0,
            d.db_indirect == 0,
    {
        DiskINode {
            size: 0,
            type_: FileType::File,
            nlinks: 0,
            blocks: 0,
            direct: [0u32; NDIRECT],
            indirect: 0,
            db_indirect: 0,
        }
    }

    /// A new empty directory inode
    pub fn new_dir() -> (d: DiskINode)
        ensures
            d.size == 0,
            d.type_ == FileType::Dir,
            d.nlinks == 0,
            d.blocks == 0,
            forall|i: int| 0 <= i < NDIRECT ==> d.direct[i] == 0,
            d.indirect == 0,
            d.db_indirect == 0,
    {
        DiskINode {
            size: 0,
            type_: FileType::Dir,
            nlinks: 0,
            blocks: 0,
            direct: [0u32; NDIRECT],
            indirect: 0,
            db_indirect: 0,
        }
    }

    pub fn clone_inode(&self) -> (d: DiskINode)
        ensures
            d == *self,
    {
        DiskINode {
            size: self.size,
            type_: self.type_,
            nlinks: self.nlinks,
            blocks: self.blocks,
            direct: self.direct,
            indirect: self.indirect,
            db_indirect: self.db_indirect,
        }
    }
}

/// A block full of block ids
pub struct IndirectBlock {
    pub entries: [u32; BLK_NENTRY],
}

/// file entry (on disk)
pub struct DiskEntry {
    /// inode number
    pub id: u32,
    /// file name
    pub name: Str256,
}

/// Convert structs to and from their on-disk bytes
pub trait AsBuf: Sized {
    /// The on-disk bytes of the value
    spec fn spec_buf(&self) -> Seq<u8>;

    /// Whether `buf` holds the on-disk bytes of `v`
    spec fn spec_decodes(buf: Seq<u8>, v: Self) -> bool;

    /// The number of on-disk bytes of a value
    spec fn spec_size() -> nat;

    fn as_buf(&self) -> (r: Vec<u8>)
        ensures
            r@ == self.spec_buf(),
            r@.len() == Self::spec_size(),
    ;

    fn from_buf(buf: &[u8]) -> (r: Self)
        requires
            buf@.len() == Self::spec_size(),
        ensures
            Self::spec_decodes(buf@, r),
    ;

    /// Decoding the encoding of a value gives the value back.
    proof fn lemma_round_trip(v: Self)
        ensures
            v.spec_buf().len() == Self::spec_size(),
            Self::spec_decodes(v.spec_buf(), v),
    ;

    /// The bytes of a value determine it.
    proof fn lemma_decodes_unique(buf: Seq<u8>, a: Self, b: Self)
        requires
            Self::spec_decodes(buf, a),
            Self::spec_decodes(buf, b),
        ensures
            a == b,
    ;
}

fn read_array32(buf: &[u8], pos: usize) -> (a: [u8; 32])
    requires
        pos + 32 <= buf@.len(),
    ensures
        a@ == buf@.subrange(pos as int, pos + 32),
{
    let n = buf.len();
    let mut a = [0u8; 32];
    let mut i: usize = 0;
    while i < 32
        invariant
            n == buf@.len(),
            pos + 32 <= buf@.len(),
            i <= 32,
            forall|k: int| 0 <= k < i ==> a@[k] == buf@[pos + k],
        decreases 32 - i,
    {
        a[i] = buf[pos + i];
        i = i + 1;
    }
    assert(a@ =~= buf@.subrange(pos as int, pos + 32));
    a
}

fn read_array256(buf: &[u8], pos: usize) -> (a: [u8; 256])
    requires
        pos + 256 <= buf@.len(),
    ensures
        a@ == buf@.subrange(pos as int, pos + 256),
{
    let n = buf.len();
    let mut a = [0u8; 256];
    let mut i: usize = 0;
    while i < 256
        invariant
            n == buf@.len(),
            pos + 256 <= buf@.len(),
            i <= 256,
            forall|k: int| 0 <= k < i ==> a@[k] == buf@[pos + k],
        decreases 256 - i,
    {
        a[i] = buf[pos + i];
        i = i + 1;
    }
    assert(a@ =~= buf@.subrange(pos as int, pos + 256));
    a
}

fn read_words12(buf: &[u8], pos: usize) -> (a: [u32; NDIRECT])
    requires
        pos + 48 <= buf@.len(),
    ensures
        forall|k: int| 0 <= k < NDIRECT ==> #[trigger] a@[k] == spec_u32_at(buf@, pos + 4 * k),
{
    let n = buf.len();
    let mut a = [0u32; NDIRECT];
    let mut i: usize = 0;
    while i < NDIRECT
        invariant
            n == buf@.len(),
            pos + 48 <= buf@.len(),
            i <= NDIRECT,
            forall|k: int| 0 <= k < i ==> #[trigger] a@[k] == spec_u32_at(buf@, pos + 4 * k),
        decreases NDIRECT - i,
    {
        a[i] = read_u32(buf, pos + 4 * i);
        i = i + 1;
    }
    a
}

fn read_words1024(buf: &[u8]) -> (a: [u32; BLK_NENTRY])
    requires
        buf@.len() == BLKSIZE,
    ensures
        forall|k: int| 0 <= k < BLK_NENTRY ==> #[trigger] a@[k] == spec_u32_at(buf@, 4 * k),
{
    let mut a = [0u32; BLK_NENTRY];
    let mut i: usize = 0;
    while i < BLK_NENTRY
        invariant
            buf@.len() == BLKSIZE,
            i <= BLK_NENTRY,
            forall|k: int| 0 <= k < i ==> #[trigger] a@[k] == spec_u32_at(buf@, 4 * k),
        decreases BLK_NENTRY - i,
    {
        a[i] = read_u32(buf, 4 * i);
        i = i + 1;
    }
    a
}

impl AsBuf for u32 {
    open spec fn spec_buf(&self) -> Seq<u8> {
        spec_u32_to_le_bytes(*self)
    }

    open spec fn spec_decodes(buf: Seq<u8>, v: u32) -> bool {
        buf.len() == 4 && v == spec_u32_at(buf, 0)
    }

    open spec fn spec_size() -> nat {
        4
    }

    fn as_buf(&self) -> (r: Vec<u8>) {
        proof {
            lemma_u32_le_bytes(*self);
        }
        u32_to_le_bytes(*self)
    }

    fn from_buf(buf: &[u8]) -> (r: u32) {
        read_u32(buf, 0)
    }

    proof fn lemma_round_trip(v: u32) {
        lemma_u32_le_bytes(v);
        assert(v.spec_buf().subrange(0, 4) =~= v.spec_buf());
    }

    proof fn lemma_decodes_unique(buf: Seq<u8>, a: u32, b: u32) {
    }
}

impl AsBuf for SuperBlock {
    open spec fn spec_buf(&self) -> Seq<u8> {
        spec_u32_to_le_bytes(self.magic) + spec_u32_to_le_bytes(self.blocks) + spec_u32_to_le_bytes(
            self.unused_blocks,
        ) + self.info.0@
    }

    open spec fn spec_decodes(buf: Seq<u8>, v: SuperBlock) -> bool {
        &&& buf.len() == SUPER_BLOCK_SIZE
        &&& v.magic == spec_u32_at(buf, 0)
        &&& v.blocks == spec_u32_at(buf, 4)
        &&& v.unused_blocks == spec_u32_at(buf, 8)
        &&& v.info.0@ == buf.subrange(12, 44)
    }

    open spec fn spec_size() -> nat {
        SUPER_BLOCK_SIZE as nat
    }

    fn as_buf(&self) -> (r: Vec<u8>) {
        let mut v: Vec<u8> = Vec::new();
        push_u32(&mut v, self.magic);
        push_u32(&mut v, self.blocks);
        push_u32(&mut v, self.unused_blocks);
        extend_bytes(&mut v, self.info.0.as_slice());
        proof {
            lemma_u32_le_bytes(self.magic);
            lemma_u32_le_bytes(self.blocks);
            lemma_u32_le_bytes(self.unused_blocks);
            assert(v@ =~= self.spec_buf());
        }
        v
    }

    fn from_buf(buf: &[u8]) -> (r: SuperBlock) {
        SuperBlock {
            magic: read_u32(buf, 0),
            blocks: read_u32(buf, 4),
            unused_blocks: read_u32(buf, 8),
            info: Str32(read_array32(buf, 12)),
        }
    }

    proof fn lemma_round_trip(v: SuperBlock) {
        lemma_u32_le_bytes(v.magic);
        lemma_u32_le_bytes(v.blocks);
        lemma_u32_le_bytes(v.unused_blocks);
        let b = v.spec_buf();
        assert(b.subrange(0, 4) =~= spec_u32_to_le_bytes(v.magic));
        assert(b.subrange(4, 8) =~= spec_u32_to_le_bytes(v.blocks));
        assert(b.subrange(8, 12) =~= spec_u32_to_le_bytes(v.unused_blocks));
        assert(b.subrange(12, 44) =~= v.info.0@);
    }

    proof fn lemma_decodes_unique(buf: Seq<u8>, a: SuperBlock, b: SuperBlock) {
        assert(a.info.0 =~= b.info.0);
    }
}

impl DiskINode {
    /// The on-disk bytes of the direct block ids
    pub open spec fn spec_direct_bytes(&self) -> Seq<u8> {
        spec_words_to_le_bytes(self.direct@)
    }
}

impl AsBuf for DiskINode {
    open spec fn spec_buf(&self) -> Seq<u8> {
        spec_u32_to_le_bytes(self.size) + spec_u16_to_le_bytes(self.type_.spec_code())
            + spec_u16_to_le_bytes(self.nlinks) + spec_u32_to_le_bytes(self.blocks)
            + self.spec_direct_bytes() + spec_u32_to_le_bytes(self.indirect) + spec_u32_to_le_bytes(
            self.db_indirect,
        )
    }

    open spec fn spec_decodes(buf: Seq<u8>, v: DiskINode) -> bool {
        &&& buf.len() == DISK_INODE_SIZE
        &&& v.size == spec_u32_at(buf, 0)
        &&& v.type_ == FileType::spec_from_code(spec_u16_at(buf, 4))
        &&& v.nlinks == spec_u16_at(buf, 6)
        &&& v.blocks == spec_u32_at(buf, 8)
        &&& forall|k: int| 0 <= k < NDIRECT ==> #[trigger] v.direct@[k] == spec_u32_at(buf, 12 + 4 * k)
        &&& v.indirect == spec_u32_at(buf, 60)
        &&& v.db_indirect == spec_u32_at(buf, 64)
    }

    open spec fn spec_size() -> nat {
        DISK_INODE_SIZE as nat
    }

    fn as_buf(&self) -> (r: Vec<u8>) {
        let mut v: Vec<u8> = Vec::new();
        push_u32(&mut v, self.size);
        push_u16(&mut v, self.type_.code());
        push_u16(&mut v, self.nlinks);
        push_u32(&mut v, self.blocks);
        push_words(&mut v, self.direct.as_slice());
        push_u32(&mut v, self.indirect);
        push_u32(&mut v, self.db_indirect);
        proof {
            lemma_u32_le_bytes(self.size);
            lemma_u16_le_bytes(self.type_.spec_code());
            lemma_u16_le_bytes(self.nlinks);
            lemma_u32_le_bytes(self.blocks);
            lemma_words_to_le_bytes(self.direct@);
            lemma_u32_le_bytes(self.indirect);
            lemma_u32_le_bytes(self.db_indirect);
            assert(v@ =~= self.spec_buf());
        }
        v
    }

    fn from_buf(buf: &[u8]) -> (r: DiskINode) {
        DiskINode {
            size: read_u32(buf, 0),
            type_: FileType::from_code(read_u16(buf, 4)),
            nlinks: read_u16(buf, 6),
            blocks: read_u32(buf, 8),
            direct: read_words12(buf, 12),
            indirect: read_u32(buf, 60),
            db_indirect: read_u32(buf, 64),
        }
    }

    proof fn lemma_round_trip(v: DiskINode) {
        lemma_u32_le_bytes(v.size);
        lemma_u16_le_bytes(v.type_.spec_code());
        lemma_u16_le_bytes(v.nlinks);
        lemma_u32_le_bytes(v.blocks);
        lemma_words_to_le_bytes(v.direct@);
        lemma_u32_le_bytes(v.indirect);
        lemma_u32_le_bytes(v.db_indirect);
        let b = v.spec_buf();
        let d = v.spec_direct_bytes();
        assert(b.subrange(0, 4) =~= spec_u32_to_le_bytes(v.size));
        assert(b.subrange(4, 6) =~= spec_u16_to_le_bytes(v.type_.spec_code()));
        assert(b.subrange(6, 8) =~= spec_u16_to_le_bytes(v.nlinks));
        assert(b.subrange(8, 12) =~= spec_u32_to_le_bytes(v.blocks));
        assert(b.subrange(60, 64) =~= spec_u32_to_le_bytes(v.indirect));
        assert(b.subrange(64, 68) =~= spec_u32_to_le_bytes(v.db_indirect));
        assert(FileType::spec_from_code(v.type_.spec_code()) == v.type_);
        assert forall|k: int| 0 <= k < NDIRECT implies #[trigger] v.direct@[k] == spec_u32_at(
            b,
            12 + 4 * k,
        ) by {
            assert(b.subrange(12 + 4 * k, 12 + 4 * k + 4) =~= d.subrange(4 * k, 4 * k + 4));
            assert(spec_u32_at(d, 4 * k) == v.direct@[k]);
        }
    }

    proof fn lemma_decodes_unique(buf: Seq<u8>, a: DiskINode, b: DiskINode) {
        assert(a.direct =~= b.direct);
    }
}

impl AsBuf for IndirectBlock {
    open spec fn spec_buf(&self) -> Seq<u8> {
        spec_words_to_le_bytes(self.entries@)
    }

    open spec fn spec_decodes(buf: Seq<u8>, v: IndirectBlock) -> bool {
        &&& buf.len() == BLKSIZE
        &&& forall|k: int| 0 <= k < BLK_NENTRY ==> #[trigger] v.entries@[k] == spec_u32_at(buf, 4 * k)
    }

    open spec fn spec_size() -> nat {
        BLKSIZE as nat
    }

    fn as_buf(&self) -> (r: Vec<u8>) {
        let mut v: Vec<u8> = Vec::new();
        push_words(&mut v, self.entries.as_slice());
        proof {
            lemma_words_to_le_bytes(self.entries@);
            assert(v@ =~= self.spec_buf());
        }
        v
    }

    fn from_buf(buf: &[u8]) -> (r: IndirectBlock) {
        IndirectBlock { entries: read_words1024(buf) }
    }

    proof fn lemma_round_trip(v: IndirectBlock) {
        lemma_words_to_le_bytes(v.entries@);
    }

    proof fn lemma_decodes_unique(buf: Seq<u8>, a: IndirectBlock, b: IndirectBlock) {
        assert(a.entries =~= b.entries);
    }
}

impl AsBuf for DiskEntry {
    open spec fn spec_buf(&self) -> Seq<u8> {
        spec_u32_to_le_bytes(self.id) + self.name.0@
    }

    open spec fn spec_decodes(buf: Seq<u8>, v: DiskEntry) -> bool {
        &&& buf.len() == DISK_ENTRY_SIZE
        &&& v.id == spec_u32_at(buf, 0)
        &&& v.name.0@ == buf.subrange(4, 260)
    }

    open spec fn spec_size() -> nat {
        DISK_ENTRY_SIZE as nat
    }

    fn as_buf(&self) -> (r: Vec<u8>) {
        let mut v: Vec<u8> = Vec::new();
        push_u32(&mut v, self.id);
        extend_bytes(&mut v, self.name.0.as_slice());
        proof {
            lemma_u32_le_bytes(self.id);
        }
        v
    }

    fn from_buf(buf: &[u8]) -> (r: DiskEntry) {
        DiskEntry { id: read_u32(buf, 0), name: Str256(read_array256(buf, 4)) }
    }

    proof fn lemma_round_trip(v: DiskEntry) {
        lemma_u32_le_bytes(v.id);
        let b = v.spec_buf();
        assert(b.subrange(0, 4) =~= spec_u32_to_le_bytes(v.id));
        assert(b.subrange(4, 260) =~= v.name.0@);
    }

    proof fn lemma_decodes_unique(buf: Seq<u8>, a: DiskEntry, b: DiskEntry) {
        assert(a.name.0 =~= b.name.0);
    }
}

/// Every on-disk structure fits in one block, and an indirect block fills one exactly.
pub proof fn lemma_struct_sizes()
    ensures
        <SuperBlock as AsBuf>::spec_size() <= BLKSIZE,
        <DiskINode as AsBuf>::spec_size() <= BLKSIZE,
        <DiskEntry as AsBuf>::spec_size() <= BLKSIZE,
        <IndirectBlock as AsBuf>::spec_size() == BLKSIZE,
{
}

} // verus!
