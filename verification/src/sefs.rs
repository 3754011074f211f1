//! SEFS: a file system that keeps the bytes of each inode in a file of its
//! own on a `Storage`, and its superblock, free map and inodes in a metadata
//! file. Inodes in memory are kept in one vector and named by their number.

use vstd::prelude::*;
use crate::bitvec_map::{BlockMap, MAX_MAP_BITS};
use crate::bitset::byte_bit;
use crate::codec::spec_u32_at;
use crate::device::spec_write;
use crate::dirty::Dirty;
use crate::rcore_vfs::{self, FsError, FsInfo, Metadata, Timespec};
use crate::sefs_dev::{
    DevResult, DeviceError, File, SefsMac, SefsUuid, Storage, TimeProvider, UuidProvider, read_direntry,
    write_direntry,
};
use crate::sefs_structs::{
    BLKBITS, BLKN_FREEMAP, BLKN_ROOT, BLKN_SUPER, BLKSIZE, DIRENT_SIZE, DiskINode, FileType, INodeId, MAGIC,
    MAX_FNAME_LEN, METAFILE_NAME, SuperBlock, DISK_INODE_SIZE, SUPER_BLOCK_SIZE,
};
use crate::structs::{AsBuf, DiskEntry, Str256, spec_c_name, spec_zero_padded};
use vstd::string::StringSliceAdditionalSpecFns;

verus! {

/// The inode number in entry `i` of directory bytes `c`
pub open spec fn entry_id(c: Seq<u8>, i: int) -> u32 {
    spec_u32_at(c, DIRENT_SIZE * i)
}

/// The 256-byte name field of entry `i` of directory bytes `c`
pub open spec fn entry_name(c: Seq<u8>, i: int) -> Seq<u8> {
    c.subrange(DIRENT_SIZE * i + 4, DIRENT_SIZE * i + DIRENT_SIZE)
}

/// The bytes of entry `i` of directory bytes `c`
pub open spec fn entry_bytes(c: Seq<u8>, i: int) -> Seq<u8> {
    c.subrange(DIRENT_SIZE * i, DIRENT_SIZE * i + DIRENT_SIZE)
}

/// The first `n` entries of directory bytes `c`, as (inode number, name field) pairs
pub open spec fn entries(c: Seq<u8>, n: int) -> Seq<(u32, Seq<u8>)> {
    Seq::new(n as nat, |i: int| (entry_id(c, i), entry_name(c, i)))
}

/// The first of the entries `es` whose name field holds `name`
pub open spec fn find_named(es: Seq<(u32, Seq<u8>)>, n: int, name: Seq<u8>) -> Option<int>
    decreases n,
{
    if n <= 0 {
        None
    } else {
        match find_named(es, n - 1, name) {
            Some(i) => Some(i),
            None => if spec_c_name(es[n - 1].1) == Some(name) {
                Some(n - 1)
            } else {
                None
            },
        }
    }
}

pub proof fn lemma_find_named(es: Seq<(u32, Seq<u8>)>, n: int, name: Seq<u8>)
    requires
        0 <= n,
    ensures
        find_named(es, n, name) matches Some(i) ==> 0 <= i < n && spec_c_name(es[i].1) == Some(name) && forall|j: int|
            0 <= j < i ==> spec_c_name(#[trigger] es[j].1) != Some(name),
        find_named(es, n, name) is None ==> forall|j: int| 0 <= j < n ==> spec_c_name(#[trigger] es[j].1) != Some(name),
    decreases n,
{
    if n > 0 {
        lemma_find_named(es, n - 1, name);
    }
}

pub proof fn lemma_find_named_mono(es: Seq<(u32, Seq<u8>)>, m: int, n: int, name: Seq<u8>)
    requires
        0 <= m <= n,
        find_named(es, m, name) is Some,
    ensures
        find_named(es, n, name) == find_named(es, m, name),
    decreases n - m,
{
    if m < n {
        lemma_find_named_mono(es, m, n - 1, name);
    }
}

/// Whether a name is found among the first `n` entries depends only on them.
pub proof fn lemma_find_named_prefix(es: Seq<(u32, Seq<u8>)>, es2: Seq<(u32, Seq<u8>)>, n: int, name: Seq<u8>)
    requires
        0 <= n,
        forall|j: int| 0 <= j < n ==> #[trigger] es2[j] == es[j],
    ensures
        find_named(es2, n, name) == find_named(es, n, name),
    decreases n,
{
    if n > 0 {
        lemma_find_named_prefix(es, es2, n - 1, name);
    }
}

/// The entry a directory entry record stands for
pub open spec fn entry_of(e: DiskEntry) -> (u32, Seq<u8>) {
    (e.id, e.name.0@)
}

/// Writing the record of entry `i` changes that entry only and leaves the
/// entries before it where they are.
pub proof fn lemma_write_entry(c: Seq<u8>, n: int, i: int, e: DiskEntry)
    requires
        0 <= i <= n,
        DIRENT_SIZE * n <= c.len(),
    ensures
        ({
            let c2 = spec_write(c, DIRENT_SIZE * i, e.spec_buf());
            let m = if i < n { n } else { n + 1 };
            &&& entries(c2, m) == (if i < n {
                entries(c, n).update(i, entry_of(e))
            } else {
                entries(c, n).push(entry_of(e))
            })
            &&& c2.len() >= DIRENT_SIZE * m
        }),
{
    let c2 = spec_write(c, DIRENT_SIZE * i, e.spec_buf());
    let b = e.spec_buf();
    crate::codec::lemma_u32_le_bytes(e.id);
    assert(b.len() == DIRENT_SIZE);
    let m = if i < n { n } else { n + 1 };
    assert(DIRENT_SIZE * i + DIRENT_SIZE <= DIRENT_SIZE * m) by (nonlinear_arith)
        requires
            i < m,
    ;
    let target = if i < n {
        entries(c, n).update(i, entry_of(e))
    } else {
        entries(c, n).push(entry_of(e))
    };
    assert forall|j: int| 0 <= j < m implies #[trigger] entries(c2, m)[j] == target[j] by {
        if j == i {
            assert(c2.subrange(DIRENT_SIZE * i, DIRENT_SIZE * i + 4) =~= spec_u32_to_le_bytes_of(e.id));
            assert(entry_name(c2, j) =~= e.name.0@);
        } else {
            assert(DIRENT_SIZE * j + DIRENT_SIZE <= DIRENT_SIZE * i || DIRENT_SIZE * i + DIRENT_SIZE <= DIRENT_SIZE * j) by (nonlinear_arith)
                requires
                    j != i,
            ;
            assert(DIRENT_SIZE * j + DIRENT_SIZE <= DIRENT_SIZE * n) by (nonlinear_arith)
                requires
                    j < n,
            ;
            assert(c2.subrange(DIRENT_SIZE * j, DIRENT_SIZE * j + 4) =~= c.subrange(DIRENT_SIZE * j, DIRENT_SIZE * j + 4));
            assert(entry_name(c2, j) =~= entry_name(c, j));
        }
    }
    assert(entries(c2, m) =~= target);
}

/// Bytes that agree on the first `n` entries hold the same first `n` entries.
pub proof fn lemma_entries_kept(c: Seq<u8>, c2: Seq<u8>, n: int)
    requires
        0 <= n,
        DIRENT_SIZE * n <= c.len(),
        DIRENT_SIZE * n <= c2.len(),
        forall|x: int| 0 <= x < DIRENT_SIZE * n ==> #[trigger] c2[x] == c[x],
    ensures
        entries(c2, n) == entries(c, n),
{
    assert forall|j: int| 0 <= j < n implies #[trigger] entries(c2, n)[j] == entries(c, n)[j] by {
        assert(DIRENT_SIZE * j + DIRENT_SIZE <= DIRENT_SIZE * n) by (nonlinear_arith)
            requires
                j < n,
        ;
        assert(c2.subrange(DIRENT_SIZE * j, DIRENT_SIZE * j + 4) =~= c.subrange(DIRENT_SIZE * j, DIRENT_SIZE * j + 4));
        assert(entry_name(c2, j) =~= entry_name(c, j));
    }
    assert(entries(c2, n) =~= entries(c, n));
}

/// A record decoded from the bytes of entry `i` holds that entry.
pub proof fn lemma_decoded_entry(c: Seq<u8>, i: int, e: DiskEntry)
    requires
        0 <= i,
        DIRENT_SIZE * i + DIRENT_SIZE <= c.len(),
        DiskEntry::spec_decodes(entry_bytes(c, i), e),
    ensures
        entry_of(e) == (entry_id(c, i), entry_name(c, i)),
{
    let b = entry_bytes(c, i);
    assert(b.subrange(0, 4) =~= c.subrange(DIRENT_SIZE * i, DIRENT_SIZE * i + 4));
    assert(b.subrange(4, 260) =~= entry_name(c, i));
}

/// The name "."
pub open spec fn dot() -> Seq<u8> {
    seq![46u8]
}

/// The name ".."
pub open spec fn dotdot() -> Seq<u8> {
    seq![46u8, 46u8]
}

/// The little-endian bytes of `x`
pub open spec fn spec_u32_to_le_bytes_of(x: u32) -> Seq<u8> {
    vstd::bytes::spec_u32_to_le_bytes(x)
}

/// The number of set bits of `s`
pub open spec fn count_set(s: Seq<bool>) -> nat
    decreases s.len(),
{
    if s.len() == 0 {
        0
    } else {
        count_set(s.drop_last()) + if s.last() {
            1nat
        } else {
            0nat
        }
    }
}

pub proof fn lemma_count_set_bound(s: Seq<bool>)
    ensures
        count_set(s) <= s.len(),
    decreases s.len(),
{
    if s.len() > 0 {
        lemma_count_set_bound(s.drop_last());
    }
}

/// Changing one bit changes the count by at most one, as the bit went.
pub proof fn lemma_count_set_update(s: Seq<bool>, i: int, v: bool)
    requires
        0 <= i < s.len(),
    ensures
        count_set(s.update(i, v)) + (if s[i] { 1int } else { 0int }) == count_set(s) + (if v { 1int } else { 0int }),
    decreases s.len(),
{
    let t = s.update(i, v);
    if i == s.len() - 1 {
        assert(t.drop_last() =~= s.drop_last());
    } else {
        lemma_count_set_update(s.drop_last(), i, v);
        assert(t.drop_last() =~= s.drop_last().update(i, v));
    }
}

/// Appending `n` copies of a bit adds `n` to the count when the bit is set.
pub proof fn lemma_count_set_extend(s: Seq<bool>, v: bool, n: nat)
    ensures
        count_set(s + Seq::new(n, |i: int| v)) == count_set(s) + (if v { n } else { 0nat }),
    decreases n,
{
    if n > 0 {
        let t = s + Seq::new(n, |i: int| v);
        assert(t.drop_last() =~= s + Seq::new((n - 1) as nat, |i: int| v));
        lemma_count_set_extend(s, v, (n - 1) as nat);
    } else {
        assert(s + Seq::new(n, |i: int| v) =~= s);
    }
}

/// A set bit is counted.
pub proof fn lemma_count_set_pos(s: Seq<bool>, i: int)
    requires
        0 <= i < s.len(),
        s[i],
    ensures
        count_set(s) >= 1,
{
    lemma_count_set_update(s, i, false);
}

/// The number of set bits of a map
fn count_free(map: &BlockMap) -> (n: usize)
    requires
        map@.len() <= MAX_MAP_BITS,
    ensures
        n == count_set(map@),
{
    let len = map.len();
    let mut n: usize = 0;
    let mut i: usize = 0;
    while i < len
        invariant
            len == map@.len(),
            len <= MAX_MAP_BITS,
            i <= len,
            n == count_set(map@.subrange(0, i as int)),
        decreases len - i,
    {
        proof {
            let t = map@.subrange(0, i + 1);
            assert(t.drop_last() =~= map@.subrange(0, i as int));
            lemma_count_set_bound(map@.subrange(0, i as int));
        }
        if map.get(i) {
            n = n + 1;
        }
        i = i + 1;
    }
    assert(map@.subrange(0, len as int) =~= map@);
    n
}

/// inode for SEFS
pub struct INodeImpl<F: File> {
    /// inode number
    id: INodeId,
    /// on-disk inode
    disk_inode: Dirty<DiskINode>,
    /// back file
    file: F,
}

/// Simple Encrypted File System
pub struct SEFS<S: Storage, T: TimeProvider, U: UuidProvider> {
    /// on-disk superblock
    super_block: Dirty<SuperBlock>,
    /// blocks in use are marked 0
    free_map: Dirty<BlockMap>,
    /// inodes in memory
    inodes: Vec<INodeImpl<S::F>>,
    /// device
    device: S,
    /// metadata file
    meta_file: S::F,
    /// Time provider
    time_provider: T,
    /// uuid provider
    uuid_provider: U,
}

/// The block of the free map of group `group_id`
pub open spec fn freemap_block_of_group(group_id: int) -> int {
    BLKBITS * group_id + BLKN_FREEMAP
}

/// Whether block `b` of the metadata file holds the superblock or the free
/// map of a group, and so no inode
pub open spec fn is_meta_block(b: int) -> bool {
    b == BLKN_SUPER || b % (BLKBITS as int) == BLKN_FREEMAP
}

/// Whether block `b` holds the superblock or the free map of a group
fn is_meta_block_exec(b: usize) -> (r: bool)
    ensures
        r == is_meta_block(b as int),
{
    b == BLKN_SUPER || b % BLKBITS == BLKN_FREEMAP
}

/// The metadata of an on-disk inode with number `id`
pub open spec fn spec_metadata(id: int, di: DiskINode) -> Metadata {
    Metadata {
        dev: 0,
        inode: id as usize,
        size: if di.type_ == FileType::Dir { di.blocks as usize } else { di.size as usize },
        blk_size: 0x1000,
        blocks: di.blocks as usize,
        atime: Timespec { sec: di.atime as i64, nsec: 0 },
        mtime: Timespec { sec: di.mtime as i64, nsec: 0 },
        ctime: Timespec { sec: di.ctime as i64, nsec: 0 },
        type_: spec_vfs_type(di.type_),
        mode: di.mode,
        nlinks: di.nlinks as usize,
        uid: di.uid as usize,
        gid: di.gid as usize,
        rdev: 0,
    }
}

/// The VFS type of an on-disk type
pub open spec fn spec_vfs_type(t: FileType) -> rcore_vfs::FileType {
    match t {
        FileType::File => rcore_vfs::FileType::File,
        FileType::Dir => rcore_vfs::FileType::Dir,
        _ => rcore_vfs::FileType::SymLink,
    }
}

/// The type that `metadata` reports is the type kept on disk: a VFS type that
/// `create_child` keeps on disk comes back unchanged, and each on-disk type
/// (file, directory, symbolic link) is reported as itself.
pub proof fn law_type_round_trip(v: rcore_vfs::FileType, t: FileType)
    ensures
        spec_disk_type(v) matches Some(d) ==> spec_vfs_type(d) == v,
        t != FileType::Invalid ==> spec_disk_type(spec_vfs_type(t)) == Some(t),
{
}

/// An inode created with VFS type `v` reports `v` in its metadata.
pub proof fn law_metadata_reports_created_type(id: int, di: DiskINode, v: rcore_vfs::FileType)
    requires
        spec_disk_type(v) == Some(di.type_),
    ensures
        spec_metadata(id, di).type_ == v,
{
}

/// Whether an on-disk inode has a type: file, directory or symbolic link
pub open spec fn typed(di: DiskINode) -> bool {
    di.type_ == FileType::File || di.type_ == FileType::Dir || di.type_ == FileType::SymLink
}

/// Whether the bytes of block `id` of metadata `meta` hold on-disk inode `di`
pub open spec fn loaded(meta: Seq<u8>, id: int, di: DiskINode) -> bool {
    DiskINode::spec_decodes(meta.subrange(id * BLKSIZE, id * BLKSIZE + DISK_INODE_SIZE), di)
}

/// The on-disk type kept for a VFS type, if there is one
pub open spec fn spec_disk_type(t: rcore_vfs::FileType) -> Option<FileType> {
    match t {
        rcore_vfs::FileType::File => Some(FileType::File),
        rcore_vfs::FileType::Dir => Some(FileType::Dir),
        rcore_vfs::FileType::SymLink => Some(FileType::SymLink),
        _ => None,
    }
}

/// The position of the first entry of `es` named `name`
pub open spec fn lookup_in(es: Seq<(u32, Seq<u8>)>, name: Seq<u8>) -> Option<int> {
    find_named(es, es.len() as int, name)
}

/// Whether one more entry can be appended to a directory with `blocks` entries
pub open spec fn can_append(blocks: u32) -> bool {
    blocks < u32::MAX && DIRENT_SIZE * (blocks + 2) <= usize::MAX
}

/// The bytes of the free map of `groups` groups in metadata `meta`: the
/// block of the free map of each group, in order
pub open spec fn freemap_bytes(meta: Seq<u8>, groups: int) -> Seq<u8> {
    Seq::new(
        (groups * BLKSIZE) as nat,
        |j: int| meta[BLKSIZE * freemap_block_of_group(j / BLKSIZE as int) + j % BLKSIZE as int],
    )
}

/// Where byte `j` of the free map lies in the metadata file
pub open spec fn freemap_pos(j: int) -> int {
    BLKSIZE * freemap_block_of_group(j / BLKSIZE as int) + j % BLKSIZE as int
}

/// The bytes of the free map of group `i` lie in its own block, apart from
/// those of the groups before it and from the superblock.
proof fn lemma_freemap_pos(j: int, i: int)
    requires
        0 <= j < (i + 1) * BLKSIZE,
        0 <= i,
    ensures
        j < i * BLKSIZE ==> !(BLKSIZE * freemap_block_of_group(i) <= freemap_pos(j) < BLKSIZE * freemap_block_of_group(i) + BLKSIZE),
        j >= i * BLKSIZE ==> freemap_pos(j) == BLKSIZE * freemap_block_of_group(i) + (j - BLKSIZE * i),
        freemap_pos(j) >= BLKSIZE,
        freemap_pos(j) < BLKSIZE * freemap_block_of_group(i) + BLKSIZE,
{
    let h = j / BLKSIZE as int;
    assert(0 <= j % (BLKSIZE as int) < BLKSIZE);
    assert(j == BLKSIZE * h + j % (BLKSIZE as int)) by (nonlinear_arith)
        requires
            h == j / BLKSIZE as int,
            BLKSIZE == 128,
    ;
    assert(0 <= h <= i) by (nonlinear_arith)
        requires
            h == j / BLKSIZE as int,
            0 <= j < (i + 1) * BLKSIZE,
            BLKSIZE == 128,
    ;
    if j < i * BLKSIZE {
        assert(h < i) by (nonlinear_arith)
            requires
                j == BLKSIZE * h + j % (BLKSIZE as int),
                0 <= j % (BLKSIZE as int),
                j < i * BLKSIZE,
                BLKSIZE == 128,
        ;
    } else {
        assert(h == i) by (nonlinear_arith)
            requires
                j == BLKSIZE * h + j % (BLKSIZE as int),
                j % (BLKSIZE as int) < BLKSIZE,
                j >= i * BLKSIZE,
                h <= i,
                BLKSIZE == 128,
        ;
    }
}

/// A byte in one block lies outside every other block.
proof fn lemma_other_block(p: int, a: int, b: int)
    requires
        a != b,
        BLKSIZE * a <= p < BLKSIZE * a + BLKSIZE,
    ensures
        !(BLKSIZE * b <= p < BLKSIZE * b + BLKSIZE),
{
    if b > a {
        assert(BLKSIZE * b >= BLKSIZE * a + BLKSIZE) by (nonlinear_arith)
            requires
                b >= a + 1,
        ;
    } else {
        assert(BLKSIZE * b + BLKSIZE <= BLKSIZE * a) by (nonlinear_arith)
            requires
                b + 1 <= a,
        ;
    }
}

/// Byte `j` of the free map lies in the block of the free map of its group.
proof fn lemma_freemap_block(j: int)
    requires
        0 <= j,
    ensures
        BLKSIZE * freemap_block_of_group(j / BLKSIZE as int) <= freemap_pos(j) < BLKSIZE * freemap_block_of_group(j / BLKSIZE as int)
            + BLKSIZE,
        is_meta_block(freemap_block_of_group(j / BLKSIZE as int)),
{
    let h = j / BLKSIZE as int;
    assert(h >= 0);
    assert((BLKBITS * h + BLKN_FREEMAP) % (BLKBITS as int) == BLKN_FREEMAP) by (nonlinear_arith)
        requires
            h >= 0,
            BLKBITS == 1024,
            BLKN_FREEMAP == 1,
    ;
}

/// Whether the bit of each block in `bits` is read from `bytes`, most
/// significant bit of each byte first
pub open spec fn bits_of_bytes(bits: Seq<bool>, bytes: Seq<u8>) -> bool {
    &&& bits.len() == bytes.len() * 8
    &&& forall|i: int| 0 <= i < bits.len() ==> #[trigger] bits[i] == byte_bit(bytes[i / 8], 7 - i % 8)
}

/// The bits of the bytes `bytes`, the most significant bit of each byte first
pub open spec fn bits_of(bytes: Seq<u8>) -> Seq<bool> {
    Seq::new(bytes.len() * 8, |i: int| byte_bit(bytes[i / 8], 7 - i % 8))
}

/// The number of groups that the superblock stored in metadata `m` counts
pub open spec fn meta_groups(m: Seq<u8>) -> int {
    spec_u32_at(m.subrange(0, SUPER_BLOCK_SIZE as int), 12) as int
}

/// Whether the superblock stored in metadata `m` carries the magic number, at
/// least one group and fewer than a map can hold, and a block count of whole groups
pub open spec fn meta_sb_ok(m: Seq<u8>) -> bool {
    let sb = m.subrange(0, SUPER_BLOCK_SIZE as int);
    &&& spec_u32_at(sb, 0) == MAGIC
    &&& 0 < meta_groups(m) < MAX_MAP_BITS / BLKBITS
    &&& spec_u32_at(sb, 4) == meta_groups(m) * BLKBITS
}

/// Whether metadata `m` holds the free map block of every group
pub open spec fn meta_fits(m: Seq<u8>) -> bool {
    forall|g: int| 0 <= g < meta_groups(m) ==> #[trigger] freemap_block_of_group(g) * BLKSIZE + BLKSIZE <= m.len()
}

/// Whether the free map stored in metadata `m` counts as many free blocks as its
/// superblock and marks free neither the superblock nor a block of a free map
pub open spec fn meta_map_ok(m: Seq<u8>) -> bool {
    let bits = bits_of(freemap_bytes(m, meta_groups(m)));
    &&& count_set(bits) == spec_u32_at(m.subrange(0, SUPER_BLOCK_SIZE as int), 8)
    &&& forall|b: int| 0 <= b < bits.len() && is_meta_block(b) ==> !#[trigger] bits[b]
}

/// Whether metadata `m` holds a file system that `open_meta` accepts
pub open spec fn meta_image_ok(m: Seq<u8>) -> bool {
    &&& SUPER_BLOCK_SIZE <= m.len()
    &&& meta_sb_ok(m)
    &&& meta_fits(m)
    &&& meta_map_ok(m)
}

/// Whether the entries of a directory with `blocks` entries can be addressed
pub open spec fn addressable(blocks: u32) -> bool {
    DIRENT_SIZE * (blocks + 1) <= usize::MAX
}

impl<S: Storage, T: TimeProvider, U: UuidProvider> SEFS<S, T, U> {
    /// The number of inodes in memory
    pub closed spec fn ncached(&self) -> int {
        self.inodes@.len() as int
    }

    /// The number of the `k`-th inode in memory
    pub closed spec fn cached_id(&self, k: int) -> int {
        self.inodes@[k].id as int
    }

    /// The on-disk inode of the `k`-th inode in memory
    pub closed spec fn cached_inode(&self, k: int) -> DiskINode {
        self.inodes@[k].disk_inode.value()
    }

    /// The bytes of the file of the `k`-th inode in memory
    pub closed spec fn cached_bytes(&self, k: int) -> Seq<u8> {
        self.inodes@[k].file.content()
    }

    /// Whether the file of the `k`-th inode in memory never fails
    pub closed spec fn cached_reliable(&self, k: int) -> bool {
        self.inodes@[k].file.reliable()
    }

    /// The superblock in memory
    pub closed spec fn super_block(&self) -> SuperBlock {
        self.super_block.value()
    }

    /// The bit of each block: set when the block is free
    pub closed spec fn free_bits(&self) -> Seq<bool> {
        self.free_map.value()@
    }

    /// The bytes of the metadata file
    pub closed spec fn meta(&self) -> Seq<u8> {
        self.meta_file.content()
    }

    /// Whether the metadata file never fails
    pub closed spec fn meta_reliable(&self) -> bool {
        self.meta_file.reliable()
    }

    pub open spec fn is_cached(&self, id: int) -> bool {
        exists|k: int| 0 <= k < self.ncached() && self.cached_id(k) == id
    }

    /// The slot in memory of inode `id`
    pub closed spec fn slot(&self, id: int) -> int {
        choose|k: int| 0 <= k < self.ncached() && self.cached_id(k) == id
    }

    /// The on-disk inode of inode `id` in memory
    pub open spec fn inode(&self, id: int) -> DiskINode {
        self.cached_inode(self.slot(id))
    }

    /// The bytes of the file of inode `id` in memory
    pub open spec fn bytes(&self, id: int) -> Seq<u8> {
        self.cached_bytes(self.slot(id))
    }

    /// The entries of directory `id`
    pub open spec fn dir_entries(&self, id: int) -> Seq<(u32, Seq<u8>)> {
        entries(self.bytes(id), self.inode(id).blocks as int)
    }

    /// The invariant: the superblock counts the blocks and free blocks of the
    /// free map, which has a group of bits for each group of blocks; the
    /// inodes in memory have distinct numbers, in use.
    pub closed spec fn wf(&self) -> bool {
        let sb = self.super_block.value();
        let bits = self.free_map.value()@;
        &&& sb.groups >= 1
        &&& bits.len() == sb.blocks
        &&& sb.blocks == sb.groups * BLKBITS
        &&& bits.len() <= MAX_MAP_BITS
        &&& sb.unused_blocks == count_set(bits)
        &&& forall|b: int| 0 <= b < bits.len() && is_meta_block(b) ==> !#[trigger] bits[b]
        &&& forall|k: int| 0 <= k < self.inodes@.len() ==> !is_meta_block((#[trigger] self.inodes@[k]).id as int)
        &&& forall|k: int| 0 <= k < self.inodes@.len() ==> (#[trigger] self.inodes@[k]).id < bits.len() && !bits[self.inodes@[k].id as int]
        &&& forall|k: int| 0 <= k < self.inodes@.len() ==> typed((#[trigger] self.inodes@[k]).disk_inode.value())
        &&& forall|k: int| 0 <= k < self.inodes@.len() ==> addressable((#[trigger] self.inodes@[k]).disk_inode.value().blocks)
        &&& forall|k: int|
            0 <= k < self.inodes@.len() && (#[trigger] self.inodes@[k]).disk_inode.value().type_ == FileType::Dir ==> DIRENT_SIZE
                * self.inodes@[k].disk_inode.value().blocks <= self.inodes@[k].file.content().len()
        &&& forall|k1: int, k2: int|
            0 <= k1 < self.inodes@.len() && 0 <= k2 < self.inodes@.len() && k1 != k2 ==> (#[trigger] self.inodes@[k1]).id
                != (#[trigger] self.inodes@[k2]).id
    }

    proof fn lemma_slot(&self, k: int)
        requires
            self.wf(),
            0 <= k < self.ncached(),
        ensures
            self.slot(self.cached_id(k)) == k,
            self.is_cached(self.cached_id(k)),
            self.inode(self.cached_id(k)) == self.cached_inode(k),
            self.bytes(self.cached_id(k)) == self.cached_bytes(k),
            typed(self.cached_inode(k)),
            addressable(self.cached_inode(k).blocks),
            self.cached_inode(k).type_ == FileType::Dir ==> DIRENT_SIZE * self.cached_inode(k).blocks <= self.cached_bytes(k).len(),
            self.cached_id(k) < self.free_bits().len(),
            !self.free_bits()[self.cached_id(k)],
    {
        assert(self.is_cached(self.cached_id(k)));
        let j = self.slot(self.cached_id(k));
        if j != k {
            assert(self.inodes@[j].id != self.inodes@[k].id);
        }
        assert(typed(self.inodes@[k].disk_inode.value()));
        assert(addressable(self.inodes@[k].disk_inode.value().blocks));
        if self.inodes@[k].disk_inode.value().type_ == FileType::Dir {
            assert(DIRENT_SIZE * self.inodes@[k].disk_inode.value().blocks <= self.inodes@[k].file.content().len());
        }
    }

    /// Whether inode `id` is in memory with the on-disk inode and the bytes it had in `prev`
    pub open spec fn kept(&self, prev: &Self, id: int) -> bool {
        &&& self.is_cached(id)
        &&& self.inode(id) == prev.inode(id)
        &&& self.bytes(id) == prev.bytes(id)
    }

    /// Whether `self` holds the inodes of `prev`, with inode `k` changed at most
    /// in its on-disk inode and file, and the same superblock, free map and metadata file
    pub closed spec fn same_but(&self, prev: &Self, k: int) -> bool {
        &&& self.inodes@.len() == prev.inodes@.len()
        &&& forall|j: int| 0 <= j < prev.inodes@.len() && j != k ==> self.inodes@[j] == prev.inodes@[j]
        &&& self.inodes@[k].id == prev.inodes@[k].id
        &&& self.super_block == prev.super_block
        &&& self.free_map == prev.free_map
        &&& self.meta_file == prev.meta_file
        &&& self.device == prev.device
        &&& self.time_provider == prev.time_provider
        &&& self.uuid_provider == prev.uuid_provider
    }

    /// A change of inode `k` that keeps its type valid, its entries
    /// addressable and held by its file keeps the invariant; every other inode
    /// in memory keeps its on-disk inode and bytes.
    proof fn lemma_same_but(&self, prev: &Self, k: int)
        requires
            prev.wf(),
            0 <= k < prev.ncached(),
            self.same_but(prev, k),
            typed(self.cached_inode(k)),
            addressable(self.cached_inode(k).blocks),
            self.cached_inode(k).type_ == FileType::Dir ==> DIRENT_SIZE * self.cached_inode(k).blocks <= self.cached_bytes(k).len(),
        ensures
            self.wf(),
            self.ncached() == prev.ncached(),
            self.cached_id(k) == prev.cached_id(k),
            forall|j: int| 0 <= j < prev.ncached() ==> #[trigger] self.cached_id(j) == prev.cached_id(j),
            self.super_block() == prev.super_block(),
            self.free_bits() == prev.free_bits(),
            self.meta() == prev.meta(),
            self.meta_reliable() == prev.meta_reliable(),
            forall|id: int| prev.is_cached(id) && id != prev.cached_id(k) ==> #[trigger] self.kept(prev, id),
            self.is_cached(prev.cached_id(k)),
            self.slot(prev.cached_id(k)) == k,
            self.inode(prev.cached_id(k)) == self.cached_inode(k),
            self.bytes(prev.cached_id(k)) == self.cached_bytes(k),
    {
        assert forall|j: int| 0 <= j < self.inodes@.len() implies (#[trigger] self.inodes@[j]).id < self.free_map.value()@.len()
            && !self.free_map.value()@[self.inodes@[j].id as int] by {
            assert(prev.inodes@[j].id < prev.free_map.value()@.len());
        }
        assert forall|j: int| 0 <= j < self.inodes@.len() implies typed((#[trigger] self.inodes@[j]).disk_inode.value()) by {
            if j != k {
                assert(typed(prev.inodes@[j].disk_inode.value()));
            }
        }
        assert forall|j: int| 0 <= j < self.inodes@.len() implies addressable((#[trigger] self.inodes@[j]).disk_inode.value().blocks) by {
            if j != k {
                assert(addressable(prev.inodes@[j].disk_inode.value().blocks));
            }
        }
        assert forall|j: int|
            0 <= j < self.inodes@.len() && (#[trigger] self.inodes@[j]).disk_inode.value().type_ == FileType::Dir implies DIRENT_SIZE
                * self.inodes@[j].disk_inode.value().blocks <= self.inodes@[j].file.content().len() by {
            if j != k {
                assert(prev.inodes@[j] == self.inodes@[j]);
            }
        }
        assert forall|k1: int, k2: int|
            0 <= k1 < self.inodes@.len() && 0 <= k2 < self.inodes@.len() && k1 != k2 implies (#[trigger] self.inodes@[k1]).id
                != (#[trigger] self.inodes@[k2]).id by {
            assert(prev.inodes@[k1].id != prev.inodes@[k2].id);
        }
        assert forall|j: int| 0 <= j < prev.ncached() implies #[trigger] self.cached_id(j) == prev.cached_id(j) by {
            if j != k {
                assert(self.inodes@[j] == prev.inodes@[j]);
            }
        }
        assert forall|id: int| prev.is_cached(id) && id != prev.cached_id(k) implies #[trigger] self.kept(prev, id) by {
            let j = choose|j: int| 0 <= j < prev.ncached() && prev.cached_id(j) == id;
            prev.lemma_slot(j);
            assert(self.inodes@[j] == prev.inodes@[j]);
            self.lemma_slot(j);
        }
        self.lemma_slot(k);
    }

    /// Whether the storage creates every file in full, and those files never fail
    pub closed spec fn storage_reliable(&self) -> bool {
        self.device.reliable()
    }

    /// Whether the file of inode `id` in memory never fails
    pub open spec fn file_reliable(&self, id: int) -> bool {
        self.cached_reliable(self.slot(id))
    }

    /// Whether `self` and `prev` hold the same inodes, bytes, superblock, free map and metadata
    pub open spec fn same_view(&self, prev: &Self) -> bool {
        &&& self.ncached() == prev.ncached()
        &&& forall|k: int| 0 <= k < prev.ncached() ==> #[trigger] self.cached_id(k) == prev.cached_id(k)
            && self.cached_inode(k) == prev.cached_inode(k) && self.cached_bytes(k) == prev.cached_bytes(k)
            && self.cached_reliable(k) == prev.cached_reliable(k)
        &&& self.super_block() == prev.super_block()
        &&& self.free_bits() == prev.free_bits()
        &&& self.meta() == prev.meta()
        &&& self.meta_reliable() == prev.meta_reliable()
    }

    proof fn lemma_same_view_k(&self, prev: &Self, k: int)
        requires
            prev.wf(),
            0 <= k < prev.ncached(),
            self.same_but(prev, k),
            self.cached_inode(k) == prev.cached_inode(k),
            self.cached_bytes(k) == prev.cached_bytes(k),
            self.cached_reliable(k) == prev.cached_reliable(k),
        ensures
            self.same_view(prev),
    {
        assert forall|j: int| 0 <= j < prev.ncached() implies #[trigger] self.cached_id(j) == prev.cached_id(j)
            && self.cached_inode(j) == prev.cached_inode(j) && self.cached_bytes(j) == prev.cached_bytes(j)
            && self.cached_reliable(j) == prev.cached_reliable(j) by {
            if j != k {
                assert(self.inodes@[j] == prev.inodes@[j]);
            }
        }
    }

    /// Whether `self` holds the inodes of `prev` with the same numbers, on-disk
    /// inodes, bytes and superblock, free map and metadata, but inode `k`
    pub open spec fn view_but(&self, prev: &Self, k: int) -> bool {
        &&& self.ncached() == prev.ncached()
        &&& forall|j: int| 0 <= j < prev.ncached() ==> #[trigger] self.cached_id(j) == prev.cached_id(j)
        &&& forall|j: int| 0 <= j < prev.ncached() && j != k ==> #[trigger] self.cached_inode(j) == prev.cached_inode(j)
            && self.cached_bytes(j) == prev.cached_bytes(j) && self.cached_reliable(j) == prev.cached_reliable(j)
        &&& self.super_block() == prev.super_block()
        &&& self.free_bits() == prev.free_bits()
        &&& self.meta() == prev.meta()
        &&& self.meta_reliable() == prev.meta_reliable()
    }

    proof fn lemma_view_but(&self, prev: &Self, k: int)
        requires
            prev.wf(),
            0 <= k < prev.ncached(),
            self.same_but(prev, k),
        ensures
            self.view_but(prev, k),
            self.cached_reliable(k) == self.inodes@[k].file.reliable(),
    {
        assert forall|j: int| 0 <= j < prev.ncached() implies #[trigger] self.cached_id(j) == prev.cached_id(j) by {
            if j != k {
                assert(self.inodes@[j] == prev.inodes@[j]);
            }
        }
        assert forall|j: int| 0 <= j < prev.ncached() && j != k implies #[trigger] self.cached_inode(j) == prev.cached_inode(j)
            && self.cached_bytes(j) == prev.cached_bytes(j) && self.cached_reliable(j) == prev.cached_reliable(j) by {
            assert(self.inodes@[j] == prev.inodes@[j]);
        }
    }

    proof fn lemma_view_but_trans(&self, mid: &Self, prev: &Self, k: int)
        requires
            self.view_but(mid, k),
            mid.view_but(prev, k),
        ensures
            self.view_but(prev, k),
    {
        assert forall|j: int| 0 <= j < prev.ncached() implies #[trigger] self.cached_id(j) == prev.cached_id(j) by {
            assert(mid.cached_id(j) == prev.cached_id(j));
        }
        assert forall|j: int| 0 <= j < prev.ncached() && j != k implies #[trigger] self.cached_inode(j) == prev.cached_inode(j)
            && self.cached_bytes(j) == prev.cached_bytes(j) && self.cached_reliable(j) == prev.cached_reliable(j) by {
            assert(mid.cached_inode(j) == prev.cached_inode(j));
        }
    }

    /// Find the slot of an inode in memory
    fn slot_of(&self, id: INodeId) -> (r: Option<usize>)
        ensures
            r matches Some(k) ==> k < self.ncached() && self.cached_id(k as int) == id,
            r is None ==> !self.is_cached(id as int),
    {
        let mut k: usize = 0;
        while k < self.inodes.len()
            invariant
                k <= self.inodes@.len(),
                forall|j: int| 0 <= j < k ==> self.cached_id(j) != id,
            decreases self.inodes@.len() - k,
        {
            if self.inodes[k].id == id {
                return Some(k);
            }
            k = k + 1;
        }
        None
    }

    /// The slot of an inode in memory
    fn slot_in_memory(&self, id: INodeId) -> (k: usize)
        requires
            self.wf(),
            self.is_cached(id as int),
        ensures
            k < self.ncached(),
            k == self.slot(id as int),
            self.cached_id(k as int) == id,
            self.cached_inode(k as int) == self.inode(id as int),
            self.cached_bytes(k as int) == self.bytes(id as int),
    {
        match self.slot_of(id) {
            Some(k) => {
                proof {
                    self.lemma_slot(k as int);
                }
                k
            },
            None => {
                proof {
                    assert(false);
                }
                0
            },
        }
    }

    fn get_freemap_block_id_of_group(group_id: usize) -> (b: usize)
        requires
            BLKBITS * group_id + BLKN_FREEMAP <= usize::MAX,
        ensures
            b == freemap_block_of_group(group_id as int),
    {
        BLKBITS * group_id + BLKN_FREEMAP
    }

    /// Allocate a block, return block id. When no block is free, a new group
    /// of blocks is added (its first block holds its free map) and the metadata
    /// file grows to hold it.
    fn alloc_block(&mut self) -> (r: Result<usize, FsError>)
        requires
            old(self).wf(),
        ensures
            final(self).storage_reliable() == old(self).storage_reliable(),
            final(self).wf(),
            final(self).inodes == old(self).inodes,
            final(self).super_block().magic == old(self).super_block().magic,
            final(self).meta_reliable() == old(self).meta_reliable(),
            r matches Ok(x) ==> {
                &&& x < final(self).free_bits().len()
                &&& !final(self).free_bits()[x as int]
                &&& !is_meta_block(x as int)
                &&& x < old(self).free_bits().len() ==> old(self).free_bits()[x as int]
                &&& forall|j: int| 0 <= j < final(self).free_bits().len() && j != x && j < old(self).free_bits().len()
                    ==> #[trigger] final(self).free_bits()[j] == old(self).free_bits()[j]
                &&& old(self).free_bits().len() <= final(self).free_bits().len()
                &&& forall|j: int| 0 <= j < x && j < old(self).free_bits().len() ==> !#[trigger] old(self).free_bits()[j]
                &&& x < old(self).free_bits().len() ==> final(self).free_bits() == old(self).free_bits().update(x as int, false)
                    && final(self).super_block() == (SuperBlock { unused_blocks: (old(self).super_block().unused_blocks - 1) as u32, ..old(self).super_block() })
            },
            r matches Ok(x) ==> (x >= old(self).free_bits().len() ==> {
                &&& x == old(self).free_bits().len()
                &&& final(self).free_bits() == old(self).free_bits() + Seq::new(BLKBITS as nat, |j: int| j >= 2)
                &&& final(self).super_block() == (SuperBlock {
                    blocks: (old(self).super_block().blocks + BLKBITS) as u32,
                    groups: (old(self).super_block().groups + 1) as u32,
                    unused_blocks: (old(self).super_block().unused_blocks + BLKBITS - 2) as u32,
                    ..old(self).super_block()
                })
            }),
            r is Err ==> r == Err::<usize, FsError>(FsError::DeviceError) || r == Err::<usize, FsError>(FsError::NoDeviceSpace),
            r is Err ==> final(self).free_bits() == old(self).free_bits(),
            old(self).meta_reliable() && old(self).free_bits().len() + BLKBITS <= MAX_MAP_BITS ==> r is Ok,
    {
        let ghost bits0 = self.free_bits();
        let first = self.free_map.get_mut().allocate();
        let id = match first {
            Some(x) => {
                proof {
                    lemma_count_set_update(bits0, x as int, false);
                }
                x
            },
            None => {
                // allocate a new group
                let sb = *self.super_block.get();
                if sb.blocks as usize + BLKBITS > MAX_MAP_BITS {
                    return Err(FsError::NoDeviceSpace);
                }
                let new_group_id = sb.groups as usize;
                proof {
                    lemma_count_set_bound(bits0);
                    assert((sb.groups + 1) * BLKBITS * BLKSIZE <= MAX_MAP_BITS * BLKSIZE) by (nonlinear_arith)
                        requires
                            sb.blocks == sb.groups * BLKBITS,
                            sb.blocks + BLKBITS <= MAX_MAP_BITS,
                    ;
                }
                let new_len = (sb.groups as usize + 1) * BLKBITS * BLKSIZE;
                match self.meta_file.set_len(new_len) {
                    Ok(()) => {},
                    Err(_) => {
                        return Err(FsError::DeviceError);
                    },
                }
                let mut new_sb = sb;
                new_sb.groups = sb.groups + 1;
                new_sb.blocks = sb.blocks + BLKBITS as u32;
                new_sb.unused_blocks = sb.unused_blocks + (BLKBITS as u32 - 1);
                self.super_block.set(new_sb);
                let fm = Self::get_freemap_block_id_of_group(new_group_id);
                let ghost bits1 = self.free_bits();
                self.free_map.get_mut().extend(true, BLKBITS);
                proof {
                    lemma_count_set_extend(bits1, true, BLKBITS as nat);
                    assert(fm == sb.blocks + 1);
                }
                let ghost bits2 = self.free_bits();
                self.free_map.get_mut().set(fm, false);
                proof {
                    lemma_count_set_update(bits2, fm as int, false);
                }
                let ghost bits3 = self.free_bits();
                match self.free_map.get_mut().allocate() {
                    Some(x) => {
                        proof {
                            assert(x >= bits0.len()) by {
                                if x < bits0.len() {
                                    assert(bits3[x as int] == bits0[x as int]);
                                }
                            }
                            assert(bits3[bits0.len() as int]);
                            assert(x == bits0.len());
                            assert(bits3.update(x as int, false) =~= bits0 + Seq::new(BLKBITS as nat, |j: int| j >= 2));
                            assert(x != fm);
                            assert(!is_meta_block(x as int)) by {
                                assert(x >= BLKBITS * sb.groups);
                                assert(x < BLKBITS * sb.groups + BLKBITS);
                                assert(x as int % (BLKBITS as int) == x - BLKBITS * sb.groups) by (nonlinear_arith)
                                    requires
                                        BLKBITS * sb.groups <= x < BLKBITS * sb.groups + BLKBITS,
                                        BLKBITS == 1024,
                                ;
                            }
                            lemma_count_set_update(bits3, x as int, false);
                            assert forall|j: int| 0 <= j < self.free_bits().len() && j != x && j < bits0.len() implies #[trigger] self.free_bits()[j] == bits0[j] by {
                                assert(bits2[j] == bits0[j]);
                            }
                            assert forall|k: int| 0 <= k < self.inodes@.len() implies !self.free_bits()[(#[trigger] self.inodes@[k]).id as int] by {
                                assert(bits2[self.inodes@[k].id as int] == bits0[self.inodes@[k].id as int]);
                            }
                        }
                        x
                    },
                    None => {
                        proof {
                            assert(bits3[sb.blocks as int]);
                            assert(false);
                        }
                        return Err(FsError::NoDeviceSpace);
                    },
                }
            },
        };
        let mut sb = *self.super_block.get();
        proof {
            lemma_count_set_pos(self.free_bits().update(id as int, true), id as int);
        }
        sb.unused_blocks = sb.unused_blocks - 1;
        self.super_block.set(sb);
        Ok(id)
    }

    /// Free a block
    fn free_block(&mut self, block_id: usize)
        requires
            old(self).wf(),
            block_id < old(self).free_bits().len(),
            !old(self).free_bits()[block_id as int],
            !is_meta_block(block_id as int),
            forall|k: int| 0 <= k < old(self).ncached() ==> old(self).cached_id(k) != block_id,
        ensures
            final(self).storage_reliable() == old(self).storage_reliable(),
            final(self).wf(),
            final(self).inodes == old(self).inodes,
            final(self).super_block().magic == old(self).super_block().magic,
            final(self).meta() == old(self).meta(),
            final(self).meta_reliable() == old(self).meta_reliable(),
            final(self).free_bits() == old(self).free_bits().update(block_id as int, true),
    {
        let ghost bits0 = self.free_bits();
        self.free_map.get_mut().set(block_id, true);
        proof {
            lemma_count_set_update(bits0, block_id as int, true);
            lemma_count_set_bound(self.free_bits());
        }
        let mut sb = *self.super_block.get();
        sb.unused_blocks = sb.unused_blocks + 1;
        self.super_block.set(sb);
        proof {
            assert forall|k: int| 0 <= k < self.inodes@.len() implies (#[trigger] self.inodes@[k]).id < self.free_bits().len()
                && !self.free_bits()[self.inodes@[k].id as int] by {
                assert(old(self).cached_id(k) != block_id);
                assert(old(self).inodes@[k].id < bits0.len() && !bits0[old(self).inodes@[k].id as int]);
            }
        }
    }

    /// Read the file or symbolic link `id` from byte `offset` into `buf`
    pub fn read_at(&mut self, id: INodeId, offset: usize, buf: &mut [u8]) -> (r: Result<usize, FsError>)
        requires
            old(self).wf(),
            old(self).is_cached(id as int),
        ensures
            final(self).wf(),
            final(self).same_view(old(self)),
            final(buf)@.len() == old(buf)@.len(),
            !(old(self).inode(id as int).type_ == FileType::File || old(self).inode(id as int).type_ == FileType::SymLink)
                ==> r == Err::<usize, FsError>(FsError::NotFile),
            r matches Ok(n) ==> n <= old(buf)@.len() && offset + n <= old(self).bytes(id as int).len() && final(buf)@.subrange(0, n as int)
                == old(self).bytes(id as int).subrange(offset as int, offset + n),
            r is Err ==> r == Err::<usize, FsError>(FsError::NotFile) || r == Err::<usize, FsError>(FsError::DeviceError),
            (old(self).inode(id as int).type_ == FileType::File || old(self).inode(id as int).type_ == FileType::SymLink)
                && old(self).file_reliable(id as int) && offset + old(buf)@.len() <= old(self).bytes(id as int).len() ==> r == Ok::<usize, FsError>(old(buf)@.len() as usize),
    {
        let k = self.slot_in_memory(id);
        let type_ = self.inodes[k].disk_inode.get().type_;
        if type_ != FileType::File && type_ != FileType::SymLink {
            return Err(FsError::NotFile);
        }
        let r = self.inodes[k].file.read_at(buf, offset);
        proof {
            self.lemma_same_but(old(self), k as int);
            self.lemma_same_view_k(old(self), k as int);
        }
        match r {
            Ok(n) => Ok(n),
            Err(_) => Err(FsError::DeviceError),
        }
    }


    /// Set the length of the file or symbolic link `id`; its size becomes `len`
    pub fn resize(&mut self, id: INodeId, len: usize) -> (r: Result<(), FsError>)
        requires
            old(self).wf(),
            old(self).is_cached(id as int),
            len <= u32::MAX,
        ensures
            final(self).wf(),
            final(self).view_but(old(self), old(self).slot(id as int)),
            final(self).is_cached(id as int),
            final(self).file_reliable(id as int) == old(self).file_reliable(id as int),
            !(old(self).inode(id as int).type_ == FileType::File || old(self).inode(id as int).type_ == FileType::SymLink)
                ==> r == Err::<(), FsError>(FsError::NotFile),
            r is Err ==> r == Err::<(), FsError>(FsError::NotFile) || r == Err::<(), FsError>(FsError::DeviceError),
            r is Err ==> final(self).inode(id as int) == old(self).inode(id as int) && final(self).bytes(id as int) == old(self).bytes(id as int),
            r is Ok ==> {
                let c = old(self).bytes(id as int);
                let c2 = final(self).bytes(id as int);
                let m = if len < c.len() { len as int } else { c.len() as int };
                &&& final(self).inode(id as int) == (DiskINode { size: len as u32, ..old(self).inode(id as int) })
                &&& c2.len() >= m
                &&& c2.subrange(0, m) == c.subrange(0, m)
            },
            (old(self).inode(id as int).type_ == FileType::File || old(self).inode(id as int).type_ == FileType::SymLink)
                && old(self).file_reliable(id as int) ==> r is Ok,
    {
        let k = self.slot_in_memory(id);
        let type_ = self.inodes[k].disk_inode.get().type_;
        if type_ != FileType::File && type_ != FileType::SymLink {
            return Err(FsError::NotFile);
        }
        match self.inodes[k].file.set_len(len) {
            Ok(()) => {},
            Err(_) => {
                proof {
                    self.lemma_same_but(old(self), k as int);
                    self.lemma_view_but(old(self), k as int);
                }
                return Err(FsError::DeviceError);
            },
        }
        let mut di = *self.inodes[k].disk_inode.get();
        di.size = len as u32;
        self.inodes[k].disk_inode.set(di);
        proof {
            self.lemma_same_but(old(self), k as int);
            self.lemma_view_but(old(self), k as int);
        }
        Ok(())
    }

    /// Write `buf` into the file or symbolic link `id` at byte `offset`,
    /// first growing it to the end of the write when it is shorter
    pub fn write_at(&mut self, id: INodeId, offset: usize, buf: &[u8]) -> (r: Result<usize, FsError>)
        requires
            old(self).wf(),
            old(self).is_cached(id as int),
            offset + buf@.len() <= u32::MAX,
        ensures
            final(self).wf(),
            final(self).view_but(old(self), old(self).slot(id as int)),
            final(self).is_cached(id as int),
            final(self).file_reliable(id as int) == old(self).file_reliable(id as int),
            !(old(self).inode(id as int).type_ == FileType::File || old(self).inode(id as int).type_ == FileType::SymLink)
                ==> r == Err::<usize, FsError>(FsError::NotFile),
            r is Err ==> r == Err::<usize, FsError>(FsError::NotFile) || r == Err::<usize, FsError>(FsError::DeviceError),
            r matches Ok(n) ==> {
                let c = old(self).bytes(id as int);
                let c2 = final(self).bytes(id as int);
                let di = old(self).inode(id as int);
                let m = if offset < c.len() { offset as int } else { c.len() as int };
                let end = offset + buf@.len();
                let keep = if di.size < end { if end < c.len() { end } else { c.len() as int } } else { c.len() as int };
                &&& n <= buf@.len()
                &&& final(self).inode(id as int) == (if di.size < offset + buf@.len() {
                    DiskINode { size: (offset + buf@.len()) as u32, ..di }
                } else {
                    di
                })
                &&& c2.len() >= offset + n
                &&& c2.subrange(offset as int, offset + n) == buf@.subrange(0, n as int)
                &&& c2.subrange(0, m) == c.subrange(0, m)
                &&& c2.len() >= keep
                &&& forall|t: int| offset + n <= t < keep ==> #[trigger] c2[t] == c[t]
            },
            (old(self).inode(id as int).type_ == FileType::File || old(self).inode(id as int).type_ == FileType::SymLink)
                && old(self).file_reliable(id as int) ==> r == Ok::<usize, FsError>(buf@.len() as usize),
    {
        let k = self.slot_in_memory(id);
        let di = *self.inodes[k].disk_inode.get();
        if di.type_ != FileType::File && di.type_ != FileType::SymLink {
            return Err(FsError::NotFile);
        }
        let end_offset = offset + buf.len();
        let ghost c0 = self.bytes(id as int);
        if (di.size as usize) < end_offset {
            match self.resize(id, end_offset) {
                Ok(()) => {},
                Err(e) => {
                    return Err(e);
                },
            }
        }
        let ghost mid = *self;
        let ghost c1 = self.bytes(id as int);
        proof {
            self.lemma_slot(k as int);
        }
        let r = self.inodes[k].file.write_at(buf, offset);
        proof {
            mid.lemma_slot(k as int);
            self.lemma_same_but(&mid, k as int);
            self.lemma_view_but(&mid, k as int);
            self.lemma_view_but_trans(&mid, old(self), k as int);
        }
        match r {
            Ok(n) => {
                proof {
                    let c2 = self.bytes(id as int);
                    let m = if offset < c0.len() { offset as int } else { c0.len() as int };
                    assert(c2.subrange(offset as int, offset + n) =~= buf@.subrange(0, n as int));
                    if (di.size as usize) < end_offset {
                        let m1 = if end_offset < c0.len() { end_offset as int } else { c0.len() as int };
                        assert forall|t: int| 0 <= t < m implies c2[t] == c0[t] by {
                            assert(c1.subrange(0, m1)[t] == c0.subrange(0, m1)[t]);
                        }
                        assert forall|t: int| offset + n <= t < m1 implies #[trigger] c2[t] == c0[t] by {
                            assert(c1.subrange(0, m1)[t] == c0.subrange(0, m1)[t]);
                        }
                    }
                    assert(c2.subrange(0, m) =~= c0.subrange(0, m));
                }
                Ok(n)
            },
            Err(_) => Err(FsError::DeviceError),
        }
    }

    /// the size returned here is logical size(entry num for directory), not the disk space used.
    pub fn metadata(&self, id: INodeId) -> (r: Result<Metadata, FsError>)
        requires
            self.wf(),
            self.is_cached(id as int),
        ensures
            r == Ok::<Metadata, FsError>(spec_metadata(id as int, self.inode(id as int))),
    {
        let k = self.slot_in_memory(id);
        proof {
            self.lemma_slot(k as int);
        }
        let di = *self.inodes[k].disk_inode.get();
        let type_ = match di.type_ {
            FileType::File => rcore_vfs::FileType::File,
            FileType::Dir => rcore_vfs::FileType::Dir,
            _ => rcore_vfs::FileType::SymLink,
        };
        Ok(Metadata {
            dev: 0,
            inode: id,
            size: match di.type_ {
                FileType::Dir => di.blocks as usize,
                _ => di.size as usize,
            },
            blk_size: 0x1000,
            blocks: di.blocks as usize,
            atime: Timespec { sec: di.atime as i64, nsec: 0 },
            mtime: Timespec { sec: di.mtime as i64, nsec: 0 },
            ctime: Timespec { sec: di.ctime as i64, nsec: 0 },
            type_: type_,
            mode: di.mode,
            nlinks: di.nlinks as usize,
            uid: di.uid as usize,
            gid: di.gid as usize,
            rdev: 0,
        })
    }

    /// Set the mode, the owner and the times of inode `id`; the owner and the
    /// times are cut to the widths kept on disk
    pub fn set_metadata(&mut self, id: INodeId, metadata: &Metadata) -> (r: Result<(), FsError>)
        requires
            old(self).wf(),
            old(self).is_cached(id as int),
        ensures
            r is Ok,
            final(self).wf(),
            final(self).view_but(old(self), old(self).slot(id as int)),
            final(self).is_cached(id as int),
            final(self).bytes(id as int) == old(self).bytes(id as int),
            final(self).file_reliable(id as int) == old(self).file_reliable(id as int),
            final(self).inode(id as int) == (DiskINode {
                mode: metadata.mode,
                uid: metadata.uid as u16,
                gid: metadata.gid as u8,
                atime: metadata.atime.sec as u32,
                mtime: metadata.mtime.sec as u32,
                ctime: metadata.ctime.sec as u32,
                ..old(self).inode(id as int)
            }),
    {
        let k = self.slot_in_memory(id);
        let mut di = *self.inodes[k].disk_inode.get();
        di.mode = metadata.mode;
        di.uid = #[verifier::truncate] (metadata.uid as u16);
        di.gid = #[verifier::truncate] (metadata.gid as u8);
        di.atime = #[verifier::truncate] (metadata.atime.sec as u32);
        di.mtime = #[verifier::truncate] (metadata.mtime.sec as u32);
        di.ctime = #[verifier::truncate] (metadata.ctime.sec as u32);
        self.inodes[k].disk_inode.set(di);
        proof {
            self.lemma_same_but(old(self), k as int);
            self.lemma_view_but(old(self), k as int);
        }
        Ok(())
    }


    /// Whether inode `id` in memory changed since it was last written to the metadata file
    pub closed spec fn inode_dirty(&self, id: int) -> bool {
        self.inodes@[self.slot(id)].disk_inode.is_dirty()
    }

    /// Whether the `k`-th inode in memory changed since it was last written to the metadata file
    pub closed spec fn cached_dirty(&self, k: int) -> bool {
        self.inodes@[k].disk_inode.is_dirty()
    }

    /// Write the inode `id` to the metadata file when it changed, then flush its file
    pub fn sync_all(&mut self, id: INodeId) -> (r: Result<(), FsError>)
        requires
            old(self).wf(),
            old(self).is_cached(id as int),
        ensures
            final(self).wf(),
            final(self).ncached() == old(self).ncached(),
            forall|j: int| 0 <= j < old(self).ncached() ==> #[trigger] final(self).cached_id(j) == old(self).cached_id(j)
                && final(self).cached_inode(j) == old(self).cached_inode(j) && final(self).cached_bytes(j) == old(self).cached_bytes(j),
            forall|j: int| 0 <= j < old(self).ncached() ==> #[trigger] final(self).cached_reliable(j) == old(self).cached_reliable(j),
            final(self).same_inodes(old(self)),
            forall|j: int| 0 <= j < old(self).ncached() && j != old(self).slot(id as int) ==> #[trigger] final(self).cached_dirty(j)
                == old(self).cached_dirty(j),
            final(self).super_block() == old(self).super_block(),
            final(self).free_bits() == old(self).free_bits(),
            final(self).super_block_dirty() == old(self).super_block_dirty(),
            final(self).free_map_dirty() == old(self).free_map_dirty(),
            final(self).meta_reliable() == old(self).meta_reliable(),
            r is Err ==> r == Err::<(), FsError>(FsError::DeviceError),
            r is Ok ==> !final(self).inode_dirty(id as int) && final(self).meta() == (if old(self).inode_dirty(id as int) {
                spec_write(old(self).meta(), id * BLKSIZE, old(self).inode(id as int).spec_buf())
            } else {
                old(self).meta()
            }),
            old(self).meta_reliable() && old(self).file_reliable(id as int) ==> r is Ok,
    {
        let k = self.slot_in_memory(id);
        proof {
            self.lemma_slot(k as int);
            assert(id * BLKSIZE + BLKSIZE <= usize::MAX) by (nonlinear_arith)
                requires
                    id < MAX_MAP_BITS,
            ;
        }
        let ghost s0 = *self;
        if self.inodes[k].disk_inode.dirty() {
            let buf = self.inodes[k].disk_inode.get().as_buf();
            proof {
                crate::sefs_structs::lemma_struct_sizes();
            }
            match self.meta_file.write_block(id, buf.as_slice()) {
                Ok(()) => {},
                Err(_) => {
                    proof {
                        self.lemma_sync_keep(&s0, k as int);
                    }
                    return Err(FsError::DeviceError);
                },
            }
            self.inodes[k].disk_inode.sync();
        }
        let ghost s1 = *self;
        let r = self.inodes[k].file.flush();
        proof {
            self.lemma_sync_keep(&s0, k as int);
            assert(self.inodes@[k as int].disk_inode.is_dirty() == s1.inodes@[k as int].disk_inode.is_dirty());
            self.lemma_slot(k as int);
        }
        match r {
            Ok(()) => Ok(()),
            Err(_) => Err(FsError::DeviceError),
        }
    }

    proof fn lemma_sync_keep(&self, prev: &Self, k: int)
        requires
            prev.wf(),
            0 <= k < prev.ncached(),
            self.inodes@.len() == prev.inodes@.len(),
            forall|j: int| 0 <= j < prev.inodes@.len() && j != k ==> self.inodes@[j] == prev.inodes@[j],
            self.inodes@[k].id == prev.inodes@[k].id,
            self.inodes@[k].disk_inode.value() == prev.inodes@[k].disk_inode.value(),
            self.inodes@[k].file.content() == prev.inodes@[k].file.content(),
            self.inodes@[k].file.reliable() == prev.inodes@[k].file.reliable(),
            self.super_block == prev.super_block,
            self.free_map == prev.free_map,
        ensures
            self.wf(),
            self.ncached() == prev.ncached(),
            forall|j: int| 0 <= j < prev.ncached() ==> #[trigger] self.cached_id(j) == prev.cached_id(j)
                && self.cached_inode(j) == prev.cached_inode(j) && self.cached_bytes(j) == prev.cached_bytes(j),
    {
        assert forall|j: int| 0 <= j < self.inodes@.len() implies (#[trigger] self.inodes@[j]).id < self.free_map.value()@.len()
            && !self.free_map.value()@[self.inodes@[j].id as int] by {
            assert(prev.inodes@[j].id < prev.free_map.value()@.len());
        }
        assert forall|j: int| 0 <= j < self.inodes@.len() implies typed((#[trigger] self.inodes@[j]).disk_inode.value()) by {
            assert(typed(prev.inodes@[j].disk_inode.value()));
        }
        assert forall|j: int| 0 <= j < self.inodes@.len() implies addressable((#[trigger] self.inodes@[j]).disk_inode.value().blocks) by {
            assert(addressable(prev.inodes@[j].disk_inode.value().blocks));
        }
        assert forall|j: int|
            0 <= j < self.inodes@.len() && (#[trigger] self.inodes@[j]).disk_inode.value().type_ == FileType::Dir implies DIRENT_SIZE
                * self.inodes@[j].disk_inode.value().blocks <= self.inodes@[j].file.content().len() by {
            assert(prev.inodes@[j].disk_inode.value().type_ == FileType::Dir ==> DIRENT_SIZE * prev.inodes@[j].disk_inode.value().blocks
                <= prev.inodes@[j].file.content().len());
        }
        assert forall|k1: int, k2: int|
            0 <= k1 < self.inodes@.len() && 0 <= k2 < self.inodes@.len() && k1 != k2 implies (#[trigger] self.inodes@[k1]).id
                != (#[trigger] self.inodes@[k2]).id by {
            assert(prev.inodes@[k1].id != prev.inodes@[k2].id);
        }
    }

    /// Flush the file of inode `id`
    pub fn sync_data(&mut self, id: INodeId) -> (r: Result<(), FsError>)
        requires
            old(self).wf(),
            old(self).is_cached(id as int),
        ensures
            final(self).wf(),
            final(self).same_view(old(self)),
            r is Err ==> r == Err::<(), FsError>(FsError::DeviceError),
            old(self).file_reliable(id as int) ==> r is Ok,
    {
        let k = self.slot_in_memory(id);
        let r = self.inodes[k].file.flush();
        proof {
            self.lemma_same_but(old(self), k as int);
            self.lemma_same_view_k(old(self), k as int);
        }
        match r {
            Ok(()) => Ok(()),
            Err(_) => Err(FsError::DeviceError),
        }
    }


    /// The facts the invariant gives about the `k`-th inode in memory
    proof fn lemma_dir(&self, k: int)
        requires
            self.wf(),
            0 <= k < self.ncached(),
        ensures
            typed(self.cached_inode(k)),
            addressable(self.cached_inode(k).blocks),
            self.cached_inode(k).type_ == FileType::Dir ==> DIRENT_SIZE * self.cached_inode(k).blocks <= self.cached_bytes(k).len(),
            self.cached_id(k) < self.free_bits().len(),
            self.free_bits().len() <= MAX_MAP_BITS,
    {
        self.lemma_slot(k);
    }

    /// Only for Dir: the inode number and the position of the first entry named `name`
    fn get_file_inode_and_entry_id(&mut self, k: usize, name: &[u8]) -> (r: Result<Option<(INodeId, usize)>, FsError>)
        requires
            old(self).wf(),
            k < old(self).ncached(),
            old(self).cached_inode(k as int).type_ == FileType::Dir,
        ensures
            final(self).storage_reliable() == old(self).storage_reliable(),
            final(self).wf(),
            final(self).same_view(old(self)),
            r matches Ok(x) ==> {
                let es = entries(old(self).cached_bytes(k as int), old(self).cached_inode(k as int).blocks as int);
                match find_named(es, es.len() as int, name@) {
                    Some(i) => x == Some((es[i].0 as INodeId, i as usize)),
                    None => x is None,
                }
            },
            r is Err ==> r == Err::<Option<(INodeId, usize)>, FsError>(FsError::DeviceError),
            old(self).cached_reliable(k as int) ==> r is Ok,
    {
        proof {
            self.lemma_dir(k as int);
        }
        let ghost c = self.cached_bytes(k as int);
        let ghost es = entries(c, self.cached_inode(k as int).blocks as int);
        let n = self.inodes[k].disk_inode.get().blocks as usize;
        let mut i: usize = 0;
        while i < n
            invariant
                old(self).wf(),
                self.wf(),
                self.same_view(old(self)),
                self.same_but(old(self), k as int),
                k < old(self).ncached(),
                n == old(self).cached_inode(k as int).blocks,
                c == old(self).cached_bytes(k as int),
                es == entries(c, n as int),
                DIRENT_SIZE * n <= c.len(),
                addressable(n as u32),
                i <= n,
                find_named(es, i as int, name@) is None,
            decreases n - i,
        {
            proof {
                assert(DIRENT_SIZE * i + DIRENT_SIZE <= DIRENT_SIZE * n) by (nonlinear_arith)
                    requires
                        i < n,
                ;
                self.lemma_slot(k as int);
            }
            let e = match read_direntry(&mut self.inodes[k].file, i) {
                Ok(e) => e,
                Err(_) => {
                    proof {
                        self.lemma_same_but(old(self), k as int);
                        self.lemma_same_view_k(old(self), k as int);
                    }
                    return Err(FsError::DeviceError);
                },
            };
            proof {
                self.lemma_same_but(old(self), k as int);
                self.lemma_same_view_k(old(self), k as int);
                lemma_decoded_entry(c, i as int, e);
            }
            if e.name.name_eq(name) {
                proof {
                    assert(find_named(es, i + 1, name@) == Some(i as int));
                    lemma_find_named_mono(es, i + 1, n as int, name@);
                }
                return Ok(Some((e.id as INodeId, i)));
            }
            assert(find_named(es, i + 1, name@) is None);
            i = i + 1;
        }
        Ok(None)
    }

    /// Write the entries "." and ".." into new directory `k`
    fn dirent_init(&mut self, k: usize, parent: INodeId) -> (r: Result<(), FsError>)
        requires
            old(self).wf(),
            k < old(self).ncached(),
            old(self).cached_inode(k as int).type_ == FileType::Dir,
            parent <= u32::MAX,
        ensures
            final(self).wf(),
            final(self).view_but(old(self), k as int),
            final(self).cached_reliable(k as int) == old(self).cached_reliable(k as int),
            r is Err ==> r == Err::<(), FsError>(FsError::DeviceError) && final(self).cached_inode(k as int) == old(self).cached_inode(k as int),
            r is Ok ==> {
                &&& final(self).cached_inode(k as int) == (DiskINode { blocks: 2, ..old(self).cached_inode(k as int) })
                &&& entries(final(self).cached_bytes(k as int), 2) == seq![
                    (old(self).cached_id(k as int) as u32, spec_zero_padded(dot(), 256)),
                    (parent as u32, spec_zero_padded(dotdot(), 256)),
                ]
            },
            old(self).cached_reliable(k as int) ==> r is Ok,
    {
        proof {
            self.lemma_dir(k as int);
        }
        let id = self.inodes[k].id;
        let dot_name: Vec<u8> = vec![46u8];
        let dotdot_name: Vec<u8> = vec![46u8, 46u8];
        let self_entry = DiskEntry { id: id as u32, name: Str256::from_slice(dot_name.as_slice()) };
        let parent_entry = DiskEntry { id: parent as u32, name: Str256::from_slice(dotdot_name.as_slice()) };
        let ghost c0 = self.cached_bytes(k as int);
        match write_direntry(&mut self.inodes[k].file, 0, &self_entry) {
            Ok(()) => {},
            Err(_) => {
                proof {
                    self.lemma_same_but(old(self), k as int);
                    self.lemma_view_but(old(self), k as int);
                }
                return Err(FsError::DeviceError);
            },
        }
        let ghost c1 = self.inodes@[k as int].file.content();
        match write_direntry(&mut self.inodes[k].file, 1, &parent_entry) {
            Ok(()) => {},
            Err(_) => {
                proof {
                    lemma_write_entry(c0, 0, 0, self_entry);
                    self.lemma_same_but(old(self), k as int);
                    self.lemma_view_but(old(self), k as int);
                }
                return Err(FsError::DeviceError);
            },
        }
        let mut di = *self.inodes[k].disk_inode.get();
        di.blocks = 2;
        self.inodes[k].disk_inode.set(di);
        proof {
            let c2 = self.cached_bytes(k as int);
            lemma_write_entry(c0, 0, 0, self_entry);
            lemma_write_entry(c1, 1, 1, parent_entry);
            assert(entries(c0, 0) =~= Seq::<(u32, Seq<u8>)>::empty());
            assert(dot_name@ =~= dot());
            assert(dotdot_name@ =~= dotdot());
            assert(entries(c2, 2) =~= seq![
                (id as u32, spec_zero_padded(dot(), 256)),
                (parent as u32, spec_zero_padded(dotdot(), 256)),
            ]);
            self.lemma_same_but(old(self), k as int);
            self.lemma_view_but(old(self), k as int);
        }
        Ok(())
    }

    /// Append entry `entry` to directory `k`
    fn dirent_append(&mut self, k: usize, entry: &DiskEntry) -> (r: Result<(), FsError>)
        requires
            old(self).wf(),
            k < old(self).ncached(),
            old(self).cached_inode(k as int).type_ == FileType::Dir,
            addressable((old(self).cached_inode(k as int).blocks + 1) as u32),
            old(self).cached_inode(k as int).blocks < u32::MAX,
        ensures
            final(self).wf(),
            final(self).view_but(old(self), k as int),
            final(self).cached_reliable(k as int) == old(self).cached_reliable(k as int),
            r is Err ==> r == Err::<(), FsError>(FsError::DeviceError) && final(self).cached_inode(k as int) == old(self).cached_inode(k as int)
                && entries(final(self).cached_bytes(k as int), old(self).cached_inode(k as int).blocks as int) == entries(
                old(self).cached_bytes(k as int),
                old(self).cached_inode(k as int).blocks as int,
            ),
            r is Ok ==> {
                let n = old(self).cached_inode(k as int).blocks;
                &&& final(self).cached_inode(k as int) == (DiskINode { blocks: (n + 1) as u32, ..old(self).cached_inode(k as int) })
                &&& entries(final(self).cached_bytes(k as int), n + 1) == entries(old(self).cached_bytes(k as int), n as int).push(entry_of(*entry))
            },
            old(self).cached_reliable(k as int) ==> r is Ok,
    {
        proof {
            self.lemma_dir(k as int);
        }
        let ghost c0 = self.cached_bytes(k as int);
        let total = self.inodes[k].disk_inode.get().blocks;
        match write_direntry(&mut self.inodes[k].file, total as usize, entry) {
            Ok(()) => {},
            Err(_) => {
                proof {
                    lemma_entries_kept(c0, self.cached_bytes(k as int), total as int);
                    self.lemma_same_but(old(self), k as int);
                    self.lemma_view_but(old(self), k as int);
                }
                return Err(FsError::DeviceError);
            },
        }
        let mut di = *self.inodes[k].disk_inode.get();
        di.blocks = total + 1;
        self.inodes[k].disk_inode.set(di);
        proof {
            lemma_write_entry(c0, total as int, total as int, *entry);
            self.lemma_same_but(old(self), k as int);
            self.lemma_view_but(old(self), k as int);
        }
        Ok(())
    }

    /// remove a page in middle of file and insert the last page here, useful for dirent remove
    /// should be only used in unlink
    fn dirent_remove(&mut self, k: usize, id: usize) -> (r: Result<(), FsError>)
        requires
            old(self).wf(),
            k < old(self).ncached(),
            old(self).cached_inode(k as int).type_ == FileType::Dir,
            id < old(self).cached_inode(k as int).blocks,
        ensures
            final(self).wf(),
            final(self).view_but(old(self), k as int),
            final(self).cached_reliable(k as int) == old(self).cached_reliable(k as int),
            r is Err ==> r == Err::<(), FsError>(FsError::DeviceError) && final(self).cached_inode(k as int) == old(self).cached_inode(k as int),
            r is Ok ==> {
                let n = old(self).cached_inode(k as int).blocks as int;
                let es = entries(old(self).cached_bytes(k as int), n);
                &&& final(self).cached_inode(k as int) == (DiskINode { blocks: (n - 1) as u32, ..old(self).cached_inode(k as int) })
                &&& entries(final(self).cached_bytes(k as int), n - 1) == es.update(id as int, es[n - 1]).drop_last()
            },
            old(self).cached_reliable(k as int) ==> r is Ok,
    {
        proof {
            self.lemma_dir(k as int);
        }
        let ghost c0 = self.cached_bytes(k as int);
        let total = self.inodes[k].disk_inode.get().blocks as usize;
        proof {
            assert(DIRENT_SIZE * (total - 1) + DIRENT_SIZE <= DIRENT_SIZE * total) by (nonlinear_arith)
                requires
                    total >= 1,
            ;
        }
        let last = match read_direntry(&mut self.inodes[k].file, total - 1) {
            Ok(e) => e,
            Err(_) => {
                proof {
                    self.lemma_same_but(old(self), k as int);
                    self.lemma_view_but(old(self), k as int);
                }
                return Err(FsError::DeviceError);
            },
        };
        proof {
            lemma_decoded_entry(c0, total - 1, last);
        }
        if id != total - 1 {
            match write_direntry(&mut self.inodes[k].file, id, &last) {
                Ok(()) => {},
                Err(_) => {
                    proof {
                        lemma_write_entry(c0, total as int, id as int, last);
                        self.lemma_same_but(old(self), k as int);
                        self.lemma_view_but(old(self), k as int);
                    }
                    return Err(FsError::DeviceError);
                },
            }
        }
        let ghost c1 = self.inodes@[k as int].file.content();
        proof {
            let es = entries(c0, total as int);
            if id != total - 1 {
                lemma_write_entry(c0, total as int, id as int, last);
            } else {
                assert(es.update(id as int, es[total - 1]) =~= es);
            }
            assert(entries(c1, total as int) == es.update(id as int, es[total - 1]));
            assert(c1.len() >= DIRENT_SIZE * total);
        }
        match self.inodes[k].file.set_len((total - 1) * DIRENT_SIZE) {
            Ok(()) => {},
            Err(_) => {
                proof {
                    self.lemma_same_but(old(self), k as int);
                    self.lemma_view_but(old(self), k as int);
                }
                return Err(FsError::DeviceError);
            },
        }
        let mut di = *self.inodes[k].disk_inode.get();
        di.blocks = (total - 1) as u32;
        self.inodes[k].disk_inode.set(di);
        proof {
            let c2 = self.cached_bytes(k as int);
            let m = DIRENT_SIZE * (total - 1);
            assert(c2.subrange(0, m) == c1.subrange(0, m));
            let es = entries(c0, total as int);
            let t = es.update(id as int, es[total - 1]).drop_last();
            assert forall|j: int| 0 <= j < total - 1 implies #[trigger] entries(c2, total - 1)[j] == t[j] by {
                assert(DIRENT_SIZE * j + DIRENT_SIZE <= m) by (nonlinear_arith)
                    requires
                        j < total - 1,
                        m == DIRENT_SIZE * (total - 1),
                ;
                assert(c2.subrange(DIRENT_SIZE * j, DIRENT_SIZE * j + 4) =~= c1.subrange(DIRENT_SIZE * j, DIRENT_SIZE * j + 4)) by {
                    assert forall|x: int| 0 <= x < 4 implies #[trigger] c2.subrange(DIRENT_SIZE * j, DIRENT_SIZE * j + 4)[x] == c1.subrange(DIRENT_SIZE * j, DIRENT_SIZE * j + 4)[x] by {
                        assert(c2.subrange(0, m)[DIRENT_SIZE * j + x] == c1.subrange(0, m)[DIRENT_SIZE * j + x]);
                    }
                }
                assert(entry_name(c2, j) =~= entry_name(c1, j)) by {
                    assert forall|x: int| 0 <= x < 256 implies #[trigger] entry_name(c2, j)[x] == entry_name(c1, j)[x] by {
                        assert(c2.subrange(0, m)[DIRENT_SIZE * j + 4 + x] == c1.subrange(0, m)[DIRENT_SIZE * j + 4 + x]);
                    }
                }
                assert(entries(c1, total as int)[j] == t[j]);
            }
            assert(entries(c2, total - 1) =~= t);
            self.lemma_same_but(old(self), k as int);
            self.lemma_view_but(old(self), k as int);
        }
        Ok(())
    }

    /// Change the link count of the `k`-th inode in memory to `nlinks`
    fn set_nlinks(&mut self, k: usize, nlinks: u16)
        requires
            old(self).wf(),
            k < old(self).ncached(),
        ensures
            final(self).wf(),
            final(self).view_but(old(self), k as int),
            final(self).cached_reliable(k as int) == old(self).cached_reliable(k as int),
            final(self).cached_bytes(k as int) == old(self).cached_bytes(k as int),
            final(self).cached_inode(k as int) == (DiskINode { nlinks, ..old(self).cached_inode(k as int) }),
    {
        proof {
            self.lemma_dir(k as int);
        }
        let mut di = *self.inodes[k].disk_inode.get();
        di.nlinks = nlinks;
        self.inodes[k].disk_inode.set(di);
        proof {
            self.lemma_same_but(old(self), k as int);
            self.lemma_view_but(old(self), k as int);
        }
    }


    /// Whether `self` holds the inodes of `prev` and one more after them
    pub open spec fn pushed(&self, prev: &Self) -> bool {
        &&& self.ncached() == prev.ncached() + 1
        &&& forall|j: int| 0 <= j < prev.ncached() ==> #[trigger] self.cached_id(j) == prev.cached_id(j)
            && self.cached_inode(j) == prev.cached_inode(j) && self.cached_bytes(j) == prev.cached_bytes(j)
            && self.cached_reliable(j) == prev.cached_reliable(j)
    }

    /// The inodes of `prev` stay where they were after one more is pushed.
    proof fn lemma_pushed(&self, prev: &Self)
        requires
            prev.wf(),
            self.wf(),
            self.pushed(prev),
        ensures
            forall|id: int| prev.is_cached(id) ==> #[trigger] self.kept(prev, id),
            forall|id: int| prev.is_cached(id) ==> #[trigger] self.slot(id) == prev.slot(id),
            self.is_cached(self.cached_id(prev.ncached())),
            self.slot(self.cached_id(prev.ncached())) == prev.ncached(),
    {
        assert forall|id: int| prev.is_cached(id) implies #[trigger] self.slot(id) == prev.slot(id) && self.kept(prev, id) by {
            let j = choose|j: int| 0 <= j < prev.ncached() && prev.cached_id(j) == id;
            prev.lemma_slot(j);
            assert(self.cached_id(j) == id);
            self.lemma_slot(j);
        }
        self.lemma_slot(prev.ncached());
    }

    /// Get inode by id. Load if not in memory: its on-disk inode is read from
    /// block `id` of the metadata file and its file is opened by its name.
    /// An inode whose block is free or holds the superblock or a free map,
    /// or whose on-disk inode has no type or more entries than can be
    /// addressed, is refused with `WrongFs`.
    fn get_inode(&mut self, id: INodeId) -> (r: Result<usize, FsError>)
        requires
            old(self).wf(),
        ensures
            final(self).wf(),
            final(self).super_block() == old(self).super_block(),
            final(self).free_bits() == old(self).free_bits(),
            final(self).meta() == old(self).meta(),
            final(self).meta_reliable() == old(self).meta_reliable(),
            old(self).is_cached(id as int) ==> r == Ok::<usize, FsError>(old(self).slot(id as int) as usize) && final(self).same_view(old(self)),
            !old(self).is_cached(id as int) && (id >= old(self).free_bits().len() || old(self).free_bits()[id as int]
                || is_meta_block(id as int)) ==> r == Err::<usize, FsError>(FsError::WrongFs),
            r is Err ==> final(self).same_view(old(self)),
            r is Err ==> r == Err::<usize, FsError>(FsError::WrongFs) || r == Err::<usize, FsError>(FsError::DeviceError),
            r == Err::<usize, FsError>(FsError::WrongFs) ==> id >= old(self).free_bits().len() || old(self).free_bits()[id as int]
                || is_meta_block(id as int) || exists|di: DiskINode| #[trigger] loaded(old(self).meta(), id as int, di) && !(typed(di) && addressable(di.blocks)),
            r matches Ok(k) ==> k < final(self).ncached() && final(self).cached_id(k as int) == id && final(self).is_cached(id as int)
                && final(self).slot(id as int) == k,
            r is Ok && !old(self).is_cached(id as int) ==> final(self).pushed(old(self)) && loaded(old(self).meta(), id as int, final(self).inode(id as int))
                && !final(self).inode_dirty(id as int),
    {
        match self.slot_of(id) {
            Some(k) => {
                proof {
                    self.lemma_slot(k as int);
                }
                return Ok(k);
            },
            None => {},
        }
        if id >= self.free_map.get().len() || self.free_map.get().get(id) || is_meta_block_exec(id) {
            return Err(FsError::WrongFs);
        }
        proof {
            assert(id * BLKSIZE + BLKSIZE <= usize::MAX) by (nonlinear_arith)
                requires
                    id < MAX_MAP_BITS,
            ;
            crate::sefs_structs::lemma_struct_sizes();
        }
        let mut buf: Vec<u8> = vec![0u8; DISK_INODE_SIZE];
        let ghost m0 = self.meta();
        match self.meta_file.read_block(id, buf.as_mut_slice()) {
            Ok(()) => {},
            Err(_) => {
                return Err(FsError::DeviceError);
            },
        }
        let di = DiskINode::from_buf(buf.as_slice());
        if !(di.type_ == FileType::File || di.type_ == FileType::Dir || di.type_ == FileType::SymLink)
            || di.blocks as usize > usize::MAX / DIRENT_SIZE - 1 {
            proof {
                assert(loaded(old(self).meta(), id as int, di));
                if typed(di) {
                    assert(DIRENT_SIZE * (di.blocks + 1) > usize::MAX) by (nonlinear_arith)
                        requires
                            di.blocks > usize::MAX / DIRENT_SIZE - 1,
                    ;
                }
            }
            return Err(FsError::WrongFs);
        }
        proof {
            assert(DIRENT_SIZE * (di.blocks + 1) <= usize::MAX) by (nonlinear_arith)
                requires
                    di.blocks <= usize::MAX / DIRENT_SIZE - 1,
            ;
        }
        let name = di.disk_filename.to_string();
        let mut file = match self.device.open(name.as_str()) {
            Ok(f) => f,
            Err(_) => {
                return Err(FsError::DeviceError);
            },
        };
        if di.type_ == FileType::Dir && di.blocks > 0 {
            proof {
                assert(DIRENT_SIZE * (di.blocks - 1) + DIRENT_SIZE <= usize::MAX) by (nonlinear_arith)
                    requires
                        DIRENT_SIZE * (di.blocks + 1) <= usize::MAX,
                        di.blocks > 0,
                ;
            }
            match read_direntry(&mut file, (di.blocks - 1) as usize) {
                Ok(_) => {},
                Err(_) => {
                    return Err(FsError::DeviceError);
                },
            }
            proof {
                assert(DIRENT_SIZE * (di.blocks - 1) + DIRENT_SIZE == DIRENT_SIZE * di.blocks);
            }
        }
        let ghost prev = *self;
        let k = self.inodes.len();
        self.inodes.push(INodeImpl { id, disk_inode: Dirty::new(di), file });
        proof {
            let k = prev.ncached();
            assert forall|j: int| 0 <= j < self.inodes@.len() implies (#[trigger] self.inodes@[j]).id < self.free_map.value()@.len()
                && !self.free_map.value()@[self.inodes@[j].id as int] by {
                if j < k {
                    assert(prev.inodes@[j] == self.inodes@[j]);
                }
            }
            assert forall|j: int| 0 <= j < self.inodes@.len() implies typed((#[trigger] self.inodes@[j]).disk_inode.value()) by {
                if j < k {
                    assert(prev.inodes@[j] == self.inodes@[j]);
                }
            }
            assert forall|j: int| 0 <= j < self.inodes@.len() implies addressable((#[trigger] self.inodes@[j]).disk_inode.value().blocks) by {
                if j < k {
                    assert(prev.inodes@[j] == self.inodes@[j]);
                }
            }
            assert forall|j: int|
                0 <= j < self.inodes@.len() && (#[trigger] self.inodes@[j]).disk_inode.value().type_ == FileType::Dir implies DIRENT_SIZE
                    * self.inodes@[j].disk_inode.value().blocks <= self.inodes@[j].file.content().len() by {
                if j < k {
                    assert(prev.inodes@[j] == self.inodes@[j]);
                }
            }
            assert forall|k1: int, k2: int|
                0 <= k1 < self.inodes@.len() && 0 <= k2 < self.inodes@.len() && k1 != k2 implies (#[trigger] self.inodes@[k1]).id
                    != (#[trigger] self.inodes@[k2]).id by {
                if k1 < k && k2 < k {
                    assert(prev.inodes@[k1].id != prev.inodes@[k2].id);
                } else if k1 < k {
                    assert(old(self).inodes@[k1] == prev.inodes@[k1]);
                    assert(old(self).cached_id(k1) != id);
                } else if k2 < k {
                    assert(old(self).inodes@[k2] == prev.inodes@[k2]);
                    assert(old(self).cached_id(k2) != id);
                }
            }
            assert forall|j: int| 0 <= j < prev.ncached() implies #[trigger] self.cached_id(j) == prev.cached_id(j)
                && self.cached_inode(j) == prev.cached_inode(j) && self.cached_bytes(j) == prev.cached_bytes(j)
                && self.cached_reliable(j) == prev.cached_reliable(j) by {
                assert(prev.inodes@[j] == self.inodes@[j]);
            }
            self.lemma_pushed(&prev);
        }
        Ok(k)
    }

    /// Whether the `j`-th inode in memory has the number, on-disk inode and
    /// bytes that it has in `prev`
    pub open spec fn same_slot(&self, prev: &Self, j: int) -> bool {
        &&& self.cached_id(j) == prev.cached_id(j)
        &&& self.cached_inode(j) == prev.cached_inode(j)
        &&& self.cached_bytes(j) == prev.cached_bytes(j)
        &&& self.cached_reliable(j) == prev.cached_reliable(j)
    }

    /// Whether `self` holds the inodes of `prev`, with the same numbers, on-disk inodes and bytes
    pub open spec fn same_inodes(&self, prev: &Self) -> bool {
        &&& self.ncached() == prev.ncached()
        &&& forall|j: int| 0 <= j < prev.ncached() ==> #[trigger] self.same_slot(prev, j)
    }

    /// Create a new inode of type `type_` in a block taken from the free map,
    /// with a new file named by a new id; its times are the current time.
    fn new_inode(&mut self, type_: FileType, mode: u16) -> (r: Result<usize, FsError>)
        requires
            old(self).wf(),
            type_ == FileType::File || type_ == FileType::Dir || type_ == FileType::SymLink,
        ensures
            final(self).storage_reliable() == old(self).storage_reliable(),
            old(self).meta_reliable() && old(self).storage_reliable() && old(self).free_bits().len() + BLKBITS <= MAX_MAP_BITS ==> r is Ok,
            r matches Ok(k) ==> final(self).cached_reliable(k as int) == old(self).storage_reliable(),
            final(self).wf(),
            final(self).super_block().magic == old(self).super_block().magic,
            final(self).meta_reliable() == old(self).meta_reliable(),
            old(self).free_bits().len() <= final(self).free_bits().len(),
            r is Err ==> final(self).same_inodes(old(self)),
            r is Err ==> r == Err::<usize, FsError>(FsError::NoDeviceSpace) || r == Err::<usize, FsError>(FsError::DeviceError),
            r matches Ok(k) ==> {
                let id = final(self).cached_id(k as int);
                let di = final(self).cached_inode(k as int);
                &&& k == old(self).ncached()
                &&& final(self).pushed(old(self))
                &&& !old(self).is_cached(id)
                &&& (id < old(self).free_bits().len() ==> old(self).free_bits()[id])
                &&& forall|j: int| 0 <= j < old(self).free_bits().len() && j != id ==> #[trigger] final(self).free_bits()[j] == old(self).free_bits()[j]
                &&& forall|j: int| 0 <= j < id && j < old(self).free_bits().len() ==> !#[trigger] old(self).free_bits()[j]
                &&& id < old(self).free_bits().len() ==> final(self).free_bits() == old(self).free_bits().update(id, false)
                    && final(self).super_block() == (SuperBlock { unused_blocks: (old(self).super_block().unused_blocks - 1) as u32, ..old(self).super_block() })
                &&& di.size == 0 && di.type_ == type_ && di.mode == mode && di.nlinks == 0 && di.blocks == 0
                &&& di.uid == 0 && di.gid == 0 && di.atime == di.mtime && di.mtime == di.ctime
                &&& di.inode_mac.0@ == Seq::new(16, |i: int| 0u8)
                &&& final(self).inode_dirty(id)
            },
    {
        let ghost s0 = *self;
        let id = match self.alloc_block() {
            Ok(id) => id,
            Err(e) => {
                return Err(e);
            },
        };
        let time = #[verifier::truncate] (self.time_provider.current_time().sec as u32);
        let uuid = self.uuid_provider.generate_uuid();
        let name = uuid.to_string();
        proof {
            assert forall|j: int| 0 <= j < self.ncached() implies self.cached_id(j) != id by {
                assert(!self.free_bits()[self.inodes@[j].id as int]);
            }
        }
        let file = match self.device.create(name.as_str()) {
            Ok(f) => f,
            Err(_) => {
                self.free_block(id);
                return Err(FsError::DeviceError);
            },
        };
        let di = DiskINode {
            size: 0,
            type_,
            mode,
            nlinks: 0,
            blocks: 0,
            uid: 0,
            gid: 0,
            atime: time,
            mtime: time,
            ctime: time,
            disk_filename: uuid,
            inode_mac: SefsMac([0u8; 16]),
        };
        let ghost prev = *self;
        let k = self.inodes.len();
        self.inodes.push(INodeImpl { id, disk_inode: Dirty::new_dirty(di), file });
        proof {
            assert forall|j: int| 0 <= j < self.inodes@.len() implies (#[trigger] self.inodes@[j]).id < self.free_map.value()@.len()
                && !self.free_map.value()@[self.inodes@[j].id as int] by {
                if j < k {
                    assert(prev.inodes@[j] == self.inodes@[j]);
                }
            }
            assert forall|j: int| 0 <= j < self.inodes@.len() implies typed((#[trigger] self.inodes@[j]).disk_inode.value()) by {
                if j < k {
                    assert(prev.inodes@[j] == self.inodes@[j]);
                }
            }
            assert forall|j: int| 0 <= j < self.inodes@.len() implies addressable((#[trigger] self.inodes@[j]).disk_inode.value().blocks) by {
                if j < k {
                    assert(prev.inodes@[j] == self.inodes@[j]);
                }
            }
            assert forall|j: int|
                0 <= j < self.inodes@.len() && (#[trigger] self.inodes@[j]).disk_inode.value().type_ == FileType::Dir implies DIRENT_SIZE
                    * self.inodes@[j].disk_inode.value().blocks <= self.inodes@[j].file.content().len() by {
                if j < k {
                    assert(prev.inodes@[j] == self.inodes@[j]);
                }
            }
            assert forall|k1: int, k2: int|
                0 <= k1 < self.inodes@.len() && 0 <= k2 < self.inodes@.len() && k1 != k2 implies (#[trigger] self.inodes@[k1]).id
                    != (#[trigger] self.inodes@[k2]).id by {
                if k1 < k && k2 < k {
                    assert(prev.inodes@[k1].id != prev.inodes@[k2].id);
                } else if k1 < k {
                    assert(prev.cached_id(k1) != id);
                } else if k2 < k {
                    assert(prev.cached_id(k2) != id);
                }
            }
            assert forall|j: int| 0 <= j < prev.ncached() implies #[trigger] self.cached_id(j) == prev.cached_id(j)
                && self.cached_inode(j) == prev.cached_inode(j) && self.cached_bytes(j) == prev.cached_bytes(j)
                && self.cached_reliable(j) == prev.cached_reliable(j) by {
                assert(prev.inodes@[j] == self.inodes@[j]);
            }
            self.lemma_pushed(&prev);
            assert(!s0.is_cached(id as int)) by {
                if s0.is_cached(id as int) {
                    let j = choose|j: int| 0 <= j < s0.ncached() && s0.cached_id(j) == id;
                    assert(prev.cached_id(j) != id);
                }
            }
        }
        Ok(k)
    }

    /// A change of the `k`-th inode in memory keeps every other inode.
    proof fn lemma_view_but_kept(&self, prev: &Self, k: int)
        requires
            prev.wf(),
            self.wf(),
            0 <= k < prev.ncached(),
            self.view_but(prev, k),
        ensures
            forall|id: int| prev.is_cached(id) && id != prev.cached_id(k) ==> #[trigger] self.kept(prev, id),
            forall|id: int| prev.is_cached(id) ==> #[trigger] self.slot(id) == prev.slot(id) && self.is_cached(id),
    {
        assert forall|id: int| prev.is_cached(id) implies #[trigger] self.slot(id) == prev.slot(id) && self.is_cached(id) by {
            let j = choose|j: int| 0 <= j < prev.ncached() && prev.cached_id(j) == id;
            prev.lemma_slot(j);
            assert(self.cached_id(j) == id);
            self.lemma_slot(j);
        }
        assert forall|id: int| prev.is_cached(id) && id != prev.cached_id(k) implies #[trigger] self.kept(prev, id) by {
            let j = choose|j: int| 0 <= j < prev.ncached() && prev.cached_id(j) == id;
            prev.lemma_slot(j);
            assert(self.cached_id(j) == id);
            self.lemma_slot(j);
        }
    }

    /// Holding the same inodes is transitive.
    proof fn lemma_same_inodes_trans(&self, mid: &Self, prev: &Self)
        requires
            self.same_inodes(mid),
            mid.same_inodes(prev),
        ensures
            self.same_inodes(prev),
    {
        assert forall|j: int| 0 <= j < prev.ncached() implies #[trigger] self.same_slot(prev, j) by {
            assert(mid.same_slot(prev, j));
            assert(self.same_slot(mid, j));
        }
    }

    /// The same vector of inodes holds the same inodes.
    proof fn lemma_same_inodes_vec(&self, prev: &Self)
        requires
            self.inodes == prev.inodes,
        ensures
            self.same_inodes(prev),
    {
        assert forall|j: int| 0 <= j < prev.ncached() implies #[trigger] self.same_slot(prev, j) by {}
    }

    /// Holding the same view is holding the same inodes.
    proof fn lemma_same_view_inodes(&self, prev: &Self)
        requires
            self.same_view(prev),
        ensures
            self.same_inodes(prev),
    {
        assert forall|j: int| 0 <= j < prev.ncached() implies #[trigger] self.same_slot(prev, j) by {
            assert(self.cached_id(j) == prev.cached_id(j));
        }
    }

    /// Holding the same view keeps every inode.
    proof fn lemma_same_view_kept(&self, prev: &Self)
        requires
            prev.wf(),
            self.wf(),
            self.same_view(prev),
        ensures
            forall|id: int| prev.is_cached(id) ==> #[trigger] self.kept(prev, id),
            forall|id: int| prev.is_cached(id) ==> #[trigger] self.slot(id) == prev.slot(id),
    {
        self.lemma_same_view_inodes(prev);
        self.lemma_same_inodes_kept(prev);
    }

    /// Holding the same inodes keeps every inode.
    proof fn lemma_same_inodes_kept(&self, prev: &Self)
        requires
            prev.wf(),
            self.wf(),
            self.same_inodes(prev),
        ensures
            forall|id: int| prev.is_cached(id) ==> #[trigger] self.kept(prev, id),
            forall|id: int| prev.is_cached(id) ==> #[trigger] self.slot(id) == prev.slot(id),
    {
        assert forall|id: int| prev.is_cached(id) implies #[trigger] self.slot(id) == prev.slot(id) && self.kept(prev, id) by {
            let j = choose|j: int| 0 <= j < prev.ncached() && prev.cached_id(j) == id;
            prev.lemma_slot(j);
            assert(self.same_slot(prev, j));
            assert(self.cached_id(j) == id);
            self.lemma_slot(j);
        }
    }

    /// Whether one more entry can be appended to the `k`-th inode in memory
    fn append_room(&self, k: usize) -> (b: bool)
        requires
            k < self.ncached(),
        ensures
            b == can_append(self.cached_inode(k as int).blocks),
    {
        let n = self.inodes[k].disk_inode.get().blocks;
        n < u32::MAX && (n as usize) < usize::MAX / DIRENT_SIZE - 1
    }

    /// Create an inode named `name` in directory `dir`, of type `type_`
    /// (file, directory or symbolic link) with mode `mode`; a new directory
    /// holds "." and "..". Returns the number of the new inode. When the
    /// entries cannot be written, the new inode is released again.
    #[verifier::spinoff_prover]
    #[verifier::rlimit(60)]
    pub fn create_child(&mut self, dir: INodeId, name: &str, type_: rcore_vfs::FileType, mode: u32) -> (r: Result<INodeId, FsError>)
        requires
            old(self).wf(),
            old(self).is_cached(dir as int),
            name.spec_bytes().len() <= 256,
            type_ == rcore_vfs::FileType::Dir ==> old(self).inode(dir as int).nlinks < u16::MAX,
        ensures
            final(self).wf(),
            final(self).is_cached(dir as int),
            spec_disk_type(type_) is None ==> r == Err::<INodeId, FsError>(FsError::InvalidParam),
            spec_disk_type(type_) is Some && old(self).inode(dir as int).type_ != FileType::Dir ==> r == Err::<INodeId, FsError>(FsError::NotDir),
            spec_disk_type(type_) is Some && old(self).inode(dir as int).type_ == FileType::Dir && old(self).inode(dir as int).nlinks == 0
                ==> r == Err::<INodeId, FsError>(FsError::DirRemoved),
            spec_disk_type(type_) is Some && old(self).inode(dir as int).type_ == FileType::Dir && old(self).inode(dir as int).nlinks > 0
                && lookup_in(old(self).dir_entries(dir as int), name.spec_bytes()) is Some ==> r == Err::<INodeId, FsError>(FsError::EntryExist)
                || r == Err::<INodeId, FsError>(FsError::DeviceError),
            spec_disk_type(type_) is Some && old(self).inode(dir as int).type_ == FileType::Dir && old(self).inode(dir as int).nlinks > 0
                && !can_append(old(self).inode(dir as int).blocks) ==> r is Err,
            r is Err ==> r == Err::<INodeId, FsError>(FsError::InvalidParam) || r == Err::<INodeId, FsError>(FsError::NotDir)
                || r == Err::<INodeId, FsError>(FsError::DirRemoved) || r == Err::<INodeId, FsError>(FsError::EntryExist)
                || r == Err::<INodeId, FsError>(FsError::NoDeviceSpace) || r == Err::<INodeId, FsError>(FsError::DeviceError),
            spec_disk_type(type_) is Some && old(self).inode(dir as int).type_ == FileType::Dir && old(self).inode(dir as int).nlinks > 0
                && old(self).file_reliable(dir as int) && lookup_in(old(self).dir_entries(dir as int), name.spec_bytes()) is Some
                ==> r == Err::<INodeId, FsError>(FsError::EntryExist),
            r == Err::<INodeId, FsError>(FsError::InvalidParam) || r == Err::<INodeId, FsError>(FsError::NotDir)
                || r == Err::<INodeId, FsError>(FsError::DirRemoved) || r == Err::<INodeId, FsError>(FsError::EntryExist)
                ==> forall|id: int| old(self).is_cached(id) ==> #[trigger] final(self).kept(old(self), id),
            spec_disk_type(type_) is Some && old(self).inode(dir as int).type_ == FileType::Dir && old(self).inode(dir as int).nlinks > 0
                && old(self).file_reliable(dir as int) && lookup_in(old(self).dir_entries(dir as int), name.spec_bytes()) is None
                && can_append(old(self).inode(dir as int).blocks) && old(self).meta_reliable() && old(self).storage_reliable()
                && old(self).free_bits().len() + BLKBITS <= MAX_MAP_BITS ==> r is Ok,
            r matches Ok(x) ==> {
                let es = old(self).dir_entries(dir as int);
                let t = spec_disk_type(type_)->0;
                let di = final(self).inode(x as int);
                &&& old(self).inode(dir as int).type_ == FileType::Dir
                &&& lookup_in(es, name.spec_bytes()) is None
                &&& !old(self).is_cached(x as int)
                &&& final(self).is_cached(x as int)
                &&& final(self).dir_entries(dir as int) == es.push((x as u32, spec_zero_padded(name.spec_bytes(), 256)))
                &&& final(self).inode(dir as int) == (DiskINode {
                    blocks: (old(self).inode(dir as int).blocks + 1) as u32,
                    nlinks: if t == FileType::Dir { (old(self).inode(dir as int).nlinks + 1) as u16 } else { old(self).inode(dir as int).nlinks },
                    ..old(self).inode(dir as int)
                })
                &&& di.type_ == t && di.mode == mode as u16 && di.size == 0 && di.uid == 0 && di.gid == 0
                &&& di.nlinks == (if t == FileType::Dir { 2u16 } else { 1u16 })
                &&& di.blocks == (if t == FileType::Dir { 2u32 } else { 0u32 })
                &&& t == FileType::Dir ==> final(self).dir_entries(x as int) == seq![
                    (x as u32, spec_zero_padded(dot(), 256)),
                    (dir as u32, spec_zero_padded(dotdot(), 256)),
                ]
                &&& forall|id: int| old(self).is_cached(id) && id != dir ==> #[trigger] final(self).kept(old(self), id)
            },
    {
        let t = match type_ {
            rcore_vfs::FileType::File => FileType::File,
            rcore_vfs::FileType::Dir => FileType::Dir,
            rcore_vfs::FileType::SymLink => FileType::SymLink,
            _ => {
                return Err(FsError::InvalidParam);
            },
        };
        let k = self.slot_in_memory(dir);
        proof {
            self.lemma_slot(k as int);
        }
        let ddi = *self.inodes[k].disk_inode.get();
        if ddi.type_ != FileType::Dir {
            return Err(FsError::NotDir);
        }
        if ddi.nlinks == 0 {
            return Err(FsError::DirRemoved);
        }
        let found = self.get_file_inode_and_entry_id(k, name.as_bytes());
        proof {
            self.lemma_slot(k as int);
            self.lemma_same_view_inodes(old(self));
            self.lemma_same_inodes_kept(old(self));
        }
        match found {
            Err(e) => {
                return Err(e);
            },
            Ok(Some(_)) => {
                return Err(FsError::EntryExist);
            },
            Ok(None) => {},
        }
        if !self.append_room(k) {
            return Err(FsError::NoDeviceSpace);
        }
        let ghost s1 = *self;
        proof {
            s1.lemma_same_view_inodes(old(self));
            s1.lemma_same_inodes_kept(old(self));
        }
        let nk = match self.new_inode(t, #[verifier::truncate] (mode as u16)) {
            Ok(nk) => nk,
            Err(e) => {
                proof {
                    self.lemma_same_inodes_kept(&s1);
                    assert(s1.kept(old(self), dir as int));
                    assert(self.kept(&s1, dir as int));
                }
                return Err(e);
            },
        };
        let ghost s2 = *self;
        let id = self.inodes[nk].id;
        proof {
            self.lemma_slot(k as int);
            self.lemma_slot(nk as int);
            s1.lemma_slot(k as int);
            self.lemma_pushed(&s1);
        }
        if t == FileType::Dir {
            match self.dirent_init(nk, dir) {
                Ok(()) => {},
                Err(e) => {
                    proof {
                        self.lemma_view_but_kept(&s2, nk as int);
                        self.lemma_slot(nk as int);
                    }
                    let ghost s3 = *self;
                    let _ = self.release(id);
                    proof {
                        assert(s3.kept(&s2, dir as int));
                        assert(self.kept(&s3, dir as int));
                    }
                    return Err(e);
                },
            }
        }
        let ghost s3 = *self;
        proof {
            if t == FileType::Dir {
                self.lemma_view_but_kept(&s2, nk as int);
            }
            self.lemma_slot(k as int);
            self.lemma_slot(nk as int);
        }
        let entry = DiskEntry { id: id as u32, name: Str256::from_str(name) };
        match self.dirent_append(k, &entry) {
            Ok(()) => {},
            Err(e) => {
                proof {
                    self.lemma_view_but_kept(&s3, k as int);
                    assert(s3.inodes@[k as int].id != s3.inodes@[nk as int].id);
                    assert(id != dir);
                    assert(self.kept(&s3, id as int));
                }
                let ghost s4 = *self;
                let _ = self.release(id);
                proof {
                    assert(self.kept(&s4, dir as int));
                }
                return Err(e);
            },
        }
        let ghost s4 = *self;
        proof {
            self.lemma_view_but_kept(&s3, k as int);
        }
        let links: u16 = if t == FileType::Dir { 2 } else { 1 };
        self.set_nlinks(nk, links);
        let ghost s5 = *self;
        proof {
            self.lemma_view_but_kept(&s4, nk as int);
        }
        if t == FileType::Dir {
            self.set_nlinks(k, ddi.nlinks + 1);
            proof {
                self.lemma_view_but_kept(&s5, k as int);
            }
        }
        proof {
            self.lemma_slot(k as int);
            self.lemma_slot(nk as int);
            assert forall|x: int| old(self).is_cached(x) && x != dir implies #[trigger] self.kept(old(self), x) by {
                assert(s1.kept(old(self), x));
                assert(s2.kept(&s1, x));
                assert(x != id);
                assert(s3.kept(&s2, x));
                assert(s4.kept(&s3, x));
                assert(s5.kept(&s4, x));
            }
        }
        Ok(id)
    }

    /// The inode named `name` in directory `dir`; it is loaded when it is not in memory
    pub fn find(&mut self, dir: INodeId, name: &str) -> (r: Result<INodeId, FsError>)
        requires
            old(self).wf(),
            old(self).is_cached(dir as int),
        ensures
            final(self).wf(),
            forall|id: int| old(self).is_cached(id) ==> #[trigger] final(self).kept(old(self), id),
            old(self).inode(dir as int).type_ != FileType::Dir ==> r == Err::<INodeId, FsError>(FsError::NotDir),
            old(self).inode(dir as int).type_ == FileType::Dir && lookup_in(old(self).dir_entries(dir as int), name.spec_bytes()) is None
                ==> r == Err::<INodeId, FsError>(FsError::EntryNotFound) || r == Err::<INodeId, FsError>(FsError::DeviceError),
            r is Err ==> r == Err::<INodeId, FsError>(FsError::NotDir) || r == Err::<INodeId, FsError>(FsError::EntryNotFound)
                || r == Err::<INodeId, FsError>(FsError::WrongFs) || r == Err::<INodeId, FsError>(FsError::DeviceError),
            old(self).inode(dir as int).type_ == FileType::Dir && old(self).file_reliable(dir as int)
                && lookup_in(old(self).dir_entries(dir as int), name.spec_bytes()) is None ==> r == Err::<INodeId, FsError>(FsError::EntryNotFound),
            ({
                let es = old(self).dir_entries(dir as int);
                &&& old(self).inode(dir as int).type_ == FileType::Dir && old(self).file_reliable(dir as int)
                &&& lookup_in(es, name.spec_bytes()) is Some
                &&& old(self).is_cached(es[lookup_in(es, name.spec_bytes())->0].0 as int)
            }) ==> r == Ok::<INodeId, FsError>(
                old(self).dir_entries(dir as int)[lookup_in(old(self).dir_entries(dir as int), name.spec_bytes())->0].0 as INodeId,
            ),
            ({
                let es = old(self).dir_entries(dir as int);
                let x = es[lookup_in(es, name.spec_bytes())->0].0 as int;
                &&& old(self).inode(dir as int).type_ == FileType::Dir && old(self).file_reliable(dir as int)
                &&& lookup_in(es, name.spec_bytes()) is Some && !old(self).is_cached(x)
                &&& (x >= old(self).free_bits().len() || old(self).free_bits()[x] || is_meta_block(x))
            }) ==> r == Err::<INodeId, FsError>(FsError::WrongFs),
            r matches Ok(x) ==> {
                let es = old(self).dir_entries(dir as int);
                &&& old(self).inode(dir as int).type_ == FileType::Dir
                &&& lookup_in(es, name.spec_bytes()) matches Some(i) && x == es[i].0
                &&& final(self).is_cached(x as int)
            },
    {
        let k = self.slot_in_memory(dir);
        proof {
            self.lemma_slot(k as int);
        }
        if self.inodes[k].disk_inode.get().type_ != FileType::Dir {
            return Err(FsError::NotDir);
        }
        let ghost es = old(self).dir_entries(dir as int);
        proof {
            lemma_find_named(es, es.len() as int, name.spec_bytes());
        }
        let found = self.get_file_inode_and_entry_id(k, name.as_bytes());
        let ghost s1 = *self;
        proof {
            s1.lemma_same_view_inodes(old(self));
            s1.lemma_same_inodes_kept(old(self));
        }
        let inode_id = match found {
            Err(e) => {
                return Err(e);
            },
            Ok(None) => {
                return Err(FsError::EntryNotFound);
            },
            Ok(Some((inode_id, ei))) => {
                proof {
                    assert(lookup_in(es, name.spec_bytes()) == Some(ei as int));
                    assert(inode_id == es[ei as int].0);
                }
                inode_id
            },
        };
        match self.get_inode(inode_id) {
            Ok(_) => {},
            Err(e) => {
                proof {
                    self.lemma_same_view_inodes(&s1);
                    self.lemma_same_inodes_kept(&s1);
                    if old(self).is_cached(inode_id as int) {
                        assert(s1.kept(old(self), inode_id as int));
                    }
                    assert forall|id: int| old(self).is_cached(id) implies #[trigger] self.kept(old(self), id) by {
                        assert(s1.kept(old(self), id));
                        assert(self.kept(&s1, id));
                    }
                }
                return Err(e);
            },
        }
        proof {
            if s1.is_cached(inode_id as int) {
                self.lemma_same_view_inodes(&s1);
                self.lemma_same_inodes_kept(&s1);
            } else {
                self.lemma_pushed(&s1);
            }
            assert forall|id: int| old(self).is_cached(id) implies #[trigger] self.kept(old(self), id) by {
                assert(s1.kept(old(self), id));
                assert(self.kept(&s1, id));
            }
        }
        Ok(inode_id)
    }

    /// The name of entry `id` of directory `dir`: the bytes of its name field
    /// before the first zero. A name field without a zero is refused with
    /// `InvalidParam`.
    pub fn get_entry(&mut self, dir: INodeId, id: usize) -> (r: Result<Vec<u8>, FsError>)
        requires
            old(self).wf(),
            old(self).is_cached(dir as int),
        ensures
            final(self).wf(),
            final(self).same_view(old(self)),
            old(self).inode(dir as int).type_ != FileType::Dir ==> r == Err::<Vec<u8>, FsError>(FsError::NotDir),
            old(self).inode(dir as int).type_ == FileType::Dir && id >= old(self).inode(dir as int).blocks ==> r == Err::<Vec<u8>, FsError>(FsError::EntryNotFound),
            r is Err ==> r == Err::<Vec<u8>, FsError>(FsError::NotDir) || r == Err::<Vec<u8>, FsError>(FsError::EntryNotFound)
                || r == Err::<Vec<u8>, FsError>(FsError::InvalidParam) || r == Err::<Vec<u8>, FsError>(FsError::DeviceError),
            r == Err::<Vec<u8>, FsError>(FsError::InvalidParam) ==> spec_c_name(old(self).dir_entries(dir as int)[id as int].1) is None,
            r matches Ok(v) ==> old(self).inode(dir as int).type_ == FileType::Dir && id < old(self).inode(dir as int).blocks
                && spec_c_name(old(self).dir_entries(dir as int)[id as int].1) == Some(v@),
            old(self).inode(dir as int).type_ == FileType::Dir && id < old(self).inode(dir as int).blocks && old(self).file_reliable(dir as int)
                && spec_c_name(old(self).dir_entries(dir as int)[id as int].1) is Some ==> r is Ok,
    {
        let k = self.slot_in_memory(dir);
        proof {
            self.lemma_slot(k as int);
        }
        let di = *self.inodes[k].disk_inode.get();
        if di.type_ != FileType::Dir {
            return Err(FsError::NotDir);
        }
        if id >= di.blocks as usize {
            return Err(FsError::EntryNotFound);
        }
        proof {
            assert(DIRENT_SIZE * id + DIRENT_SIZE <= DIRENT_SIZE * di.blocks) by (nonlinear_arith)
                requires
                    id < di.blocks,
            ;
        }
        let ghost c = self.cached_bytes(k as int);
        let r = read_direntry(&mut self.inodes[k].file, id);
        proof {
            self.lemma_same_but(old(self), k as int);
            self.lemma_same_view_k(old(self), k as int);
        }
        match r {
            Ok(e) => {
                proof {
                    lemma_decoded_entry(c, id as int, e);
                }
                match e.name.name() {
                    Some(v) => Ok(v),
                    None => Err(FsError::InvalidParam),
                }
            },
            Err(_) => Err(FsError::DeviceError),
        }
    }

    /// Whether `name` is "." or ".."
    fn is_dot_name(name: &[u8]) -> (b: bool)
        ensures
            b == (name@ == dot() || name@ == dotdot()),
    {
        if name.len() == 1 && name[0] == 46u8 {
            assert(name@ =~= dot());
            true
        } else if name.len() == 2 && name[0] == 46u8 && name[1] == 46u8 {
            assert(name@ =~= dotdot());
            true
        } else {
            false
        }
    }

    /// Remove the entry named `name` from directory `dir`; the inode it names
    /// loses a link (a directory, which must hold no more than "." and "..",
    /// loses two, and `dir` one). The last entry of `dir` takes the place of
    /// the removed one. An entry that names `dir` itself is refused like ".",
    /// and an inode with fewer links than it is to lose with `WrongFs`.
    #[verifier::spinoff_prover]
    #[verifier::rlimit(60)]
    pub fn unlink(&mut self, dir: INodeId, name: &str) -> (r: Result<(), FsError>)
        requires
            old(self).wf(),
            old(self).is_cached(dir as int),
        ensures
            final(self).wf(),
            final(self).is_cached(dir as int),
            old(self).inode(dir as int).type_ != FileType::Dir ==> r == Err::<(), FsError>(FsError::NotDir),
            old(self).inode(dir as int).type_ == FileType::Dir && old(self).inode(dir as int).nlinks == 0 ==> r == Err::<(), FsError>(FsError::DirRemoved),
            old(self).inode(dir as int).type_ == FileType::Dir && old(self).inode(dir as int).nlinks > 0 && (name.spec_bytes() == dot()
                || name.spec_bytes() == dotdot()) ==> r == Err::<(), FsError>(FsError::IsDir),
            old(self).inode(dir as int).type_ == FileType::Dir && old(self).inode(dir as int).nlinks > 0 && name.spec_bytes() != dot()
                && name.spec_bytes() != dotdot() && lookup_in(old(self).dir_entries(dir as int), name.spec_bytes()) is None ==> r == Err::<(), FsError>(FsError::EntryNotFound)
                || r == Err::<(), FsError>(FsError::DeviceError),
            r is Err ==> r == Err::<(), FsError>(FsError::NotDir) || r == Err::<(), FsError>(FsError::DirRemoved) || r == Err::<(), FsError>(FsError::IsDir)
                || r == Err::<(), FsError>(FsError::EntryNotFound) || r == Err::<(), FsError>(FsError::DirNotEmpty)
                || r == Err::<(), FsError>(FsError::WrongFs) || r == Err::<(), FsError>(FsError::DeviceError),
            old(self).inode(dir as int).type_ == FileType::Dir && old(self).inode(dir as int).nlinks > 0 && name.spec_bytes() != dot()
                && name.spec_bytes() != dotdot() && lookup_in(old(self).dir_entries(dir as int), name.spec_bytes()) is None
                && old(self).file_reliable(dir as int) ==> r == Err::<(), FsError>(FsError::EntryNotFound),
            ({
                let es = old(self).dir_entries(dir as int);
                let x = es[lookup_in(es, name.spec_bytes())->0].0 as int;
                &&& old(self).inode(dir as int).type_ == FileType::Dir && old(self).inode(dir as int).nlinks > 0
                &&& name.spec_bytes() != dot() && name.spec_bytes() != dotdot()
                &&& lookup_in(es, name.spec_bytes()) is Some
                &&& x != dir && old(self).is_cached(x)
                &&& old(self).inode(x).type_ == FileType::Dir ==> old(self).inode(x).blocks <= 2 && old(self).inode(x).nlinks >= 2
                &&& old(self).inode(x).type_ != FileType::Dir ==> old(self).inode(x).nlinks >= 1
                &&& old(self).file_reliable(dir as int)
            }) ==> r is Ok,
            ({
                let es = old(self).dir_entries(dir as int);
                let x = es[lookup_in(es, name.spec_bytes())->0].0 as int;
                &&& old(self).inode(dir as int).type_ == FileType::Dir && old(self).inode(dir as int).nlinks > 0
                &&& name.spec_bytes() != dot() && name.spec_bytes() != dotdot()
                &&& lookup_in(es, name.spec_bytes()) is Some
                &&& x != dir && !old(self).is_cached(x) && old(self).file_reliable(dir as int)
                &&& (x >= old(self).free_bits().len() || old(self).free_bits()[x] || is_meta_block(x))
            }) ==> r == Err::<(), FsError>(FsError::WrongFs),
            r is Err && r != Err::<(), FsError>(FsError::DeviceError) ==> forall|id: int| old(self).is_cached(id) ==> #[trigger] final(self).kept(old(self), id),
            r is Ok ==> {
                let es = old(self).dir_entries(dir as int);
                let i = lookup_in(es, name.spec_bytes())->0;
                let x = es[i].0 as int;
                let t = final(self).inode(x).type_;
                let d: u16 = if t == FileType::Dir { 2 } else { 1 };
                &&& old(self).inode(dir as int).type_ == FileType::Dir
                &&& lookup_in(es, name.spec_bytes()) is Some
                &&& x != dir
                &&& final(self).is_cached(x)
                &&& t == FileType::Dir ==> final(self).inode(x).blocks <= 2
                &&& final(self).dir_entries(dir as int) == es.update(i, es.last()).drop_last()
                &&& final(self).inode(dir as int) == (DiskINode {
                    blocks: (old(self).inode(dir as int).blocks - 1) as u32,
                    nlinks: if t == FileType::Dir { (old(self).inode(dir as int).nlinks - 1) as u16 } else { old(self).inode(dir as int).nlinks },
                    ..old(self).inode(dir as int)
                })
                &&& old(self).is_cached(x) ==> final(self).inode(x) == (DiskINode { nlinks: (old(self).inode(x).nlinks - d) as u16, ..old(self).inode(x) })
                    && final(self).bytes(x) == old(self).bytes(x)
                &&& !old(self).is_cached(x) ==> loaded(old(self).meta(), x, DiskINode { nlinks: (final(self).inode(x).nlinks + d) as u16, ..final(self).inode(x) })
                &&& forall|id: int| old(self).is_cached(id) && id != dir && id != x ==> #[trigger] final(self).kept(old(self), id)
            },
    {
        let k = self.slot_in_memory(dir);
        proof {
            self.lemma_slot(k as int);
        }
        let ddi = *self.inodes[k].disk_inode.get();
        if ddi.type_ != FileType::Dir {
            return Err(FsError::NotDir);
        }
        if ddi.nlinks == 0 {
            return Err(FsError::DirRemoved);
        }
        if Self::is_dot_name(name.as_bytes()) {
            return Err(FsError::IsDir);
        }
        let ghost es = old(self).dir_entries(dir as int);
        proof {
            lemma_find_named(es, es.len() as int, name.spec_bytes());
        }
        let found = self.get_file_inode_and_entry_id(k, name.as_bytes());
        let ghost s1 = *self;
        proof {
            s1.lemma_same_view_inodes(old(self));
            s1.lemma_same_inodes_kept(old(self));
            assert(s1.kept(old(self), dir as int));
        }
        let (inode_id, entry_id) = match found {
            Err(e) => {
                return Err(e);
            },
            Ok(None) => {
                return Err(FsError::EntryNotFound);
            },
            Ok(Some((inode_id, ei))) => {
                proof {
                    assert(lookup_in(es, name.spec_bytes()) == Some(ei as int));
                    assert(inode_id == es[ei as int].0);
                }
                (inode_id, ei)
            },
        };
        if inode_id == dir {
            return Err(FsError::IsDir);
        }
        let ik = match self.get_inode(inode_id) {
            Ok(ik) => ik,
            Err(e) => {
                proof {
                    self.lemma_same_view_inodes(&s1);
                    self.lemma_same_inodes_kept(&s1);
                    assert(self.kept(&s1, dir as int));
                    if old(self).is_cached(inode_id as int) {
                        assert(s1.kept(old(self), inode_id as int));
                    }
                    assert forall|x: int| old(self).is_cached(x) implies #[trigger] self.kept(old(self), x) by {
                        assert(s1.kept(old(self), x));
                        assert(self.kept(&s1, x));
                    }
                }
                return Err(e);
            },
        };
        let ghost s2 = *self;
        proof {
            if s1.is_cached(inode_id as int) {
                self.lemma_same_view_inodes(&s1);
                self.lemma_same_inodes_kept(&s1);
            } else {
                self.lemma_pushed(&s1);
            }
            assert(self.kept(&s1, dir as int));
            self.lemma_slot(k as int);
            self.lemma_slot(ik as int);
        }
        let cdi = *self.inodes[ik].disk_inode.get();
        proof {
            assert forall|x: int| old(self).is_cached(x) implies #[trigger] self.kept(old(self), x) by {
                assert(s1.kept(old(self), x));
                assert(self.kept(&s1, x));
            }
            if old(self).is_cached(inode_id as int) {
                assert(self.kept(old(self), inode_id as int));
                assert(cdi == old(self).inode(inode_id as int));
            }
        }
        let is_dir = cdi.type_ == FileType::Dir;
        if is_dir && cdi.blocks > 2 {
            return Err(FsError::DirNotEmpty);
        }
        let d: u16 = if is_dir { 2 } else { 1 };
        if cdi.nlinks < d {
            return Err(FsError::WrongFs);
        }
        self.set_nlinks(ik, cdi.nlinks - d);
        let ghost s3 = *self;
        proof {
            self.lemma_view_but_kept(&s2, ik as int);
            self.lemma_slot(k as int);
        }
        if is_dir {
            self.set_nlinks(k, ddi.nlinks - 1);
            proof {
                self.lemma_view_but_kept(&s3, k as int);
                self.lemma_slot(k as int);
            }
        }
        let ghost s4 = *self;
        proof {
            assert(self.cached_inode(k as int).type_ == FileType::Dir);
            assert(entry_id < self.cached_inode(k as int).blocks);
        }
        match self.dirent_remove(k, entry_id) {
            Ok(()) => {},
            Err(e) => {
                proof {
                    self.lemma_view_but_kept(&s4, k as int);
                }
                return Err(e);
            },
        }
        proof {
            self.lemma_view_but_kept(&s4, k as int);
            self.lemma_slot(k as int);
            self.lemma_slot(ik as int);
            assert forall|x: int| old(self).is_cached(x) && x != dir && x != inode_id implies #[trigger] self.kept(old(self), x) by {
                assert(s1.kept(old(self), x));
                assert(s2.kept(&s1, x));
                assert(s3.kept(&s2, x));
                assert(s4.kept(&s3, x));
            }
            if old(self).is_cached(inode_id as int) {
                assert(s1.kept(old(self), inode_id as int));
                assert(s2.kept(&s1, inode_id as int));
            }
        }
        Ok(())
    }

    /// Add an entry named `name` in directory `dir` for inode `other`, which
    /// gains a link; a directory cannot be linked.
    #[verifier::spinoff_prover]
    #[verifier::rlimit(60)]
    pub fn link(&mut self, dir: INodeId, name: &str, other: INodeId) -> (r: Result<(), FsError>)
        requires
            old(self).wf(),
            old(self).is_cached(dir as int),
            old(self).is_cached(other as int),
            name.spec_bytes().len() <= 256,
            old(self).inode(other as int).type_ != FileType::Dir ==> old(self).inode(other as int).nlinks < u16::MAX,
        ensures
            final(self).wf(),
            final(self).is_cached(dir as int),
            old(self).inode(dir as int).type_ != FileType::Dir ==> r == Err::<(), FsError>(FsError::NotDir),
            old(self).inode(dir as int).type_ == FileType::Dir && old(self).inode(dir as int).nlinks == 0 ==> r == Err::<(), FsError>(FsError::DirRemoved),
            old(self).inode(dir as int).type_ == FileType::Dir && old(self).inode(dir as int).nlinks > 0 && lookup_in(old(self).dir_entries(dir as int), name.spec_bytes()) is Some
                ==> r == Err::<(), FsError>(FsError::EntryExist) || r == Err::<(), FsError>(FsError::DeviceError),
            old(self).inode(dir as int).type_ == FileType::Dir && old(self).inode(dir as int).nlinks > 0 && lookup_in(old(self).dir_entries(dir as int), name.spec_bytes()) is None
                && old(self).inode(other as int).type_ == FileType::Dir ==> r == Err::<(), FsError>(FsError::IsDir) || r == Err::<(), FsError>(FsError::DeviceError),
            r is Err ==> r == Err::<(), FsError>(FsError::NotDir) || r == Err::<(), FsError>(FsError::DirRemoved) || r == Err::<(), FsError>(FsError::EntryExist)
                || r == Err::<(), FsError>(FsError::IsDir) || r == Err::<(), FsError>(FsError::NoDeviceSpace) || r == Err::<(), FsError>(FsError::DeviceError),
            old(self).inode(dir as int).type_ == FileType::Dir && old(self).inode(dir as int).nlinks > 0 && old(self).file_reliable(dir as int)
                && lookup_in(old(self).dir_entries(dir as int), name.spec_bytes()) is Some ==> r == Err::<(), FsError>(FsError::EntryExist),
            old(self).inode(dir as int).type_ == FileType::Dir && old(self).inode(dir as int).nlinks > 0 && old(self).file_reliable(dir as int)
                && lookup_in(old(self).dir_entries(dir as int), name.spec_bytes()) is None && old(self).inode(other as int).type_ == FileType::Dir
                ==> r == Err::<(), FsError>(FsError::IsDir),
            old(self).inode(dir as int).type_ == FileType::Dir && old(self).inode(dir as int).nlinks > 0 && old(self).file_reliable(dir as int)
                && lookup_in(old(self).dir_entries(dir as int), name.spec_bytes()) is None && old(self).inode(other as int).type_ != FileType::Dir
                && can_append(old(self).inode(dir as int).blocks) ==> r is Ok,
            r is Err && r != Err::<(), FsError>(FsError::DeviceError) ==> forall|id: int| old(self).is_cached(id) ==> #[trigger] final(self).kept(old(self), id),
            r is Ok ==> {
                let es = old(self).dir_entries(dir as int);
                &&& old(self).inode(dir as int).type_ == FileType::Dir
                &&& old(self).inode(other as int).type_ != FileType::Dir
                &&& lookup_in(es, name.spec_bytes()) is None
                &&& final(self).dir_entries(dir as int) == es.push((other as u32, spec_zero_padded(name.spec_bytes(), 256)))
                &&& final(self).inode(dir as int) == (DiskINode { blocks: (old(self).inode(dir as int).blocks + 1) as u32, ..old(self).inode(dir as int) })
                &&& final(self).is_cached(other as int)
                &&& final(self).inode(other as int) == (DiskINode { nlinks: (old(self).inode(other as int).nlinks + 1) as u16, ..old(self).inode(other as int) })
                &&& final(self).bytes(other as int) == old(self).bytes(other as int)
                &&& forall|id: int| old(self).is_cached(id) && id != dir && id != other ==> #[trigger] final(self).kept(old(self), id)
            },
    {
        let k = self.slot_in_memory(dir);
        let ok = self.slot_in_memory(other);
        proof {
            self.lemma_slot(k as int);
            self.lemma_slot(ok as int);
        }
        let ddi = *self.inodes[k].disk_inode.get();
        if ddi.type_ != FileType::Dir {
            return Err(FsError::NotDir);
        }
        if ddi.nlinks == 0 {
            return Err(FsError::DirRemoved);
        }
        let found = self.get_file_inode_and_entry_id(k, name.as_bytes());
        let ghost s1 = *self;
        proof {
            s1.lemma_same_view_inodes(old(self));
            s1.lemma_same_inodes_kept(old(self));
            assert(s1.kept(old(self), dir as int));
            assert(s1.kept(old(self), other as int));
            s1.lemma_slot(k as int);
            s1.lemma_slot(ok as int);
        }
        match found {
            Err(e) => {
                return Err(e);
            },
            Ok(Some(_)) => {
                return Err(FsError::EntryExist);
            },
            Ok(None) => {},
        }
        let odi = *self.inodes[ok].disk_inode.get();
        if odi.type_ == FileType::Dir {
            return Err(FsError::IsDir);
        }
        if !self.append_room(k) {
            return Err(FsError::NoDeviceSpace);
        }
        let entry = DiskEntry { id: other as u32, name: Str256::from_str(name) };
        match self.dirent_append(k, &entry) {
            Ok(()) => {},
            Err(e) => {
                proof {
                    self.lemma_view_but_kept(&s1, k as int);
                }
                return Err(e);
            },
        }
        let ghost s2 = *self;
        proof {
            self.lemma_view_but_kept(&s1, k as int);
        }
        self.set_nlinks(ok, odi.nlinks + 1);
        proof {
            self.lemma_view_but_kept(&s2, ok as int);
            self.lemma_slot(k as int);
            self.lemma_slot(ok as int);
            assert forall|x: int| old(self).is_cached(x) && x != dir && x != other implies #[trigger] self.kept(old(self), x) by {
                assert(s1.kept(old(self), x));
                assert(s2.kept(&s1, x));
            }
        }
        Ok(())
    }

    /// Overwrite entry `i` of directory `k` with `entry`
    fn dirent_set(&mut self, k: usize, i: usize, entry: &DiskEntry) -> (r: Result<(), FsError>)
        requires
            old(self).wf(),
            k < old(self).ncached(),
            old(self).cached_inode(k as int).type_ == FileType::Dir,
            i < old(self).cached_inode(k as int).blocks,
        ensures
            final(self).wf(),
            final(self).view_but(old(self), k as int),
            final(self).cached_reliable(k as int) == old(self).cached_reliable(k as int),
            final(self).cached_inode(k as int) == old(self).cached_inode(k as int),
            r is Err ==> r == Err::<(), FsError>(FsError::DeviceError),
            r is Ok ==> {
                let n = old(self).cached_inode(k as int).blocks as int;
                entries(final(self).cached_bytes(k as int), n) == entries(old(self).cached_bytes(k as int), n).update(i as int, entry_of(*entry))
            },
            old(self).cached_reliable(k as int) ==> r is Ok,
    {
        proof {
            self.lemma_dir(k as int);
            let n = self.cached_inode(k as int).blocks;
            assert(DIRENT_SIZE * i + DIRENT_SIZE <= DIRENT_SIZE * n) by (nonlinear_arith)
                requires
                    i < n,
            ;
        }
        let ghost c0 = self.cached_bytes(k as int);
        let r = write_direntry(&mut self.inodes[k].file, i, entry);
        proof {
            if r is Ok {
                lemma_write_entry(c0, self.cached_inode(k as int).blocks as int, i as int, *entry);
            }
            self.lemma_same_but(old(self), k as int);
            self.lemma_view_but(old(self), k as int);
        }
        match r {
            Ok(()) => Ok(()),
            Err(_) => Err(FsError::DeviceError),
        }
    }

    /// Make the ".." entry of directory `k` in memory, the first entry so named,
    /// name `parent`; a directory without such an entry stays as it is.
    fn set_parent_entry(&mut self, k: usize, parent: INodeId) -> (r: Result<(), FsError>)
        requires
            old(self).wf(),
            k < old(self).ncached(),
            old(self).cached_inode(k as int).type_ == FileType::Dir,
            parent <= u32::MAX,
        ensures
            final(self).wf(),
            final(self).view_but(old(self), k as int),
            final(self).cached_reliable(k as int) == old(self).cached_reliable(k as int),
            final(self).cached_inode(k as int) == old(self).cached_inode(k as int),
            r is Err ==> r == Err::<(), FsError>(FsError::DeviceError),
            old(self).cached_reliable(k as int) ==> r is Ok,
            r is Ok ==> {
                let n = old(self).cached_inode(k as int).blocks as int;
                let xs = entries(old(self).cached_bytes(k as int), n);
                let ys = entries(final(self).cached_bytes(k as int), n);
                &&& lookup_in(xs, dotdot()) is None ==> ys == xs
                &&& lookup_in(xs, dotdot()) is Some ==> ys == xs.update(
                    lookup_in(xs, dotdot())->0,
                    (parent as u32, spec_zero_padded(dotdot(), 256)),
                )
                &&& lookup_in(ys, dotdot()) matches Some(j) ==> ys[j].0 == parent
            },
    {
        let dotdot_name: Vec<u8> = vec![46u8, 46u8];
        let ghost n = self.cached_inode(k as int).blocks as int;
        let ghost xs = entries(self.cached_bytes(k as int), n);
        proof {
            assert(dotdot_name@ =~= dotdot());
            lemma_find_named(xs, n, dotdot());
            self.lemma_dir(k as int);
        }
        let up = self.get_file_inode_and_entry_id(k, dotdot_name.as_slice());
        let ghost s1 = *self;
        proof {
            assert(s1.cached_id(k as int) == old(self).cached_id(k as int));
            assert(s1.cached_inode(k as int) == old(self).cached_inode(k as int));
            assert(s1.cached_reliable(k as int) == old(self).cached_reliable(k as int));
            assert(s1.cached_bytes(k as int) == old(self).cached_bytes(k as int));
            assert forall|j: int| 0 <= j < old(self).ncached() && j != k implies #[trigger] s1.cached_inode(j) == old(self).cached_inode(j)
                && s1.cached_bytes(j) == old(self).cached_bytes(j) && s1.cached_reliable(j) == old(self).cached_reliable(j) by {
                assert(s1.cached_id(j) == old(self).cached_id(j));
            }
            assert(s1.view_but(old(self), k as int));
        }
        match up {
            Err(e) => {
                return Err(e);
            },
            Ok(None) => {
                proof {
                    assert(entries(self.cached_bytes(k as int), n) == xs);
                }
                Ok(())
            },
            Ok(Some((_, j))) => {
                let e = DiskEntry { id: parent as u32, name: Str256::from_slice(dotdot_name.as_slice()) };
                let r = self.dirent_set(k, j, &e);
                proof {
                    if r is Ok {
                        let ys = entries(self.cached_bytes(k as int), n);
                        crate::structs::lemma_padded_name(dotdot(), 256);
                        assert(entry_of(e) == (parent as u32, spec_zero_padded(dotdot(), 256)));
                        assert(ys == xs.update(j as int, (parent as u32, spec_zero_padded(dotdot(), 256))));
                        lemma_find_named_prefix(xs, ys, j as int, dotdot());
                        lemma_find_named(xs, j as int, dotdot());
                        assert(find_named(ys, j as int + 1, dotdot()) == Some(j as int));
                        lemma_find_named_mono(ys, j as int + 1, n, dotdot());
                    }
                }
                r
            },
        }
    }

    /// Whether a move of `old_name` out of directory `dir` into directory
    /// `target` passes the checks that come before any lookup: both are
    /// directories that are not removed, and the name is not "." or ".."
    pub open spec fn names_valid_for_move(&self, dir: int, old_name: Seq<u8>, target: int) -> bool {
        &&& self.inode(dir).type_ == FileType::Dir && self.inode(dir).nlinks > 0
        &&& old_name != dot() && old_name != dotdot()
        &&& self.inode(target).type_ == FileType::Dir && self.inode(target).nlinks > 0
    }

    /// Move the entry named `old_name` of directory `dir` into directory
    /// `target` under the name `new_name`. Within one directory the entry is
    /// renamed in place; otherwise it is appended to `target`, the last entry
    /// of `dir` takes its place, and a directory moved carries one link from
    /// `dir` to `target`.
    #[verifier::spinoff_prover]
    #[verifier::rlimit(80)]
    pub fn move_(&mut self, dir: INodeId, old_name: &str, target: INodeId, new_name: &str) -> (r: Result<(), FsError>)
        requires
            old(self).wf(),
            old(self).is_cached(dir as int),
            old(self).is_cached(target as int),
            new_name.spec_bytes().len() <= 256,
            old(self).inode(target as int).nlinks < u16::MAX,
        ensures
            final(self).wf(),
            final(self).is_cached(dir as int),
            final(self).is_cached(target as int),
            old(self).inode(dir as int).type_ != FileType::Dir ==> r == Err::<(), FsError>(FsError::NotDir),
            old(self).inode(dir as int).type_ == FileType::Dir && old(self).inode(dir as int).nlinks == 0 ==> r == Err::<(), FsError>(FsError::DirRemoved),
            old(self).inode(dir as int).type_ == FileType::Dir && old(self).inode(dir as int).nlinks > 0 && (old_name.spec_bytes() == dot()
                || old_name.spec_bytes() == dotdot()) ==> r == Err::<(), FsError>(FsError::IsDir),
            r is Err ==> r == Err::<(), FsError>(FsError::NotDir) || r == Err::<(), FsError>(FsError::DirRemoved) || r == Err::<(), FsError>(FsError::IsDir)
                || r == Err::<(), FsError>(FsError::EntryExist) || r == Err::<(), FsError>(FsError::EntryNotFound)
                || r == Err::<(), FsError>(FsError::NoDeviceSpace) || r == Err::<(), FsError>(FsError::WrongFs)
                || r == Err::<(), FsError>(FsError::DeviceError),
            old(self).names_valid_for_move(dir as int, old_name.spec_bytes(), target as int) && old(self).file_reliable(target as int)
                && lookup_in(old(self).dir_entries(target as int), new_name.spec_bytes()) is Some ==> r == Err::<(), FsError>(FsError::EntryExist),
            old(self).names_valid_for_move(dir as int, old_name.spec_bytes(), target as int) && old(self).file_reliable(target as int)
                && old(self).file_reliable(dir as int) && lookup_in(old(self).dir_entries(target as int), new_name.spec_bytes()) is None
                && lookup_in(old(self).dir_entries(dir as int), old_name.spec_bytes()) is None ==> r == Err::<(), FsError>(FsError::EntryNotFound),
            old(self).names_valid_for_move(dir as int, old_name.spec_bytes(), target as int) && old(self).file_reliable(target as int)
                && old(self).file_reliable(dir as int) && lookup_in(old(self).dir_entries(target as int), new_name.spec_bytes()) is None
                && lookup_in(old(self).dir_entries(dir as int), old_name.spec_bytes()) is Some
                && (dir == target || ({
                    let x = old(self).dir_entries(dir as int)[lookup_in(old(self).dir_entries(dir as int), old_name.spec_bytes())->0].0 as int;
                    &&& old(self).is_cached(x)
                    &&& can_append(old(self).inode(target as int).blocks)
                    &&& old(self).inode(x).type_ == FileType::Dir ==> old(self).file_reliable(x)
                })) ==> r is Ok,
            ({
                let es = old(self).dir_entries(dir as int);
                let x = es[lookup_in(es, old_name.spec_bytes())->0].0 as int;
                &&& old(self).names_valid_for_move(dir as int, old_name.spec_bytes(), target as int)
                &&& old(self).file_reliable(target as int) && old(self).file_reliable(dir as int)
                &&& lookup_in(old(self).dir_entries(target as int), new_name.spec_bytes()) is None
                &&& lookup_in(es, old_name.spec_bytes()) is Some
                &&& dir != target && !old(self).is_cached(x)
                &&& (x >= old(self).free_bits().len() || old(self).free_bits()[x] || is_meta_block(x))
            }) ==> r == Err::<(), FsError>(FsError::WrongFs),
            r is Err && r != Err::<(), FsError>(FsError::DeviceError) ==> forall|id: int| old(self).is_cached(id) ==> #[trigger] final(self).kept(old(self), id),
            r is Ok ==> {
                let es = old(self).dir_entries(dir as int);
                let ts = old(self).dir_entries(target as int);
                let i = lookup_in(es, old_name.spec_bytes())->0;
                let x = es[i].0;
                let e = (x, spec_zero_padded(new_name.spec_bytes(), 256));
                &&& old(self).inode(dir as int).type_ == FileType::Dir && old(self).inode(dir as int).nlinks > 0
                &&& old(self).inode(target as int).type_ == FileType::Dir && old(self).inode(target as int).nlinks > 0
                &&& old_name.spec_bytes() != dot() && old_name.spec_bytes() != dotdot()
                &&& lookup_in(ts, new_name.spec_bytes()) is None
                &&& lookup_in(es, old_name.spec_bytes()) is Some
                &&& dir == target ==> final(self).dir_entries(dir as int) == es.update(i, e) && final(self).inode(dir as int) == old(self).inode(dir as int)
                &&& dir != target ==> {
                    let moved_dir = final(self).is_cached(x as int) && final(self).inode(x as int).type_ == FileType::Dir;
                    &&& final(self).dir_entries(dir as int) == es.update(i, es.last()).drop_last()
                    &&& final(self).dir_entries(target as int) == ts.push(e)
                    &&& final(self).inode(dir as int) == (DiskINode {
                        blocks: (old(self).inode(dir as int).blocks - 1) as u32,
                        nlinks: if moved_dir { (old(self).inode(dir as int).nlinks - 1) as u16 } else { old(self).inode(dir as int).nlinks },
                        ..old(self).inode(dir as int)
                    })
                    &&& final(self).inode(target as int) == (DiskINode {
                        blocks: (old(self).inode(target as int).blocks + 1) as u32,
                        nlinks: if moved_dir { (old(self).inode(target as int).nlinks + 1) as u16 } else { old(self).inode(target as int).nlinks },
                        ..old(self).inode(target as int)
                    })
                    &&& final(self).is_cached(x as int)
                    &&& moved_dir && x != target && x != dir ==> (lookup_in(final(self).dir_entries(x as int), dotdot()) matches Some(j)
                        ==> final(self).dir_entries(x as int)[j].0 == target)
                    &&& moved_dir && x != target && x != dir && old(self).is_cached(x as int) ==> {
                        let xs = old(self).dir_entries(x as int);
                        &&& final(self).inode(x as int) == old(self).inode(x as int)
                        &&& lookup_in(xs, dotdot()) is None ==> final(self).dir_entries(x as int) == xs
                        &&& lookup_in(xs, dotdot()) is Some ==> final(self).dir_entries(x as int) == xs.update(
                            lookup_in(xs, dotdot())->0,
                            (target as u32, spec_zero_padded(dotdot(), 256)),
                        )
                    }
                }
                &&& forall|id: int| old(self).is_cached(id) && id != dir && id != target
                    && !(dir != target && id == x && old(self).inode(id).type_ == FileType::Dir) ==> #[trigger] final(self).kept(old(self), id)
            },
    {
        let k = self.slot_in_memory(dir);
        let tk = self.slot_in_memory(target);
        proof {
            self.lemma_slot(k as int);
            self.lemma_slot(tk as int);
        }
        let ddi = *self.inodes[k].disk_inode.get();
        if ddi.type_ != FileType::Dir {
            return Err(FsError::NotDir);
        }
        if ddi.nlinks == 0 {
            return Err(FsError::DirRemoved);
        }
        if Self::is_dot_name(old_name.as_bytes()) {
            return Err(FsError::IsDir);
        }
        let tdi = *self.inodes[tk].disk_inode.get();
        if tdi.type_ != FileType::Dir {
            return Err(FsError::NotDir);
        }
        if tdi.nlinks == 0 {
            return Err(FsError::DirRemoved);
        }
        let ghost es = old(self).dir_entries(dir as int);
        let ghost ts = old(self).dir_entries(target as int);
        proof {
            lemma_find_named(es, es.len() as int, old_name.spec_bytes());
        }
        let exist = self.get_file_inode_and_entry_id(tk, new_name.as_bytes());
        let ghost s0 = *self;
        proof {
            s0.lemma_same_view_kept(old(self));
            assert(s0.kept(old(self), dir as int));
            assert(s0.kept(old(self), target as int));
            s0.lemma_slot(k as int);
            s0.lemma_slot(tk as int);
        }
        match exist {
            Err(e) => {
                return Err(e);
            },
            Ok(Some(_)) => {
                return Err(FsError::EntryExist);
            },
            Ok(None) => {},
        }
        let found = self.get_file_inode_and_entry_id(k, old_name.as_bytes());
        let ghost s1 = *self;
        proof {
            s1.lemma_same_view_kept(&s0);
            assert(s1.kept(&s0, dir as int));
            assert(s1.kept(&s0, target as int));
            s1.lemma_slot(k as int);
            s1.lemma_slot(tk as int);
            assert forall|x: int| old(self).is_cached(x) implies #[trigger] s1.kept(old(self), x) by {
                assert(s0.kept(old(self), x));
                assert(s1.kept(&s0, x));
            }
        }
        let (inode_id, entry_id) = match found {
            Err(e) => {
                return Err(e);
            },
            Ok(None) => {
                return Err(FsError::EntryNotFound);
            },
            Ok(Some((inode_id, ei))) => {
                proof {
                    assert(lookup_in(es, old_name.spec_bytes()) == Some(ei as int));
                    assert(inode_id == es[ei as int].0);
                }
                (inode_id, ei)
            },
        };
        let entry = DiskEntry { id: inode_id as u32, name: Str256::from_str(new_name) };
        if k == tk {
            proof {
                assert(dir == target);
            }
            let r = self.dirent_set(k, entry_id, &entry);
            proof {
                self.lemma_view_but_kept(&s1, k as int);
                self.lemma_slot(k as int);
                assert forall|x: int| old(self).is_cached(x) && x != dir && x != target implies #[trigger] self.kept(old(self), x) by {
                    assert(s1.kept(old(self), x));
                    assert(self.kept(&s1, x));
                }
            }
            return r;
        }
        proof {
            assert(dir != target);
        }
        let ck = match self.get_inode(inode_id) {
            Ok(ck) => ck,
            Err(e) => {
                proof {
                    self.lemma_same_view_inodes(&s1);
                    self.lemma_same_inodes_kept(&s1);
                    assert(self.kept(&s1, dir as int));
                    assert(self.kept(&s1, target as int));
                    if old(self).is_cached(inode_id as int) {
                        assert(s1.kept(old(self), inode_id as int));
                    }
                    assert forall|x: int| old(self).is_cached(x) implies #[trigger] self.kept(old(self), x) by {
                        assert(s1.kept(old(self), x));
                        assert(self.kept(&s1, x));
                    }
                }
                return Err(e);
            },
        };
        let ghost s2 = *self;
        proof {
            if s1.is_cached(inode_id as int) {
                self.lemma_same_view_inodes(&s1);
                self.lemma_same_inodes_kept(&s1);
            } else {
                self.lemma_pushed(&s1);
            }
            assert(self.kept(&s1, dir as int));
            assert(self.kept(&s1, target as int));
            self.lemma_slot(k as int);
            self.lemma_slot(tk as int);
            self.lemma_slot(ck as int);
        }
        let moved_dir = self.inodes[ck].disk_inode.get().type_ == FileType::Dir;
        if !self.append_room(tk) {
            proof {
                assert forall|x: int| old(self).is_cached(x) implies #[trigger] self.kept(old(self), x) by {
                    assert(s1.kept(old(self), x));
                    assert(self.kept(&s1, x));
                }
            }
            return Err(FsError::NoDeviceSpace);
        }
        match self.dirent_append(tk, &entry) {
            Ok(()) => {},
            Err(e) => {
                proof {
                    self.lemma_view_but_kept(&s2, tk as int);
                }
                return Err(e);
            },
        }
        let ghost s3 = *self;
        proof {
            self.lemma_view_but_kept(&s2, tk as int);
            self.lemma_slot(k as int);
            self.lemma_slot(tk as int);
        }
        match self.dirent_remove(k, entry_id) {
            Ok(()) => {},
            Err(e) => {
                proof {
                    self.lemma_view_but_kept(&s3, k as int);
                }
                return Err(e);
            },
        }
        let ghost s4 = *self;
        proof {
            self.lemma_view_but_kept(&s3, k as int);
            self.lemma_slot(k as int);
            self.lemma_slot(tk as int);
        }
        proof {
            assert forall|x: int| old(self).is_cached(x) && x != dir && x != target implies #[trigger] s4.kept(old(self), x) by {
                assert(s1.kept(old(self), x));
                assert(s2.kept(&s1, x));
                assert(s3.kept(&s2, x));
                assert(s4.kept(&s3, x));
            }
        }
        if moved_dir {
            self.set_nlinks(k, ddi.nlinks - 1);
            let ghost s5 = *self;
            proof {
                self.lemma_view_but_kept(&s4, k as int);
                self.lemma_slot(tk as int);
            }
            self.set_nlinks(tk, tdi.nlinks + 1);
            proof {
                self.lemma_view_but_kept(&s5, tk as int);
                assert forall|x: int| old(self).is_cached(x) && x != dir && x != target implies #[trigger] self.kept(old(self), x) by {
                    assert(s4.kept(old(self), x));
                    assert(s5.kept(&s4, x));
                    assert(self.kept(&s5, x));
                }
            }
        }
        let ghost s6 = *self;
        proof {
            let ci = (self.cached_inode(ck as int), s4.cached_inode(ck as int), s3.cached_inode(ck as int), s2.cached_inode(ck as int));
            assert(self.cached_reliable(ck as int) == s4.cached_reliable(ck as int));
            assert(s4.cached_reliable(ck as int) == s3.cached_reliable(ck as int));
            assert(s3.cached_reliable(ck as int) == s2.cached_reliable(ck as int));
            if old(self).is_cached(inode_id as int) {
                assert(s1.kept(old(self), inode_id as int));
                assert(s1.slot(inode_id as int) == old(self).slot(inode_id as int));
                assert(s2.cached_reliable(ck as int) == s1.cached_reliable(ck as int));
                assert(s1.cached_reliable(ck as int) == old(self).cached_reliable(ck as int));
                assert(self.cached_reliable(ck as int) == old(self).file_reliable(inode_id as int));
            }
            self.lemma_slot(k as int);
            self.lemma_slot(tk as int);
            self.lemma_slot(ck as int);
        }
        if moved_dir && ck != k && ck != tk {
            match self.set_parent_entry(ck, target) {
                Ok(()) => {},
                Err(e) => {
                    proof {
                        self.lemma_view_but_kept(&s6, ck as int);
                    }
                    return Err(e);
                },
            }
            proof {
                self.lemma_view_but_kept(&s6, ck as int);
                self.lemma_slot(ck as int);
                let x = inode_id as int;
                s6.lemma_slot(ck as int);
                assert(s6.cached_id(ck as int) == x);
                assert(s6.slot(x) == ck);
                assert(self.slot(x) == ck);
                assert(self.inode(x) == s6.inode(x));
                assert(self.dir_entries(x) == entries(self.cached_bytes(ck as int), s6.cached_inode(ck as int).blocks as int));
                assert(s6.dir_entries(x) == entries(s6.cached_bytes(ck as int), s6.cached_inode(ck as int).blocks as int));
                if old(self).is_cached(x) {
                    assert(s6.kept(old(self), x));
                }
                assert forall|id: int| old(self).is_cached(id) && id != dir && id != target && id != x implies #[trigger] self.kept(old(self), id) by {
                    assert(s6.kept(old(self), id));
                    assert(self.kept(&s6, id));
                }
            }
        }
        proof {
            self.lemma_slot(k as int);
            self.lemma_slot(tk as int);
            self.lemma_slot(ck as int);
        }
        Ok(())
    }

    /// The root directory: inode `BLKN_ROOT`, loaded when it is not in memory
    pub fn root_inode(&mut self) -> (r: Result<INodeId, FsError>)
        requires
            old(self).wf(),
        ensures
            final(self).wf(),
            forall|id: int| old(self).is_cached(id) ==> #[trigger] final(self).kept(old(self), id),
            r is Ok ==> r == Ok::<INodeId, FsError>(BLKN_ROOT) && final(self).is_cached(BLKN_ROOT as int),
            old(self).is_cached(BLKN_ROOT as int) ==> r is Ok,
            r is Err ==> r == Err::<INodeId, FsError>(FsError::WrongFs) || r == Err::<INodeId, FsError>(FsError::DeviceError),
    {
        let r = self.get_inode(BLKN_ROOT);
        proof {
            if r is Ok && !old(self).is_cached(BLKN_ROOT as int) {
                self.lemma_pushed(old(self));
            } else {
                assert(self.same_view(old(self)));
                self.lemma_same_view_kept(old(self));
            }
        }
        match r {
            Ok(_) => Ok(BLKN_ROOT),
            Err(e) => Err(e),
        }
    }

    /// Information about the file system, from the superblock
    pub fn info(&self) -> (r: FsInfo)
        ensures
            r == (FsInfo {
                bsize: BLKSIZE,
                frsize: BLKSIZE,
                blocks: self.super_block().blocks as usize,
                bfree: self.super_block().unused_blocks as usize,
                bavail: self.super_block().unused_blocks as usize,
                files: self.super_block().blocks as usize,
                ffree: self.super_block().unused_blocks as usize,
                namemax: MAX_FNAME_LEN,
            }),
    {
        let sb = self.super_block.get();
        FsInfo {
            bsize: BLKSIZE,
            frsize: BLKSIZE,
            blocks: sb.blocks as usize,
            bfree: sb.unused_blocks as usize,
            bavail: sb.unused_blocks as usize,
            files: sb.blocks as usize,
            ffree: sb.unused_blocks as usize,
            namemax: MAX_FNAME_LEN,
        }
    }

    /// Whether the superblock in memory changed since it was last written
    pub closed spec fn super_block_dirty(&self) -> bool {
        self.super_block.is_dirty()
    }

    /// Whether the free map in memory changed since it was last written
    pub closed spec fn free_map_dirty(&self) -> bool {
        self.free_map.is_dirty()
    }

    /// Load SEFS from the metadata file of `device`, opened under its name; what
    /// the file must hold is said at `open_meta`.
    pub fn open(device: S, time_provider: T, uuid_provider: U) -> (r: Result<Self, FsError>)
        ensures
            r matches Ok(fs) ==> {
                &&& fs.wf()
                &&& fs.ncached() == 0
                &&& SuperBlock::spec_decodes(fs.meta().subrange(0, SUPER_BLOCK_SIZE as int), fs.super_block())
                &&& fs.super_block().magic == MAGIC
                &&& bits_of_bytes(fs.free_bits(), freemap_bytes(fs.meta(), fs.super_block().groups as int))
                &&& meta_image_ok(fs.meta())
                &&& !fs.super_block_dirty() && !fs.free_map_dirty()
            },
            r matches Err(e) ==> e == FsError::DeviceError || e == FsError::WrongFs,
    {
        let mut device = device;
        let meta_file = match device.open(METAFILE_NAME) {
            Ok(f) => f,
            Err(_) => {
                return Err(FsError::DeviceError);
            },
        };
        Self::open_meta(device, meta_file, time_provider, uuid_provider)
    }

    /// Load SEFS from its metadata file `meta_file` on `device`: the superblock from its
    /// first block and the free map from the second block of each group. A
    /// superblock without the magic number, with no group, more groups than
    /// a map holds, a block count other than that of its groups, or a count
    /// of free blocks other than that of the map, and a map that marks free
    /// the block of the superblock or of a free map, are refused with `WrongFs`.
    #[verifier::loop_isolation(false)]
    pub fn open_meta(device: S, meta_file: S::F, time_provider: T, uuid_provider: U) -> (r: Result<Self, FsError>)
        ensures
            r matches Ok(fs) ==> {
                &&& fs.wf()
                &&& fs.ncached() == 0
                &&& fs.meta() == meta_file.content()
                &&& fs.meta_reliable() == meta_file.reliable()
                &&& SuperBlock::spec_decodes(fs.meta().subrange(0, SUPER_BLOCK_SIZE as int), fs.super_block())
                &&& fs.super_block().magic == MAGIC
                &&& bits_of_bytes(fs.free_bits(), freemap_bytes(fs.meta(), fs.super_block().groups as int))
                &&& !fs.super_block_dirty() && !fs.free_map_dirty()
            },
            r is Ok ==> meta_image_ok(meta_file.content()),
            meta_file.reliable() && meta_image_ok(meta_file.content()) ==> r is Ok,
            meta_file.reliable() && SUPER_BLOCK_SIZE <= meta_file.content().len() && !meta_sb_ok(meta_file.content())
                ==> r == Err::<Self, FsError>(FsError::WrongFs),
            meta_file.reliable() && SUPER_BLOCK_SIZE <= meta_file.content().len() && meta_sb_ok(meta_file.content())
                && meta_fits(meta_file.content()) && !meta_map_ok(meta_file.content()) ==> r == Err::<Self, FsError>(FsError::WrongFs),
            r matches Err(e) ==> e == FsError::DeviceError || e == FsError::WrongFs,
    {
        let mut meta_file = meta_file;
        let ghost m = meta_file.content();
        let ghost rel = meta_file.reliable();
        let mut buf: Vec<u8> = vec![0u8; SUPER_BLOCK_SIZE];
        proof {
            crate::sefs_structs::lemma_struct_sizes();
        }
        match meta_file.read_block(BLKN_SUPER, buf.as_mut_slice()) {
            Ok(()) => {},
            Err(_) => {
                return Err(FsError::DeviceError);
            },
        }
        let sb = SuperBlock::from_buf(buf.as_slice());
        proof {
            assert(buf@ =~= m.subrange(0, SUPER_BLOCK_SIZE as int));
            assert(meta_groups(m) == sb.groups);
        }
        if !sb.check() {
            return Err(FsError::WrongFs);
        }
        if sb.groups == 0 || sb.groups as usize >= MAX_MAP_BITS / BLKBITS || sb.blocks as usize != sb.groups as usize * BLKBITS {
            return Err(FsError::WrongFs);
        }
        let groups = sb.groups as usize;
        proof {
            assert(meta_sb_ok(m));
        }
        let mut bytes: Vec<u8> = Vec::new();
        let mut i: usize = 0;
        while i < groups
            invariant
                groups == sb.groups,
                groups < MAX_MAP_BITS / BLKBITS,
                i <= groups,
                meta_file.content() == m,
                meta_file.reliable() == rel,
                meta_sb_ok(m),
                groups == meta_groups(m),
                SUPER_BLOCK_SIZE <= m.len(),
                bytes@ == freemap_bytes(m, i as int),
                forall|h: int| 0 <= h < i ==> #[trigger] freemap_block_of_group(h) * BLKSIZE + BLKSIZE <= m.len(),
            decreases groups - i,
        {
            let mut block: Vec<u8> = vec![0u8; BLKSIZE];
            proof {
                assert(freemap_block_of_group(i as int) * BLKSIZE + BLKSIZE <= usize::MAX) by (nonlinear_arith)
                    requires
                        i < MAX_MAP_BITS / BLKBITS,
                ;
            }
            proof {
                if meta_fits(m) {
                    assert(freemap_block_of_group(i as int) * BLKSIZE + BLKSIZE <= m.len());
                }
            }
            match meta_file.read_block(Self::get_freemap_block_id_of_group(i), block.as_mut_slice()) {
                Ok(()) => {},
                Err(_) => {
                    return Err(FsError::DeviceError);
                },
            }
            let ghost prev = bytes@;
            let mut j: usize = 0;
            while j < BLKSIZE
                invariant
                    j <= BLKSIZE,
                    block@.len() == BLKSIZE,
                    bytes@ == prev + block@.subrange(0, j as int),
                decreases BLKSIZE - j,
            {
                bytes.push(block[j]);
                j = j + 1;
                assert(bytes@ =~= prev + block@.subrange(0, j as int));
            }
            proof {
                let f = freemap_bytes(m, i + 1);
                assert forall|t: int| 0 <= t < f.len() implies #[trigger] bytes@[t] == f[t] by {
                    if t < prev.len() {
                        assert(t / BLKSIZE as int == (t / BLKSIZE as int));
                        assert(freemap_bytes(m, i as int)[t] == f[t]);
                    } else {
                        assert(t - prev.len() < BLKSIZE);
                        assert(t / BLKSIZE as int == i) by (nonlinear_arith)
                            requires
                                i * BLKSIZE <= t < i * BLKSIZE + BLKSIZE,
                        ;
                        assert(t % BLKSIZE as int == t - i * BLKSIZE) by (nonlinear_arith)
                            requires
                                i * BLKSIZE <= t < i * BLKSIZE + BLKSIZE,
                        ;
                    }
                }
                assert(bytes@ =~= f);
            }
            i = i + 1;
        }
        let map = BlockMap::from_bytes(bytes.as_slice());
        proof {
            assert(meta_fits(m));
            assert(map@ =~= bits_of(freemap_bytes(m, meta_groups(m))));
        }
        let free = count_free(&map);
        if free != sb.unused_blocks as usize {
            return Err(FsError::WrongFs);
        }
        if map.get(BLKN_SUPER) {
            return Err(FsError::WrongFs);
        }
        let mut g: usize = 0;
        while g < groups
            invariant
                g <= groups,
                groups == sb.groups,
                groups < MAX_MAP_BITS / BLKBITS,
                map@.len() == groups * BLKBITS,
                forall|h: int| 0 <= h < g ==> !#[trigger] map@[freemap_block_of_group(h)],
            decreases groups - g,
        {
            proof {
                assert(freemap_block_of_group(g as int) < map@.len()) by (nonlinear_arith)
                    requires
                        g < groups,
                        map@.len() == groups * BLKBITS,
                ;
            }
            if map.get(Self::get_freemap_block_id_of_group(g)) {
                proof {
                    assert(is_meta_block(freemap_block_of_group(g as int))) by {
                        assert((BLKBITS * g + BLKN_FREEMAP) % (BLKBITS as int) == BLKN_FREEMAP) by (nonlinear_arith)
                            requires
                                g >= 0,
                                BLKBITS == 1024,
                                BLKN_FREEMAP == 1,
                        ;
                    }
                }
                return Err(FsError::WrongFs);
            }
            g = g + 1;
        }
        proof {
            assert forall|b: int| 0 <= b < map@.len() && is_meta_block(b) implies !#[trigger] map@[b] by {
                if b != BLKN_SUPER {
                    let h = b / (BLKBITS as int);
                    assert(b == BLKBITS * h + BLKN_FREEMAP) by (nonlinear_arith)
                        requires
                            b % (BLKBITS as int) == BLKN_FREEMAP,
                            h == b / (BLKBITS as int),
                            BLKBITS == 1024,
                    ;
                    assert(0 <= h < groups) by (nonlinear_arith)
                        requires
                            0 <= b < groups * BLKBITS,
                            h == b / (BLKBITS as int),
                            BLKBITS == 1024,
                    ;
                    assert(!map@[freemap_block_of_group(h)]);
                }
            }
        }
        let fs = SEFS {
            super_block: Dirty::new(sb),
            free_map: Dirty::new(map),
            inodes: Vec::new(),
            device,
            meta_file,
            time_provider,
            uuid_provider,
        };
        proof {
            assert(buf@ =~= m.subrange(0, SUPER_BLOCK_SIZE as int));
        }
        Ok(fs)
    }

    /// Create a new SEFS on `device`: one group of blocks, of which the
    /// superblock, the free map and the root directory take the first three;
    /// the root holds "." and "..", both naming itself, and is written to
    /// the metadata file.
    #[verifier::rlimit(40)]
    pub fn create(device: S, time_provider: T, uuid_provider: U) -> (r: Result<Self, FsError>)
        ensures
            r matches Ok(fs) ==> {
                &&& fs.wf()
                &&& fs.super_block() == (SuperBlock { magic: MAGIC, blocks: BLKBITS as u32, unused_blocks: (BLKBITS - 3) as u32, groups: 1 })
                &&& fs.free_bits() == Seq::new(BLKBITS as nat, |i: int| i >= 3)
                &&& fs.ncached() == 1
                &&& fs.is_cached(BLKN_ROOT as int)
                &&& fs.inode(BLKN_ROOT as int).type_ == FileType::Dir
                &&& fs.inode(BLKN_ROOT as int).mode == if device.integrity_only() { 0o444u16 } else { 0o644u16 }
                &&& fs.inode(BLKN_ROOT as int).nlinks == 2
                &&& fs.inode(BLKN_ROOT as int).blocks == 2
                &&& fs.inode(BLKN_ROOT as int).size == 0
                &&& fs.dir_entries(BLKN_ROOT as int) == seq![
                    (BLKN_ROOT as u32, spec_zero_padded(dot(), 256)),
                    (BLKN_ROOT as u32, spec_zero_padded(dotdot(), 256)),
                ]
                &&& !fs.inode_dirty(BLKN_ROOT as int)
            },
            r matches Err(e) ==> e == FsError::DeviceError,
            device.reliable() ==> r is Ok,
    {
        let mode: u16 = if device.is_integrity_only() { 0o444 } else { 0o644 };
        let blocks = BLKBITS;
        let super_block = SuperBlock { magic: MAGIC, blocks: blocks as u32, unused_blocks: blocks as u32 - 2, groups: 1 };
        let mut free_map = BlockMap::new();
        free_map.extend(false, 2);
        free_map.extend(true, blocks - 2);
        proof {
            assert(Seq::<bool>::empty() + Seq::new(2, |i: int| false) =~= Seq::new(2, |i: int| false));
            lemma_count_set_extend(Seq::<bool>::empty(), false, 2);
            assert(count_set(Seq::<bool>::empty()) == 0);
            lemma_count_set_extend(Seq::new(2, |i: int| false), true, (blocks - 2) as nat);
            assert(free_map@ =~= Seq::new(BLKBITS as nat, |i: int| i >= 2));
        }
        let mut device = device;
        let mut meta_file = match device.create(METAFILE_NAME) {
            Ok(f) => f,
            Err(_) => {
                return Err(FsError::DeviceError);
            },
        };
        match meta_file.set_len(blocks * BLKSIZE) {
            Ok(()) => {},
            Err(_) => {
                return Err(FsError::DeviceError);
            },
        }
        let mut sefs = SEFS {
            super_block: Dirty::new_dirty(super_block),
            free_map: Dirty::new_dirty(free_map),
            inodes: Vec::new(),
            device,
            meta_file,
            time_provider,
            uuid_provider,
        };
        let ghost s0 = sefs;
        let k = match sefs.new_inode(FileType::Dir, mode) {
            Ok(k) => k,
            Err(_) => {
                return Err(FsError::DeviceError);
            },
        };
        proof {
            sefs.lemma_slot(k as int);
            assert(s0.free_bits()[2]);
            assert(sefs.cached_id(0) == BLKN_ROOT);
            assert(sefs.free_bits() =~= Seq::new(BLKBITS as nat, |i: int| i >= 3));
        }
        match sefs.dirent_init(k, BLKN_ROOT) {
            Ok(()) => {},
            Err(e) => {
                return Err(e);
            },
        }
        sefs.set_nlinks(k, 2);
        proof {
            sefs.lemma_slot(k as int);
        }
        let ghost s1 = sefs;
        match sefs.sync_all(BLKN_ROOT) {
            Ok(()) => {},
            Err(e) => {
                return Err(e);
            },
        }
        proof {
            sefs.lemma_slot(k as int);
            assert(sefs.cached_id(0) == s1.cached_id(0));
        }
        Ok(sefs)
    }

    /// Write the superblock and the free map to the metadata file when they
    /// changed, then every inode in memory that changed, then flush the
    /// metadata file. The superblock goes to the first bytes of the file,
    /// the free map of each group to the block of its group, and each inode
    /// to its own block.
    #[verifier::rlimit(60)]
    pub fn sync(&mut self) -> (r: Result<(), FsError>)
        requires
            old(self).wf(),
        ensures
            final(self).wf(),
            final(self).same_inodes(old(self)),
            final(self).super_block() == old(self).super_block(),
            final(self).free_bits() == old(self).free_bits(),
            final(self).meta_reliable() == old(self).meta_reliable(),
            r is Err ==> r == Err::<(), FsError>(FsError::DeviceError),
            r is Ok ==> !final(self).super_block_dirty() && !final(self).free_map_dirty() && forall|k: int|
                0 <= k < final(self).ncached() ==> !#[trigger] final(self).cached_dirty(k),
            r is Ok && old(self).super_block_dirty() ==> SuperBlock::spec_decodes(
                final(self).meta().subrange(0, SUPER_BLOCK_SIZE as int),
                old(self).super_block(),
            ),
            r is Ok && old(self).free_map_dirty() ==> bits_of_bytes(
                old(self).free_bits(),
                freemap_bytes(final(self).meta(), old(self).super_block().groups as int),
            ),
            r is Ok ==> forall|k: int| 0 <= k < old(self).ncached() && #[trigger] old(self).cached_dirty(k) ==> loaded(
                final(self).meta(),
                old(self).cached_id(k),
                old(self).cached_inode(k),
            ),
            old(self).meta_reliable() && (forall|k: int| 0 <= k < old(self).ncached() ==> #[trigger] old(self).cached_reliable(k)) ==> r is Ok,
    {
        let ghost sbb = old(self).super_block().spec_buf();
        let groups = self.super_block.get().groups as usize;
        proof {
            crate::sefs_structs::lemma_struct_sizes();
            SuperBlock::lemma_round_trip(old(self).super_block());
        }
        if self.super_block.dirty() {
            let buf = self.super_block.read().as_buf();
            match self.meta_file.write_all_at(buf.as_slice(), BLKSIZE * BLKN_SUPER) {
                Ok(()) => {},
                Err(_) => {
                    proof {
                        self.lemma_same_inodes_vec(old(self));
                    }
                    return Err(FsError::DeviceError);
                },
            }
            proof {
                assert(self.meta().subrange(0, SUPER_BLOCK_SIZE as int) =~= sbb);
            }
        }
        proof {
            self.lemma_same_inodes_vec(old(self));
        }
        let ghost fmb: Seq<u8> = Seq::empty();
        if self.free_map.dirty() {
            let bytes = self.free_map.read().as_bytes();
            proof {
                assert(bytes@.len() == groups * BLKSIZE) by (nonlinear_arith)
                    requires
                        bytes@.len() == (groups * BLKBITS + 7) / 8,
                ;
                fmb = bytes@;
            }
            let mut i: usize = 0;
            while i < groups
                invariant
                    self.wf(),
                    self.same_inodes(old(self)),
                    self.super_block() == old(self).super_block(),
                    self.free_bits() == old(self).free_bits(),
                    self.meta_reliable() == old(self).meta_reliable(),
                    !self.super_block_dirty(),
                    !self.free_map_dirty(),
                    groups == self.super_block().groups,
                    groups * BLKBITS <= MAX_MAP_BITS,
                    bytes@.len() == groups * BLKSIZE,
                    fmb == bytes@,
                    bits_of_bytes(old(self).free_bits(), fmb),
                    i <= groups,
                    self.inodes == old(self).inodes,
                    old(self).super_block_dirty() ==> self.meta().len() >= SUPER_BLOCK_SIZE
                        && self.meta().subrange(0, SUPER_BLOCK_SIZE as int) == sbb,
                    forall|j: int| 0 <= j < i * BLKSIZE ==> self.meta().len() > freemap_pos(j)
                        && self.meta()[freemap_pos(j)] == #[trigger] fmb[j],
                decreases groups - i,
            {
                proof {
                    assert(BLKSIZE * i + BLKSIZE <= bytes@.len()) by (nonlinear_arith)
                        requires
                            i < groups,
                            bytes@.len() == groups * BLKSIZE,
                    ;
                    assert(BLKSIZE * freemap_block_of_group(i as int) + BLKSIZE <= usize::MAX) by (nonlinear_arith)
                        requires
                            i < groups,
                            groups * BLKBITS <= MAX_MAP_BITS,
                    ;
                }
                let slice = vstd::slice::slice_subrange(bytes.as_slice(), BLKSIZE * i, BLKSIZE * (i + 1));
                let ghost m0 = self.meta();
                let off = BLKSIZE * Self::get_freemap_block_id_of_group(i);
                match self.meta_file.write_all_at(slice, off) {
                    Ok(()) => {},
                    Err(_) => {
                        proof {
                            self.lemma_same_inodes_vec(old(self));
                        }
                        return Err(FsError::DeviceError);
                    },
                }
                proof {
                    self.lemma_same_inodes_vec(old(self));
                    let m1 = self.meta();
                    assert(m1 == spec_write(m0, off as int, slice@));
                    if old(self).super_block_dirty() {
                        assert forall|t: int| 0 <= t < SUPER_BLOCK_SIZE implies #[trigger] m1.subrange(0, SUPER_BLOCK_SIZE as int)[t]
                            == sbb[t] by {
                            assert(m0.subrange(0, SUPER_BLOCK_SIZE as int)[t] == sbb[t]);
                        }
                        assert(m1.subrange(0, SUPER_BLOCK_SIZE as int) =~= sbb);
                    }
                    assert forall|j: int| 0 <= j < (i + 1) * BLKSIZE implies m1.len() > freemap_pos(j) && m1[freemap_pos(j)] == #[trigger] fmb[j] by {
                        lemma_freemap_pos(j, i as int);
                        if j < i * BLKSIZE {
                            assert(m0[freemap_pos(j)] == fmb[j]);
                        } else {
                            assert(slice@[j - BLKSIZE * i] == fmb[j]);
                        }
                    }
                }
                i = i + 1;
            }
            let ghost before = *self;
            proof {
                assert(self.meta() == before.meta());
                assert forall|j: int| 0 <= j < groups * BLKSIZE implies self.meta().len() > freemap_pos(j) && self.meta()[freemap_pos(j)] == #[trigger] fmb[j] by {
                    assert(before.meta().len() > freemap_pos(j) && before.meta()[freemap_pos(j)] == fmb[j]);
                }
            }
        }
        let n = self.inodes.len();
        let mut k: usize = 0;
        proof {
            if old(self).meta_reliable() && (forall|j: int| 0 <= j < old(self).ncached() ==> #[trigger] old(self).cached_reliable(j)) {
                assert forall|j: int| 0 <= j < self.ncached() implies #[trigger] self.cached_reliable(j) by {
                    assert(self.same_slot(old(self), j));
                }
            }
        }
        while k < n
            invariant
                self.wf(),
                old(self).wf(),
                self.same_inodes(old(self)),
                self.super_block() == old(self).super_block(),
                self.free_bits() == old(self).free_bits(),
                self.meta_reliable() == old(self).meta_reliable(),
                n == old(self).ncached(),
                k <= n,
                groups == old(self).super_block().groups,
                !self.super_block_dirty() && !self.free_map_dirty(),
                forall|j: int| 0 <= j < k ==> !#[trigger] self.cached_dirty(j),
                forall|j: int| k <= j < n ==> #[trigger] self.cached_dirty(j) == old(self).cached_dirty(j),
                old(self).meta_reliable() && (forall|j: int| 0 <= j < old(self).ncached() ==> #[trigger] old(self).cached_reliable(j)) ==> self.meta_reliable()
                    && (forall|j: int| 0 <= j < self.ncached() ==> #[trigger] self.cached_reliable(j)),
                old(self).super_block_dirty() ==> self.meta().len() >= SUPER_BLOCK_SIZE
                    && self.meta().subrange(0, SUPER_BLOCK_SIZE as int) == sbb,
                old(self).free_map_dirty() ==> bits_of_bytes(old(self).free_bits(), fmb) && fmb.len() == groups * BLKSIZE,
                old(self).free_map_dirty() ==> forall|j: int| 0 <= j < groups * BLKSIZE ==> self.meta().len() > freemap_pos(j)
                    && self.meta()[freemap_pos(j)] == #[trigger] fmb[j],
                forall|j: int| 0 <= j < k && #[trigger] old(self).cached_dirty(j) ==> self.meta().len() >= old(self).cached_id(j) * BLKSIZE
                    + DISK_INODE_SIZE && loaded(self.meta(), old(self).cached_id(j), old(self).cached_inode(j)),
            decreases n - k,
        {
            let id = self.inodes[k].id;
            proof {
                self.lemma_slot(k as int);
                assert(self.same_slot(old(self), k as int));
            }
            let ghost prev = *self;
            match self.sync_all(id) {
                Ok(()) => {},
                Err(e) => {
                    proof {
                        assert(prev.file_reliable(id as int) == prev.cached_reliable(k as int));
                        self.lemma_same_inodes_trans(&prev, old(self));
                    }
                    return Err(e);
                },
            }
            proof {
                self.lemma_slot(k as int);
                self.lemma_same_inodes_trans(&prev, old(self));
                let m0 = prev.meta();
                let m1 = self.meta();
                let b = id as int;
                let di = prev.cached_inode(k as int);
                assert(!is_meta_block(prev.inodes@[k as int].id as int));
                assert(b >= 2);
                assert(prev.slot(b) == k);
                DiskINode::lemma_round_trip(di);
                assert(m1 == if prev.cached_dirty(k as int) { spec_write(m0, b * BLKSIZE, di.spec_buf()) } else { m0 });
                assert(m1.len() >= m0.len());
                assert forall|p: int| 0 <= p < m0.len() && !(BLKSIZE * b <= p < BLKSIZE * b + BLKSIZE) implies #[trigger] m1[p] == m0[p] by {
                    if prev.cached_dirty(k as int) {
                        assert(m1 == spec_write(m0, b * BLKSIZE, di.spec_buf()));
                    }
                }
                if prev.cached_dirty(k as int) {
                    assert(m1.subrange(b * BLKSIZE, b * BLKSIZE + DISK_INODE_SIZE) =~= di.spec_buf());
                    assert(m1.len() >= b * BLKSIZE + DISK_INODE_SIZE);
                }
                assert(old(self).same_slot(&prev, k as int)) by {
                    assert(prev.same_slot(old(self), k as int));
                }
                if old(self).super_block_dirty() {
                    assert forall|t: int| 0 <= t < SUPER_BLOCK_SIZE implies #[trigger] m1.subrange(0, SUPER_BLOCK_SIZE as int)[t] == sbb[t] by {
                        assert(m0.subrange(0, SUPER_BLOCK_SIZE as int)[t] == sbb[t]);
                        assert(m1[t] == m0[t]);
                    }
                    assert(m1.subrange(0, SUPER_BLOCK_SIZE as int) =~= sbb);
                }
                if old(self).free_map_dirty() {
                    assert forall|j: int| 0 <= j < groups * BLKSIZE implies m1.len() > freemap_pos(j) && m1[freemap_pos(j)] == #[trigger] fmb[j] by {
                        assert(m0.len() > freemap_pos(j) && m0[freemap_pos(j)] == fmb[j]);
                        lemma_freemap_block(j);
                        lemma_other_block(freemap_pos(j), freemap_block_of_group(j / BLKSIZE as int), b);
                        assert(m1[freemap_pos(j)] == m0[freemap_pos(j)]);
                    }
                }
                assert forall|j: int| 0 <= j < k + 1 && #[trigger] old(self).cached_dirty(j) implies m1.len() >= old(self).cached_id(j) * BLKSIZE
                    + DISK_INODE_SIZE && loaded(m1, old(self).cached_id(j), old(self).cached_inode(j)) by {
                    if j < k {
                        let bj = old(self).cached_id(j);
                        assert(m0.len() >= bj * BLKSIZE + DISK_INODE_SIZE && loaded(m0, bj, old(self).cached_inode(j)));
                        assert(prev.same_slot(old(self), j));
                        assert(prev.inodes@[j].id != prev.inodes@[k as int].id);
                        assert(bj != b);
                        assert(m1.subrange(bj * BLKSIZE, bj * BLKSIZE + DISK_INODE_SIZE) =~= m0.subrange(bj * BLKSIZE, bj * BLKSIZE + DISK_INODE_SIZE)) by {
                            assert forall|t: int| 0 <= t < DISK_INODE_SIZE implies #[trigger] m1[bj * BLKSIZE + t] == m0[bj * BLKSIZE + t] by {
                                lemma_other_block(bj * BLKSIZE + t, bj, b);
                            }
                        }
                    } else {
                        assert(old(self).cached_dirty(k as int) == prev.cached_dirty(k as int));
                        assert(old(self).cached_id(k as int) == b);
                    }
                }
                assert forall|j: int| 0 <= j < k + 1 implies !#[trigger] self.cached_dirty(j) by {
                    if j < k {
                        assert(!prev.cached_dirty(j));
                        assert(self.cached_dirty(j) == prev.cached_dirty(j));
                    }
                }
                assert forall|j: int| k + 1 <= j < n implies #[trigger] self.cached_dirty(j) == old(self).cached_dirty(j) by {
                    assert(self.cached_dirty(j) == prev.cached_dirty(j));
                }
                if old(self).meta_reliable() && (forall|j: int| 0 <= j < old(self).ncached() ==> #[trigger] old(self).cached_reliable(j)) {
                    assert forall|j: int| 0 <= j < self.ncached() implies #[trigger] self.cached_reliable(j) by {
                        assert(prev.cached_reliable(j));
                        assert(self.same_slot(&prev, j));
                    }
                }
            }
            k = k + 1;
        }
        let ghost prev = *self;
        let r = self.meta_file.flush();
        proof {
            self.lemma_same_inodes_vec(&prev);
            self.lemma_same_inodes_trans(&prev, old(self));
            assert forall|j: int| 0 <= j < self.ncached() implies !#[trigger] self.cached_dirty(j) by {
                assert(!prev.cached_dirty(j));
            }
            if old(self).super_block_dirty() {
                assert(self.meta().subrange(0, SUPER_BLOCK_SIZE as int) == sbb);
            }
            assert(self.meta() == prev.meta());
            if old(self).free_map_dirty() {
                assert(freemap_bytes(self.meta(), groups as int) =~= fmb) by {
                    assert forall|j: int| 0 <= j < groups * BLKSIZE implies #[trigger] freemap_bytes(self.meta(), groups as int)[j] == fmb[j] by {
                        assert(prev.meta().len() > freemap_pos(j) && prev.meta()[freemap_pos(j)] == fmb[j]);
                    }
                }
            }
            assert forall|j: int| 0 <= j < old(self).ncached() && #[trigger] old(self).cached_dirty(j) implies loaded(
                self.meta(),
                old(self).cached_id(j),
                old(self).cached_inode(j),
            ) by {
                assert(loaded(prev.meta(), old(self).cached_id(j), old(self).cached_inode(j)));
            }
        }
        match r {
            Ok(()) => Ok(()),
            Err(_) => Err(FsError::DeviceError),
        }
    }

    /// Taking the `k`-th inode out of memory keeps the invariant and every other inode.
    proof fn lemma_removed(&self, prev: &Self, k: int)
        requires
            prev.wf(),
            0 <= k < prev.ncached(),
            self.inodes@ == prev.inodes@.remove(k),
            self.super_block == prev.super_block,
            self.free_map == prev.free_map,
        ensures
            self.wf(),
            forall|x: int| prev.is_cached(x) && x != prev.cached_id(k) ==> #[trigger] self.kept(prev, x),
            !self.is_cached(prev.cached_id(k)),
    {
        let id = prev.cached_id(k);
        assert forall|j: int| 0 <= j < self.inodes@.len() implies (#[trigger] self.inodes@[j]).id < self.free_map.value()@.len()
            && !self.free_map.value()@[self.inodes@[j].id as int] by {
            let i = if j < k { j } else { j + 1 };
            assert(self.inodes@[j] == prev.inodes@[i]);
        }
        assert forall|j: int| 0 <= j < self.inodes@.len() implies typed((#[trigger] self.inodes@[j]).disk_inode.value()) by {
            let i = if j < k { j } else { j + 1 };
            assert(self.inodes@[j] == prev.inodes@[i]);
        }
        assert forall|j: int| 0 <= j < self.inodes@.len() implies addressable((#[trigger] self.inodes@[j]).disk_inode.value().blocks) by {
            let i = if j < k { j } else { j + 1 };
            assert(self.inodes@[j] == prev.inodes@[i]);
        }
        assert forall|j: int|
            0 <= j < self.inodes@.len() && (#[trigger] self.inodes@[j]).disk_inode.value().type_ == FileType::Dir implies DIRENT_SIZE
                * self.inodes@[j].disk_inode.value().blocks <= self.inodes@[j].file.content().len() by {
            let i = if j < k { j } else { j + 1 };
            assert(self.inodes@[j] == prev.inodes@[i]);
        }
        assert forall|k1: int, k2: int|
            0 <= k1 < self.inodes@.len() && 0 <= k2 < self.inodes@.len() && k1 != k2 implies (#[trigger] self.inodes@[k1]).id
                != (#[trigger] self.inodes@[k2]).id by {
            let i1 = if k1 < k { k1 } else { k1 + 1 };
            let i2 = if k2 < k { k2 } else { k2 + 1 };
            assert(self.inodes@[k1] == prev.inodes@[i1]);
            assert(self.inodes@[k2] == prev.inodes@[i2]);
            assert(prev.inodes@[i1].id != prev.inodes@[i2].id);
        }
        assert forall|x: int| prev.is_cached(x) && x != id implies #[trigger] self.kept(prev, x) by {
            let i = choose|i: int| 0 <= i < prev.ncached() && prev.cached_id(i) == x;
            prev.lemma_slot(i);
            let j = if i < k { i } else { i - 1 };
            assert(i != k);
            assert(self.inodes@[j] == prev.inodes@[i]);
            self.lemma_slot(j);
        }
        assert(!self.is_cached(id)) by {
            if self.is_cached(id) {
                let j = choose|j: int| 0 <= j < self.ncached() && self.cached_id(j) == id;
                let i = if j < k { j } else { j + 1 };
                assert(self.inodes@[j] == prev.inodes@[i]);
                assert(prev.inodes@[i].id != prev.inodes@[k].id);
            }
        }
    }

    /// Let inode `id` go from memory, as the last handle on it does: it is
    /// written to the metadata file and its file flushed; when no link to it
    /// is left, its block is given back to the free map and its file is
    /// removed from the storage.
    pub fn release(&mut self, id: INodeId) -> (r: Result<(), FsError>)
        requires
            old(self).wf(),
            old(self).is_cached(id as int),
        ensures
            final(self).wf(),
            final(self).super_block().magic == old(self).super_block().magic,
            r is Err ==> r == Err::<(), FsError>(FsError::DeviceError),
            forall|x: int| old(self).is_cached(x) && x != id ==> #[trigger] final(self).kept(old(self), x),
            r is Ok ==> {
                &&& !final(self).is_cached(id as int)
                &&& final(self).free_bits() == if old(self).inode(id as int).nlinks == 0 {
                    old(self).free_bits().update(id as int, true)
                } else {
                    old(self).free_bits()
                }
            },
    {
        match self.sync_all(id) {
            Ok(()) => {},
            Err(e) => {
                proof {
                    self.lemma_same_inodes_kept(old(self));
                }
                return Err(e);
            },
        }
        let ghost s1 = *self;
        proof {
            self.lemma_same_inodes_kept(old(self));
            assert(self.kept(old(self), id as int));
        }
        let k = self.slot_in_memory(id);
        let di = *self.inodes[k].disk_inode.get();
        let ghost s2 = *self;
        let _released = self.inodes.remove(k);
        proof {
            self.lemma_removed(&s2, k as int);
            assert forall|x: int| old(self).is_cached(x) && x != id implies #[trigger] self.kept(old(self), x) by {
                assert(s1.kept(old(self), x));
                assert(self.kept(&s2, x));
            }
        }
        if di.nlinks == 0 {
            proof {
                s2.lemma_slot(k as int);
                assert forall|j: int| 0 <= j < self.ncached() implies self.cached_id(j) != id by {
                    assert(!self.is_cached(id as int));
                }
            }
            let ghost s3 = *self;
            self.free_block(id);
            proof {
                assert forall|x: int| old(self).is_cached(x) && x != id implies #[trigger] self.kept(old(self), x) by {
                    assert(s3.kept(old(self), x));
                    assert(self.inodes == s3.inodes);
                    self.lemma_same_inodes_vec(&s3);
                    self.lemma_same_inodes_kept(&s3);
                    assert(self.kept(&s3, x));
                }
                assert(!self.is_cached(id as int)) by {
                    self.lemma_same_inodes_vec(&s3);
                    if self.is_cached(id as int) {
                        let j = choose|j: int| 0 <= j < self.ncached() && self.cached_id(j) == id;
                        assert(s3.cached_id(j) == id);
                    }
                }
            }
            let name = di.disk_filename.to_string();
            let ghost s4 = *self;
            let removed = self.device.remove(name.as_str());
            proof {
                self.lemma_same_inodes_vec(&s4);
                self.lemma_same_inodes_kept(&s4);
                assert forall|x: int| old(self).is_cached(x) && x != id implies #[trigger] self.kept(old(self), x) by {
                    assert(s4.kept(old(self), x));
                    assert(self.kept(&s4, x));
                }
                assert(!self.is_cached(id as int)) by {
                    if self.is_cached(id as int) {
                        let j = choose|j: int| 0 <= j < self.ncached() && self.cached_id(j) == id;
                        assert(s4.cached_id(j) == id);
                    }
                }
            }
            if removed.is_err() {
                return Err(FsError::DeviceError);
            }
        }
        Ok(())
    }
}

/// An entry appended to a directory under a name that no entry had, which
/// holds no zero byte and is shorter than the name field, is what a lookup
/// of that name finds: creating, linking or moving an inode into a directory
/// and then finding its name gives that inode.
pub proof fn law_find_after_append(es: Seq<(u32, Seq<u8>)>, x: u32, name: Seq<u8>)
    requires
        lookup_in(es, name) is None,
        name.len() < 256,
        forall|k: int| 0 <= k < name.len() ==> name[k] != 0,
    ensures
        ({
            let es2 = es.push((x, spec_zero_padded(name, 256)));
            lookup_in(es2, name) == Some(es.len() as int) && es2[es.len() as int].0 == x
        }),
{
    let es2 = es.push((x, spec_zero_padded(name, 256)));
    lemma_find_named_prefix(es, es2, es.len() as int, name);
    crate::structs::lemma_padded_name(name, 256);
}

/// Renaming entry `i` of a directory to a name that no entry had makes a
/// lookup of the new name find entry `i`, naming the same inode.
pub proof fn law_find_after_rename(es: Seq<(u32, Seq<u8>)>, i: int, name: Seq<u8>)
    requires
        0 <= i < es.len(),
        lookup_in(es, name) is None,
        name.len() < 256,
        forall|k: int| 0 <= k < name.len() ==> name[k] != 0,
    ensures
        ({
            let es2 = es.update(i, (es[i].0, spec_zero_padded(name, 256)));
            lookup_in(es2, name) == Some(i) && es2[i].0 == es[i].0
        }),
{
    let es2 = es.update(i, (es[i].0, spec_zero_padded(name, 256)));
    lemma_find_named(es, es.len() as int, name);
    lemma_find_named_prefix(es, es2, i, name);
    crate::structs::lemma_padded_name(name, 256);
    lemma_find_named(es2, i, name);
    assert(find_named(es2, i + 1, name) == Some(i));
    lemma_find_named_mono(es2, i + 1, es2.len() as int, name);
}

/// Removing the only entry of a name from a directory, the last entry
/// taking its place, leaves no entry of that name: unlinking a name and then
/// finding it finds nothing.
pub proof fn law_find_after_remove(es: Seq<(u32, Seq<u8>)>, name: Seq<u8>)
    requires
        lookup_in(es, name) is Some,
        forall|j: int| 0 <= j < es.len() && j != lookup_in(es, name)->0 ==> spec_c_name(#[trigger] es[j].1) != Some(name),
    ensures
        ({
            let i = lookup_in(es, name)->0;
            lookup_in(es.update(i, es.last()).drop_last(), name) is None
        }),
{
    let i = lookup_in(es, name)->0;
    lemma_find_named(es, es.len() as int, name);
    let es2 = es.update(i, es.last()).drop_last();
    lemma_find_named(es2, es2.len() as int, name);
    if lookup_in(es2, name) is Some {
        let j = lookup_in(es2, name)->0;
        if j == i {
            assert(es2[j] == es[es.len() - 1]);
        } else {
            assert(es2[j] == es[j]);
        }
    }
}

/// What is written at an offset of a file is what a read of as many bytes
/// at that offset gives back; the bytes before the offset stay.
pub proof fn law_read_after_write(c: Seq<u8>, at: int, data: Seq<u8>)
    requires
        0 <= at,
    ensures
        spec_write(c, at, data).subrange(at, at + data.len()) == data,
        forall|i: int| 0 <= i < c.len() && !(at <= i < at + data.len()) ==> #[trigger] spec_write(c, at, data)[i] == c[i],
        spec_write(c, at, data).len() >= c.len(),
{
    assert(spec_write(c, at, data).subrange(at, at + data.len()) =~= data);
}

/// What `open` reads back of the metadata that `sync` wrote is what was in
/// memory: the superblock decoded from the first bytes, and the free map
/// decoded from the blocks of the free map of each group, are those that
/// were encoded there.
pub proof fn law_open_after_sync(
    meta: Seq<u8>,
    written: SuperBlock,
    read: SuperBlock,
    bits: Seq<bool>,
    read_bits: Seq<bool>,
)
    requires
        SuperBlock::spec_decodes(meta.subrange(0, SUPER_BLOCK_SIZE as int), written),
        SuperBlock::spec_decodes(meta.subrange(0, SUPER_BLOCK_SIZE as int), read),
        bits_of_bytes(bits, freemap_bytes(meta, written.groups as int)),
        bits_of_bytes(read_bits, freemap_bytes(meta, read.groups as int)),
    ensures
        read == written,
        read_bits == bits,
{
    SuperBlock::lemma_decodes_unique(meta.subrange(0, SUPER_BLOCK_SIZE as int), written, read);
    assert(read_bits =~= bits);
}

} // verus!
