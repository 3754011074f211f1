//! The simple file system (SFS): inodes with direct and indirect blocks on a
//! block device, a free-block map and directories of fixed-size entries.

use vstd::prelude::*;
use crate::bitset::{FreeMap, word_bit};
use crate::codec::{spec_u32_at, read_u32, push_words};
use vstd::bytes::spec_u32_to_le_bytes;
use crate::device::{Device, spec_write};
use crate::dirty::Dirty;
use crate::structs::{
    AsBuf, BlockId, INodeId, DiskINode, DiskEntry, SuperBlock, Str32, Str256, FileType, BLKSIZE,
    BLKBITS, NDIRECT, BLK_NENTRY, BLKN_SUPER, BLKN_ROOT, BLKN_FREEMAP, MAGIC, MAX_FILE_SIZE,
    DISK_ENTRY_SIZE, SUPER_BLOCK_SIZE, spec_c_name, spec_zero_padded,
};
use crate::block_range::{BlockIter, BlockRange};
use crate::vfs::{self, FsError};

verus! {

broadcast use vstd::array::group_array_axioms;

/// Byte position of byte `offset` of block `id`
pub open spec fn blk_pos(id: int, offset: int) -> int {
    id * BLKSIZE + offset
}

/// Read `len` bytes at byte `offset` of block `id`
fn read_block<D: Device>(dev: &mut D, id: BlockId, offset: usize, len: usize) -> (r: Result<
    Vec<u8>,
    (),
>)
    requires
        id <= BLKBITS,
        offset + len <= BLKSIZE,
    ensures
        final(dev).content() == old(dev).content(),
        final(dev).reliable() == old(dev).reliable(),
        r matches Ok(v) ==> (v@ == old(dev).content().subrange(
            blk_pos(id as int, offset as int),
            blk_pos(id as int, offset as int) + len,
        ) && blk_pos(id as int, offset as int) + len <= old(dev).content().len()),
        old(dev).reliable() && blk_pos(id as int, offset as int) + len <= old(dev).content().len()
            ==> r is Ok,
{
    let mut buf: Vec<u8> = vec![0u8; len];
    let r = dev.read_at(id * BLKSIZE + offset, buf.as_mut_slice());
    match r {
        Some(n) => {
            if n == len {
                assert(buf@.subrange(0, len as int) =~= buf@);
                Ok(buf)
            } else {
                Err(())
            }
        },
        None => Err(()),
    }
}

/// Write `buf` at byte `offset` of block `id`
fn write_block<D: Device>(dev: &mut D, id: BlockId, offset: usize, buf: &[u8]) -> (r: Result<
    (),
    (),
>)
    requires
        id <= BLKBITS,
        offset + buf@.len() <= BLKSIZE,
    ensures
        final(dev).reliable() == old(dev).reliable(),
        r is Ok ==> final(dev).content() == spec_write(
            old(dev).content(),
            blk_pos(id as int, offset as int),
            buf@,
        ),
        old(dev).reliable() ==> r is Ok,
{
    let r = dev.write_at(id * BLKSIZE + offset, buf);
    match r {
        Some(n) => {
            if n == buf.len() {
                assert(buf@.subrange(0, n as int) =~= buf@);
                Ok(())
            } else {
                Err(())
            }
        },
        None => Err(()),
    }
}

/// The disk block holding block `i` of a file
pub open spec fn block_of(di: DiskINode, dev: Seq<u8>, i: int) -> int {
    if i < NDIRECT {
        di.direct@[i] as int
    } else {
        spec_u32_at(dev, blk_pos(di.indirect as int, 4 * (i - NDIRECT))) as int
    }
}

/// The number of bytes reads and writes reach: the size of a file, all blocks of a directory
pub open spec fn io_size(di: DiskINode) -> int {
    match di.type_ {
        FileType::Dir => di.blocks * BLKSIZE,
        FileType::File => di.size as int,
        _ => 0,
    }
}

/// The bytes of a file or directory
pub open spec fn content(di: DiskINode, dev: Seq<u8>) -> Seq<u8> {
    Seq::new(
        io_size(di) as nat,
        |k: int| dev[blk_pos(block_of(di, dev, k / (BLKSIZE as int)), k % (BLKSIZE as int))],
    )
}

/// Whether an inode uses its indirect block
pub open spec fn has_indirect(di: DiskINode) -> bool {
    di.blocks >= NDIRECT
}

/// Whether `x` may be used as a block of a file: neither the superblock nor the free map,
/// inside the file system and not free.
pub open spec fn usable(x: int, nb: int, free: Set<nat>) -> bool {
    3 <= x < nb && !free.contains(x as nat)
}

/// The structural invariant of one inode with number `id`
pub open spec fn inode_ok(di: DiskINode, dev: Seq<u8>, id: int, nb: int, free: Set<nat>) -> bool {
    &&& (di.type_ == FileType::File || di.type_ == FileType::Dir)
    &&& di.blocks <= NDIRECT + BLK_NENTRY
    &&& di.size <= di.blocks * BLKSIZE
    &&& id != BLKN_SUPER && id != BLKN_FREEMAP && 0 < id < nb && !free.contains(id as nat)
    &&& has_indirect(di) ==> usable(di.indirect as int, nb, free) && di.indirect != id
    &&& forall|i: int|
        0 <= i < di.blocks ==> {
            &&& usable(#[trigger] block_of(di, dev, i), nb, free)
            &&& block_of(di, dev, i) != id
            &&& has_indirect(di) ==> block_of(di, dev, i) != di.indirect
        }
    &&& forall|i: int, j: int|
        0 <= i < j < di.blocks ==> #[trigger] block_of(di, dev, i) != #[trigger] block_of(
            di,
            dev,
            j,
        )
}

/// Whether block `x` belongs to inode `id`: its inode block, indirect block or a data block
pub open spec fn owns(di: DiskINode, dev: Seq<u8>, id: int, x: int) -> bool {
    ||| x == id
    ||| (has_indirect(di) && x == di.indirect)
    ||| exists|i: int| 0 <= i < di.blocks && #[trigger] block_of(di, dev, i) == x
}

/// No block belongs to both inodes
pub open spec fn disjoint(a: DiskINode, aid: int, b: DiskINode, bid: int, dev: Seq<u8>) -> bool {
    forall|x: int| !(#[trigger] owns(a, dev, aid, x) && owns(b, dev, bid, x))
}

/// Whether `dev1` and `dev2` agree on every byte of block `x`
pub open spec fn same_block(dev1: Seq<u8>, dev2: Seq<u8>, x: int) -> bool {
    forall|k: int|
        0 <= k < BLKSIZE && 0 <= blk_pos(x, k) < dev1.len() ==> #[trigger] dev1[blk_pos(x, k)]
            == dev2[blk_pos(x, k)]
}

/// Whether `dev1` and `dev2` hold the same indirect block of `di`
pub open spec fn same_table(dev1: Seq<u8>, dev2: Seq<u8>, di: DiskINode) -> bool {
    has_indirect(di) ==> same_block(dev1, dev2, di.indirect as int)
}

pub proof fn lemma_block_of_same_table(di: DiskINode, dev1: Seq<u8>, dev2: Seq<u8>, nb: int)
    requires
        same_table(dev1, dev2, di),
        di.blocks <= NDIRECT + BLK_NENTRY,
        has_indirect(di) ==> blk_pos(di.indirect as int, BLKSIZE as int) <= dev1.len(),
        has_indirect(di) ==> blk_pos(di.indirect as int, BLKSIZE as int) <= dev2.len(),
    ensures
        forall|i: int| 0 <= i < di.blocks ==> #[trigger] block_of(di, dev1, i) == block_of(di, dev2, i),
{
    assert forall|i: int| 0 <= i < di.blocks implies #[trigger] block_of(di, dev1, i) == block_of(
        di,
        dev2,
        i,
    ) by {
        if i >= NDIRECT {
            let p = blk_pos(di.indirect as int, 4 * (i - NDIRECT));
            assert(dev1.subrange(p, p + 4) =~= dev2.subrange(p, p + 4)) by {
                assert forall|t: int| p <= t < p + 4 implies dev1[t] == dev2[t] by {
                    assert(dev1[blk_pos(di.indirect as int, t - di.indirect * BLKSIZE)] == dev2[blk_pos(
                        di.indirect as int,
                        t - di.indirect * BLKSIZE,
                    )]);
                }
            }
        }
    }
}

/// Writing `data` at byte `off` of block `x`, inside the device, changes no other block
pub proof fn lemma_write_in_block(dev: Seq<u8>, x: int, off: int, data: Seq<u8>)
    requires
        0 <= x,
        0 <= off,
        off + data.len() <= BLKSIZE,
        blk_pos(x, BLKSIZE as int) <= dev.len(),
    ensures
        spec_write(dev, blk_pos(x, off), data).len() == dev.len(),
        forall|y: int| y != x ==> same_block(dev, #[trigger] spec_write(dev, blk_pos(x, off), data), y),
        forall|t: int|
            0 <= t < BLKSIZE ==> #[trigger] spec_write(dev, blk_pos(x, off), data)[blk_pos(x, t)] == if off
                <= t < off + data.len() {
                data[t - off]
            } else {
                dev[blk_pos(x, t)]
            },
{
    let d2 = spec_write(dev, blk_pos(x, off), data);
    assert forall|y: int| y != x implies same_block(dev, #[trigger] spec_write(dev, blk_pos(x, off), data), y) by {
        assert forall|k: int| 0 <= k < BLKSIZE && 0 <= blk_pos(y, k) < dev.len() implies #[trigger] dev[blk_pos(y, k)] == d2[blk_pos(y, k)] by {
            if y < x {
                assert(blk_pos(y, k) < blk_pos(x, 0));
            } else {
                assert(blk_pos(y, k) >= blk_pos(x, BLKSIZE as int));
            }
        }
    }
}

/// Two devices give a file the same bytes when they hold the same indirect
/// block and the same data blocks of the file.
pub proof fn lemma_content_same_blocks(di: DiskINode, dev1: Seq<u8>, dev2: Seq<u8>, nb: int)
    requires
        same_table(dev1, dev2, di),
        di.blocks <= NDIRECT + BLK_NENTRY,
        io_size(di) <= di.blocks * BLKSIZE,
        has_indirect(di) ==> blk_pos(di.indirect as int, BLKSIZE as int) <= dev1.len(),
        has_indirect(di) ==> blk_pos(di.indirect as int, BLKSIZE as int) <= dev2.len(),
        forall|i: int| 0 <= i < di.blocks ==> same_block(dev1, dev2, #[trigger] block_of(di, dev1, i)),
        forall|i: int| 0 <= i < di.blocks ==> 0 <= blk_pos(#[trigger] block_of(di, dev1, i), BLKSIZE as int) <= dev1.len(),
    ensures
        content(di, dev1) == content(di, dev2),
{
    lemma_block_of_same_table(di, dev1, dev2, nb);
    let c1 = content(di, dev1);
    let c2 = content(di, dev2);
    assert forall|k: int| 0 <= k < c1.len() implies c1[k] == c2[k] by {
        let i = k / (BLKSIZE as int);
        assert(0 <= i < di.blocks);
        assert(same_block(dev1, dev2, block_of(di, dev1, i)));
        assert(block_of(di, dev1, i) == block_of(di, dev2, i));
        assert(0 <= blk_pos(block_of(di, dev1, i), BLKSIZE as int) <= dev1.len());
        let t = k % (BLKSIZE as int);
        assert(dev1[blk_pos(block_of(di, dev1, i), t)] == dev2[blk_pos(block_of(di, dev1, i), t)]);
    }
    assert(c1 =~= c2);
}

pub proof fn lemma_div_blk(q: int, r: int)
    requires
        0 <= r < BLKSIZE,
    ensures
        (q * BLKSIZE + r) / (BLKSIZE as int) == q,
        (q * BLKSIZE + r) % (BLKSIZE as int) == r,
{
    vstd::arithmetic::div_mod::lemma_fundamental_div_mod_converse(
        q * BLKSIZE + r,
        BLKSIZE as int,
        q,
        r,
    );
}

/// The I/O invariant of an inode: its blocks and its indirect block lie inside the file system
pub open spec fn inode_io_ok(di: DiskINode, dev: Seq<u8>, nb: int) -> bool {
    &&& di.blocks <= NDIRECT + BLK_NENTRY
    &&& io_size(di) <= di.blocks * BLKSIZE
    &&& nb <= BLKBITS
    &&& blk_pos(nb, 0) <= dev.len()
    &&& has_indirect(di) ==> 0 <= di.indirect < nb
    &&& forall|i: int| 0 <= i < di.blocks ==> 0 <= #[trigger] block_of(di, dev, i) < nb
}

pub proof fn lemma_inode_ok_io(di: DiskINode, dev: Seq<u8>, id: int, nb: int, free: Set<nat>)
    requires
        inode_ok(di, dev, id, nb, free),
        nb <= BLKBITS,
        blk_pos(nb, 0) <= dev.len(),
    ensures
        inode_io_ok(di, dev, nb),
{
    assert forall|i: int| 0 <= i < di.blocks implies 0 <= #[trigger] block_of(di, dev, i) < nb by {
        assert(usable(block_of(di, dev, i), nb, free));
    }
}

/// Byte `k` of a file lies at byte `k % BLKSIZE` of the disk block of file block `k / BLKSIZE`
pub proof fn lemma_content_at(di: DiskINode, dev: Seq<u8>, q: int, r: int)
    requires
        0 <= r < BLKSIZE,
        0 <= q * BLKSIZE + r < io_size(di),
    ensures
        content(di, dev)[q * BLKSIZE + r] == dev[blk_pos(block_of(di, dev, q), r)],
{
    lemma_div_blk(q, r);
}

/// `c` with the bytes from `at` replaced by `data`
pub open spec fn spec_overwrite(c: Seq<u8>, at: int, data: Seq<u8>) -> Seq<u8> {
    Seq::new(c.len(), |k: int| if at <= k < at + data.len() { data[k - at] } else { c[k] })
}

/// Whether the data blocks of an inode are pairwise distinct and differ from its indirect block
pub open spec fn blocks_distinct(di: DiskINode, dev: Seq<u8>) -> bool {
    &&& forall|i: int, j: int|
        0 <= i < j < di.blocks ==> #[trigger] block_of(di, dev, i) != #[trigger] block_of(di, dev, j)
    &&& has_indirect(di) ==> forall|i: int| 0 <= i < di.blocks ==> #[trigger] block_of(di, dev, i) != di.indirect
}

/// Whether `x` is a data block of the inode
pub open spec fn is_data_block(di: DiskINode, dev: Seq<u8>, x: int) -> bool {
    exists|i: int| 0 <= i < di.blocks && #[trigger] block_of(di, dev, i) == x
}

/// Copy `src` into `buf` at `at`
fn copy_into(buf: &mut [u8], at: usize, src: &[u8])
    requires
        at + src@.len() <= old(buf)@.len(),
    ensures
        final(buf)@.len() == old(buf)@.len(),
        final(buf)@.subrange(0, at as int) == old(buf)@.subrange(0, at as int),
        final(buf)@.subrange(at as int, at + src@.len()) == src@,
        final(buf)@.subrange(at + src@.len(), old(buf)@.len() as int) == old(buf)@.subrange(
            at + src@.len(),
            old(buf)@.len() as int,
        ),
{
    let n = src.len();
    let blen = buf.len();
    let mut t: usize = 0;
    while t < n
        invariant
            n == src@.len(),
            blen == buf@.len(),
            at + n <= buf@.len(),
            buf@.len() == old(buf)@.len(),
            t <= n,
            forall|k: int| 0 <= k < buf@.len() ==> buf@[k] == if at <= k < at + t { src@[k - at] } else { old(buf)@[k] },
        decreases n - t,
    {
        buf[at + t] = src[t];
        t = t + 1;
    }
    assert(buf@.subrange(0, at as int) =~= old(buf)@.subrange(0, at as int));
    assert(buf@.subrange(at as int, at + n) =~= src@);
    assert(buf@.subrange(at + n, old(buf)@.len() as int) =~= old(buf)@.subrange(at + n, old(buf)@.len() as int));
}

/// Number of bytes reads and writes reach
fn io_size_exec(di: &DiskINode) -> (n: usize)
    requires
        di.type_ == FileType::File || di.type_ == FileType::Dir,
        di.blocks <= NDIRECT + BLK_NENTRY,
    ensures
        n == io_size(*di),
{
    match di.type_ {
        FileType::Dir => di.blocks as usize * BLKSIZE,
        _ => di.size as usize,
    }
}

/// Replacing one inode of a valid table by a valid inode that shares no block
/// with the others keeps the table valid, on a device that holds the same
/// indirect blocks of the others.
pub proof fn lemma_inodes_ok_replace(
    t: Seq<(DiskINode, int)>,
    k: int,
    di2: DiskINode,
    dev1: Seq<u8>,
    dev2: Seq<u8>,
    nb: int,
    free1: Set<nat>,
    free2: Set<nat>,
)
    requires
        inodes_ok(t, dev1, nb, free1),
        0 <= k < t.len(),
        blk_pos(nb, 0) <= dev1.len(),
        dev2.len() == dev1.len(),
        forall|k2: int| 0 <= k2 < t.len() && k2 != k ==> same_table(dev1, dev2, #[trigger] t[k2].0),
        forall|k2: int| 0 <= k2 < t.len() && k2 != k ==> inode_ok(#[trigger] t[k2].0, dev1, t[k2].1, nb, free2),
        inode_ok(di2, dev2, t[k].1, nb, free2),
        forall|k2: int, x: int|
            0 <= k2 < t.len() && k2 != k && #[trigger] owns(di2, dev2, t[k].1, x) ==> !#[trigger] owns(t[k2].0, dev1, t[k2].1, x),
    ensures
        inodes_ok(t.update(k, (di2, t[k].1)), dev2, nb, free2),
{
    let t2 = t.update(k, (di2, t[k].1));
    assert forall|k2: int| 0 <= k2 < t2.len() && k2 != k implies inode_ok(#[trigger] t2[k2].0, dev2, t2[k2].1, nb, free2)
        && (forall|x: int| owns(t[k2].0, dev1, t[k2].1, x) <==> #[trigger] owns(t[k2].0, dev2, t[k2].1, x)) by {
        lemma_inode_ok_same_table(t[k2].0, dev1, dev2, t[k2].1, nb, free2);
    }
    assert forall|k1: int| 0 <= k1 < t2.len() implies inode_ok(#[trigger] t2[k1].0, dev2, t2[k1].1, nb, free2) by {
        if k1 != k {
            assert(inode_ok(t2[k1].0, dev2, t2[k1].1, nb, free2));
        }
    }
    assert forall|k1: int, k2: int| 0 <= k1 < t2.len() && 0 <= k2 < t2.len() && k1 != k2 implies disjoint(
        #[trigger] t2[k1].0, t2[k1].1, #[trigger] t2[k2].0, t2[k2].1, dev2) by {
        assert forall|x: int| !(#[trigger] owns(t2[k1].0, dev2, t2[k1].1, x) && owns(t2[k2].0, dev2, t2[k2].1, x)) by {
            if k1 == k {
                if owns(t2[k1].0, dev2, t2[k1].1, x) {
                    assert(!owns(t[k2].0, dev1, t[k2].1, x));
                    lemma_inode_ok_same_table(t[k2].0, dev1, dev2, t[k2].1, nb, free2);
                }
            } else if k2 == k {
                if owns(t2[k2].0, dev2, t2[k2].1, x) {
                    assert(!owns(t[k1].0, dev1, t[k1].1, x));
                    lemma_inode_ok_same_table(t[k1].0, dev1, dev2, t[k1].1, nb, free2);
                }
            } else {
                assert(disjoint(t[k1].0, t[k1].1, t[k2].0, t[k2].1, dev1));
                lemma_inode_ok_same_table(t[k1].0, dev1, dev2, t[k1].1, nb, free2);
                lemma_inode_ok_same_table(t[k2].0, dev1, dev2, t[k2].1, nb, free2);
                assert(!(owns(t[k1].0, dev1, t[k1].1, x) && owns(t[k2].0, dev1, t[k2].1, x)));
            }
        }
    }
}

/// A block that some inode of a valid table owns is not free.
pub proof fn lemma_owned_not_free(t: Seq<(DiskINode, int)>, k: int, dev: Seq<u8>, nb: int, free: Set<nat>, x: int)
    requires
        inodes_ok(t, dev, nb, free),
        0 <= k < t.len(),
        owns(t[k].0, dev, t[k].1, x),
    ensures
        0 <= x < nb,
        !free.contains(x as nat),
{
    let di = t[k].0;
    assert(inode_ok(di, dev, t[k].1, nb, free));
    if x != t[k].1 && !(has_indirect(di) && x == di.indirect) {
        let i = choose|i: int| 0 <= i < di.blocks && #[trigger] block_of(di, dev, i) == x;
        assert(usable(block_of(di, dev, i), nb, free));
    }
}

/// Two disk inodes with the same block map own the same blocks.
pub proof fn lemma_same_map(di: DiskINode, di2: DiskINode, dev: Seq<u8>, id: int)
    requires
        di2.direct == di.direct,
        di2.indirect == di.indirect,
        di2.blocks == di.blocks,
    ensures
        forall|i: int| #[trigger] block_of(di2, dev, i) == block_of(di, dev, i),
        forall|x: int| #[trigger] owns(di2, dev, id, x) == owns(di, dev, id, x),
{
    assert forall|x: int| #[trigger] owns(di2, dev, id, x) == owns(di, dev, id, x) by {
        if exists|i: int| 0 <= i < di.blocks && #[trigger] block_of(di, dev, i) == x {
            let i = choose|i: int| 0 <= i < di.blocks && #[trigger] block_of(di, dev, i) == x;
            assert(block_of(di2, dev, i) == x);
        }
        if exists|i: int| 0 <= i < di2.blocks && #[trigger] block_of(di2, dev, i) == x {
            let i = choose|i: int| 0 <= i < di2.blocks && #[trigger] block_of(di2, dev, i) == x;
            assert(block_of(di, dev, i) == x);
        }
    }
}

/// inode for sfs
pub struct INode {
    /// on-disk inode
    disk_inode: Dirty<DiskINode>,
    /// inode number
    id: INodeId,
}

/// filesystem for sfs
pub struct SimpleFileSystem<D: Device> {
    /// on-disk superblock
    super_block: Dirty<SuperBlock>,
    /// blocks in use are marked 0
    free_map: Dirty<FreeMap>,
    /// inodes in memory
    inodes: Vec<INode>,
    /// device
    device: D,
}


/// The structural invariant of the inodes in memory, given as (disk inode, number) pairs
pub open spec fn inodes_ok(t: Seq<(DiskINode, int)>, dev: Seq<u8>, nb: int, free: Set<nat>) -> bool {
    &&& forall|k: int| 0 <= k < t.len() ==> inode_ok(#[trigger] t[k].0, dev, t[k].1, nb, free)
    &&& forall|k1: int, k2: int|
        0 <= k1 < t.len() && 0 <= k2 < t.len() && k1 != k2 ==> disjoint(
            #[trigger] t[k1].0,
            t[k1].1,
            #[trigger] t[k2].0,
            t[k2].1,
            dev,
        )
}

/// Taking a block out of the free set keeps every inode valid.
pub proof fn lemma_inodes_ok_alloc(t: Seq<(DiskINode, int)>, dev: Seq<u8>, nb: int, free: Set<nat>, x: nat)
    requires
        inodes_ok(t, dev, nb, free),
    ensures
        inodes_ok(t, dev, nb, free.remove(x)),
{
    assert forall|k: int| 0 <= k < t.len() implies inode_ok(#[trigger] t[k].0, dev, t[k].1, nb, free.remove(x)) by {
        let di = t[k].0;
        assert(inode_ok(di, dev, t[k].1, nb, free));
        assert forall|i: int| 0 <= i < di.blocks implies usable(#[trigger] block_of(di, dev, i), nb, free.remove(x)) by {
            assert(usable(block_of(di, dev, i), nb, free));
        }
    }
}

/// Putting a block that no inode owns back into the free set keeps every inode valid.
pub proof fn lemma_inode_ok_free(di: DiskINode, dev: Seq<u8>, id: int, nb: int, free: Set<nat>, x: nat)
    requires
        inode_ok(di, dev, id, nb, free),
        !owns(di, dev, id, x as int),
    ensures
        inode_ok(di, dev, id, nb, free.insert(x)),
{
    assert forall|i: int| 0 <= i < di.blocks implies usable(#[trigger] block_of(di, dev, i), nb, free.insert(x)) by {
        assert(usable(block_of(di, dev, i), nb, free));
        if block_of(di, dev, i) == x {
            assert(owns(di, dev, id, x as int));
        }
    }
}

/// An inode is valid on a device that holds the same indirect block.
pub proof fn lemma_inode_ok_same_table(di: DiskINode, dev1: Seq<u8>, dev2: Seq<u8>, id: int, nb: int, free: Set<nat>)
    requires
        inode_ok(di, dev1, id, nb, free),
        same_table(dev1, dev2, di),
        blk_pos(nb, 0) <= dev1.len(),
        blk_pos(nb, 0) <= dev2.len(),
    ensures
        inode_ok(di, dev2, id, nb, free),
        forall|i: int| 0 <= i < di.blocks ==> #[trigger] block_of(di, dev1, i) == block_of(di, dev2, i),
        forall|x: int| owns(di, dev1, id, x) <==> #[trigger] owns(di, dev2, id, x),
{
    lemma_block_of_same_table(di, dev1, dev2, nb);
    assert forall|x: int| owns(di, dev1, id, x) <==> #[trigger] owns(di, dev2, id, x) by {
        if exists|i: int| 0 <= i < di.blocks && #[trigger] block_of(di, dev1, i) == x {
            let i = choose|i: int| 0 <= i < di.blocks && #[trigger] block_of(di, dev1, i) == x;
            assert(block_of(di, dev2, i) == x);
        }
        if exists|i: int| 0 <= i < di.blocks && #[trigger] block_of(di, dev2, i) == x {
            let i = choose|i: int| 0 <= i < di.blocks && #[trigger] block_of(di, dev2, i) == x;
            assert(block_of(di, dev1, i) == x);
        }
    }
    assert forall|i: int, j: int| 0 <= i < j < di.blocks implies #[trigger] block_of(di, dev2, i) != #[trigger] block_of(di, dev2, j) by {
        assert(block_of(di, dev1, i) != block_of(di, dev1, j));
    }
    assert forall|i: int| 0 <= i < di.blocks implies {
            &&& usable(#[trigger] block_of(di, dev2, i), nb, free)
            &&& block_of(di, dev2, i) != id
            &&& has_indirect(di) ==> block_of(di, dev2, i) != di.indirect
        } by {
        assert(usable(block_of(di, dev1, i), nb, free));
    }
}

/// Entry `i` of a directory sits at the start of block `i` of its content:
/// an inode number, then a 256-byte zero-terminated name.
pub open spec fn entry_id(c: Seq<u8>, i: int) -> u32 {
    spec_u32_at(c, i * BLKSIZE)
}

/// The 256-byte name field of entry `i` of a directory
pub open spec fn entry_name_field(c: Seq<u8>, i: int) -> Seq<u8> {
    c.subrange(i * BLKSIZE + 4, i * BLKSIZE + DISK_ENTRY_SIZE)
}

/// Whether entry `i` of a directory is named `name`
pub open spec fn entry_named(c: Seq<u8>, i: int, name: Seq<u8>) -> bool {
    spec_c_name(entry_name_field(c, i)) == Some(name)
}

/// The first of the first `n` entries of a directory named `name`
pub open spec fn find_index(c: Seq<u8>, n: int, name: Seq<u8>) -> Option<int>
    decreases n,
{
    if n <= 0 {
        None
    } else {
        match find_index(c, n - 1, name) {
            Some(i) => Some(i),
            None => if entry_named(c, n - 1, name) {
                Some(n - 1)
            } else {
                None
            },
        }
    }
}

/// The inode number under `name` among the first `n` entries of a directory
pub open spec fn dir_find(c: Seq<u8>, n: int, name: Seq<u8>) -> Option<u32> {
    match find_index(c, n, name) {
        Some(i) => Some(entry_id(c, i)),
        None => None,
    }
}

/// The bytes of a directory entry for inode `id` under `name`
pub open spec fn entry_bytes(id: u32, name: Seq<u8>) -> Seq<u8> {
    spec_u32_to_le_bytes(id) + spec_zero_padded(name, 256)
}

pub proof fn lemma_find_index(c: Seq<u8>, n: int, name: Seq<u8>)
    requires
        0 <= n,
    ensures
        find_index(c, n, name) matches Some(i) ==> 0 <= i < n && entry_named(c, i, name) && forall|j: int|
            0 <= j < i ==> !#[trigger] entry_named(c, j, name),
        find_index(c, n, name) is None ==> forall|j: int| 0 <= j < n ==> !#[trigger] entry_named(c, j, name),
    decreases n,
{
    if n > 0 {
        lemma_find_index(c, n - 1, name);
    }
}

/// Once found among the first `m` entries, a name is found at the same entry among more.
pub proof fn lemma_find_index_mono(c: Seq<u8>, m: int, n: int, name: Seq<u8>)
    requires
        0 <= m <= n,
        find_index(c, m, name) is Some,
    ensures
        find_index(c, n, name) == find_index(c, m, name),
    decreases n - m,
{
    if m < n {
        lemma_find_index_mono(c, m, n - 1, name);
    }
}

/// The entries of a directory depend only on the bytes of their blocks.
pub proof fn lemma_find_same_prefix(c: Seq<u8>, c2: Seq<u8>, n: int, name: Seq<u8>)
    requires
        0 <= n,
        n * BLKSIZE <= c.len(),
        n * BLKSIZE <= c2.len(),
        c.subrange(0, n * BLKSIZE) == c2.subrange(0, n * BLKSIZE),
    ensures
        find_index(c2, n, name) == find_index(c, n, name),
        forall|i: int| 0 <= i < n ==> #[trigger] entry_id(c2, i) == entry_id(c, i),
    decreases n,
{
    if n > 0 {
        let p = (n - 1) * BLKSIZE;
        assert(p + BLKSIZE == n * BLKSIZE);
        assert(c.subrange(0, p) =~= c.subrange(0, n * BLKSIZE).subrange(0, p));
        assert(c2.subrange(0, p) =~= c2.subrange(0, n * BLKSIZE).subrange(0, p));
        lemma_find_same_prefix(c, c2, n - 1, name);
        assert(entry_name_field(c, n - 1) =~= entry_name_field(c2, n - 1)) by {
            assert forall|t: int| 0 <= t < DISK_ENTRY_SIZE - 4 implies #[trigger] entry_name_field(c, n - 1)[t] == entry_name_field(c2, n - 1)[t] by {
                assert(c.subrange(0, n * BLKSIZE)[p + 4 + t] == c[p + 4 + t]);
                assert(c2.subrange(0, n * BLKSIZE)[p + 4 + t] == c2[p + 4 + t]);
                assert(c.subrange(0, n * BLKSIZE)[p + 4 + t] == c2.subrange(0, n * BLKSIZE)[p + 4 + t]);
                assert(entry_name_field(c, n - 1)[t] == c[p + 4 + t]);
            }
        }
        assert forall|i: int| 0 <= i < n implies #[trigger] entry_id(c2, i) == entry_id(c, i) by {
            assert(c.subrange(i * BLKSIZE, i * BLKSIZE + 4) =~= c2.subrange(i * BLKSIZE, i * BLKSIZE + 4)) by {
                assert forall|t: int| 0 <= t < 4 implies #[trigger] c.subrange(i * BLKSIZE, i * BLKSIZE + 4)[t] == c2.subrange(i * BLKSIZE, i * BLKSIZE + 4)[t] by {
                    assert(i * BLKSIZE + BLKSIZE <= n * BLKSIZE) by (nonlinear_arith)
                        requires
                            i < n,
                    ;
                    assert(c.subrange(0, n * BLKSIZE)[i * BLKSIZE + t] == c[i * BLKSIZE + t]);
                    assert(c2.subrange(0, n * BLKSIZE)[i * BLKSIZE + t] == c2[i * BLKSIZE + t]);
                    assert(c.subrange(i * BLKSIZE, i * BLKSIZE + 4)[t] == c[i * BLKSIZE + t]);
                    assert(c2.subrange(i * BLKSIZE, i * BLKSIZE + 4)[t] == c2[i * BLKSIZE + t]);
                }
            }
        }
    }
}

/// A name appended as entry `n` of a directory whose first `n` entries do not
/// hold it is found there afterwards, under the inode number it was given.
pub proof fn law_find_after_append(c: Seq<u8>, c2: Seq<u8>, n: int, id: u32, name: Seq<u8>)
    requires
        0 <= n,
        n * BLKSIZE <= c.len(),
        (n + 1) * BLKSIZE <= c2.len(),
        c2.subrange(0, n * BLKSIZE) == c.subrange(0, n * BLKSIZE),
        c2.subrange(n * BLKSIZE, n * BLKSIZE + DISK_ENTRY_SIZE) == entry_bytes(id, name),
        find_index(c, n, name) is None,
        name.len() < 256,
        forall|k: int| 0 <= k < name.len() ==> name[k] != 0,
    ensures
        find_index(c2, n + 1, name) == Some(n),
        dir_find(c2, n + 1, name) == Some(id),
{
    lemma_find_same_prefix(c, c2, n, name);
    let p = n * BLKSIZE;
    let e = entry_bytes(id, name);
    crate::codec::lemma_u32_le_bytes(id);
    assert(entry_name_field(c2, n) =~= spec_zero_padded(name, 256)) by {
        assert forall|t: int| 0 <= t < 256 implies #[trigger] entry_name_field(c2, n)[t] == spec_zero_padded(name, 256)[t] by {
            assert(c2.subrange(p, p + DISK_ENTRY_SIZE)[4 + t] == e[4 + t]);
        }
    }
    crate::structs::lemma_padded_name(name, 256);
    assert(c2.subrange(p, p + 4) =~= spec_u32_to_le_bytes(id)) by {
        assert forall|t: int| 0 <= t < 4 implies #[trigger] c2.subrange(p, p + 4)[t] == spec_u32_to_le_bytes(id)[t] by {
            assert(c2.subrange(p, p + DISK_ENTRY_SIZE)[t] == e[t]);
        }
    }
}

/// Adding an empty inode in a block that was free keeps the table valid.
pub proof fn lemma_inodes_ok_push(t: Seq<(DiskINode, int)>, di: DiskINode, x: int, dev: Seq<u8>, nb: int, free: Set<nat>)
    requires
        inodes_ok(t, dev, nb, free),
        usable(x, nb, free.remove(x as nat)),
        free.contains(x as nat),
        di.blocks == 0,
        di.size == 0,
        di.type_ == FileType::File || di.type_ == FileType::Dir,
    ensures
        inodes_ok(t.push((di, x)), dev, nb, free.remove(x as nat)),
{
    let free2 = free.remove(x as nat);
    let t2 = t.push((di, x));
    lemma_inodes_ok_alloc(t, dev, nb, free, x as nat);
    assert forall|k: int| 0 <= k < t.len() implies !#[trigger] owns(t[k].0, dev, t[k].1, x) by {
        if owns(t[k].0, dev, t[k].1, x) {
            lemma_owned_not_free(t, k, dev, nb, free, x);
        }
    }
    assert forall|y: int| #[trigger] owns(di, dev, x, y) implies y == x by {}
    assert forall|k: int| 0 <= k < t2.len() implies inode_ok(#[trigger] t2[k].0, dev, t2[k].1, nb, free2) by {
        if k < t.len() {
            assert(t2[k] == t[k]);
        }
    }
    assert forall|k1: int, k2: int| 0 <= k1 < t2.len() && 0 <= k2 < t2.len() && k1 != k2 implies disjoint(
        #[trigger] t2[k1].0, t2[k1].1, #[trigger] t2[k2].0, t2[k2].1, dev) by {
        if k1 < t.len() && k2 < t.len() {
            assert(t2[k1] == t[k1] && t2[k2] == t[k2]);
            assert(disjoint(t[k1].0, t[k1].1, t[k2].0, t[k2].1, dev));
        } else if k1 < t.len() {
            assert(t2[k1] == t[k1]);
            assert(!owns(t[k1].0, dev, t[k1].1, x));
        } else {
            assert(t2[k2] == t[k2]);
            assert(!owns(t[k2].0, dev, t[k2].1, x));
        }
    }
}

/// The name of the entry of a directory that points at itself
pub open spec fn dot_name() -> Seq<u8> {
    seq![46u8]
}

/// The name of the entry of a directory that points at its parent
pub open spec fn dotdot_name() -> Seq<u8> {
    seq![46u8, 46u8]
}

/// Whether one of the first `n` inodes of the table owns block `x`
pub open spec fn owned_by_first(t: Seq<(DiskINode, int)>, dev: Seq<u8>, n: int, x: int) -> bool {
    exists|k: int| 0 <= k < n && #[trigger] owns(t[k].0, dev, t[k].1, x)
}

/// Whether a disk inode can join the inodes in memory as inode `id`: it is
/// valid and shares no block with them.
pub open spec fn loadable(t: Seq<(DiskINode, int)>, di: DiskINode, id: int, dev: Seq<u8>, nb: int, free: Set<nat>) -> bool {
    &&& inode_ok(di, dev, id, nb, free)
    &&& forall|k: int| 0 <= k < t.len() ==> disjoint(di, id, #[trigger] t[k].0, t[k].1, dev)
}

/// The bytes of the on-disk inode in block `id`
pub open spec fn disk_inode_bytes(dev: Seq<u8>, id: int) -> Seq<u8> {
    dev.subrange(blk_pos(id, 0), blk_pos(id, 0) + 68)
}

/// Position of the first '/' of `p` at or after `i`, or `p.len()` if there is none
pub open spec fn slash_at(p: Seq<u8>, i: int) -> int
    decreases p.len() - i,
{
    if i >= p.len() {
        p.len() as int
    } else if p[i] == 47 {
        i
    } else {
        slash_at(p, i + 1)
    }
}

pub proof fn lemma_slash_at(p: Seq<u8>, i: int)
    requires
        0 <= i <= p.len(),
    ensures
        i <= slash_at(p, i) <= p.len(),
        forall|k: int| i <= k < slash_at(p, i) ==> p[k] != 47,
        slash_at(p, i) < p.len() ==> p[slash_at(p, i)] == 47,
    decreases p.len() - i,
{
    if i < p.len() && p[i] != 47 {
        lemma_slash_at(p, i + 1);
    }
}

/// Position of the first '/' of `p`
pub fn find_slash(p: &[u8]) -> (n: usize)
    ensures
        n == slash_at(p@, 0),
{
    let mut i: usize = 0;
    while i < p.len()
        invariant
            i <= p@.len(),
            slash_at(p@, 0) == slash_at(p@, i as int),
        decreases p@.len() - i,
    {
        if p[i] == 47 {
            return i;
        }
        i = i + 1;
    }
    i
}

/// Whether an inode reads its bytes from block `y`: its indirect block or one of its data blocks
pub open spec fn reads_block(di: DiskINode, dev: Seq<u8>, y: int) -> bool {
    (has_indirect(di) && y == di.indirect) || is_data_block(di, dev, y)
}

/// Whether no inode of the table reads its bytes from block `y`
pub open spec fn unread_block(t: Seq<(DiskINode, int)>, dev: Seq<u8>, y: int) -> bool {
    forall|k: int| 0 <= k < t.len() ==> !reads_block(#[trigger] t[k].0, dev, y)
}

/// A change of one block that no inode reads its bytes from keeps the table
/// valid and every inode's bytes.
pub proof fn lemma_write_unread_block(t: Seq<(DiskINode, int)>, dev1: Seq<u8>, dev2: Seq<u8>, nb: int, free: Set<nat>, y: int)
    requires
        inodes_ok(t, dev1, nb, free),
        nb <= BLKBITS,
        blk_pos(nb, 0) <= dev1.len(),
        dev2.len() == dev1.len(),
        forall|z: int| z != y ==> #[trigger] same_block(dev1, dev2, z),
        unread_block(t, dev1, y),
    ensures
        inodes_ok(t, dev2, nb, free),
        forall|k: int| 0 <= k < t.len() ==> #[trigger] content(t[k].0, dev2) == content(t[k].0, dev1),
{
    assert forall|k: int| 0 <= k < t.len() implies inode_ok(#[trigger] t[k].0, dev2, t[k].1, nb, free) && content(t[k].0, dev2)
        == content(t[k].0, dev1) && (forall|x: int| owns(t[k].0, dev1, t[k].1, x) <==> #[trigger] owns(t[k].0, dev2, t[k].1, x)) by {
        let di = t[k].0;
        assert(inode_ok(di, dev1, t[k].1, nb, free));
        assert(!reads_block(di, dev1, y));
        lemma_inode_ok_same_table(di, dev1, dev2, t[k].1, nb, free);
        assert forall|i: int| 0 <= i < di.blocks implies same_block(dev1, dev2, #[trigger] block_of(di, dev1, i)) by {
            if block_of(di, dev1, i) == y {
                assert(is_data_block(di, dev1, y));
            }
        }
        assert forall|i: int| 0 <= i < di.blocks implies 0 <= blk_pos(#[trigger] block_of(di, dev1, i), BLKSIZE as int) <= dev1.len() by {
            assert(usable(block_of(di, dev1, i), nb, free));
        }
        lemma_content_same_blocks(di, dev1, dev2, nb);
    }
    assert forall|k1: int, k2: int| 0 <= k1 < t.len() && 0 <= k2 < t.len() && k1 != k2 implies disjoint(
        #[trigger] t[k1].0, t[k1].1, #[trigger] t[k2].0, t[k2].1, dev2) by {
        assert(disjoint(t[k1].0, t[k1].1, t[k2].0, t[k2].1, dev1));
        assert forall|x: int| !(#[trigger] owns(t[k1].0, dev2, t[k1].1, x) && owns(t[k2].0, dev2, t[k2].1, x)) by {
            assert(owns(t[k1].0, dev1, t[k1].1, x) == owns(t[k1].0, dev2, t[k1].1, x));
            assert(owns(t[k2].0, dev1, t[k2].1, x) == owns(t[k2].0, dev2, t[k2].1, x));
        }
    }
}

/// The superblock, the free map and the inode blocks hold no file bytes.
pub proof fn lemma_meta_blocks_unread(t: Seq<(DiskINode, int)>, dev: Seq<u8>, nb: int, free: Set<nat>, k: int)
    requires
        inodes_ok(t, dev, nb, free),
    ensures
        unread_block(t, dev, BLKN_SUPER as int),
        unread_block(t, dev, BLKN_FREEMAP as int),
        0 <= k < t.len() ==> unread_block(t, dev, t[k].1),
{
    assert forall|j: int, y: int| 0 <= j < t.len() && (y < 3 || (0 <= k < t.len() && y == t[k].1)) implies !#[trigger] reads_block(t[j].0, dev, y) by {
        let di = t[j].0;
        assert(inode_ok(di, dev, t[j].1, nb, free));
        if is_data_block(di, dev, y) {
            let i = choose|i: int| 0 <= i < di.blocks && #[trigger] block_of(di, dev, i) == y;
            assert(usable(block_of(di, dev, i), nb, free));
            if 0 <= k < t.len() && y == t[k].1 && j != k {
                assert(disjoint(t[j].0, t[j].1, t[k].0, t[k].1, dev));
                assert(owns(t[k].0, dev, t[k].1, y));
                assert(owns(di, dev, t[j].1, y));
            }
        }
        if has_indirect(di) && y == di.indirect && 0 <= k < t.len() && y == t[k].1 && j != k {
            assert(disjoint(t[j].0, t[j].1, t[k].0, t[k].1, dev));
            assert(owns(t[k].0, dev, t[k].1, y));
            assert(owns(di, dev, t[j].1, y));
        }
    }
    assert(unread_block(t, dev, BLKN_SUPER as int));
    assert(unread_block(t, dev, BLKN_FREEMAP as int));
}

/// Two devices that agree on block `x` hold the same bytes in any range of it.
pub proof fn lemma_same_block_bytes(dev1: Seq<u8>, dev2: Seq<u8>, x: int, a: int, b: int)
    requires
        same_block(dev1, dev2, x),
        0 <= x,
        0 <= a <= b <= BLKSIZE,
        blk_pos(x, BLKSIZE as int) <= dev1.len(),
        blk_pos(x, BLKSIZE as int) <= dev2.len(),
    ensures
        dev1.subrange(blk_pos(x, a), blk_pos(x, b)) == dev2.subrange(blk_pos(x, a), blk_pos(x, b)),
{
    assert forall|i: int| 0 <= i < b - a implies #[trigger] dev1.subrange(blk_pos(x, a), blk_pos(x, b))[i] == dev2.subrange(
        blk_pos(x, a),
        blk_pos(x, b),
    )[i] by {
        assert(dev1[blk_pos(x, a + i)] == dev2[blk_pos(x, a + i)]);
    }
    assert(dev1.subrange(blk_pos(x, a), blk_pos(x, b)) =~= dev2.subrange(blk_pos(x, a), blk_pos(x, b)));
}

/// A read of the bytes a write just put inside a file gives them back, and the
/// write leaves every other byte and the length as they were.
pub proof fn law_read_after_write(c: Seq<u8>, at: int, data: Seq<u8>)
    requires
        0 <= at,
        at + data.len() <= c.len(),
    ensures
        spec_overwrite(c, at, data).len() == c.len(),
        spec_overwrite(c, at, data).subrange(at, at + data.len()) == data,
        forall|i: int| 0 <= i < c.len() && !(at <= i < at + data.len()) ==> #[trigger] spec_overwrite(c, at, data)[i] == c[i],
{
    assert(spec_overwrite(c, at, data).subrange(at, at + data.len()) =~= data);
}

/// The number of blocks that hold `len` bytes
/// Whether the free map of image `c` marks block `x` free: bit `x % 32` of the
/// little-endian word `x / 32` of the free map block
pub open spec fn image_free_bit(c: Seq<u8>, x: nat) -> bool {
    word_bit(spec_u32_at(c, blk_pos(BLKN_FREEMAP as int, (4 * (x / 32)) as int)), (x % 32) as int)
}

/// The blocks that the free map of image `c` marks free
pub open spec fn image_free(c: Seq<u8>) -> Set<nat> {
    Set::new(|x: nat| x < BLKBITS && image_free_bit(c, x))
}

/// Whether `c` holds a file system that `open` accepts: the superblock carries the
/// magic number and a block count from 3 to what the free map can count, the image
/// holds all those blocks, only blocks past the superblock, the root and the free
/// map and below the block count are free, and as many as the superblock counts
pub open spec fn image_ok(c: Seq<u8>) -> bool {
    let sb = c.subrange(0, SUPER_BLOCK_SIZE as int);
    let nb = spec_u32_at(sb, 4);
    &&& SUPER_BLOCK_SIZE <= c.len()
    &&& spec_u32_at(sb, 0) == MAGIC
    &&& 3 <= nb <= BLKBITS
    &&& nb * BLKSIZE <= c.len()
    &&& forall|x: nat| x < BLKBITS && #[trigger] image_free_bit(c, x) ==> 3 <= x < nb
    &&& image_free(c).len() == spec_u32_at(sb, 8)
}

/// The number of blocks that shrinking an inode from `blocks` to `target` blocks
/// gives back: the data blocks past `target`, and the indirect block when it is
/// no longer needed
pub open spec fn shrink_frees(blocks: int, target: int) -> nat {
    if target < blocks {
        ((blocks - target) + if target < NDIRECT && blocks >= NDIRECT { 1int } else { 0int }) as nat
    } else {
        0
    }
}

/// The number of blocks that growing an inode from `blocks` to `target` blocks
/// allocates: the new data blocks, and the indirect block when it is first needed
pub open spec fn grow_needs(blocks: int, target: int) -> nat {
    if blocks < target {
        ((target - blocks) + if blocks < NDIRECT && target >= NDIRECT { 1int } else { 0int }) as nat
    } else {
        0
    }
}

pub open spec fn blocks_for(len: int) -> int {
    (len + BLKSIZE - 1) / (BLKSIZE as int)
}

/// An inode keeps its bytes, its validity and its blocks on a device that
/// changed only blocks it does not own.
pub proof fn lemma_content_unowned(di: DiskINode, id: int, dev1: Seq<u8>, dev2: Seq<u8>, nb: int, free: Set<nat>)
    requires
        inode_ok(di, dev1, id, nb, free),
        nb <= BLKBITS,
        blk_pos(nb, 0) <= dev1.len(),
        dev2.len() == dev1.len(),
        forall|y: int| #[trigger] owns(di, dev1, id, y) ==> same_block(dev1, dev2, y),
    ensures
        content(di, dev2) == content(di, dev1),
        inode_ok(di, dev2, id, nb, free),
        forall|x: int| owns(di, dev1, id, x) <==> #[trigger] owns(di, dev2, id, x),
        forall|i: int| 0 <= i < di.blocks ==> #[trigger] block_of(di, dev1, i) == block_of(di, dev2, i),
{
    if has_indirect(di) {
        assert(owns(di, dev1, id, di.indirect as int));
    }
    lemma_inode_ok_same_table(di, dev1, dev2, id, nb, free);
    assert forall|i: int| 0 <= i < di.blocks implies same_block(dev1, dev2, #[trigger] block_of(di, dev1, i)) by {
        assert(owns(di, dev1, id, block_of(di, dev1, i)));
    }
    assert forall|i: int| 0 <= i < di.blocks implies 0 <= blk_pos(#[trigger] block_of(di, dev1, i), BLKSIZE as int) <= dev1.len() by {
        assert(usable(block_of(di, dev1, i), nb, free));
    }
    lemma_content_same_blocks(di, dev1, dev2, nb);
}

/// When the device changed only in blocks that inode `k` owns afterwards, the
/// other inodes keep their bytes.
pub proof fn lemma_others_keep(
    t: Seq<(DiskINode, int)>,
    t2: Seq<(DiskINode, int)>,
    k: int,
    dev1: Seq<u8>,
    dev2: Seq<u8>,
    nb: int,
    free1: Set<nat>,
    free2: Set<nat>,
)
    requires
        inodes_ok(t, dev1, nb, free1),
        inodes_ok(t2, dev2, nb, free2),
        t.len() == t2.len(),
        0 <= k < t.len(),
        forall|j: int| 0 <= j < t.len() && j != k ==> #[trigger] t2[j] == t[j],
        nb <= BLKBITS,
        blk_pos(nb, 0) <= dev1.len(),
        dev2.len() == dev1.len(),
        forall|y: int| !owns(t2[k].0, dev2, t2[k].1, y) ==> #[trigger] same_block(dev1, dev2, y),
    ensures
        forall|j: int| 0 <= j < t.len() && j != k ==> #[trigger] content(t[j].0, dev2) == content(t[j].0, dev1),
{
    assert forall|j: int| 0 <= j < t.len() && j != k implies #[trigger] content(t[j].0, dev2) == content(t[j].0, dev1) by {
        let di = t[j].0;
        let id = t[j].1;
        assert(inode_ok(di, dev1, id, nb, free1));
        assert(inode_ok(t2[j].0, dev2, t2[j].1, nb, free2));
        assert(disjoint(t2[k].0, t2[k].1, t2[j].0, t2[j].1, dev2));
        if has_indirect(di) {
            assert(owns(t2[j].0, dev2, t2[j].1, di.indirect as int));
        }
        assert(same_table(dev1, dev2, di));
        lemma_inode_ok_same_table(di, dev1, dev2, id, nb, free1);
        assert forall|y: int| #[trigger] owns(di, dev1, id, y) implies same_block(dev1, dev2, y) by {
            assert(owns(t2[j].0, dev2, t2[j].1, y));
        }
        lemma_content_unowned(di, id, dev1, dev2, nb, free1);
    }
}

/// A write confined to the data blocks of inode `k` keeps the table valid
/// and the other inodes' bytes.
pub proof fn lemma_write_keeps(t: Seq<(DiskINode, int)>, k: int, dev1: Seq<u8>, dev2: Seq<u8>, nb: int, free: Set<nat>)
    requires
        inodes_ok(t, dev1, nb, free),
        0 <= k < t.len(),
        nb <= BLKBITS,
        blk_pos(nb, 0) <= dev1.len(),
        dev2.len() == dev1.len(),
        same_table(dev1, dev2, t[k].0),
        forall|y: int| !is_data_block(t[k].0, dev1, y) ==> #[trigger] same_block(dev1, dev2, y),
    ensures
        inodes_ok(t, dev2, nb, free),
        forall|j: int| 0 <= j < t.len() && j != k ==> #[trigger] content(t[j].0, dev2) == content(t[j].0, dev1),
{
    let di = t[k].0;
    let id = t[k].1;
    assert(inode_ok(di, dev1, id, nb, free));
    assert forall|k2: int| 0 <= k2 < t.len() && k2 != k implies same_table(dev1, dev2, #[trigger] t[k2].0) by {
        assert(disjoint(t[k].0, t[k].1, t[k2].0, t[k2].1, dev1));
        if has_indirect(t[k2].0) {
            let y = t[k2].0.indirect as int;
            assert(owns(t[k2].0, dev1, t[k2].1, y));
            if is_data_block(di, dev1, y) {
                let i = choose|i: int| 0 <= i < di.blocks && #[trigger] block_of(di, dev1, i) == y;
                assert(owns(di, dev1, id, y));
            }
        }
    }
    lemma_inode_ok_same_table(di, dev1, dev2, id, nb, free);
    assert forall|k2: int, x: int| 0 <= k2 < t.len() && k2 != k && #[trigger] owns(di, dev2, id, x) implies !#[trigger] owns(t[k2].0, dev1, t[k2].1, x) by {
        assert(disjoint(t[k].0, t[k].1, t[k2].0, t[k2].1, dev1));
        assert(owns(di, dev1, id, x));
    }
    assert(t.update(k, (di, id)) =~= t);
    lemma_inodes_ok_replace(t, k, di, dev1, dev2, nb, free, free);
    assert forall|y: int| !owns(t[k].0, dev2, t[k].1, y) implies #[trigger] same_block(dev1, dev2, y) by {
        if is_data_block(di, dev1, y) {
            let i = choose|i: int| 0 <= i < di.blocks && #[trigger] block_of(di, dev1, i) == y;
            assert(block_of(di, dev2, i) == y);
        }
    }
    lemma_others_keep(t, t, k, dev1, dev2, nb, free, free);
}

/// Two inodes that map their first blocks to the same disk blocks, on devices
/// that agree on those blocks, hold the same first `n` bytes.
pub proof fn lemma_content_prefix(di: DiskINode, dev: Seq<u8>, di2: DiskINode, dev2: Seq<u8>, n: int)
    requires
        0 <= n <= io_size(di),
        n <= io_size(di2),
        forall|j: int|
            0 <= j && j * BLKSIZE < n ==> #[trigger] block_of(di2, dev2, j) == block_of(di, dev, j)
                && same_block(dev, dev2, block_of(di, dev, j)),
        forall|j: int| 0 <= j && j * BLKSIZE < n ==> blk_pos(#[trigger] block_of(di, dev, j), BLKSIZE as int) <= dev.len(),
        forall|j: int| 0 <= j && j * BLKSIZE < n ==> 0 <= #[trigger] block_of(di, dev, j),
    ensures
        content(di2, dev2).subrange(0, n) == content(di, dev).subrange(0, n),
{
    let c = content(di, dev);
    let c2 = content(di2, dev2);
    assert forall|i: int| 0 <= i < n implies c2[i] == c[i] by {
        let q = i / (BLKSIZE as int);
        let r = i % (BLKSIZE as int);
        vstd::arithmetic::div_mod::lemma_fundamental_div_mod(i, BLKSIZE as int);
        lemma_content_at(di, dev, q, r);
        lemma_content_at(di2, dev2, q, r);
        assert(q * BLKSIZE <= i);
        assert(block_of(di2, dev2, q) == block_of(di, dev, q));
        assert(same_block(dev, dev2, block_of(di, dev, q)));
    }
    assert(c2.subrange(0, n) =~= c.subrange(0, n));
}

impl<D: Device> SimpleFileSystem<D> {
    /// The bytes on the device
    pub closed spec fn dev(&self) -> Seq<u8> {
        self.device.content()
    }

    /// Whether the device never fails
    pub closed spec fn reliable(&self) -> bool {
        self.device.reliable()
    }

    /// The device under the file system
    pub fn device(&self) -> (r: &D)
        ensures
            r.content() == self.dev(),
            r.reliable() == self.reliable(),
    {
        &self.device
    }

    /// The superblock in memory
    pub closed spec fn super_block(&self) -> SuperBlock {
        self.super_block.value()
    }

    /// The number of blocks
    pub closed spec fn nb(&self) -> int {
        self.super_block.value().blocks as int
    }

    /// The free blocks
    pub closed spec fn free(&self) -> Set<nat> {
        self.free_map.value().free()
    }

    /// The number of inodes in memory
    pub closed spec fn ncached(&self) -> int {
        self.inodes@.len() as int
    }

    /// Inode number of the `k`-th inode in memory
    pub closed spec fn cached_id(&self, k: int) -> int {
        self.inodes@[k].id as int
    }

    /// Disk inode of the `k`-th inode in memory
    pub closed spec fn cached_inode(&self, k: int) -> DiskINode {
        self.inodes@[k].disk_inode.value()
    }

    /// Whether inode `id` is in memory
    pub open spec fn is_cached(&self, id: int) -> bool {
        exists|k: int| 0 <= k < self.ncached() && self.cached_id(k) == id
    }

    /// The inodes in memory as (disk inode, number) pairs
    pub closed spec fn table(&self) -> Seq<(DiskINode, int)> {
        Seq::new(
            self.inodes@.len(),
            |k: int| (self.inodes@[k].disk_inode.value(), self.inodes@[k].id as int),
        )
    }

    /// The invariant of the superblock, the free map and the device
    pub closed spec fn base_ok(&self) -> bool {
        let nb = self.nb();
        let free = self.free();
        &&& self.free_map.value().wf()
        &&& self.free_map.value().nbits() == BLKBITS
        &&& 3 <= nb <= BLKBITS
        &&& blk_pos(nb, 0) <= self.dev().len()
        &&& free.finite()
        &&& self.super_block.value().unused_blocks == free.len()
        &&& forall|x: nat| #[trigger] free.contains(x) ==> 3 <= x < nb
    }

    pub open spec fn wf(&self) -> bool {
        &&& self.base_ok()
        &&& inodes_ok(self.table(), self.dev(), self.nb(), self.free())
    }

    /// Read content, no matter what type it is
    fn read_content(&mut self, di: &DiskINode, offset: usize, buf: &mut [u8]) -> (r: Result<usize, ()>)
        requires
            old(self).base_ok(),
            inode_io_ok(*di, old(self).dev(), old(self).nb()),
            di.type_ == FileType::File || di.type_ == FileType::Dir,
            offset + old(buf)@.len() <= usize::MAX,
        ensures
            final(self).dev() == old(self).dev(),
            final(self).reliable() == old(self).reliable(),
            final(self).super_block == old(self).super_block,
            final(self).free_map == old(self).free_map,
            final(self).inodes == old(self).inodes,
            final(buf)@.len() == old(buf)@.len(),
            r matches Ok(n) ==> {
                let size = io_size(*di);
                let begin = if offset < size { offset as int } else { size };
                let end = if offset + old(buf)@.len() < size { offset + old(buf)@.len() } else { size };
                &&& n == end - begin
                &&& final(buf)@.subrange(0, n as int) == content(*di, old(self).dev()).subrange(begin, end)
                &&& final(buf)@.subrange(n as int, old(buf)@.len() as int) == old(buf)@.subrange(n as int, old(buf)@.len() as int)
            },
            old(self).reliable() ==> r is Ok,
    {
        let size = io_size_exec(di);
        let begin = if offset < size { offset } else { size };
        let end = if offset + buf.len() < size { offset + buf.len() } else { size };
        let ghost dev = self.dev();
        let ghost c = content(*di, dev);
        let mut iter = BlockIter { begin, end };
        let mut buf_offset: usize = 0;
        loop
            invariant_except_break
                self.base_ok(),
                inode_io_ok(*di, dev, self.nb()),
                self.dev() == dev,
                dev == old(self).dev(),
                self.reliable() == old(self).reliable(),
                self.super_block == old(self).super_block,
                self.free_map == old(self).free_map,
                self.inodes == old(self).inodes,
                iter.end == end,
                begin <= iter.begin <= end,
                end <= size,
                size == io_size(*di),
                c == content(*di, dev),
                buf_offset == iter.begin - begin,
                buf@.len() == old(buf)@.len(),
                end - begin <= buf@.len(),
                buf@.subrange(0, buf_offset as int) == c.subrange(begin as int, iter.begin as int),
                buf@.subrange(buf_offset as int, buf@.len() as int) == old(buf)@.subrange(buf_offset as int, buf@.len() as int),
            ensures
                self.dev() == dev,
                self.reliable() == old(self).reliable(),
                self.super_block == old(self).super_block,
                self.free_map == old(self).free_map,
                self.inodes == old(self).inodes,
                buf@.len() == old(buf)@.len(),
                buf_offset == end - begin,
                buf@.subrange(0, buf_offset as int) == c.subrange(begin as int, end as int),
                buf@.subrange(buf_offset as int, buf@.len() as int) == old(buf)@.subrange(buf_offset as int, buf@.len() as int),
            decreases end - iter.begin,
        {
            let ghost ib0 = iter.begin;
            let next = iter.next();
            match next {
                None => {
                    break;
                },
                Some(range) => {
                    proof {
                        vstd::arithmetic::div_mod::lemma_fundamental_div_mod(range.block * BLKSIZE + range.begin, BLKSIZE as int);
                    }
                    assert(range.block < di.blocks) by {
                        assert(range.block * BLKSIZE + range.begin < size);
                    }
                    let b = match self.get_disk_block_id(di, range.block) {
                        Ok(b) => b,
                        Err(e) => {
                            return Err(e);
                        },
                    };
                    let len = range.len();
                    let data = match read_block(&mut self.device, b, range.begin, len) {
                        Ok(d) => d,
                        Err(e) => {
                            return Err(e);
                        },
                    };
                    proof {
                        assert forall|t: int| 0 <= t < len implies data@[t] == c[range.block * BLKSIZE + range.begin + t] by {
                            lemma_content_at(*di, dev, range.block as int, range.begin + t);
                        }
                    }
                    let ghost before = buf@;
                    copy_into(buf, buf_offset, data.as_slice());
                    proof {
                        assert forall|k: int| 0 <= k < buf_offset + len implies buf@[k] == c[begin + k] by {
                            if k < buf_offset {
                                assert(buf@[k] == buf@.subrange(0, buf_offset as int)[k]);
                                assert(before[k] == before.subrange(0, buf_offset as int)[k]);
                                assert(before.subrange(0, buf_offset as int)[k] == c.subrange(begin as int, ib0 as int)[k]);
                            } else {
                                assert(buf@[k] == buf@.subrange(buf_offset as int, buf_offset + len)[k - buf_offset]);
                                assert(data@[k - buf_offset] == c[range.block * BLKSIZE + range.begin + (k - buf_offset)]);
                            }
                        }
                        assert(buf@.subrange(0, buf_offset + len) =~= c.subrange(begin as int, iter.begin as int));
                        assert forall|k: int| buf_offset + len <= k < buf@.len() implies buf@[k] == old(buf)@[k] by {
                            assert(buf@[k] == buf@.subrange(buf_offset + len, buf@.len() as int)[k - buf_offset - len]);
                            assert(before[k] == before.subrange(buf_offset as int, buf@.len() as int)[k - buf_offset]);
                            assert(old(buf)@[k] == old(buf)@.subrange(buf_offset as int, buf@.len() as int)[k - buf_offset]);
                        }
                        assert(buf@.subrange(buf_offset + len, buf@.len() as int) =~= old(buf)@.subrange(buf_offset + len, buf@.len() as int));
                    }
                    buf_offset = buf_offset + len;
                },
            }
        }
        Ok(buf_offset)
    }

    /// Write content, no matter what type it is; writes stop at the end of the content
    fn write_content(&mut self, di: &DiskINode, offset: usize, buf: &[u8]) -> (r: Result<usize, ()>)
        requires
            old(self).base_ok(),
            inode_io_ok(*di, old(self).dev(), old(self).nb()),
            blocks_distinct(*di, old(self).dev()),
            di.type_ == FileType::File || di.type_ == FileType::Dir,
            offset + buf@.len() <= usize::MAX,
        ensures
            final(self).dirty_kept(old(self)),
            final(self).reliable() == old(self).reliable(),
            final(self).super_block == old(self).super_block,
            final(self).free_map == old(self).free_map,
            final(self).inodes == old(self).inodes,
            r matches Ok(n) ==> {
                let size = io_size(*di);
                let begin = if offset < size { offset as int } else { size };
                let end = if offset + buf@.len() < size { offset + buf@.len() } else { size };
                &&& n == end - begin
                &&& final(self).dev().len() == old(self).dev().len()
                &&& same_table(old(self).dev(), final(self).dev(), *di)
                &&& forall|y: int| !is_data_block(*di, old(self).dev(), y) ==> #[trigger] same_block(old(self).dev(), final(self).dev(), y)
                &&& content(*di, final(self).dev()) == spec_overwrite(content(*di, old(self).dev()), begin, buf@.subrange(0, n as int))
            },
            old(self).reliable() ==> r is Ok,
    {
        let size = io_size_exec(di);
        let begin = if offset < size { offset } else { size };
        let end = if offset + buf.len() < size { offset + buf.len() } else { size };
        let ghost dev0 = self.dev();
        let ghost c0 = content(*di, dev0);
        let mut iter = BlockIter { begin, end };
        let mut buf_offset: usize = 0;
        loop
            invariant_except_break
                self.base_ok(),
                inode_io_ok(*di, dev0, self.nb()),
                blocks_distinct(*di, dev0),
                dev0 == old(self).dev(),
                self.reliable() == old(self).reliable(),
                self.super_block == old(self).super_block,
                self.free_map == old(self).free_map,
                self.inodes == old(self).inodes,
                iter.end == end,
                begin <= iter.begin <= end,
                end <= size,
                size == io_size(*di),
                c0 == content(*di, dev0),
                buf_offset == iter.begin - begin,
                end - begin <= buf@.len(),
                self.dev().len() == dev0.len(),
                same_table(dev0, self.dev(), *di),
                forall|y: int| !is_data_block(*di, dev0, y) ==> #[trigger] same_block(dev0, self.dev(), y),
                content(*di, self.dev()) == spec_overwrite(c0, begin as int, buf@.subrange(0, buf_offset as int)),
            ensures
                self.reliable() == old(self).reliable(),
                self.super_block == old(self).super_block,
                self.free_map == old(self).free_map,
                self.inodes == old(self).inodes,
                buf_offset == end - begin,
                self.dev().len() == dev0.len(),
                same_table(dev0, self.dev(), *di),
                forall|y: int| !is_data_block(*di, dev0, y) ==> #[trigger] same_block(dev0, self.dev(), y),
                content(*di, self.dev()) == spec_overwrite(c0, begin as int, buf@.subrange(0, buf_offset as int)),
            decreases end - iter.begin,
        {
            let ghost ib0 = iter.begin;
            let ghost cur = self.dev();
            let next = iter.next();
            match next {
                None => {
                    break;
                },
                Some(range) => {
                    proof {
                        vstd::arithmetic::div_mod::lemma_fundamental_div_mod(range.block * BLKSIZE + range.begin, BLKSIZE as int);
                    }
                    assert(range.block < di.blocks) by {
                        assert(range.block * BLKSIZE + range.begin < size);
                    }
                    let b = match self.get_disk_block_id(di, range.block) {
                        Ok(b) => b,
                        Err(e) => {
                            return Err(e);
                        },
                    };
                    proof {
                        lemma_block_of_same_table(*di, dev0, cur, self.nb());
                        assert(b == block_of(*di, dev0, range.block as int));
                    }
                    let len = range.len();
                    let data = vstd::slice::slice_subrange(buf, buf_offset, buf_offset + len);
                    match write_block(&mut self.device, b, range.begin, data) {
                        Ok(()) => {},
                        Err(e) => {
                            return Err(e);
                        },
                    }
                    proof {
                        let nd = self.dev();
                        lemma_write_in_block(cur, b as int, range.begin as int, data@);
                        assert(is_data_block(*di, dev0, b as int));
                        assert forall|y: int| !is_data_block(*di, dev0, y) implies #[trigger] same_block(dev0, nd, y) by {
                            assert(same_block(dev0, cur, y));
                            assert(same_block(cur, nd, y));
                        }
                        if has_indirect(*di) {
                            assert(!is_data_block(*di, dev0, di.indirect as int));
                        }
                        assert(same_table(dev0, nd, *di));
                        lemma_block_of_same_table(*di, dev0, nd, self.nb());
                        let c_cur = content(*di, cur);
                        let c_new = content(*di, nd);
                        let target = spec_overwrite(c0, begin as int, buf@.subrange(0, buf_offset + len));
                        assert forall|k: int| 0 <= k < c_new.len() implies c_new[k] == target[k] by {
                            let q = k / (BLKSIZE as int);
                            let t = k % (BLKSIZE as int);
                            vstd::arithmetic::div_mod::lemma_fundamental_div_mod(k, BLKSIZE as int);
                            lemma_content_at(*di, nd, q, t);
                            lemma_content_at(*di, cur, q, t);
                            assert(0 <= q < di.blocks);
                            if q != range.block {
                                assert(block_of(*di, dev0, q) != b);
                                assert(same_block(cur, nd, block_of(*di, dev0, q)));
                                assert(k < range.block * BLKSIZE || k >= range.block * BLKSIZE + BLKSIZE);
                            } else {
                                assert(nd[blk_pos(b as int, t)] == if range.begin <= t < range.begin + len { data@[t - range.begin] } else { cur[blk_pos(b as int, t)] });
                            }
                        }
                        assert(c_new =~= target);
                    }
                    buf_offset = buf_offset + len;
                },
            }
        }
        Ok(buf_offset)
    }

    /// Map file block id to disk block id
    fn get_disk_block_id(&mut self, di: &DiskINode, file_block_id: usize) -> (r: Result<BlockId, ()>)
        requires
            old(self).base_ok(),
            file_block_id < di.blocks,
            di.blocks <= NDIRECT + BLK_NENTRY,
            has_indirect(*di) ==> di.indirect < old(self).nb(),
        ensures
            final(self).dev() == old(self).dev(),
            final(self).reliable() == old(self).reliable(),
            final(self).super_block == old(self).super_block,
            final(self).free_map == old(self).free_map,
            final(self).inodes == old(self).inodes,
            r matches Ok(b) ==> b == block_of(*di, old(self).dev(), file_block_id as int),
            old(self).reliable() ==> r is Ok,
    {
        if file_block_id < NDIRECT {
            Ok(di.direct[file_block_id] as BlockId)
        } else {
            let v = read_block(
                &mut self.device,
                di.indirect as usize,
                4 * (file_block_id - NDIRECT),
                4,
            )?;
            assert(v@.subrange(0, 4) =~= v@);
            Ok(read_u32(v.as_slice(), 0) as BlockId)
        }
    }

    /// Point block `file_block_id` of the file at `disk_block_id`
    fn set_disk_block_id(&mut self, di: &mut DiskINode, file_block_id: usize, disk_block_id: usize) -> (r: Result<(), ()>)
        requires
            old(self).base_ok(),
            file_block_id < old(di).blocks,
            old(di).blocks <= NDIRECT + BLK_NENTRY,
            has_indirect(*old(di)) ==> old(di).indirect < old(self).nb(),
            disk_block_id <= u32::MAX,
        ensures
            final(self).dirty_kept(old(self)),
            final(self).reliable() == old(self).reliable(),
            final(self).super_block == old(self).super_block,
            final(self).free_map == old(self).free_map,
            final(self).inodes == old(self).inodes,
            final(di).blocks == old(di).blocks,
            final(di).size == old(di).size,
            final(di).type_ == old(di).type_,
            final(di).nlinks == old(di).nlinks,
            final(di).indirect == old(di).indirect,
            final(di).db_indirect == old(di).db_indirect,
            file_block_id < NDIRECT ==> final(self).dev() == old(self).dev() && r is Ok,
            file_block_id >= NDIRECT ==> *final(di) == *old(di),
            r is Ok ==> {
                &&& final(self).dev().len() == old(self).dev().len()
                &&& forall|y: int| y != old(di).indirect ==> same_block(old(self).dev(), final(self).dev(), y)
                &&& file_block_id < NDIRECT ==> same_block(old(self).dev(), final(self).dev(), old(di).indirect as int)
                &&& block_of(*final(di), final(self).dev(), file_block_id as int) == disk_block_id
                &&& forall|j: int|
                    0 <= j < old(di).blocks && j != file_block_id ==> #[trigger] block_of(*final(di), final(self).dev(), j)
                        == block_of(*old(di), old(self).dev(), j)
            },
            old(self).reliable() ==> r is Ok,
    {
        if file_block_id < NDIRECT {
            di.direct[file_block_id] = disk_block_id as u32;
            assert(di.direct@ == old(di).direct@.update(file_block_id as int, disk_block_id as u32));
            Ok(())
        } else {
            let bytes = (disk_block_id as u32).as_buf();
            let ghost d0 = self.dev();
            let ghost pos = blk_pos(di.indirect as int, 4 * (file_block_id - NDIRECT));
            write_block(&mut self.device, di.indirect as usize, 4 * (file_block_id - NDIRECT), bytes.as_slice())?;
            proof {
                let d1 = self.dev();
                lemma_write_in_block(d0, di.indirect as int, 4 * (file_block_id - NDIRECT), bytes@);
                crate::codec::lemma_u32_le_bytes(disk_block_id as u32);
                assert(d1.subrange(pos, pos + 4) =~= bytes@);
                assert(spec_u32_at(d1, pos) == disk_block_id as u32);
                assert forall|j: int| 0 <= j < old(di).blocks && j != file_block_id implies #[trigger] block_of(*di, d1, j)
                    == block_of(*old(di), d0, j) by {
                    if j >= NDIRECT {
                        let q = blk_pos(di.indirect as int, 4 * (j - NDIRECT));
                        assert(d1.subrange(q, q + 4) =~= d0.subrange(q, q + 4)) by {
                            assert forall|t: int| q <= t < q + 4 implies d1[t] == d0[t] by {
                                assert(d1[blk_pos(di.indirect as int, t - di.indirect * BLKSIZE)] == d0[blk_pos(di.indirect as int, t - di.indirect * BLKSIZE)]);
                            }
                        }
                    }
                }
            }
            Ok(())
        }
    }

    /// Replace the disk inode of the `k`-th inode in memory
    fn store_inode(&mut self, k: usize, di: DiskINode)
        requires
            k < old(self).inodes@.len(),
        ensures
            final(self).dirty_kept(old(self)),
            final(self).table() == old(self).table().update(k as int, (di, old(self).table()[k as int].1)),
            final(self).inodes@.len() == old(self).inodes@.len(),
            final(self).inodes@[k as int].disk_inode.is_dirty(),
            forall|j: int| 0 <= j < old(self).inodes@.len() && j != k ==> final(self).inodes@[j] == old(self).inodes@[j],
            final(self).super_block == old(self).super_block,
            final(self).free_map == old(self).free_map,
            final(self).device == old(self).device,
    {
        let id = self.inodes[k].id;
        self.inodes.set(k, INode { disk_inode: Dirty::new_dirty(di), id });
        assert(self.table() =~= old(self).table().update(k as int, (di, old(self).table()[k as int].1)));
    }

    /// Grow the `k`-th inode in memory to `target` blocks, allocating them
    /// (and the indirect block when it is first needed) from the free map.
    /// On `NoDeviceSpace` the blocks allocated so far stay with the inode.
    fn grow(&mut self, k: usize, target: u32) -> (r: Result<(), FsError>)
        requires
            old(self).wf(),
            k < old(self).inodes@.len(),
            old(self).table()[k as int].0.blocks < target <= NDIRECT + BLK_NENTRY,
        ensures
            final(self).dirty_kept(old(self)),
            old(self).reliable() && grow_needs(old(self).table()[k as int].0.blocks as int, target as int) <= old(self).free().len()
                ==> r is Ok,
            r is Ok ==> final(self).free().len() == old(self).free().len() - grow_needs(
                old(self).table()[k as int].0.blocks as int,
                target as int,
            ),
            r == Err::<(), FsError>(FsError::NoDeviceSpace) ==> old(self).free().len() < grow_needs(
                old(self).table()[k as int].0.blocks as int,
                target as int,
            ),
            final(self).reliable() == old(self).reliable(),
            final(self).inodes@.len() == old(self).inodes@.len(),
            r is Ok || r == Err::<(), FsError>(FsError::NoDeviceSpace) || r == Err::<(), FsError>(FsError::DeviceError),
            r != Err::<(), FsError>(FsError::DeviceError) ==> {
                let di = old(self).table()[k as int].0;
                let di2 = final(self).table()[k as int].0;
                &&& final(self).wf()
                &&& final(self).dev().len() == old(self).dev().len()
                &&& final(self).nb() == old(self).nb()
                &&& final(self).super_block().magic == old(self).super_block().magic
                &&& final(self).table()[k as int].1 == old(self).table()[k as int].1
                &&& forall|j: int| 0 <= j < old(self).inodes@.len() && j != k ==> final(self).table()[j] == old(self).table()[j]
                &&& di2.size == di.size && di2.type_ == di.type_ && di2.nlinks == di.nlinks
                &&& di.blocks <= di2.blocks <= target
                &&& r is Ok ==> di2.blocks == target
                &&& has_indirect(di) ==> di2.indirect == di.indirect
                &&& forall|j: int| 0 <= j < di.blocks ==> #[trigger] block_of(di2, final(self).dev(), j) == block_of(di, old(self).dev(), j)
                &&& forall|y: int| !(has_indirect(di2) && y == di2.indirect) ==> #[trigger] same_block(old(self).dev(), final(self).dev(), y)
            },
            old(self).reliable() ==> r != Err::<(), FsError>(FsError::DeviceError),
    {
        let id = self.inodes[k].id;
        let mut di = self.inodes[k].disk_inode.get().clone_inode();
        let ghost di0 = di;
        let ghost need0 = grow_needs(di0.blocks as int, target as int);
        let ghost freeo = self.free();
        let ghost dev0 = self.dev();
        let ghost t0 = self.table();
        proof {
            assert(t0[k as int] == (di0, id as int));
            assert(inode_ok(t0[k as int].0, dev0, id as int, self.nb(), self.free()));
            assert(t0.update(k as int, (di0, id as int)) =~= t0);
        }
        if di.blocks < NDIRECT as u32 && target >= NDIRECT as u32 {
            let ghost free0 = self.free();
            match self.alloc_block() {
                Some(x) => {
                    proof {
                        lemma_inodes_ok_alloc(t0, dev0, self.nb(), free0, x as nat);
                        assert forall|k2: int, y: int| 0 <= k2 < t0.len() && #[trigger] owns(t0[k2].0, dev0, t0[k2].1, y) implies y != x by {
                            if y == x {
                                lemma_owned_not_free(t0, k2, dev0, self.nb(), free0, y);
                            }
                        }
                        assert forall|i: int| 0 <= i < di0.blocks implies #[trigger] block_of(di0, dev0, i) != x by {
                            assert(owns(t0[k as int].0, dev0, t0[k as int].1, block_of(di0, dev0, i)));
                        }
                    }
                    di.indirect = x as u32;
                    proof {
                        assert forall|i: int| 0 <= i < di.blocks implies #[trigger] block_of(di, dev0, i) == block_of(di0, dev0, i) by {}
                        assert(inode_ok(di, dev0, id as int, self.nb(), self.free()));
                        assert(t0.update(k as int, (di, id as int)) =~= t0.update(k as int, (di0, id as int)).update(k as int, (di, id as int)));
                        lemma_inodes_ok_replace(t0, k as int, di, dev0, dev0, self.nb(), self.free(), self.free());
                    }
                },
                None => {
                    return Err(FsError::NoDeviceSpace);
                },
            }
            proof {
                assert(need0 <= freeo.len() ==> (target - di.blocks) <= self.free().len());
                assert(self.free().len() == freeo.len() - (need0 - (target - di.blocks)));
            }
        } else {
            proof {
                if has_indirect(di0) {
                    assert(owns(t0[k as int].0, dev0, t0[k as int].1, di0.indirect as int));
                    assert forall|k2: int| 0 <= k2 < t0.len() && k2 != k implies !#[trigger] owns(t0[k2].0, dev0, t0[k2].1, di0.indirect as int) by {
                        assert(disjoint(t0[k as int].0, t0[k as int].1, t0[k2].0, t0[k2].1, dev0));
                    }
                }
            }
        }
        let ghost ind = di.indirect as int;
        while di.blocks < target
            invariant
                self.dirty_kept(old(self)),
                freeo == old(self).free(),
                need0 == grow_needs(di0.blocks as int, target as int),
                need0 <= freeo.len() ==> (target - di.blocks) <= self.free().len(),
                self.free().len() == freeo.len() - (need0 - (target - di.blocks)),
                self.base_ok(),
                k < self.inodes@.len(),
                self.inodes == old(self).inodes,
                self.reliable() == old(self).reliable(),
                self.nb() == old(self).nb(),
                self.super_block().magic == old(self).super_block().magic,
                t0 == old(self).table(),
                dev0 == old(self).dev(),
                t0[k as int] == (di0, id as int),
                di0.blocks <= di.blocks <= target,
                target <= NDIRECT + BLK_NENTRY,
                di.size == di0.size && di.type_ == di0.type_ && di.nlinks == di0.nlinks,
                di.indirect == ind,
                has_indirect(di0) ==> ind == di0.indirect,
                target >= NDIRECT ==> usable(ind, self.nb(), self.free()) && ind != id,
                target >= NDIRECT ==> forall|k2: int| 0 <= k2 < t0.len() && k2 != k ==> !#[trigger] owns(t0[k2].0, self.dev(), t0[k2].1, ind),
                target >= NDIRECT ==> forall|i: int| 0 <= i < di.blocks ==> #[trigger] block_of(di, self.dev(), i) != ind,
                inode_ok(di, self.dev(), id as int, self.nb(), self.free()),
                inodes_ok(t0.update(k as int, (di, id as int)), self.dev(), self.nb(), self.free()),
                self.dev().len() == dev0.len(),
                forall|j: int| 0 <= j < di0.blocks ==> #[trigger] block_of(di, self.dev(), j) == block_of(di0, dev0, j),
                forall|y: int| !(target >= NDIRECT && y == ind) ==> #[trigger] same_block(dev0, self.dev(), y),
                di.blocks <= NDIRECT ==> forall|y: int| #[trigger] same_block(dev0, self.dev(), y),
            decreases target - di.blocks,
        {
            let i = di.blocks;
            let ghost dev1 = self.dev();
            let ghost free1 = self.free();
            let ghost di1 = di;
            let ghost t1 = t0.update(k as int, (di1, id as int));
            match self.alloc_block() {
                Some(x) => {
                    let ghost free2 = self.free();
                    proof {
                        lemma_inodes_ok_alloc(t1, dev1, self.nb(), free1, x as nat);
                        assert forall|j: int| 0 <= j < di1.blocks implies #[trigger] block_of(di1, dev1, j) != x by {
                            assert(usable(block_of(di1, dev1, j), self.nb(), free1));
                        }
                    }
                    di.blocks = i + 1;
                    proof {
                        assert forall|j: int| 0 <= j < i implies #[trigger] block_of(di, dev1, j) == block_of(di1, dev1, j) by {}
                    }
                    match self.set_disk_block_id(&mut di, i as usize, x) {
                        Ok(()) => {},
                        Err(_) => {
                            return Err(FsError::DeviceError);
                        },
                    }
                    proof {
                        let dev2 = self.dev();
                        let nb = self.nb();
                        assert forall|j: int| 0 <= j < i implies #[trigger] block_of(di, dev2, j) == block_of(di1, dev1, j) by {
                            assert(block_of(di, dev2, j) == block_of(di1, dev1, j));
                        }
                        assert(block_of(di, dev2, i as int) == x);
                        // the other inodes keep their indirect blocks
                        assert forall|k2: int| 0 <= k2 < t1.len() && k2 != k implies same_table(dev1, dev2, #[trigger] t1[k2].0) by {
                            if has_indirect(t1[k2].0) {
                                assert(owns(t0[k2].0, dev1, t0[k2].1, t0[k2].0.indirect as int));
                                if i >= NDIRECT {
                                    assert(t1[k2].0.indirect != ind);
                                }
                            }
                        }
                        assert forall|j: int| 0 <= j < di.blocks implies {
                            &&& usable(#[trigger] block_of(di, dev2, j), nb, free2)
                            &&& block_of(di, dev2, j) != id
                            &&& has_indirect(di) ==> block_of(di, dev2, j) != di.indirect
                        } by {
                            if j < i {
                                assert(usable(block_of(di1, dev1, j), nb, free1));
                            }
                        }
                        assert forall|a: int, b: int| 0 <= a < b < di.blocks implies #[trigger] block_of(di, dev2, a) != #[trigger] block_of(di, dev2, b) by {
                            if b < i {
                                assert(block_of(di1, dev1, a) != block_of(di1, dev1, b));
                            } else {
                                assert(block_of(di1, dev1, a) != x);
                            }
                        }
                        assert(inode_ok(di, dev2, id as int, nb, free2));
                        assert forall|k2: int, y: int| 0 <= k2 < t1.len() && k2 != k && #[trigger] owns(di, dev2, id as int, y) implies !#[trigger] owns(t1[k2].0, dev1, t1[k2].1, y) by {
                            assert(disjoint(t1[k as int].0, t1[k as int].1, t1[k2].0, t1[k2].1, dev1));
                            if y == id {
                                assert(owns(t1[k as int].0, dev1, t1[k as int].1, y));
                            } else if has_indirect(di) && y == di.indirect {
                                assert(t1[k2] == t0[k2]);
                            } else {
                                let j = choose|j: int| 0 <= j < di.blocks && #[trigger] block_of(di, dev2, j) == y;
                                if j < i {
                                    assert(owns(t1[k as int].0, dev1, t1[k as int].1, y));
                                } else {
                                    if owns(t1[k2].0, dev1, t1[k2].1, y) {
                                        lemma_owned_not_free(t1, k2, dev1, nb, free1, y);
                                    }
                                }
                            }
                        }
                        assert forall|k2: int| 0 <= k2 < t1.len() && k2 != k implies inode_ok(#[trigger] t1[k2].0, dev1, t1[k2].1, nb, free2) by {
                            assert(inode_ok(t1[k2].0, dev1, t1[k2].1, nb, free2));
                        }
                        lemma_inodes_ok_replace(t1, k as int, di, dev1, dev2, nb, free1, free2);
                        assert(t1.update(k as int, (di, id as int)) =~= t0.update(k as int, (di, id as int)));
                        if target >= NDIRECT {
                            assert forall|k2: int| 0 <= k2 < t0.len() && k2 != k implies !#[trigger] owns(t0[k2].0, dev2, t0[k2].1, ind) by {
                                assert(t1[k2] == t0[k2]);
                                lemma_inode_ok_same_table(t0[k2].0, dev1, dev2, t0[k2].1, nb, free2);
                            }
                        }
                        assert forall|y: int| !(target >= NDIRECT && y == ind) implies #[trigger] same_block(dev0, dev2, y) by {
                            assert(same_block(dev0, dev1, y));
                            if i >= NDIRECT {
                                assert(same_block(dev1, dev2, y));
                            }
                        }
                        assert forall|j: int| 0 <= j < di0.blocks implies #[trigger] block_of(di, dev2, j) == block_of(di0, dev0, j) by {
                            assert(block_of(di1, dev1, j) == block_of(di0, dev0, j));
                        }
                        if di.blocks <= NDIRECT {
                            assert forall|y: int| #[trigger] same_block(dev0, dev2, y) by {
                                assert(same_block(dev0, dev1, y));
                            }
                        }
                    }
                },
                None => {
                    self.store_inode(k, di);
                    proof {
                        assert(self.table() =~= t0.update(k as int, (di, id as int)));
                    }
                    return Err(FsError::NoDeviceSpace);
                },
            }
        }
        self.store_inode(k, di);
        proof {
            assert(self.table() =~= t0.update(k as int, (di, id as int)));
        }
        Ok(())
    }

    /// Shrink the `k`-th inode in memory to `target` blocks, freeing the
    /// blocks past it (and the indirect block when it is no longer needed).
    fn shrink(&mut self, k: usize, target: u32, new_size: u32) -> (r: Result<(), FsError>)
        requires
            old(self).wf(),
            k < old(self).inodes@.len(),
            target < old(self).table()[k as int].0.blocks,
            new_size <= target * BLKSIZE,
        ensures
            final(self).dirty_kept(old(self)),
            final(self).wf(),
            final(self).reliable() == old(self).reliable(),
            final(self).dev() == old(self).dev(),
            final(self).inodes@.len() == old(self).inodes@.len(),
            final(self).nb() == old(self).nb(),
            final(self).super_block().magic == old(self).super_block().magic,
            final(self).table()[k as int].1 == old(self).table()[k as int].1,
            forall|j: int| 0 <= j < old(self).inodes@.len() && j != k ==> final(self).table()[j] == old(self).table()[j],
            r is Ok || r == Err::<(), FsError>(FsError::DeviceError),
            ({
                let di = old(self).table()[k as int].0;
                let di2 = final(self).table()[k as int].0;
                &&& di2.size == new_size && di2.type_ == di.type_ && di2.nlinks == di.nlinks
                &&& target <= di2.blocks <= di.blocks
                &&& r is Ok ==> di2.blocks == target
                &&& forall|j: int| 0 <= j < di2.blocks ==> #[trigger] block_of(di2, final(self).dev(), j) == block_of(di, old(self).dev(), j)
            }),
            old(self).reliable() ==> r is Ok,
            forall|x: nat| old(self).free().contains(x) ==> #[trigger] final(self).free().contains(x),
            r is Ok ==> final(self).free().len() == old(self).free().len() + shrink_frees(
                old(self).table()[k as int].0.blocks as int,
                target as int,
            ),
            r is Ok ==> forall|j: int| target <= j < old(self).table()[k as int].0.blocks ==> final(self).free().contains(
                #[trigger] block_of(old(self).table()[k as int].0, old(self).dev(), j) as nat,
            ),
            r is Ok && has_indirect(old(self).table()[k as int].0) && target < NDIRECT ==> final(self).free().contains(
                old(self).table()[k as int].0.indirect as nat,
            ),
    {
        let id = self.inodes[k].id;
        let mut di = self.inodes[k].disk_inode.get().clone_inode();
        let ghost di0 = di;
        di.size = new_size;
        let ghost dev = self.dev();
        let ghost t0 = self.table();
        let old_blocks = di.blocks;
        proof {
            assert(t0[k as int] == (di0, id as int));
            assert(inode_ok(t0[k as int].0, dev, id as int, self.nb(), self.free()));
            lemma_inode_ok_io(di0, dev, id as int, self.nb(), self.free());
            lemma_same_map(di0, di, dev, id as int);
            assert(inode_ok(di, dev, id as int, self.nb(), self.free()));
            assert forall|k2: int, x: int| 0 <= k2 < t0.len() && k2 != k && #[trigger] owns(di, dev, id as int, x) implies !#[trigger] owns(t0[k2].0, dev, t0[k2].1, x) by {
                assert(disjoint(t0[k as int].0, t0[k as int].1, t0[k2].0, t0[k2].1, dev));
                assert(owns(di0, dev, id as int, x));
            }
            lemma_inodes_ok_replace(t0, k as int, di, dev, dev, self.nb(), self.free(), self.free());
        }
        self.store_inode(k, di.clone_inode());
        proof {
            if has_indirect(di0) {
                assert(owns(t0[k as int].0, dev, t0[k as int].1, di0.indirect as int));
                assert forall|k2: int| 0 <= k2 < t0.len() && k2 != k implies !#[trigger] owns(t0[k2].0, dev, t0[k2].1, di0.indirect as int) by {
                    assert(disjoint(t0[k as int].0, t0[k as int].1, t0[k2].0, t0[k2].1, dev));
                }
            }
        }
        while di.blocks > target
            invariant
                self.dirty_kept(old(self)),
                forall|x: nat| old(self).free().contains(x) ==> #[trigger] self.free().contains(x),
                self.free().len() == old(self).free().len() + (di0.blocks - di.blocks),
                forall|j: int| di.blocks <= j < di0.blocks ==> self.free().contains(#[trigger] block_of(di0, dev, j) as nat),
                self.base_ok(),
                k < self.inodes@.len(),
                self.inodes@.len() == old(self).inodes@.len(),
                self.table()[k as int].1 == id,
                forall|j: int| 0 <= j < old(self).inodes@.len() && j != k ==> self.table()[j] == old(self).table()[j],
                self.reliable() == old(self).reliable(),
                self.dev() == dev,
                dev == old(self).dev(),
                self.nb() == old(self).nb(),
                self.super_block().magic == old(self).super_block().magic,
                t0 == old(self).table(),
                t0[k as int] == (di0, id as int),
                target <= di.blocks <= di0.blocks,
                di.size == new_size && di.type_ == di0.type_ && di.nlinks == di0.nlinks,
                new_size <= target * BLKSIZE,
                di.indirect == di0.indirect,
                has_indirect(di0) ==> forall|j: int| 0 <= j < di0.blocks ==> #[trigger] block_of(di0, dev, j) != di0.indirect,
                self.table() == t0.update(k as int, (di, id as int)),
                inodes_ok(self.table(), dev, self.nb(), self.free()),
                forall|j: int| 0 <= j < di.blocks ==> #[trigger] block_of(di, dev, j) == block_of(di0, dev, j),
                has_indirect(di0) ==> usable(di0.indirect as int, self.nb(), self.free()),
                has_indirect(di0) ==> forall|k2: int| 0 <= k2 < t0.len() && k2 != k ==> !#[trigger] owns(t0[k2].0, dev, t0[k2].1, di0.indirect as int),
            decreases di.blocks,
        {
            let i = di.blocks - 1;
            let ghost free1 = self.free();
            let ghost di1 = di;
            let ghost t1 = self.table();
            proof {
                assert(inode_ok(t1[k as int].0, dev, id as int, self.nb(), free1));
                lemma_inode_ok_io(di1, dev, id as int, self.nb(), free1);
            }
            let x = match self.get_disk_block_id(&di, i as usize) {
                Ok(x) => x,
                Err(_) => {
                    return Err(FsError::DeviceError);
                },
            };
            di.blocks = i;
            proof {
                assert forall|j: int| 0 <= j < di.blocks implies #[trigger] block_of(di, dev, j) == block_of(di1, dev, j) by {}
                assert(usable(block_of(di1, dev, i as int), self.nb(), free1));
            }
            self.store_inode(k, di.clone_inode());
            self.free_block(x);
            proof {
                let nb = self.nb();
                let free2 = self.free();
                assert(owns(di1, dev, id as int, x as int));
                assert(!owns(di, dev, id as int, x as int)) by {
                    if exists|j: int| 0 <= j < di.blocks && #[trigger] block_of(di, dev, j) == x {
                        let j = choose|j: int| 0 <= j < di.blocks && #[trigger] block_of(di, dev, j) == x;
                        assert(block_of(di1, dev, j) != block_of(di1, dev, i as int));
                    }
                }
                assert forall|j: int| 0 <= j < di.blocks implies {
                    &&& usable(#[trigger] block_of(di, dev, j), nb, free1)
                    &&& block_of(di, dev, j) != id
                    &&& has_indirect(di) ==> block_of(di, dev, j) != di.indirect
                } by {
                    assert(usable(block_of(di1, dev, j), nb, free1));
                }
                assert forall|a: int, b: int| 0 <= a < b < di.blocks implies #[trigger] block_of(di, dev, a) != #[trigger] block_of(di, dev, b) by {
                    assert(block_of(di1, dev, a) != block_of(di1, dev, b));
                }
                assert(inode_ok(di, dev, id as int, nb, free1));
                lemma_inode_ok_free(di, dev, id as int, nb, free1, x as nat);
                assert forall|k2: int| 0 <= k2 < t1.len() && k2 != k implies inode_ok(#[trigger] t1[k2].0, dev, t1[k2].1, nb, free2) by {
                    assert(disjoint(t1[k as int].0, t1[k as int].1, t1[k2].0, t1[k2].1, dev));
                    assert(inode_ok(t1[k2].0, dev, t1[k2].1, nb, free1));
                    lemma_inode_ok_free(t1[k2].0, dev, t1[k2].1, nb, free1, x as nat);
                }
                assert forall|k2: int, y: int| 0 <= k2 < t1.len() && k2 != k && #[trigger] owns(di, dev, id as int, y) implies !#[trigger] owns(t1[k2].0, dev, t1[k2].1, y) by {
                    assert(disjoint(t1[k as int].0, t1[k as int].1, t1[k2].0, t1[k2].1, dev));
                    if exists|j: int| 0 <= j < di.blocks && #[trigger] block_of(di, dev, j) == y {
                        let j = choose|j: int| 0 <= j < di.blocks && #[trigger] block_of(di, dev, j) == y;
                        assert(block_of(di1, dev, j) == y);
                        assert(owns(di1, dev, id as int, y));
                    } else {
                        assert(owns(di1, dev, id as int, y));
                    }
                }
                lemma_inodes_ok_replace(t1, k as int, di, dev, dev, nb, free1, free2);
                assert(t1.update(k as int, (di, id as int)) =~= t0.update(k as int, (di, id as int)));
                if has_indirect(di0) {
                    assert(block_of(di1, dev, i as int) == block_of(di0, dev, i as int));
                    assert(x != di0.indirect);
                    assert forall|k2: int| 0 <= k2 < t0.len() && k2 != k implies !#[trigger] owns(t0[k2].0, dev, t0[k2].1, di0.indirect as int) by {}
                }
            }
        }
        if target < NDIRECT as u32 && old_blocks >= NDIRECT as u32 {
            let ind = di.indirect as usize;
            let ghost free1 = self.free();
            let ghost t1 = self.table();
            let ghost dib = di;
            di.indirect = 0;
            proof {
                assert forall|j: int| 0 <= j < di.blocks implies #[trigger] block_of(di, dev, j) == block_of(di0, dev, j) by {
                    assert(block_of(dib, dev, j) == block_of(di0, dev, j));
                }
            }
            self.store_inode(k, di.clone_inode());
            self.free_block(ind);
            proof {
                let nb = self.nb();
                let free2 = self.free();
                assert(inode_ok(t1[k as int].0, dev, id as int, nb, free1));
                assert(inode_ok(di, dev, id as int, nb, free1)) by {
                    assert forall|j: int| 0 <= j < di.blocks implies {
                        &&& usable(#[trigger] block_of(di, dev, j), nb, free1)
                        &&& block_of(di, dev, j) != id
                        &&& has_indirect(di) ==> block_of(di, dev, j) != di.indirect
                    } by {
                        assert(block_of(t1[k as int].0, dev, j) == block_of(di, dev, j));
                    }
                    assert forall|a: int, b: int| 0 <= a < b < di.blocks implies #[trigger] block_of(di, dev, a) != #[trigger] block_of(di, dev, b) by {
                        assert(block_of(t1[k as int].0, dev, a) != block_of(t1[k as int].0, dev, b));
                    }
                }
                assert(!owns(di, dev, id as int, ind as int)) by {
                    if exists|j: int| 0 <= j < di.blocks && #[trigger] block_of(di, dev, j) == ind {
                        let j = choose|j: int| 0 <= j < di.blocks && #[trigger] block_of(di, dev, j) == ind;
                        assert(block_of(di0, dev, j) != di0.indirect);
                    }
                }
                lemma_inode_ok_free(di, dev, id as int, nb, free1, ind as nat);
                assert forall|k2: int| 0 <= k2 < t1.len() && k2 != k implies inode_ok(#[trigger] t1[k2].0, dev, t1[k2].1, nb, free2) by {
                    assert(t1[k2] == t0[k2]);
                    assert(inode_ok(t1[k2].0, dev, t1[k2].1, nb, free1));
                    lemma_inode_ok_free(t1[k2].0, dev, t1[k2].1, nb, free1, ind as nat);
                }
                assert forall|k2: int, y: int| 0 <= k2 < t1.len() && k2 != k && #[trigger] owns(di, dev, id as int, y) implies !#[trigger] owns(t1[k2].0, dev, t1[k2].1, y) by {
                    assert(disjoint(t1[k as int].0, t1[k as int].1, t1[k2].0, t1[k2].1, dev));
                    if exists|j: int| 0 <= j < di.blocks && #[trigger] block_of(di, dev, j) == y {
                        let j = choose|j: int| 0 <= j < di.blocks && #[trigger] block_of(di, dev, j) == y;
                        assert(block_of(t1[k as int].0, dev, j) == y);
                        assert(owns(t1[k as int].0, dev, id as int, y));
                    } else {
                        assert(owns(t1[k as int].0, dev, id as int, y));
                    }
                }
                lemma_inodes_ok_replace(t1, k as int, di, dev, dev, nb, free1, free2);
                assert(t1.update(k as int, (di, id as int)) =~= t0.update(k as int, (di, id as int)));
            }
        }
        Ok(())
    }

    /// Resize the content of the `k`-th inode in memory to `len` bytes, whatever its type.
    /// Growing past the blocks it holds allocates blocks and zeroes the bytes past the old size.
    fn resize_inode(&mut self, k: usize, len: usize) -> (r: Result<(), FsError>)
        requires
            old(self).wf(),
            k < old(self).inodes@.len(),
            blocks_for(len as int) <= NDIRECT + BLK_NENTRY,
        ensures
            final(self).dirty_kept(old(self)),
            final(self).reliable() == old(self).reliable(),
            final(self).inodes@.len() == old(self).inodes@.len(),
            r is Ok || r == Err::<(), FsError>(FsError::NoDeviceSpace) || r == Err::<(), FsError>(FsError::DeviceError),
            r != Err::<(), FsError>(FsError::DeviceError) ==> {
                &&& final(self).wf()
                &&& final(self).dev().len() == old(self).dev().len()
                &&& final(self).nb() == old(self).nb()
                &&& final(self).super_block().magic == old(self).super_block().magic
                &&& final(self).table()[k as int].1 == old(self).table()[k as int].1
                &&& final(self).table()[k as int].0.type_ == old(self).table()[k as int].0.type_
                &&& final(self).table()[k as int].0.nlinks == old(self).table()[k as int].0.nlinks
                &&& forall|j: int| 0 <= j < old(self).inodes@.len() && j != k ==> final(self).table()[j] == old(self).table()[j]
                &&& forall|j: int| 0 <= j < old(self).inodes@.len() && j != k ==> #[trigger] content(final(self).table()[j].0, final(self).dev())
                    == content(old(self).table()[j].0, old(self).dev())
            },
            r is Ok ==> {
                let di = old(self).table()[k as int].0;
                let di2 = final(self).table()[k as int].0;
                let c = content(di, old(self).dev());
                let c2 = content(di2, final(self).dev());
                let m = if di.size < len { di.size as int } else { len as int };
                &&& di2.size == len
                &&& di2.blocks == blocks_for(len as int)
                &&& c2.subrange(0, m) == c.subrange(0, m)
                &&& di.blocks <= di2.blocks ==> forall|i: int| di.size <= i < len ==> #[trigger] c2[i] == 0
                &&& di.blocks >= di2.blocks && len <= di.size ==> final(self).dev() == old(self).dev()
            },
            old(self).reliable() && grow_needs(old(self).table()[k as int].0.blocks as int, blocks_for(len as int)) <= old(self).free().len()
                ==> r is Ok,
            r is Ok && old(self).table()[k as int].0.blocks <= blocks_for(len as int) ==> final(self).free().len()
                == old(self).free().len() - grow_needs(old(self).table()[k as int].0.blocks as int, blocks_for(len as int)),
            r is Ok && blocks_for(len as int) < old(self).table()[k as int].0.blocks ==> {
                let di = old(self).table()[k as int].0;
                &&& final(self).free().len() == old(self).free().len() + shrink_frees(di.blocks as int, blocks_for(len as int))
                &&& forall|j: int| blocks_for(len as int) <= j < di.blocks ==> final(self).free().contains(
                    #[trigger] block_of(di, old(self).dev(), j) as nat,
                )
                &&& has_indirect(di) && blocks_for(len as int) < NDIRECT ==> final(self).free().contains(di.indirect as nat)
            },
            r == Err::<(), FsError>(FsError::NoDeviceSpace) ==> old(self).free().len() < grow_needs(
                old(self).table()[k as int].0.blocks as int,
                blocks_for(len as int),
            ),
            old(self).reliable() ==> r != Err::<(), FsError>(FsError::DeviceError),
    {
        let blocks = ((len + BLKSIZE - 1) / BLKSIZE) as u32;
        let ghost t0 = self.table();
        let ghost dev0 = self.dev();
        let ghost nb = self.nb();
        let ghost id = t0[k as int].1;
        let ghost di0 = t0[k as int].0;
        proof {
            assert(t0[k as int].0 == self.inodes@[k as int].disk_inode.value());
            assert(inode_ok(di0, dev0, id, nb, self.free()));
            lemma_inode_ok_io(di0, dev0, id, nb, self.free());
        }
        let old_blocks = self.inodes[k].disk_inode.get().blocks;
        let old_size = self.inodes[k].disk_inode.get().size;
        if blocks > old_blocks {
            match self.grow(k, blocks) {
                Ok(()) => {},
                Err(e) => {
                    proof {
                        if e != FsError::DeviceError {
                            lemma_others_keep(t0, self.table(), k as int, dev0, self.dev(), nb, old(self).free(), self.free());
                        }
                    }
                    return Err(e);
                },
            }
            let ghost t1 = self.table();
            let ghost dev1 = self.dev();
            let ghost free1 = self.free();
            let ghost d1 = t1[k as int].0;
            proof {
                lemma_others_keep(t0, t1, k as int, dev0, dev1, nb, old(self).free(), free1);
                assert(d1 == self.inodes@[k as int].disk_inode.value());
                assert(inode_ok(d1, dev1, id, nb, free1));
            }
            let mut di = self.inodes[k].disk_inode.get().clone_inode();
            di.size = len as u32;
            proof {
                lemma_same_map(d1, di, dev1, id);
                assert(inode_ok(di, dev1, id, nb, free1));
                assert forall|k2: int, x: int| 0 <= k2 < t1.len() && k2 != k && #[trigger] owns(di, dev1, id, x) implies !#[trigger] owns(t1[k2].0, dev1, t1[k2].1, x) by {
                    assert(disjoint(t1[k as int].0, t1[k as int].1, t1[k2].0, t1[k2].1, dev1));
                }
                lemma_inodes_ok_replace(t1, k as int, di, dev1, dev1, nb, free1, free1);
                lemma_inode_ok_io(di, dev1, id, nb, free1);
            }
            self.store_inode(k, di.clone_inode());
            let ghost t2 = self.table();
            let nzero: usize = len - old_size as usize;
            let zeros: Vec<u8> = vec![0u8; nzero];
            match self.write_content(&di, old_size as usize, zeros.as_slice()) {
                Ok(_) => {},
                Err(_) => {
                    return Err(FsError::DeviceError);
                },
            }
            proof {
                let dev2 = self.dev();
                assert(t2 == t1.update(k as int, (di, id)));
                lemma_write_keeps(t2, k as int, dev1, dev2, nb, free1);
                assert(self.table() == t2);
                assert forall|j: int| 0 <= j < t0.len() && j != k implies #[trigger] content(self.table()[j].0, dev2)
                    == content(t0[j].0, dev0) by {
                    assert(t2[j] == t1[j]);
                    assert(t1[j] == t0[j]);
                    assert(content(t2[j].0, dev2) == content(t2[j].0, dev1));
                    assert(content(t1[j].0, dev1) == content(t0[j].0, dev0));
                }
                // the first bytes are those of the old content
                assert forall|j: int| 0 <= j && j * BLKSIZE < old_size implies #[trigger] block_of(di, dev1, j) == block_of(di0, dev0, j)
                    && same_block(dev0, dev1, block_of(di0, dev0, j)) by {
                    assert(j < di0.blocks);
                    assert(block_of(d1, dev1, j) == block_of(di0, dev0, j));
                    assert(usable(block_of(d1, dev1, j), nb, free1));
                    if has_indirect(d1) {
                        assert(block_of(d1, dev1, j) != d1.indirect);
                    }
                }
                assert forall|j: int| 0 <= j && j * BLKSIZE < old_size implies blk_pos(#[trigger] block_of(di0, dev0, j), BLKSIZE as int) <= dev0.len()
                    && 0 <= block_of(di0, dev0, j) by {
                    assert(j < di0.blocks);
                    assert(usable(block_of(di0, dev0, j), nb, old(self).free()));
                }
                assert(old_size <= io_size(di0));
                assert(old_size <= io_size(di));
                lemma_content_prefix(di0, dev0, di, dev1, old_size as int);
                let c0 = content(di0, dev0);
                let c1 = content(di, dev1);
                let c2 = content(di, dev2);
                assert(c2 == spec_overwrite(c1, old_size as int, zeros@.subrange(0, len - old_size)));
                assert forall|i: int| 0 <= i < old_size implies c2[i] == c0[i] by {
                    assert(c1.subrange(0, old_size as int)[i] == c0.subrange(0, old_size as int)[i]);
                }
                assert(c2.subrange(0, old_size as int) =~= c0.subrange(0, old_size as int));
            }
            Ok(())
        } else if blocks < old_blocks {
            let r = self.shrink(k, blocks, len as u32);
            proof {
                let t1 = self.table();
                let d1 = t1[k as int].0;
                if r is Ok {
                    assert forall|j: int| 0 <= j && j * BLKSIZE < (if old_size < len { old_size as int } else { len as int })
                        implies #[trigger] block_of(d1, dev0, j) == block_of(di0, dev0, j) && same_block(dev0, dev0, block_of(di0, dev0, j)) by {
                        assert(j < d1.blocks);
                    }
                    assert forall|j: int| 0 <= j && j * BLKSIZE < (if old_size < len { old_size as int } else { len as int })
                        implies blk_pos(#[trigger] block_of(di0, dev0, j), BLKSIZE as int) <= dev0.len() && 0 <= block_of(di0, dev0, j) by {
                        assert(j < di0.blocks);
                        assert(usable(block_of(di0, dev0, j), nb, old(self).free()));
                    }
                    lemma_content_prefix(di0, dev0, d1, dev0, if old_size < len { old_size as int } else { len as int });
                }
            }
            r
        } else {
            let mut di = self.inodes[k].disk_inode.get().clone_inode();
            di.size = len as u32;
            proof {
                lemma_same_map(di0, di, dev0, id);
                assert(inode_ok(di, dev0, id, nb, self.free()));
                assert forall|k2: int, x: int| 0 <= k2 < t0.len() && k2 != k && #[trigger] owns(di, dev0, id, x) implies !#[trigger] owns(t0[k2].0, dev0, t0[k2].1, x) by {
                    assert(disjoint(t0[k as int].0, t0[k as int].1, t0[k2].0, t0[k2].1, dev0));
                }
                lemma_inodes_ok_replace(t0, k as int, di, dev0, dev0, nb, self.free(), self.free());
                let m = if old_size < len { old_size as int } else { len as int };
                assert forall|j: int| 0 <= j && j * BLKSIZE < m
                    implies #[trigger] block_of(di, dev0, j) == block_of(di0, dev0, j) && same_block(dev0, dev0, block_of(di0, dev0, j)) by {
                }
                assert forall|j: int| 0 <= j && j * BLKSIZE < m
                    implies blk_pos(#[trigger] block_of(di0, dev0, j), BLKSIZE as int) <= dev0.len() && 0 <= block_of(di0, dev0, j) by {
                    assert(j < di0.blocks);
                    assert(usable(block_of(di0, dev0, j), nb, self.free()));
                }
                lemma_content_prefix(di0, dev0, di, dev0, m);
                lemma_inode_ok_io(di, dev0, id, nb, self.free());
            }
            self.store_inode(k, di.clone_inode());
            if len > old_size as usize {
                let ghost t2 = self.table();
                let ghost free1 = self.free();
                let nzero: usize = len - old_size as usize;
                let zeros: Vec<u8> = vec![0u8; nzero];
                match self.write_content(&di, old_size as usize, zeros.as_slice()) {
                    Ok(_) => {},
                    Err(_) => {
                        return Err(FsError::DeviceError);
                    },
                }
                proof {
                    let dev2 = self.dev();
                    assert(t2 == t0.update(k as int, (di, id)));
                    lemma_write_keeps(t2, k as int, dev0, dev2, nb, free1);
                    assert forall|j: int| 0 <= j < t0.len() && j != k implies #[trigger] content(self.table()[j].0, dev2)
                        == content(t0[j].0, dev0) by {
                        assert(t2[j] == t0[j]);
                    }
                    let c0 = content(di0, dev0);
                    let c1 = content(di, dev0);
                    let c2 = content(di, dev2);
                    assert(c2 == spec_overwrite(c1, old_size as int, zeros@.subrange(0, len - old_size)));
                    assert forall|i: int| 0 <= i < old_size implies c2[i] == c0[i] by {
                        assert(c1.subrange(0, old_size as int)[i] == c0.subrange(0, old_size as int)[i]);
                    }
                    assert(c2.subrange(0, old_size as int) =~= c0.subrange(0, old_size as int));
                }
            }
            Ok(())
        }
    }

    /// Whether `self` and `other` hold the same device bytes, superblock, free map and inodes
    pub closed spec fn same_state(&self, other: &Self) -> bool {
        &&& self.dev() == other.dev()
        &&& self.reliable() == other.reliable()
        &&& self.super_block == other.super_block
        &&& self.free_map == other.free_map
        &&& self.inodes == other.inodes
    }

    proof fn lemma_same_state(&self, other: &Self)
        requires
            self.same_state(other),
        ensures
            self.wf() == other.wf(),
            self.base_ok() == other.base_ok(),
            self.table() == other.table(),
            self.nb() == other.nb(),
            self.free() == other.free(),
            self.super_block() == other.super_block(),
            self.ncached() == other.ncached(),
            forall|k: int| #[trigger] self.cached_id(k) == other.cached_id(k),
            forall|k: int| #[trigger] self.cached_inode(k) == other.cached_inode(k),
    {
    }

    /// Only for directories: read entry `i`
    fn read_entry(&mut self, di: &DiskINode, i: usize) -> (r: Result<DiskEntry, FsError>)
        requires
            old(self).base_ok(),
            inode_io_ok(*di, old(self).dev(), old(self).nb()),
            di.type_ == FileType::Dir,
            i < di.blocks,
        ensures
            final(self).same_state(old(self)),
            r matches Ok(e) ==> {
                let c = content(*di, old(self).dev());
                e.id == entry_id(c, i as int) && e.name.0@ == entry_name_field(c, i as int)
            },
            r is Err ==> r == Err::<DiskEntry, FsError>(FsError::DeviceError),
            old(self).reliable() ==> r is Ok,
    {
        let mut buf: Vec<u8> = vec![0u8; DISK_ENTRY_SIZE];
        let off = i * BLKSIZE;
        assert(off + BLKSIZE <= di.blocks * BLKSIZE) by (nonlinear_arith)
            requires
                off == i * BLKSIZE,
                i < di.blocks,
        ;
        let ghost c = content(*di, old(self).dev());
        match self.read_content(di, off, buf.as_mut_slice()) {
            Ok(n) => {
                let e = DiskEntry::from_buf(buf.as_slice());
                proof {
                    assert(n == DISK_ENTRY_SIZE);
                    let b = buf@;
                    assert(b.subrange(0, 260) =~= b);
                    assert(b == c.subrange(off as int, off + 260));
                    assert(b.subrange(0, 4) =~= c.subrange(off as int, off + 4));
                    assert(b.subrange(4, 260) =~= c.subrange(off + 4, off + 260));
                }
                Ok(e)
            },
            Err(_) => Err(FsError::DeviceError),
        }
    }

    /// Only for directories: the inode number under `name`, from the first entry that holds it
    fn find_entry(&mut self, di: &DiskINode, name: &[u8]) -> (r: Result<Option<u32>, FsError>)
        requires
            old(self).base_ok(),
            inode_io_ok(*di, old(self).dev(), old(self).nb()),
            di.type_ == FileType::Dir,
        ensures
            final(self).same_state(old(self)),
            r matches Ok(x) ==> x == dir_find(content(*di, old(self).dev()), di.blocks as int, name@),
            r is Err ==> r == Err::<Option<u32>, FsError>(FsError::DeviceError),
            old(self).reliable() ==> r is Ok,
    {
        let ghost c = content(*di, old(self).dev());
        let n = di.blocks as usize;
        let mut i: usize = 0;
        while i < n
            invariant
                self.same_state(old(self)),
                old(self).base_ok(),
                inode_io_ok(*di, old(self).dev(), old(self).nb()),
                di.type_ == FileType::Dir,
                n == di.blocks,
                c == content(*di, old(self).dev()),
                i <= n,
                find_index(c, i as int, name@) is None,
            decreases n - i,
        {
            proof {
                self.lemma_same_state(old(self));
            }
            let e = match self.read_entry(di, i) {
                Ok(e) => e,
                Err(err) => {
                    return Err(err);
                },
            };
            if e.name.name_eq(name) {
                assert(find_index(c, i + 1, name@) == Some(i as int));
                proof {
                    lemma_find_index_mono(c, i + 1, n as int, name@);
                }
                return Ok(Some(e.id));
            }
            assert(find_index(c, i + 1, name@) is None);
            i = i + 1;
        }
        Ok(None)
    }

    /// Only for directories: the names of all entries
    fn list_entries(&mut self, di: &DiskINode) -> (r: Result<Vec<Vec<u8>>, FsError>)
        requires
            old(self).base_ok(),
            inode_io_ok(*di, old(self).dev(), old(self).nb()),
            di.type_ == FileType::Dir,
        ensures
            final(self).same_state(old(self)),
            r matches Ok(v) ==> {
                let c = content(*di, old(self).dev());
                &&& v@.len() == di.blocks
                &&& forall|i: int| 0 <= i < di.blocks ==> spec_c_name(entry_name_field(c, i)) == Some(#[trigger] v@[i]@)
            },
            r == Err::<Vec<Vec<u8>>, FsError>(FsError::WrongFs) ==> exists|i: int|
                0 <= i < di.blocks && (#[trigger] spec_c_name(entry_name_field(content(*di, old(self).dev()), i))) is None,
            r is Err ==> r == Err::<Vec<Vec<u8>>, FsError>(FsError::DeviceError) || r == Err::<Vec<Vec<u8>>, FsError>(FsError::WrongFs),
            old(self).reliable() ==> r != Err::<Vec<Vec<u8>>, FsError>(FsError::DeviceError),
    {
        let ghost c = content(*di, old(self).dev());
        let n = di.blocks as usize;
        let mut names: Vec<Vec<u8>> = Vec::new();
        let mut i: usize = 0;
        while i < n
            invariant
                self.same_state(old(self)),
                old(self).base_ok(),
                inode_io_ok(*di, old(self).dev(), old(self).nb()),
                di.type_ == FileType::Dir,
                n == di.blocks,
                c == content(*di, old(self).dev()),
                i <= n,
                names@.len() == i,
                forall|j: int| 0 <= j < i ==> spec_c_name(entry_name_field(c, j)) == Some(#[trigger] names@[j]@),
            decreases n - i,
        {
            proof {
                self.lemma_same_state(old(self));
            }
            let e = match self.read_entry(di, i) {
                Ok(e) => e,
                Err(err) => {
                    return Err(err);
                },
            };
            match e.name.name() {
                Some(v) => {
                    names.push(v);
                },
                None => {
                    assert(spec_c_name(entry_name_field(c, i as int)) is None);
                    return Err(FsError::WrongFs);
                },
            }
            i = i + 1;
        }
        Ok(names)
    }

    /// The slot in memory of inode `id`
    fn slot_of(&self, id: INodeId) -> (r: Option<usize>)
        ensures
            r matches Some(k) ==> k < self.ncached() && self.cached_id(k as int) == id,
            r is None ==> !self.is_cached(id as int),
    {
        let mut k: usize = 0;
        while k < self.inodes.len()
            invariant
                k <= self.inodes@.len(),
                forall|j: int| 0 <= j < k ==> self.cached_id(j) != id,
            decreases self.inodes@.len() - k,
        {
            if self.inodes[k].id == id {
                return Some(k);
            }
            k = k + 1;
        }
        None
    }

    /// Inodes in memory have distinct numbers.
    proof fn lemma_ids_distinct(&self)
        requires
            self.wf(),
        ensures
            forall|k1: int, k2: int|
                0 <= k1 < self.ncached() && 0 <= k2 < self.ncached() && k1 != k2 ==> #[trigger] self.cached_id(k1)
                    != #[trigger] self.cached_id(k2),
    {
        let t = self.table();
        assert forall|k1: int, k2: int|
            0 <= k1 < self.ncached() && 0 <= k2 < self.ncached() && k1 != k2 implies #[trigger] self.cached_id(k1)
                != #[trigger] self.cached_id(k2) by {
            assert(disjoint(t[k1].0, t[k1].1, t[k2].0, t[k2].1, self.dev()));
            assert(owns(t[k1].0, self.dev(), t[k1].1, t[k1].1));
            assert(owns(t[k2].0, self.dev(), t[k2].1, t[k2].1));
        }
    }

    /// Create a new empty inode in memory, in a block taken from the free map
    fn new_inode(&mut self, dir: bool) -> (r: Result<usize, FsError>)
        requires
            old(self).wf(),
        ensures
            old(self).free().len() > 0 ==> r is Ok,
            r is Ok ==> final(self).free().len() == old(self).free().len() - 1,
            final(self).dirty_kept(old(self)),
            final(self).wf(),
            final(self).dev() == old(self).dev(),
            final(self).reliable() == old(self).reliable(),
            final(self).nb() == old(self).nb(),
            final(self).super_block().magic == old(self).super_block().magic,
            r matches Ok(k) ==> {
                let di = final(self).table()[k as int].0;
                &&& k == old(self).ncached()
                &&& final(self).ncached() == old(self).ncached() + 1
                &&& final(self).table().subrange(0, k as int) == old(self).table()
                &&& old(self).free().contains(final(self).table()[k as int].1 as nat)
                &&& di.size == 0 && di.blocks == 0
                &&& di.type_ == (if dir { FileType::Dir } else { FileType::File })
            },
            r is Err ==> r == Err::<usize, FsError>(FsError::NoDeviceSpace) && final(self).table() == old(self).table(),
    {
        let ghost t0 = self.table();
        let ghost free0 = self.free();
        let x = match self.alloc_block() {
            Some(x) => x,
            None => {
                return Err(FsError::NoDeviceSpace);
            },
        };
        let di = if dir {
            DiskINode::new_dir()
        } else {
            DiskINode::new_file()
        };
        let k = self.inodes.len();
        self.inodes.push(INode { disk_inode: Dirty::new_dirty(di), id: x });
        proof {
            assert(self.table() =~= t0.push((di, x as int)));
            lemma_inodes_ok_push(t0, di, x as int, self.dev(), self.nb(), free0);
            assert(self.table().subrange(0, k as int) =~= t0);
        }
        Ok(k)
    }

    /// Write `buf` into the `k`-th inode in memory at `offset`, keeping the invariant
    fn write_inode(&mut self, k: usize, offset: usize, buf: &[u8]) -> (r: Result<usize, FsError>)
        requires
            old(self).wf(),
            k < old(self).ncached(),
            offset + buf@.len() <= usize::MAX,
        ensures
            final(self).dirty_kept(old(self)),
            final(self).reliable() == old(self).reliable(),
            final(self).table() == old(self).table(),
            final(self).ncached() == old(self).ncached(),
            final(self).nb() == old(self).nb(),
            final(self).super_block() == old(self).super_block(),
            final(self).free() == old(self).free(),
            r is Err ==> r == Err::<usize, FsError>(FsError::DeviceError),
            r matches Ok(n) ==> {
                let di = old(self).table()[k as int].0;
                let size = io_size(di);
                let begin = if offset < size { offset as int } else { size };
                let end = if offset + buf@.len() < size { offset + buf@.len() } else { size };
                &&& final(self).wf()
                &&& n == end - begin
                &&& final(self).dev().len() == old(self).dev().len()
                &&& content(di, final(self).dev()) == spec_overwrite(content(di, old(self).dev()), begin, buf@.subrange(0, n as int))
                &&& forall|j: int| 0 <= j < old(self).ncached() && j != k ==> #[trigger] content(old(self).table()[j].0, final(self).dev())
                    == content(old(self).table()[j].0, old(self).dev())
            },
            old(self).reliable() ==> r is Ok,
    {
        let ghost t = self.table();
        let ghost dev0 = self.dev();
        proof {
            assert(t[k as int].0 == self.inodes@[k as int].disk_inode.value());
            assert(inode_ok(t[k as int].0, dev0, t[k as int].1, self.nb(), self.free()));
            lemma_inode_ok_io(t[k as int].0, dev0, t[k as int].1, self.nb(), self.free());
        }
        let di = self.inodes[k].disk_inode.get().clone_inode();
        match self.write_content(&di, offset, buf) {
            Ok(n) => {
                proof {
                    lemma_write_keeps(t, k as int, dev0, self.dev(), self.nb(), self.free());
                }
                Ok(n)
            },
            Err(_) => Err(FsError::DeviceError),
        }
    }

    /// Only for new directories: insert the entries "." and ".."
    fn init_dir(&mut self, k: usize, parent: u32) -> (r: Result<(), FsError>)
        requires
            old(self).wf(),
            k < old(self).ncached(),
            old(self).table()[k as int].0.type_ == FileType::Dir,
        ensures
            r is Ok && old(self).table()[k as int].0.blocks <= 2 ==> final(self).free().len()
                == old(self).free().len() - grow_needs(old(self).table()[k as int].0.blocks as int, 2),
            old(self).reliable() && grow_needs(old(self).table()[k as int].0.blocks as int, 2) <= old(self).free().len() ==> r is Ok,
            r == Err::<(), FsError>(FsError::NoDeviceSpace) ==> old(self).free().len() < grow_needs(old(self).table()[k as int].0.blocks as int, 2),
            final(self).dirty_kept(old(self)),
            final(self).reliable() == old(self).reliable(),
            final(self).ncached() == old(self).ncached(),
            r is Ok || r == Err::<(), FsError>(FsError::NoDeviceSpace) || r == Err::<(), FsError>(FsError::DeviceError),
            r != Err::<(), FsError>(FsError::DeviceError) ==> {
                &&& final(self).wf()
                &&& final(self).dev().len() == old(self).dev().len()
                &&& final(self).nb() == old(self).nb()
                &&& final(self).super_block().magic == old(self).super_block().magic
                &&& final(self).table()[k as int].1 == old(self).table()[k as int].1
                &&& final(self).table()[k as int].0.type_ == FileType::Dir
                &&& final(self).table()[k as int].0.nlinks == old(self).table()[k as int].0.nlinks
                &&& forall|j: int| 0 <= j < old(self).ncached() && j != k ==> final(self).table()[j] == old(self).table()[j]
                &&& forall|j: int| 0 <= j < old(self).ncached() && j != k ==> #[trigger] content(final(self).table()[j].0, final(self).dev())
                    == content(old(self).table()[j].0, old(self).dev())
            },
            r is Ok ==> {
                let di = final(self).table()[k as int].0;
                let c = content(di, final(self).dev());
                &&& di.blocks == 2 && di.size == 2 * BLKSIZE
                &&& c.subrange(0, DISK_ENTRY_SIZE as int) == entry_bytes(old(self).table()[k as int].1 as u32, dot_name())
                &&& c.subrange(BLKSIZE as int, BLKSIZE + DISK_ENTRY_SIZE) == entry_bytes(parent, dotdot_name())
            },
            old(self).reliable() ==> r != Err::<(), FsError>(FsError::DeviceError),
    {
        let ghost t0 = self.table();
        let ghost dev0 = self.dev();
        let id = self.inodes[k].id;
        proof {
            assert(t0[k as int].1 == id);
        }
        self.resize_inode(k, 2 * BLKSIZE)?;
        let ghost t1 = self.table();
        let ghost dev1 = self.dev();
        let dotdot: Vec<u8> = vec![46u8, 46u8];
        let dot: Vec<u8> = vec![46u8];
        let parent_entry = DiskEntry { id: parent, name: Str256::from_slice(dotdot.as_slice()) }.as_buf();
        let self_entry = DiskEntry { id: id as u32, name: Str256::from_slice(dot.as_slice()) }.as_buf();
        let ghost di = t1[k as int].0;
        match self.write_inode(k, BLKSIZE, parent_entry.as_slice()) {
            Ok(_) => {},
            Err(e) => {
                return Err(e);
            },
        }
        let ghost dev2 = self.dev();
        match self.write_inode(k, 0, self_entry.as_slice()) {
            Ok(_) => {},
            Err(e) => {
                return Err(e);
            },
        }
        proof {
            let dev3 = self.dev();
            assert(dotdot@ =~= dotdot_name());
            assert(dot@ =~= dot_name());
            assert(parent_entry@ == entry_bytes(parent, dotdot_name()));
            assert(self_entry@ == entry_bytes(id as u32, dot_name()));
            let c1 = content(di, dev1);
            let c2 = content(di, dev2);
            let c3 = content(di, dev3);
            assert(c2 == spec_overwrite(c1, BLKSIZE as int, parent_entry@.subrange(0, DISK_ENTRY_SIZE as int)));
            assert(c3 == spec_overwrite(c2, 0, self_entry@.subrange(0, DISK_ENTRY_SIZE as int)));
            assert(c3.subrange(0, DISK_ENTRY_SIZE as int) =~= self_entry@);
            assert(c3.subrange(BLKSIZE as int, BLKSIZE + DISK_ENTRY_SIZE) =~= parent_entry@);
            assert forall|j: int| 0 <= j < old(self).ncached() && j != k implies #[trigger] content(self.table()[j].0, dev3)
                == content(t0[j].0, dev0) by {
                assert(content(t1[j].0, dev3) == content(t1[j].0, dev2));
                assert(content(t1[j].0, dev2) == content(t1[j].0, dev1));
            }
        }
        Ok(())
    }

    /// Only for directories: create a file (or a directory when `dir`) named `name` in the `k`-th inode
    fn create_in(&mut self, k: usize, name: &[u8], dir: bool) -> (r: Result<INodeId, FsError>)
        requires
            old(self).wf(),
            k < old(self).ncached(),
            old(self).table()[k as int].0.type_ == FileType::Dir,
            name@.len() <= 256,
            blocks_for(old(self).table()[k as int].0.size + BLKSIZE) <= NDIRECT + BLK_NENTRY,
        ensures
            old(self).reliable() && 1 + (if dir { 2int } else { 0int }) + grow_needs(
                old(self).table()[k as int].0.blocks as int,
                blocks_for(old(self).table()[k as int].0.size + BLKSIZE),
            ) <= old(self).free().len() ==> r is Ok,
            final(self).reliable() == old(self).reliable(),
            r is Ok || r == Err::<INodeId, FsError>(FsError::NoDeviceSpace) || r == Err::<INodeId, FsError>(FsError::DeviceError),
            r != Err::<INodeId, FsError>(FsError::DeviceError) ==> {
                &&& final(self).wf()
                &&& final(self).ncached() >= old(self).ncached()
                &&& final(self).dev().len() == old(self).dev().len()
                &&& final(self).nb() == old(self).nb()
                &&& final(self).super_block().magic == old(self).super_block().magic
                &&& final(self).table()[k as int].1 == old(self).table()[k as int].1
                &&& final(self).table()[k as int].0.type_ == FileType::Dir
                &&& forall|j: int| 0 <= j < old(self).ncached() && j != k ==> final(self).table()[j] == old(self).table()[j]
                &&& forall|j: int| 0 <= j < old(self).ncached() && j != k ==> #[trigger] content(final(self).table()[j].0, final(self).dev())
                    == content(old(self).table()[j].0, old(self).dev())
            },
            r matches Ok(x) ==> {
                let nk = old(self).ncached();
                let d = old(self).table()[k as int].0;
                let d2 = final(self).table()[k as int].0;
                let c = content(d, old(self).dev());
                let c2 = content(d2, final(self).dev());
                let sz = d.size as int;
                let n = final(self).table()[nk].0;
                let cn = content(n, final(self).dev());
                &&& final(self).ncached() == nk + 1
                &&& final(self).table()[nk].1 == x
                &&& old(self).free().contains(x as nat)
                &&& n.type_ == (if dir { FileType::Dir } else { FileType::File })
                &&& d2.size == sz + BLKSIZE
                &&& d2.blocks == blocks_for(sz + BLKSIZE)
                &&& c2.subrange(0, sz) == c.subrange(0, sz)
                &&& c2.subrange(sz, sz + DISK_ENTRY_SIZE) == entry_bytes(x as u32, name@)
                &&& !dir ==> n.size == 0 && n.blocks == 0
                &&& dir ==> {
                    &&& n.blocks == 2 && n.size == 2 * BLKSIZE
                    &&& cn.subrange(0, DISK_ENTRY_SIZE as int) == entry_bytes(x as u32, dot_name())
                    &&& cn.subrange(BLKSIZE as int, BLKSIZE + DISK_ENTRY_SIZE) == entry_bytes(
                        old(self).table()[k as int].1 as u32,
                        dotdot_name(),
                    )
                }
            },
            old(self).reliable() ==> r != Err::<INodeId, FsError>(FsError::DeviceError),
    {
        let ghost t0 = self.table();
        let ghost dev0 = self.dev();
        let ghost d = t0[k as int].0;
        let dir_id = self.inodes[k].id;
        let size = self.inodes[k].disk_inode.get().size;
        proof {
            assert(t0[k as int] == (self.inodes@[k as int].disk_inode.value(), self.inodes@[k as int].id as int));
            assert(inode_ok(d, dev0, dir_id as int, self.nb(), self.free()));
        }
        let nk = self.new_inode(dir)?;
        let x = self.inodes[nk].id;
        let ghost t1 = self.table();
        proof {
            assert(t1[nk as int].1 == x);
            assert(inode_ok(t1[nk as int].0, dev0, x as int, self.nb(), self.free()));
            assert forall|j: int| 0 <= j < t0.len() implies #[trigger] t1[j] == t0[j] by {
                assert(t1.subrange(0, nk as int)[j] == t1[j]);
            }
        }
        if dir {
            match self.init_dir(nk, dir_id as u32) {
                Ok(()) => {},
                Err(e) => {
                    return Err(e);
                },
            }
        }
        let ghost t2 = self.table();
        let ghost dev2 = self.dev();
        let entry = DiskEntry { id: x as u32, name: Str256::from_slice(name) }.as_buf();
        match self.resize_inode(k, size as usize + BLKSIZE) {
            Ok(()) => {},
            Err(e) => {
                return Err(e);
            },
        }
        let ghost t3 = self.table();
        let ghost dev3 = self.dev();
        match self.write_inode(k, size as usize, entry.as_slice()) {
            Ok(_) => {},
            Err(e) => {
                return Err(e);
            },
        }
        proof {
            let dev4 = self.dev();
            let d3 = t3[k as int].0;
            assert(t2[k as int] == t0[k as int]);
            assert(entry@ == entry_bytes(x as u32, name@));
            let c = content(d, dev0);
            let c2 = content(d, dev2);
            let c3 = content(d3, dev3);
            let c4 = content(d3, dev4);
            assert(c2 == c);
            assert(c4 == spec_overwrite(c3, size as int, entry@.subrange(0, DISK_ENTRY_SIZE as int)));
            assert(c4.subrange(0, size as int) =~= c3.subrange(0, size as int));
            assert(c4.subrange(size as int, size + DISK_ENTRY_SIZE) =~= entry@);
            assert forall|j: int| 0 <= j < t0.len() && j != k implies #[trigger] content(self.table()[j].0, dev4)
                == content(t0[j].0, dev0) by {
                assert(t3[j] == t2[j]);
                assert(t2[j] == t1[j]);
                assert(content(t3[j].0, dev4) == content(t3[j].0, dev3));
                assert(content(t2[j].0, dev3) == content(t2[j].0, dev2));
            }
            let n2 = t2[nk as int].0;
            assert(content(t3[nk as int].0, dev4) == content(t3[nk as int].0, dev3));
            assert(content(t2[nk as int].0, dev3) == content(t2[nk as int].0, dev2));
        }
        Ok(x)
    }

    /// Mark every block that an inode in memory owns
    fn owned_map(&mut self) -> (r: Result<Vec<bool>, FsError>)
        requires
            old(self).wf(),
        ensures
            final(self).same_state(old(self)),
            r matches Ok(m) ==> {
                &&& m@.len() == old(self).nb()
                &&& forall|x: int| 0 <= x < old(self).nb() ==> (#[trigger] m@[x] <==> owned_by_first(
                    old(self).table(),
                    old(self).dev(),
                    old(self).ncached(),
                    x,
                ))
            },
            r is Err ==> r == Err::<Vec<bool>, FsError>(FsError::DeviceError),
            old(self).reliable() ==> r is Ok,
    {
        let ghost t = self.table();
        let ghost dev = self.dev();
        let nb = self.super_block.get().blocks as usize;
        let mut m: Vec<bool> = vec![false; nb];
        let mut k: usize = 0;
        let n = self.inodes.len();
        while k < n
            invariant
                self.same_state(old(self)),
                old(self).wf(),
                t == old(self).table(),
                dev == old(self).dev(),
                nb == old(self).nb(),
                n == old(self).ncached(),
                k <= n,
                m@.len() == nb,
                forall|x: int| 0 <= x < nb ==> (#[trigger] m@[x] <==> owned_by_first(t, dev, k as int, x)),
            decreases n - k,
        {
            proof {
                self.lemma_same_state(old(self));
            }
            let di = self.inodes[k].disk_inode.get().clone_inode();
            let id = self.inodes[k].id;
            let ghost m0 = m@;
            proof {
                assert(t[k as int] == (di, id as int));
                assert(inode_ok(t[k as int].0, dev, t[k as int].1, nb as int, old(self).free()));
                lemma_inode_ok_io(di, dev, id as int, nb as int, old(self).free());
            }
            m.set(id, true);
            if di.blocks >= NDIRECT as u32 {
                m.set(di.indirect as usize, true);
            }
            let mut i: usize = 0;
            while i < di.blocks as usize
                invariant
                    self.same_state(old(self)),
                    old(self).wf(),
                    t == old(self).table(),
                    dev == old(self).dev(),
                    nb == old(self).nb(),
                    n == old(self).ncached(),
                    k < n,
                    t[k as int] == (di, id as int),
                    inode_io_ok(di, dev, nb as int),
                    i <= di.blocks,
                    m@.len() == nb,
                    forall|x: int| 0 <= x < nb ==> (#[trigger] m@[x] <==> (owned_by_first(t, dev, k as int, x) || x == id
                        || (has_indirect(di) && x == di.indirect)
                        || exists|j: int| 0 <= j < i && #[trigger] block_of(di, dev, j) == x)),
                decreases di.blocks - i,
            {
                proof {
                    self.lemma_same_state(old(self));
                }
                let b = match self.get_disk_block_id(&di, i) {
                    Ok(b) => b,
                    Err(_) => {
                        return Err(FsError::DeviceError);
                    },
                };
                let ghost m1 = m@;
                m.set(b, true);
                proof {
                    assert forall|x: int| 0 <= x < nb implies (#[trigger] m@[x] <==> (owned_by_first(t, dev, k as int, x) || x == id
                        || (has_indirect(di) && x == di.indirect)
                        || exists|j: int| 0 <= j < i + 1 && #[trigger] block_of(di, dev, j) == x)) by {
                        if x == b {
                            assert(block_of(di, dev, i as int) == x);
                        }
                        if exists|j: int| 0 <= j < i + 1 && #[trigger] block_of(di, dev, j) == x {
                            let j = choose|j: int| 0 <= j < i + 1 && #[trigger] block_of(di, dev, j) == x;
                            if j < i {
                                assert(m1[x]);
                            }
                        }
                        if m1[x] {
                            if exists|j: int| 0 <= j < i && #[trigger] block_of(di, dev, j) == x {
                                let j = choose|j: int| 0 <= j < i && #[trigger] block_of(di, dev, j) == x;
                                assert(0 <= j < i + 1 && block_of(di, dev, j) == x);
                            }
                        }
                    }
                }
                i = i + 1;
            }
            proof {
                assert forall|x: int| 0 <= x < nb implies (#[trigger] m@[x] <==> owned_by_first(t, dev, k + 1, x)) by {
                    if owned_by_first(t, dev, k + 1, x) {
                        let k2 = choose|k2: int| 0 <= k2 < k + 1 && #[trigger] owns(t[k2].0, dev, t[k2].1, x);
                        if k2 < k {
                            assert(owned_by_first(t, dev, k as int, x));
                        }
                    }
                    if owned_by_first(t, dev, k as int, x) {
                        let k2 = choose|k2: int| 0 <= k2 < k && #[trigger] owns(t[k2].0, dev, t[k2].1, x);
                        assert(0 <= k2 < k + 1 && owns(t[k2].0, dev, t[k2].1, x));
                    }
                    if x == id || (has_indirect(di) && x == di.indirect) || exists|j: int| 0 <= j < di.blocks && #[trigger] block_of(di, dev, j) == x {
                        assert(owns(t[k as int].0, dev, t[k as int].1, x));
                    }
                }
            }
            k = k + 1;
        }
        Ok(m)
    }

    /// The slot in memory of inode `id`, loaded from the device when it is not
    /// in memory. An inode is loaded only when it is valid and shares no block
    /// with the inodes in memory; otherwise the result is `WrongFs`.
    fn get_inode(&mut self, id: INodeId) -> (r: Result<usize, FsError>)
        requires
            old(self).wf(),
        ensures
            final(self).wf(),
            final(self).dev() == old(self).dev(),
            final(self).reliable() == old(self).reliable(),
            final(self).super_block() == old(self).super_block(),
            final(self).free() == old(self).free(),
            final(self).ncached() >= old(self).ncached(),
            final(self).table().subrange(0, old(self).ncached()) == old(self).table(),
            r matches Ok(k) ==> {
                &&& k < final(self).ncached()
                &&& final(self).cached_id(k as int) == id
                &&& old(self).is_cached(id as int) ==> final(self).table() == old(self).table()
                &&& !old(self).is_cached(id as int) ==> {
                    &&& k == old(self).ncached()
                    &&& final(self).ncached() == old(self).ncached() + 1
                    &&& DiskINode::spec_decodes(disk_inode_bytes(old(self).dev(), id as int), final(self).table()[k as int].0)
                }
            },
            r is Err ==> final(self).table() == old(self).table() && !old(self).is_cached(id as int),
            old(self).is_cached(id as int) ==> *final(self) == *old(self) && r == Ok::<usize, FsError>(old(self).slot(id as int) as usize),
            r == Err::<usize, FsError>(FsError::WrongFs) ==> forall|v: DiskINode|
                DiskINode::spec_decodes(disk_inode_bytes(old(self).dev(), id as int), v) ==> !loadable(
                    old(self).table(),
                    v,
                    id as int,
                    old(self).dev(),
                    old(self).nb(),
                    old(self).free(),
                ),
            r is Err ==> r == Err::<usize, FsError>(FsError::WrongFs) || r == Err::<usize, FsError>(FsError::DeviceError),
            old(self).reliable() ==> r != Err::<usize, FsError>(FsError::DeviceError),
    {
        let ghost t = self.table();
        let ghost dev = self.dev();
        let ghost free = self.free();
        match self.slot_of(id) {
            Some(k) => {
                proof {
                    assert(self.table().subrange(0, self.ncached()) =~= self.table());
                    self.lemma_slot(k as int);
                }
                return Ok(k);
            },
            None => {},
        }
        let nb = self.super_block.get().blocks as usize;
        proof {
            assert(self.table().subrange(0, self.ncached()) =~= self.table());
        }
        if id == BLKN_SUPER || id == BLKN_FREEMAP || id >= nb || self.free_map.get().contains(id) {
            return Err(FsError::WrongFs);
        }
        let bytes = match read_block(&mut self.device, id, 0, 68) {
            Ok(b) => b,
            Err(_) => {
                return Err(FsError::DeviceError);
            },
        };
        let di = DiskINode::from_buf(bytes.as_slice());
        proof {
            assert(bytes@ == disk_inode_bytes(dev, id as int));
            assert forall|v: DiskINode| DiskINode::spec_decodes(disk_inode_bytes(dev, id as int), v) implies v == di by {
                DiskINode::lemma_decodes_unique(bytes@, v, di);
            }
        }
        let ok_type = match di.type_ {
            FileType::File => true,
            FileType::Dir => true,
            _ => false,
        };
        if !ok_type || di.blocks as usize > NDIRECT + BLK_NENTRY || di.size as usize > di.blocks as usize * BLKSIZE {
            return Err(FsError::WrongFs);
        }
        let has_ind = di.blocks as usize >= NDIRECT;
        if has_ind {
            let ind = di.indirect as usize;
            if ind < 3 || ind >= nb || self.free_map.get().contains(ind) || ind == id {
                return Err(FsError::WrongFs);
            }
        }
        let mut used = match self.owned_map() {
            Ok(m) => m,
            Err(e) => {
                return Err(e);
            },
        };
        proof {
            self.lemma_same_state(old(self));
        }
        if used[id] {
            proof {
                let k2 = choose|k2: int| 0 <= k2 < t.len() && #[trigger] owns(t[k2].0, dev, t[k2].1, id as int);
                assert(owns(di, dev, id as int, id as int));
                assert(!disjoint(di, id as int, t[k2].0, t[k2].1, dev));
            }
            return Err(FsError::WrongFs);
        }
        if has_ind {
            if used[di.indirect as usize] {
                proof {
                    let x = di.indirect as int;
                    let k2 = choose|k2: int| 0 <= k2 < t.len() && #[trigger] owns(t[k2].0, dev, t[k2].1, x);
                    assert(owns(di, dev, id as int, x));
                    assert(!disjoint(di, id as int, t[k2].0, t[k2].1, dev));
                }
                return Err(FsError::WrongFs);
            }
        }
        let mut i: usize = 0;
        while i < di.blocks as usize
            invariant
                self.same_state(old(self)),
                old(self).wf(),
                t == old(self).table(),
                dev == old(self).dev(),
                free == old(self).free(),
                nb == old(self).nb(),
                nb <= BLKBITS,
                !old(self).is_cached(id as int),
                forall|v: DiskINode| DiskINode::spec_decodes(disk_inode_bytes(dev, id as int), v) ==> v == di,
                id != BLKN_SUPER && id != BLKN_FREEMAP && 0 < id < nb && !free.contains(id as nat),
                di.type_ == FileType::File || di.type_ == FileType::Dir,
                di.blocks <= NDIRECT + BLK_NENTRY,
                di.size <= di.blocks * BLKSIZE,
                has_ind == has_indirect(di),
                has_ind ==> usable(di.indirect as int, nb as int, free) && di.indirect != id,
                !owned_by_first(t, dev, t.len() as int, id as int),
                has_ind ==> !owned_by_first(t, dev, t.len() as int, di.indirect as int),
                i <= di.blocks,
                used@.len() == nb,
                forall|x: int| 0 <= x < nb ==> (#[trigger] used@[x] <==> (owned_by_first(t, dev, t.len() as int, x)
                    || exists|j: int| 0 <= j < i && #[trigger] block_of(di, dev, j) == x)),
                forall|j: int| 0 <= j < i ==> {
                    &&& usable(#[trigger] block_of(di, dev, j), nb as int, free)
                    &&& block_of(di, dev, j) != id
                    &&& has_indirect(di) ==> block_of(di, dev, j) != di.indirect
                    &&& !owned_by_first(t, dev, t.len() as int, block_of(di, dev, j))
                },
                forall|a: int, b: int| 0 <= a < b < i ==> #[trigger] block_of(di, dev, a) != #[trigger] block_of(di, dev, b),
            decreases di.blocks - i,
        {
            proof {
                self.lemma_same_state(old(self));
            }
            let b = match self.get_disk_block_id(&di, i) {
                Ok(b) => b,
                Err(_) => {
                    return Err(FsError::DeviceError);
                },
            };
            if b < 3 || b >= nb || self.free_map.get().contains(b) || b == id || (has_ind && b == di.indirect as usize) {
                proof {
                    assert(!inode_ok(di, dev, id as int, nb as int, free)) by {
                        assert(block_of(di, dev, i as int) == b);
                    }
                }
                return Err(FsError::WrongFs);
            }
            if used[b] {
                proof {
                    if owned_by_first(t, dev, t.len() as int, b as int) {
                        let k2 = choose|k2: int| 0 <= k2 < t.len() && #[trigger] owns(t[k2].0, dev, t[k2].1, b as int);
                        assert(owns(di, dev, id as int, b as int)) by {
                            assert(block_of(di, dev, i as int) == b);
                        }
                        assert(!disjoint(di, id as int, t[k2].0, t[k2].1, dev));
                    } else {
                        let j = choose|j: int| 0 <= j < i && #[trigger] block_of(di, dev, j) == b;
                        assert(block_of(di, dev, j) == block_of(di, dev, i as int));
                        assert(!inode_ok(di, dev, id as int, nb as int, free));
                    }
                }
                return Err(FsError::WrongFs);
            }
            let ghost u0 = used@;
            used.set(b, true);
            proof {
                assert(block_of(di, dev, i as int) == b);
                assert forall|x: int| 0 <= x < nb implies (#[trigger] used@[x] <==> (owned_by_first(t, dev, t.len() as int, x)
                    || exists|j: int| 0 <= j < i + 1 && #[trigger] block_of(di, dev, j) == x)) by {
                    if exists|j: int| 0 <= j < i + 1 && #[trigger] block_of(di, dev, j) == x {
                        let j = choose|j: int| 0 <= j < i + 1 && #[trigger] block_of(di, dev, j) == x;
                        if j < i {
                            assert(u0[x]);
                        }
                    }
                    if u0[x] && !owned_by_first(t, dev, t.len() as int, x) {
                        let j = choose|j: int| 0 <= j < i && #[trigger] block_of(di, dev, j) == x;
                        assert(0 <= j < i + 1 && block_of(di, dev, j) == x);
                    }
                }
                assert forall|a: int, c: int| 0 <= a < c < i + 1 implies #[trigger] block_of(di, dev, a) != #[trigger] block_of(di, dev, c) by {
                    if c == i {
                        assert(u0[block_of(di, dev, a)]);
                    }
                }
            }
            i = i + 1;
        }
        let k = self.inodes.len();
        self.inodes.push(INode { disk_inode: Dirty::new(di), id });
        proof {
            let nbi = nb as int;
            assert(inode_ok(di, dev, id as int, nbi, free));
            assert forall|k2: int| 0 <= k2 < t.len() implies disjoint(di, id as int, #[trigger] t[k2].0, t[k2].1, dev) by {
                assert forall|x: int| !(#[trigger] owns(di, dev, id as int, x) && owns(t[k2].0, dev, t[k2].1, x)) by {
                    if owns(di, dev, id as int, x) && owns(t[k2].0, dev, t[k2].1, x) {
                        assert(owned_by_first(t, dev, t.len() as int, x));
                        if x != id && !(has_indirect(di) && x == di.indirect) {
                            let j = choose|j: int| 0 <= j < di.blocks && #[trigger] block_of(di, dev, j) == x;
                        }
                    }
                }
            }
            let t2 = t.push((di, id as int));
            assert(self.table() =~= t2);
            assert forall|k1: int| 0 <= k1 < t2.len() implies inode_ok(#[trigger] t2[k1].0, dev, t2[k1].1, nbi, free) by {
                if k1 < t.len() {
                    assert(t2[k1] == t[k1]);
                }
            }
            assert forall|k1: int, k2: int| 0 <= k1 < t2.len() && 0 <= k2 < t2.len() && k1 != k2 implies disjoint(
                #[trigger] t2[k1].0, t2[k1].1, #[trigger] t2[k2].0, t2[k2].1, dev) by {
                if k1 < t.len() && k2 < t.len() {
                    assert(t2[k1] == t[k1] && t2[k2] == t[k2]);
                    assert(disjoint(t[k1].0, t[k1].1, t[k2].0, t[k2].1, dev));
                } else if k1 < t.len() {
                    assert(t2[k1] == t[k1]);
                    assert(disjoint(di, id as int, t[k1].0, t[k1].1, dev));
                } else {
                    assert(t2[k2] == t[k2]);
                    assert(disjoint(di, id as int, t[k2].0, t[k2].1, dev));
                }
            }
            assert(self.table().subrange(0, t.len() as int) =~= t);
            assert(self.cached_id(k as int) == id);
        }
        Ok(k)
    }

    /// The slot in memory of inode `id`
    pub closed spec fn slot(&self, id: int) -> int {
        choose|k: int| 0 <= k < self.ncached() && self.cached_id(k) == id
    }

    /// The disk inode of inode `id` in memory
    pub open spec fn inode(&self, id: int) -> DiskINode {
        self.cached_inode(self.slot(id))
    }

    /// The bytes of inode `id` in memory: the content of a file, or the entries of a directory
    pub open spec fn bytes(&self, id: int) -> Seq<u8> {
        content(self.inode(id), self.dev())
    }

    /// The inode number under `name` in directory `id`
    pub open spec fn dir_lookup(&self, id: int, name: Seq<u8>) -> Option<u32> {
        dir_find(self.bytes(id), self.inode(id).blocks as int, name)
    }

    proof fn lemma_slot(&self, k: int)
        requires
            self.wf(),
            0 <= k < self.ncached(),
        ensures
            self.slot(self.cached_id(k)) == k,
            self.is_cached(self.cached_id(k)),
            self.inode(self.cached_id(k)) == self.table()[k].0,
            self.table()[k].1 == self.cached_id(k),
    {
        self.lemma_ids_distinct();
        assert(self.is_cached(self.cached_id(k)));
    }

    /// The inodes in memory that are not in slot `k` keep their numbers, disk inodes and bytes
    pub open spec fn others_kept(&self, prev: &Self, k: int) -> bool {
        forall|id: int| prev.is_cached(id) && id != prev.cached_id(k) ==> #[trigger] self.kept(prev, id)
    }

    /// Whether inode `id` is in memory with the disk inode and the bytes it had in `prev`
    pub open spec fn kept(&self, prev: &Self, id: int) -> bool {
        &&& self.is_cached(id)
        &&& self.inode(id) == prev.inode(id)
        &&& self.bytes(id) == prev.bytes(id)
    }

    proof fn lemma_others_kept(&self, prev: &Self, k: int)
        requires
            prev.wf(),
            self.wf(),
            0 <= k < prev.ncached(),
            prev.ncached() <= self.ncached(),
            forall|j: int| 0 <= j < prev.ncached() && j != k ==> #[trigger] self.table()[j] == prev.table()[j],
            forall|j: int| 0 <= j < prev.ncached() && j != k ==> #[trigger] content(self.table()[j].0, self.dev())
                == content(prev.table()[j].0, prev.dev()),
        ensures
            self.others_kept(prev, k),
    {
        assert forall|id: int| prev.is_cached(id) && id != prev.cached_id(k) implies #[trigger] self.kept(prev, id) by {
            let j = choose|j: int| 0 <= j < prev.ncached() && prev.cached_id(j) == id;
            prev.lemma_slot(j);
            assert(self.table()[j] == prev.table()[j]);
            assert(self.cached_id(j) == self.table()[j].1);
            self.lemma_slot(j);
        }
    }

    /// Whether every inode in memory keeps its disk inode and its bytes
    pub open spec fn all_kept(&self, prev: &Self) -> bool {
        forall|id: int| prev.is_cached(id) ==> #[trigger] self.kept(prev, id)
    }

    proof fn lemma_all_kept(&self, prev: &Self)
        requires
            prev.wf(),
            self.wf(),
            self.dev() == prev.dev(),
            self.table().subrange(0, prev.ncached()) == prev.table(),
            prev.ncached() <= self.ncached(),
        ensures
            self.all_kept(prev),
    {
        assert forall|id: int| prev.is_cached(id) implies #[trigger] self.kept(prev, id) by {
            let j = choose|j: int| 0 <= j < prev.ncached() && prev.cached_id(j) == id;
            prev.lemma_slot(j);
            assert(self.table().subrange(0, prev.ncached())[j] == self.table()[j]);
            self.lemma_slot(j);
        }
    }

    proof fn lemma_all_kept_contents(&self, prev: &Self)
        requires
            prev.wf(),
            self.wf(),
            self.table() == prev.table(),
            forall|j: int| 0 <= j < prev.ncached() ==> #[trigger] content(prev.table()[j].0, self.dev()) == content(
                prev.table()[j].0,
                prev.dev(),
            ),
        ensures
            self.all_kept(prev),
    {
        assert forall|id: int| prev.is_cached(id) implies #[trigger] self.kept(prev, id) by {
            let j = choose|j: int| 0 <= j < prev.ncached() && prev.cached_id(j) == id;
            prev.lemma_slot(j);
            self.lemma_slot(j);
        }
    }

    proof fn lemma_kept_trans(&self, mid: &Self, prev: &Self)
        requires
            self.all_kept(mid),
            mid.all_kept(prev),
        ensures
            self.all_kept(prev),
    {
        assert forall|id: int| prev.is_cached(id) implies #[trigger] self.kept(prev, id) by {
            assert(mid.kept(prev, id));
            assert(self.kept(mid, id));
        }
    }

    /// Find the slot of an inode in memory
    fn slot_in_memory(&self, id: INodeId) -> (k: usize)
        requires
            self.wf(),
            self.is_cached(id as int),
        ensures
            k < self.ncached(),
            k == self.slot(id as int),
            self.cached_id(k as int) == id,
            self.table()[k as int] == (self.inode(id as int), id as int),
    {
        match self.slot_of(id) {
            Some(k) => {
                proof {
                    self.lemma_slot(k as int);
                }
                k
            },
            None => {
                proof {
                    assert(false);
                }
                0
            },
        }
    }

    /// Read the file `id` from byte `offset` into `buf`; the read stops at the end of the file
    pub fn read_at(&mut self, id: INodeId, offset: usize, buf: &mut [u8]) -> (r: Result<usize, FsError>)
        requires
            old(self).wf(),
            old(self).is_cached(id as int),
            old(self).inode(id as int).type_ == FileType::File,
            offset + old(buf)@.len() <= usize::MAX,
        ensures
            final(self).same_state(old(self)),
            final(self).wf(),
            final(buf)@.len() == old(buf)@.len(),
            r matches Ok(n) ==> {
                let c = old(self).bytes(id as int);
                let begin = if offset < c.len() { offset as int } else { c.len() as int };
                let end = if offset + old(buf)@.len() < c.len() { offset + old(buf)@.len() } else { c.len() as int };
                &&& n == end - begin
                &&& final(buf)@.subrange(0, n as int) == c.subrange(begin, end)
                &&& final(buf)@.subrange(n as int, old(buf)@.len() as int) == old(buf)@.subrange(n as int, old(buf)@.len() as int)
            },
            r is Err ==> r == Err::<usize, FsError>(FsError::DeviceError),
            old(self).reliable() ==> r is Ok,
    {
        let k = self.slot_in_memory(id);
        proof {
            let t = self.table();
            assert(inode_ok(t[k as int].0, self.dev(), t[k as int].1, self.nb(), self.free()));
            lemma_inode_ok_io(t[k as int].0, self.dev(), t[k as int].1, self.nb(), self.free());
        }
        let di = self.inodes[k].disk_inode.get().clone_inode();
        match self.read_content(&di, offset, buf) {
            Ok(n) => Ok(n),
            Err(_) => Err(FsError::DeviceError),
        }
    }

    /// Write `buf` into the file `id` from byte `offset`; the write stops at the end of the file
    pub fn write_at(&mut self, id: INodeId, offset: usize, buf: &[u8]) -> (r: Result<usize, FsError>)
        requires
            old(self).wf(),
            old(self).is_cached(id as int),
            old(self).inode(id as int).type_ == FileType::File,
            offset + buf@.len() <= usize::MAX,
        ensures
            final(self).reliable() == old(self).reliable(),
            final(self).ncached() == old(self).ncached(),
            r is Err ==> r == Err::<usize, FsError>(FsError::DeviceError),
            r matches Ok(n) ==> {
                let c = old(self).bytes(id as int);
                let begin = if offset < c.len() { offset as int } else { c.len() as int };
                let end = if offset + buf@.len() < c.len() { offset + buf@.len() } else { c.len() as int };
                &&& final(self).wf()
                &&& n == end - begin
                &&& final(self).is_cached(id as int)
                &&& final(self).inode(id as int) == old(self).inode(id as int)
                &&& final(self).bytes(id as int) == spec_overwrite(c, begin, buf@.subrange(0, n as int))
                &&& final(self).others_kept(old(self), old(self).slot(id as int))
            },
            old(self).reliable() ==> r is Ok,
    {
        let k = self.slot_in_memory(id);
        let r = self.write_inode(k, offset, buf);
        proof {
            if r is Ok {
                self.lemma_others_kept(old(self), k as int);
                self.lemma_slot(k as int);
            }
        }
        r
    }

    /// Resize the file `id` to `len` bytes; the bytes past the old size read as zero.
    /// A directory gives `NotFile`, a length past the largest file size `InvalidParam`.
    pub fn resize(&mut self, id: INodeId, len: usize) -> (r: Result<(), FsError>)
        requires
            old(self).wf(),
            old(self).is_cached(id as int),
            len <= MAX_FILE_SIZE ==> blocks_for(len as int) <= NDIRECT + BLK_NENTRY,
        ensures
            final(self).reliable() == old(self).reliable(),
            final(self).ncached() == old(self).ncached(),
            old(self).inode(id as int).type_ != FileType::File ==> r == Err::<(), FsError>(FsError::NotFile)
                && final(self).same_state(old(self)),
            old(self).inode(id as int).type_ == FileType::File && len > MAX_FILE_SIZE ==> r == Err::<(), FsError>(
                FsError::InvalidParam,
            ) && final(self).same_state(old(self)),
            old(self).inode(id as int).type_ == FileType::File && len <= MAX_FILE_SIZE ==> (r is Ok || r == Err::<(), FsError>(
                FsError::NoDeviceSpace,
            ) || r == Err::<(), FsError>(FsError::DeviceError)),
            r != Err::<(), FsError>(FsError::DeviceError) ==> final(self).wf() && final(self).others_kept(old(self), old(self).slot(id as int))
                && final(self).is_cached(id as int) && final(self).inode(id as int).type_ == old(self).inode(id as int).type_,
            r is Ok ==> {
                let c = old(self).bytes(id as int);
                let c2 = final(self).bytes(id as int);
                let m = if c.len() < len { c.len() as int } else { len as int };
                &&& c2.len() == len
                &&& c2.subrange(0, m) == c.subrange(0, m)
                &&& old(self).inode(id as int).blocks <= blocks_for(len as int) ==> forall|i: int| c.len() <= i < len ==> #[trigger] c2[i] == 0
                &&& final(self).inode(id as int).blocks == blocks_for(len as int)
            },
            old(self).reliable() && old(self).inode(id as int).type_ == FileType::File && len <= MAX_FILE_SIZE
                && grow_needs(old(self).inode(id as int).blocks as int, blocks_for(len as int)) <= old(self).free().len()
                ==> r is Ok,
            r is Ok && old(self).inode(id as int).blocks <= blocks_for(len as int) ==> final(self).free().len()
                == old(self).free().len() - grow_needs(old(self).inode(id as int).blocks as int, blocks_for(len as int)),
            r is Ok && blocks_for(len as int) < old(self).inode(id as int).blocks ==> {
                let di = old(self).inode(id as int);
                &&& final(self).free().len() == old(self).free().len() + shrink_frees(di.blocks as int, blocks_for(len as int))
                &&& forall|j: int| blocks_for(len as int) <= j < di.blocks ==> final(self).free().contains(
                    #[trigger] block_of(di, old(self).dev(), j) as nat,
                )
                &&& has_indirect(di) && blocks_for(len as int) < NDIRECT ==> final(self).free().contains(di.indirect as nat)
            },
            r is Ok ==> final(self).super_block().unused_blocks == final(self).free().len(),
            r == Err::<(), FsError>(FsError::NoDeviceSpace) ==> old(self).free().len() < grow_needs(
                old(self).inode(id as int).blocks as int,
                blocks_for(len as int),
            ),
            old(self).reliable() ==> r != Err::<(), FsError>(FsError::DeviceError),
    {
        let k = self.slot_in_memory(id);
        proof {
            self.lemma_slot(k as int);
            self.lemma_same_state(self);
        }
        if self.inodes[k].disk_inode.get().type_ != FileType::File {
            return Err(FsError::NotFile);
        }
        if len > MAX_FILE_SIZE {
            return Err(FsError::InvalidParam);
        }
        let r = self.resize_inode(k, len);
        proof {
            if r != Err::<(), FsError>(FsError::DeviceError) {
                self.lemma_others_kept(old(self), k as int);
                self.lemma_slot(k as int);
            }
        }
        r
    }

    /// Information about inode `id`
    pub fn info(&self, id: INodeId) -> (r: vfs::Result<vfs::FileInfo>)
        requires
            self.wf(),
            self.is_cached(id as int),
        ensures
            r matches Ok(info) && {
                let di = self.inode(id as int);
                &&& info.inode == id
                &&& info.size == di.size
                &&& info.blocks == di.blocks
                &&& info.mode == 0
                &&& info.nlinks == di.nlinks
                &&& (di.type_ == FileType::File <==> info.type_ == vfs::FileType::File)
                &&& (di.type_ == FileType::Dir <==> info.type_ == vfs::FileType::Dir)
                &&& info.uid == 0 && info.gid == 0
                &&& info.atime == vfs::Timespec { sec: 0, nsec: 0 }
                &&& info.mtime == vfs::Timespec { sec: 0, nsec: 0 }
                &&& info.ctime == vfs::Timespec { sec: 0, nsec: 0 }
            },
    {
        let k = self.slot_in_memory(id);
        proof {
            let t = self.table();
            assert(inode_ok(t[k as int].0, self.dev(), t[k as int].1, self.nb(), self.free()));
        }
        let di = self.inodes[k].disk_inode.get();
        let zero = vfs::Timespec { sec: 0, nsec: 0 };
        Ok(vfs::FileInfo {
            inode: id,
            size: di.size as usize,
            blocks: di.blocks as usize,
            atime: zero,
            mtime: zero,
            ctime: zero,
            type_: vfs::FileType::from_disk(di.type_),
            mode: 0,
            nlinks: di.nlinks as usize,
            uid: 0,
            gid: 0,
        })
    }

    /// The names of the entries of directory `id`, one per block
    pub fn list(&mut self, id: INodeId) -> (r: Result<Vec<Vec<u8>>, FsError>)
        requires
            old(self).wf(),
            old(self).is_cached(id as int),
            old(self).inode(id as int).type_ == FileType::Dir,
        ensures
            final(self).same_state(old(self)),
            final(self).wf(),
            r matches Ok(v) ==> {
                let c = old(self).bytes(id as int);
                &&& v@.len() == old(self).inode(id as int).blocks
                &&& forall|i: int| 0 <= i < v@.len() ==> spec_c_name(entry_name_field(c, i)) == Some(#[trigger] v@[i]@)
            },
            r == Err::<Vec<Vec<u8>>, FsError>(FsError::WrongFs) ==> exists|i: int|
                0 <= i < old(self).inode(id as int).blocks && (#[trigger] spec_c_name(entry_name_field(old(self).bytes(id as int), i))) is None,
            r is Err ==> r == Err::<Vec<Vec<u8>>, FsError>(FsError::DeviceError) || r == Err::<Vec<Vec<u8>>, FsError>(FsError::WrongFs),
            old(self).reliable() ==> r != Err::<Vec<Vec<u8>>, FsError>(FsError::DeviceError),
    {
        let k = self.slot_in_memory(id);
        proof {
            let t = self.table();
            assert(inode_ok(t[k as int].0, self.dev(), t[k as int].1, self.nb(), self.free()));
            lemma_inode_ok_io(t[k as int].0, self.dev(), t[k as int].1, self.nb(), self.free());
        }
        let di = self.inodes[k].disk_inode.get().clone_inode();
        let r = self.list_entries(&di);
        proof {
            self.lemma_same_state(old(self));
        }
        r
    }

    /// The root directory, loaded from the device when it is not in memory
    pub fn root_inode(&mut self) -> (r: Result<INodeId, FsError>)
        requires
            old(self).wf(),
        ensures
            final(self).wf(),
            final(self).dev() == old(self).dev(),
            final(self).reliable() == old(self).reliable(),
            final(self).all_kept(old(self)),
            r matches Ok(id) ==> id == BLKN_ROOT && final(self).is_cached(id as int),
            old(self).is_cached(BLKN_ROOT as int) ==> r == Ok::<INodeId, FsError>(BLKN_ROOT),
            r is Err ==> r == Err::<INodeId, FsError>(FsError::WrongFs) || r == Err::<INodeId, FsError>(FsError::DeviceError),
            old(self).reliable() ==> r != Err::<INodeId, FsError>(FsError::DeviceError),
    {
        let r = self.get_inode(BLKN_ROOT);
        proof {
            self.lemma_all_kept(old(self));
        }
        match r {
            Ok(k) => {
                proof {
                    self.lemma_slot(k as int);
                }
                Ok(BLKN_ROOT)
            },
            Err(e) => Err(e),
        }
    }

    /// Create a file, or a directory when `type_` says so, named `name` in directory `dir`
    pub fn create_child(&mut self, dir: INodeId, name: &[u8], type_: vfs::FileType) -> (r: Result<INodeId, FsError>)
        requires
            old(self).wf(),
            old(self).is_cached(dir as int),
            old(self).inode(dir as int).type_ == FileType::Dir,
            name@.len() <= 256,
            old(self).dir_lookup(dir as int, name@) is None,
            blocks_for(old(self).inode(dir as int).size + BLKSIZE) <= NDIRECT + BLK_NENTRY,
        ensures
            old(self).reliable() && 1 + (if type_ == vfs::FileType::Dir { 2int } else { 0int }) + grow_needs(
                old(self).inode(dir as int).blocks as int,
                blocks_for(old(self).inode(dir as int).size + BLKSIZE),
            ) <= old(self).free().len() ==> r is Ok,
            final(self).reliable() == old(self).reliable(),
            r is Ok || r == Err::<INodeId, FsError>(FsError::NoDeviceSpace) || r == Err::<INodeId, FsError>(FsError::DeviceError),
            r != Err::<INodeId, FsError>(FsError::DeviceError) ==> {
                &&& final(self).wf()
                &&& final(self).others_kept(old(self), old(self).slot(dir as int))
                &&& final(self).is_cached(dir as int)
                &&& final(self).inode(dir as int).type_ == FileType::Dir
            },
            r matches Ok(x) ==> {
                let d = old(self).inode(dir as int);
                let c = old(self).bytes(dir as int);
                let c2 = final(self).bytes(dir as int);
                let sz = d.size as int;
                let n = final(self).inode(x as int);
                let cn = final(self).bytes(x as int);
                &&& !old(self).is_cached(x as int)
                &&& final(self).is_cached(x as int)
                &&& n.type_ == (if type_ == vfs::FileType::Dir { FileType::Dir } else { FileType::File })
                &&& final(self).inode(dir as int).size == sz + BLKSIZE
                &&& c2.subrange(0, sz) == c.subrange(0, sz)
                &&& c2.subrange(sz, sz + DISK_ENTRY_SIZE) == entry_bytes(x as u32, name@)
                &&& type_ == vfs::FileType::File ==> n.size == 0 && cn.len() == 0
                &&& type_ == vfs::FileType::Dir ==> {
                    &&& final(self).dir_lookup(x as int, dot_name()) == Some(x as u32)
                    &&& final(self).dir_lookup(x as int, dotdot_name()) == Some(dir as u32)
                    &&& cn.subrange(0, DISK_ENTRY_SIZE as int) == entry_bytes(x as u32, dot_name())
                    &&& cn.subrange(BLKSIZE as int, BLKSIZE + DISK_ENTRY_SIZE) == entry_bytes(dir as u32, dotdot_name())
                }
                &&& (d.size == d.blocks * BLKSIZE && name@.len() < 256 && forall|i: int| 0 <= i < name@.len() ==> name@[i] != 0)
                    ==> final(self).dir_lookup(dir as int, name@) == Some(x as u32)
            },
            old(self).reliable() ==> r != Err::<INodeId, FsError>(FsError::DeviceError),
    {
        let k = self.slot_in_memory(dir);
        let ghost nk = self.ncached();
        let is_dir = match type_ {
            vfs::FileType::Dir => true,
            vfs::FileType::File => false,
        };
        let r = self.create_in(k, name, is_dir);
        proof {
            if r != Err::<INodeId, FsError>(FsError::DeviceError) {
                self.lemma_others_kept(old(self), k as int);
                self.lemma_slot(k as int);
            }
            if r is Ok {
                let x = r->Ok_0;
                self.lemma_slot(nk);
                assert(!old(self).is_cached(x as int)) by {
                    if old(self).is_cached(x as int) {
                        let j = choose|j: int| 0 <= j < old(self).ncached() && old(self).cached_id(j) == x;
                        let t = old(self).table();
                        assert(owns(t[j].0, old(self).dev(), t[j].1, x as int));
                        lemma_owned_not_free(t, j, old(self).dev(), old(self).nb(), old(self).free(), x as int);
                    }
                }
                let d = old(self).inode(dir as int);
                let c = old(self).bytes(dir as int);
                let c2 = self.bytes(dir as int);
                if is_dir {
                    let cn = self.bytes(x as int);
                    let dot = entry_bytes(x as u32, dot_name());
                    let dotdot = entry_bytes(dir as u32, dotdot_name());
                    assert(find_index(cn, 0, dot_name()) is None);
                    law_find_after_append(cn, cn, 0, x as u32, dot_name());
                    assert(cn.subrange(0, 0) =~= Seq::<u8>::empty());
                    lemma_find_index_mono(cn, 1, 2, dot_name());
                    assert(!entry_named(cn, 0, dotdot_name())) by {
                        crate::structs::lemma_padded_name(dot_name(), 256);
                        assert(entry_name_field(cn, 0) =~= spec_zero_padded(dot_name(), 256)) by {
                            crate::codec::lemma_u32_le_bytes(x as u32);
                            assert forall|t: int| 0 <= t < 256 implies #[trigger] entry_name_field(cn, 0)[t] == spec_zero_padded(dot_name(), 256)[t] by {
                                assert(cn.subrange(0, DISK_ENTRY_SIZE as int)[4 + t] == dot[4 + t]);
                            }
                        }
                    }
                    assert(dot_name().len() == 1 && dotdot_name().len() == 2);
                    assert(find_index(cn, 0, dotdot_name()) is None);
                    assert(find_index(cn, 1, dotdot_name()) is None);
                    law_find_after_append(cn, cn, 1, dir as u32, dotdot_name());
                }
                if d.size == d.blocks * BLKSIZE && name@.len() < 256 && forall|i: int| 0 <= i < name@.len() ==> name@[i] != 0 {
                    let n0 = d.blocks as int;
                    assert(blocks_for(d.size + BLKSIZE) == n0 + 1) by {
                        lemma_div_blk(n0 + 1, BLKSIZE - 1);
                    }
                    lemma_find_index(c, n0, name@);
                    law_find_after_append(c, c2, n0, x as u32, name@);
                }
            }
        }
        r
    }

    /// Whether `path`, looked up from directory `d`, names inode `x`: the part up to the first
    /// '/' is looked up in `d`; when something follows the '/', that inode must be a
    /// directory in memory, and the rest is looked up from it.
    pub open spec fn resolves(&self, d: int, path: Seq<u8>, x: int) -> bool
        decreases path.len(),
    {
        let pos = slash_at(path, 0);
        match self.dir_lookup(d, path.subrange(0, pos)) {
            None => false,
            Some(e) => if pos + 1 >= path.len() || pos < 0 {
                x == e
            } else {
                &&& self.is_cached(e as int)
                &&& self.inode(e as int).type_ == FileType::Dir
                &&& self.resolves(e as int, path.subrange(pos + 1, path.len() as int), x)
            },
        }
    }

    /// Whether inode `x`, not in memory, can be loaded: the bytes of its block
    /// decode to an on-disk inode that is well formed, in use and shares no
    /// block with the inodes in memory
    pub open spec fn loads(&self, x: int) -> bool {
        exists|v: DiskINode| #[trigger] DiskINode::spec_decodes(disk_inode_bytes(self.dev(), x), v)
            && loadable(self.table(), v, x, self.dev(), self.nb(), self.free())
    }

    /// Whether a name of `path`, looked up from directory `d` through directories
    /// in memory, is missing: the part up to the first '/' is not in `d`, or it
    /// names a directory in memory and the rest is missing from there.
    pub open spec fn misses(&self, d: int, path: Seq<u8>) -> bool
        decreases path.len(),
    {
        let pos = slash_at(path, 0);
        match self.dir_lookup(d, path.subrange(0, pos)) {
            None => true,
            Some(e) => if pos + 1 >= path.len() || pos < 0 {
                false
            } else {
                &&& self.is_cached(e as int)
                &&& self.inode(e as int).type_ == FileType::Dir
                &&& self.misses(e as int, path.subrange(pos + 1, path.len() as int))
            },
        }
    }

    /// Two states with the same inodes in memory and the same device bytes see
    /// the same inode `d` and the same entries in it.
    proof fn lemma_same_state_inode(&self, other: &Self, d: int)
        requires
            self.wf(),
            self.same_state(other),
            self.is_cached(d),
        ensures
            other.wf(),
            other.is_cached(d),
            other.slot(d) == self.slot(d),
            other.inode(d) == self.inode(d),
            other.bytes(d) == self.bytes(d),
            forall|name: Seq<u8>| #[trigger] other.dir_lookup(d, name) == self.dir_lookup(d, name),
    {
        self.lemma_same_state(other);
        let k = self.slot(d);
        self.lemma_slot(k);
        other.lemma_ids_distinct();
        assert(other.cached_id(k) == d);
        assert(other.is_cached(d));
        let k2 = other.slot(d);
        assert(other.cached_id(k2) == d);
    }

    /// Two states with the same inodes in memory and the same device bytes resolve
    /// a path, and miss a name of it, alike.
    proof fn lemma_same_state_walk(&self, other: &Self, d: int, path: Seq<u8>, x: int)
        requires
            self.wf(),
            self.same_state(other),
            self.is_cached(d),
        ensures
            other.resolves(d, path, x) == self.resolves(d, path, x),
            other.misses(d, path) == self.misses(d, path),
        decreases path.len(),
    {
        self.lemma_same_state_inode(other, d);
        let pos = slash_at(path, 0);
        lemma_slash_at(path, 0);
        match self.dir_lookup(d, path.subrange(0, pos)) {
            None => {},
            Some(e) => {
                if pos + 1 >= path.len() || pos < 0 {
                } else if self.is_cached(e as int) {
                    self.lemma_same_state_inode(other, e as int);
                    self.lemma_same_state_walk(other, e as int, path.subrange(pos + 1, path.len() as int), x);
                } else {
                    assert(!other.is_cached(e as int)) by {
                        if other.is_cached(e as int) {
                            other.lemma_same_state(self);
                            let k = other.slot(e as int);
                            assert(self.cached_id(k) == e);
                        }
                    }
                }
            },
        }
    }

    /// Look up `path` from directory `dir`, loading the inodes on the way
    pub fn lookup(&mut self, dir: INodeId, path: &[u8]) -> (r: Result<INodeId, FsError>)
        requires
            old(self).wf(),
            old(self).is_cached(dir as int),
            old(self).inode(dir as int).type_ == FileType::Dir,
        ensures
            final(self).wf(),
            final(self).dev() == old(self).dev(),
            final(self).reliable() == old(self).reliable(),
            final(self).all_kept(old(self)),
            r matches Ok(x) ==> final(self).is_cached(x as int) && final(self).resolves(dir as int, path@, x as int),
            forall|x: int|
                old(self).reliable() && #[trigger] old(self).resolves(dir as int, path@, x) && (old(self).is_cached(x) || old(self).loads(x))
                    ==> r == Ok::<INodeId, FsError>(x as usize),
            old(self).reliable() && old(self).misses(dir as int, path@) ==> r == Err::<INodeId, FsError>(FsError::EntryNotFound),
            r is Err ==> r == Err::<INodeId, FsError>(FsError::EntryNotFound) || r == Err::<INodeId, FsError>(FsError::NotDir)
                || r == Err::<INodeId, FsError>(FsError::WrongFs) || r == Err::<INodeId, FsError>(FsError::DeviceError),
            old(self).reliable() ==> r != Err::<INodeId, FsError>(FsError::DeviceError),
        decreases path@.len(),
    {
        let ghost o = *self;
        let pos = find_slash(path);
        proof {
            lemma_slash_at(path@, 0);
        }
        let name = vstd::slice::slice_subrange(path, 0, pos);
        let k = self.slot_in_memory(dir);
        proof {
            let t = self.table();
            assert(inode_ok(t[k as int].0, self.dev(), t[k as int].1, self.nb(), self.free()));
            lemma_inode_ok_io(t[k as int].0, self.dev(), t[k as int].1, self.nb(), self.free());
        }
        let di = self.inodes[k].disk_inode.get().clone_inode();
        let found = match self.find_entry(&di, name) {
            Ok(f) => f,
            Err(e) => {
                proof {
                    self.lemma_same_state(old(self));
                    assert(self.table().subrange(0, self.ncached()) =~= self.table());
                    self.lemma_all_kept(old(self));
                }
                return Err(e);
            },
        };
        proof {
            self.lemma_same_state(old(self));
            assert(self.table().subrange(0, self.ncached()) =~= self.table());
            self.lemma_all_kept(old(self));
            self.lemma_slot(k as int);
            o.lemma_same_state_inode(self, dir as int);
            assert(name@ == path@.subrange(0, pos as int));
            assert(o.dir_lookup(dir as int, name@) == found);
        }
        let e = match found {
            Some(e) => e,
            None => {
                return Err(FsError::EntryNotFound);
            },
        };
        let ghost s1 = *self;
        let ek = match self.get_inode(e as usize) {
            Ok(ek) => ek,
            Err(err) => {
                proof {
                    self.lemma_all_kept(&s1);
                    self.lemma_kept_trans(&s1, old(self));
                    if o.is_cached(e as int) {
                        o.lemma_same_state_inode(&s1, e as int);
                    }
                }
                return Err(err);
            },
        };
        proof {
            self.lemma_all_kept(&s1);
            self.lemma_kept_trans(&s1, old(self));
            self.lemma_slot(ek as int);
            assert(s1.dir_lookup(dir as int, name@) == Some(e));
            assert(s1.is_cached(dir as int));
            assert(self.kept(&s1, dir as int));
            assert(self.is_cached(dir as int));
            assert(self.dir_lookup(dir as int, name@) == Some(e));
        }
        if pos >= path.len() || pos == path.len() - 1 {
            return Ok(e as usize);
        }
        let is_dir = match self.inodes[ek].disk_inode.get().type_ {
            FileType::Dir => true,
            _ => false,
        };
        if !is_dir {
            proof {
                if o.is_cached(e as int) {
                    o.lemma_same_state_inode(&s1, e as int);
                    assert(*self == s1);
                    assert(self.inode(e as int).type_ != FileType::Dir);
                }
            }
            return Err(FsError::NotDir);
        }
        let rest = vstd::slice::slice_subrange(path, pos + 1, path.len());
        let ghost s2 = *self;
        let r = self.lookup(e as usize, rest);
        proof {
            self.lemma_kept_trans(&s2, old(self));
            if o.is_cached(e as int) {
                o.lemma_same_state_inode(&s1, e as int);
                assert(s2 == s1);
                o.lemma_same_state_walk(&s2, e as int, rest@, 0);
                assert forall|x: int| o.reliable() && #[trigger] o.resolves(dir as int, path@, x) && (o.is_cached(x) || o.loads(x))
                    implies r == Ok::<INodeId, FsError>(x as usize) by {
                    o.lemma_same_state_walk(&s2, e as int, rest@, x);
                    o.lemma_same_state(&s2);
                    if o.is_cached(x) {
                        o.lemma_same_state_inode(&s2, x);
                    } else {
                        assert(!s2.is_cached(x)) by {
                            if s2.is_cached(x) {
                                s2.lemma_same_state(&o);
                                let kk = s2.slot(x);
                                s2.lemma_slot(kk);
                                assert(o.cached_id(kk) == x);
                            }
                        }
                        assert(s2.loads(x));
                    }
                }
            }
            if r is Ok {
                let x = r->Ok_0;
                assert(self.kept(&s2, dir as int));
                assert(self.kept(&s2, e as int));
                assert(self.is_cached(dir as int));
                assert(self.dir_lookup(dir as int, name@) == Some(e));
                assert(self.is_cached(e as int));
                assert(self.inode(e as int).type_ == FileType::Dir);
                assert(rest@ == path@.subrange(pos + 1, path@.len() as int));
                assert(self.resolves(dir as int, path@, x as int));
            }
        }
        r
    }

    /// Whether the superblock changed since it was last written back
    pub closed spec fn super_block_dirty(&self) -> bool {
        self.super_block.is_dirty()
    }

    /// Whether the free map changed since it was last written back
    pub closed spec fn free_map_dirty(&self) -> bool {
        self.free_map.is_dirty()
    }

    /// Whether the `k`-th inode in memory changed since it was last written back
    pub closed spec fn inode_dirty(&self, k: int) -> bool {
        self.inodes@[k].disk_inode.is_dirty()
    }

    /// What `sync` writes, `open` reads back: once the superblock is stored at the
    /// start of the device and the free map in its block (as `sync` leaves them
    /// when both had changed), the device holds an image that `open` accepts,
    /// whose superblock decodes to this one and whose free map marks free exactly
    /// the free blocks of this file system.
    pub proof fn law_open_after_sync(&self)
        requires
            self.wf(),
            self.super_block().magic == MAGIC,
            SuperBlock::spec_decodes(self.dev().subrange(0, SUPER_BLOCK_SIZE as int), self.super_block()),
            forall|x: nat|
                x < BLKBITS ==> (#[trigger] self.free().contains(x) <==> word_bit(
                    spec_u32_at(self.dev(), blk_pos(BLKN_FREEMAP as int, (4 * (x / 32)) as int)),
                    (x % 32) as int,
                )),
        ensures
            image_ok(self.dev()),
            image_free(self.dev()) == self.free(),
    {
        let dev = self.dev();
        assert forall|x: nat| x < BLKBITS implies (#[trigger] self.free().contains(x) <==> image_free_bit(dev, x)) by {}
        self.free_map.value().lemma_free_below();
        assert(image_free(dev) =~= self.free());
        assert forall|x: nat| x < BLKBITS && #[trigger] image_free_bit(dev, x) implies 3 <= x < self.nb() by {
            assert(self.free().contains(x));
        }
        let sb = dev.subrange(0, SUPER_BLOCK_SIZE as int);
        assert(spec_u32_at(sb, 4) == self.nb());
        assert(spec_u32_at(sb, 0) == MAGIC);
        assert(self.nb() * BLKSIZE <= dev.len());
        assert(image_free(dev).len() == spec_u32_at(sb, 8));
    }

    /// The superblock and the free map stay marked changed where they were
    pub closed spec fn dirty_kept(&self, prev: &Self) -> bool {
        &&& prev.super_block.is_dirty() ==> self.super_block.is_dirty()
        &&& prev.free_map.is_dirty() ==> self.free_map.is_dirty()
    }

    /// Write back the superblock and the free map when they changed, then each inode in memory that changed
    pub fn sync(&mut self) -> (r: Result<(), FsError>)
        requires
            old(self).wf(),
        ensures
            final(self).reliable() == old(self).reliable(),
            final(self).table() == old(self).table(),
            final(self).ncached() == old(self).ncached(),
            final(self).super_block() == old(self).super_block(),
            final(self).free() == old(self).free(),
            r is Err ==> r == Err::<(), FsError>(FsError::DeviceError),
            r is Ok ==> {
                &&& final(self).wf()
                &&& final(self).dev().len() == old(self).dev().len()
                &&& final(self).all_kept(old(self))
                &&& !final(self).super_block_dirty()
                &&& !final(self).free_map_dirty()
                &&& forall|k: int| 0 <= k < old(self).ncached() ==> !#[trigger] final(self).inode_dirty(k)
                &&& old(self).super_block_dirty() ==> SuperBlock::spec_decodes(
                    final(self).dev().subrange(0, SUPER_BLOCK_SIZE as int),
                    final(self).super_block(),
                )
                &&& old(self).free_map_dirty() ==> forall|x: nat|
                    x < BLKBITS ==> (#[trigger] final(self).free().contains(x) <==> word_bit(
                        spec_u32_at(final(self).dev(), blk_pos(BLKN_FREEMAP as int, (4 * (x / 32)) as int)),
                        (x % 32) as int,
                    ))
                &&& old(self).super_block_dirty() && old(self).free_map_dirty() && old(self).super_block().magic == MAGIC
                    ==> image_ok(final(self).dev()) && image_free(final(self).dev()) == final(self).free()
                &&& forall|k: int|
                    0 <= k < old(self).ncached() && #[trigger] old(self).inode_dirty(k) ==> DiskINode::spec_decodes(
                        disk_inode_bytes(final(self).dev(), final(self).cached_id(k)),
                        final(self).cached_inode(k),
                    )
            },
            old(self).reliable() ==> r is Ok,
    {
        let ghost t = self.table();
        let ghost dev0 = self.dev();
        let ghost nb = self.nb();
        let ghost free = self.free();
        proof {
            lemma_meta_blocks_unread(t, dev0, nb, free, -1);
        }
        let ghost sb_dirty = self.super_block.is_dirty();
        if self.super_block.dirty() {
            let buf = self.super_block.read().as_buf();
            let ghost d = self.dev();
            match write_block(&mut self.device, BLKN_SUPER, 0, buf.as_slice()) {
                Ok(()) => {},
                Err(_) => {
                    return Err(FsError::DeviceError);
                },
            }
            proof {
                lemma_write_in_block(d, 0, 0, buf@);
                lemma_write_unread_block(t, d, self.dev(), nb, free, 0);
                assert(self.dev().subrange(0, SUPER_BLOCK_SIZE as int) =~= buf@);
                SuperBlock::lemma_round_trip(self.super_block());
            }
        }
        let ghost dev1 = self.dev();
        let ghost fm_dirty = self.free_map.is_dirty();
        if self.free_map.dirty() {
            let words = self.free_map.read().as_words();
            let mut bytes: Vec<u8> = Vec::new();
            push_words(&mut bytes, words.as_slice());
            proof {
                crate::codec::lemma_words_to_le_bytes(words@);
                assert(bytes@ =~= crate::codec::spec_words_to_le_bytes(words@));
            }
            let ghost d = self.dev();
            match write_block(&mut self.device, BLKN_FREEMAP, 0, bytes.as_slice()) {
                Ok(()) => {},
                Err(_) => {
                    return Err(FsError::DeviceError);
                },
            }
            proof {
                let d2 = self.dev();
                lemma_write_in_block(d, BLKN_FREEMAP as int, 0, bytes@);
                lemma_write_unread_block(t, d, d2, nb, free, BLKN_FREEMAP as int);
                let p = blk_pos(BLKN_FREEMAP as int, 0);
                assert(d2.subrange(p, p + BLKSIZE) =~= bytes@);
                assert forall|x: nat| x < BLKBITS implies (#[trigger] free.contains(x) <==> word_bit(
                    spec_u32_at(d2, blk_pos(BLKN_FREEMAP as int, (4 * (x / 32)) as int)),
                    (x % 32) as int,
                )) by {
                    let w = (x / 32) as int;
                    assert(spec_u32_at(bytes@, 4 * w) == words@[w]);
                    assert(d2.subrange(p + 4 * w, p + 4 * w + 4) =~= bytes@.subrange(4 * w, 4 * w + 4));
                }
                if sb_dirty {
                    lemma_same_block_bytes(d, d2, 0, 0, SUPER_BLOCK_SIZE as int);
                }
            }
        }
        let ghost dev2 = self.dev();
        let n = self.inodes.len();
        let mut k: usize = 0;
        while k < n
            invariant
                self.base_ok(),
                self.wf(),
                n == old(self).ncached(),
                self.table() == t,
                t == old(self).table(),
                self.ncached() == n,
                self.nb() == nb,
                nb == old(self).nb(),
                self.free() == free,
                free == old(self).free(),
                self.super_block() == old(self).super_block(),
                self.reliable() == old(self).reliable(),
                !self.super_block_dirty(),
                !self.free_map_dirty(),
                self.dev().len() == dev0.len(),
                forall|j: int| 0 <= j < n ==> #[trigger] content(t[j].0, self.dev()) == content(t[j].0, dev0),
                sb_dirty == old(self).super_block_dirty(),
                fm_dirty == old(self).free_map_dirty(),
                sb_dirty ==> SuperBlock::spec_decodes(self.dev().subrange(0, SUPER_BLOCK_SIZE as int), self.super_block()),
                fm_dirty ==> forall|x: nat|
                    x < BLKBITS ==> (#[trigger] free.contains(x) <==> word_bit(
                        spec_u32_at(self.dev(), blk_pos(BLKN_FREEMAP as int, (4 * (x / 32)) as int)),
                        (x % 32) as int,
                    )),
                k <= n,
                forall|j: int| 0 <= j < k ==> !#[trigger] self.inode_dirty(j),
                forall|j: int| k <= j < n ==> #[trigger] self.inode_dirty(j) == old(self).inode_dirty(j),
                forall|j: int|
                    0 <= j < k && #[trigger] old(self).inode_dirty(j) ==> DiskINode::spec_decodes(
                        disk_inode_bytes(self.dev(), t[j].1),
                        t[j].0,
                    ),
            decreases n - k,
        {
            let ghost ino = self.inodes@;
            assert(forall|j: int| 0 <= j < n ==> (#[trigger] ino[j]).disk_inode.is_dirty() == self.inode_dirty(j));
            if self.inodes[k].disk_inode.dirty() {
                let id = self.inodes[k].id;
                let di = self.inodes[k].disk_inode.get().clone_inode();
                let buf = di.as_buf();
                let ghost d = self.dev();
                proof {
                    assert(t[k as int] == (di, id as int));
                    assert(inode_ok(t[k as int].0, d, t[k as int].1, nb, free));
                    lemma_meta_blocks_unread(t, d, nb, free, k as int);
                    self.lemma_ids_distinct();
                    assert forall|j: int| 0 <= j < n && j != k implies #[trigger] t[j].1 != id by {
                        assert(self.cached_id(j) != self.cached_id(k as int));
                    }
                }
                match write_block(&mut self.device, id, 0, buf.as_slice()) {
                    Ok(()) => {},
                    Err(_) => {
                        return Err(FsError::DeviceError);
                    },
                }
                let ghost d2 = self.dev();
                let node = INode { disk_inode: Dirty::new(di), id };
                let ghost node_g = node;
                self.inodes.set(k, node);
                proof {
                    assert(self.inodes@ == ino.update(k as int, node_g));
                    assert forall|j: int| 0 <= j < n && j != k implies #[trigger] self.inode_dirty(j) == ino[j].disk_inode.is_dirty() by {
                        assert(self.inodes@[j] == ino[j]);
                    }
                    assert(forall|j: int| 0 <= j < k ==> !#[trigger] self.inode_dirty(j));
                    assert(forall|j: int| k < j < n ==> #[trigger] self.inode_dirty(j) == old(self).inode_dirty(j));
                    assert(!self.inode_dirty(k as int));
                    lemma_write_in_block(d, id as int, 0, buf@);
                    lemma_write_unread_block(t, d, d2, nb, free, id as int);
                    assert(self.table() =~= t);
                    assert(disk_inode_bytes(d2, id as int) =~= buf@);
                    DiskINode::lemma_round_trip(di);
                    assert forall|j: int| 0 <= j < k && #[trigger] old(self).inode_dirty(j) implies DiskINode::spec_decodes(
                        disk_inode_bytes(d2, t[j].1),
                        t[j].0,
                    ) by {
                        assert(t[j].1 != id);
                        assert(inode_ok(t[j].0, d, t[j].1, nb, free));
                        lemma_same_block_bytes(d, d2, t[j].1, 0, 68);
                    }
                    if sb_dirty {
                        lemma_same_block_bytes(d, d2, 0, 0, SUPER_BLOCK_SIZE as int);
                    }
                    if fm_dirty {
                        lemma_same_block_bytes(d, d2, BLKN_FREEMAP as int, 0, BLKSIZE as int);
                        assert forall|x: nat| x < BLKBITS implies (#[trigger] free.contains(x) <==> word_bit(
                            spec_u32_at(d2, blk_pos(BLKN_FREEMAP as int, (4 * (x / 32)) as int)),
                            (x % 32) as int,
                        )) by {
                            let w = (x / 32) as int;
                            let p = blk_pos(BLKN_FREEMAP as int, 0);
                            assert(d2.subrange(p + 4 * w, p + 4 * w + 4) =~= d.subrange(p + 4 * w, p + 4 * w + 4)) by {
                                assert forall|i: int| 0 <= i < 4 implies #[trigger] d2.subrange(p + 4 * w, p + 4 * w + 4)[i] == d.subrange(p + 4 * w, p + 4 * w + 4)[i] by {
                                    assert(d.subrange(p, p + BLKSIZE)[4 * w + i] == d2.subrange(p, p + BLKSIZE)[4 * w + i]);
                                }
                            }
                        }
                    }
                }
            }
            assert(!self.inode_dirty(k as int));
            assert(forall|j: int| 0 <= j < k ==> !#[trigger] self.inode_dirty(j));
            k = k + 1;
        }
        proof {
            self.lemma_all_kept_contents(old(self));
            if sb_dirty && fm_dirty && self.super_block().magic == MAGIC {
                self.law_open_after_sync();
            }
        }
        Ok(())
    }

    /// Load a file system from `device`. The superblock must carry the magic
    /// number and describe a file system that fits the device. The free map, read
    /// as the little-endian words that `sync` writes (block `x` is bit `x % 32` of
    /// word `x / 32`), must mark free only blocks past the superblock, the root and
    /// the free map and inside the file system, as many as the superblock counts;
    /// otherwise `None`. An image that fails these tests would have blocks of the
    /// superblock, the root or the free map handed out as data, blocks past the
    /// device allocated, or the count of unused blocks run below zero.
    #[verifier::loop_isolation(false)]
    pub fn open(device: D) -> (r: Option<Self>)
        ensures
            r is Some ==> image_ok(device.content()),
            device.reliable() && image_ok(device.content()) ==> r is Some,
            r matches Some(fs) ==> {
                &&& fs.wf()
                &&& fs.ncached() == 0
                &&& fs.dev() == device.content()
                &&& fs.reliable() == device.reliable()
                &&& fs.super_block().magic == MAGIC
                &&& SuperBlock::spec_decodes(device.content().subrange(0, SUPER_BLOCK_SIZE as int), fs.super_block())
                &&& fs.free() == image_free(device.content())
                &&& !fs.super_block_dirty() && !fs.free_map_dirty()
            },
    {
        let ghost dev0 = device.content();
        let mut device = device;
        let sb_bytes = match read_block(&mut device, BLKN_SUPER, 0, SUPER_BLOCK_SIZE) {
            Ok(b) => b,
            Err(_) => {
                return None;
            },
        };
        let super_block = SuperBlock::from_buf(sb_bytes.as_slice());
        if !super_block.check() {
            return None;
        }
        let nb = super_block.blocks as usize;
        if nb < 3 || nb > BLKBITS {
            return None;
        }
        // the device must hold every block of the file system
        match read_block(&mut device, nb - 1, BLKSIZE - 1, 1) {
            Ok(_) => {},
            Err(_) => {
                return None;
            },
        }
        let fm_bytes = match read_block(&mut device, BLKN_FREEMAP, 0, BLKSIZE) {
            Ok(b) => b,
            Err(_) => {
                return None;
            },
        };
        let ghost dev = device.content();
        let ghost p = blk_pos(BLKN_FREEMAP as int, 0);
        proof {
            assert(sb_bytes@ == dev.subrange(0, SUPER_BLOCK_SIZE as int));
        }
        let mut free_map = FreeMap::with_capacity(BLKBITS);
        let mut x: usize = 0;
        while x < BLKBITS
            invariant
                free_map.wf(),
                free_map.nbits() == BLKBITS,
                3 <= nb <= BLKBITS,
                x <= BLKBITS,
                fm_bytes@ == dev.subrange(p, p + BLKSIZE),
                p + BLKSIZE <= dev.len(),
                dev == dev0,
                SUPER_BLOCK_SIZE <= dev.len(),
                nb == spec_u32_at(dev.subrange(0, SUPER_BLOCK_SIZE as int), 4),
                forall|y: nat| #[trigger] free_map.free().contains(y) <==> (y < x && image_free_bit(dev, y)),
                forall|y: nat| y < x && #[trigger] image_free_bit(dev, y) ==> 3 <= y < nb,
            decreases BLKBITS - x,
        {
            let w = read_u32(fm_bytes.as_slice(), 4 * (x / 32));
            proof {
                let q = 4 * (x / 32) as int;
                assert(fm_bytes@.subrange(q, q + 4) =~= dev.subrange(p + q, p + q + 4));
                assert(image_free_bit(dev, x as nat) == word_bit(w, (x % 32) as int));
            }
            if (w >> ((x % 32) as u32)) & 1u32 == 1u32 {
                if x < 3 || x >= nb {
                    return None;
                }
                free_map.insert(x);
            }
            proof {
                assert forall|y: nat| #[trigger] free_map.free().contains(y) <==> (y < x + 1 && image_free_bit(dev, y)) by {
                    if y == x {
                    }
                }
            }
            x = x + 1;
        }
        let n = free_map.len();
        proof {
            assert(free_map.free() =~= image_free(dev));
        }
        if n != super_block.unused_blocks as usize {
            return None;
        }
        proof {
            assert(image_ok(dev));
        }
        let fs = SimpleFileSystem {
            super_block: Dirty::new(super_block),
            free_map: Dirty::new(free_map),
            inodes: Vec::new(),
            device,
        };
        proof {
            fs.free_map.value().lemma_free_below();
            assert forall|y: nat| #[trigger] fs.free().contains(y) implies 3 <= y < fs.nb() by {
                assert(y < BLKBITS);
            }
            assert(fs.table() =~= Seq::<(DiskINode, int)>::empty());
        }
        Some(fs)
    }

    /// Create a new file system on `device` over `space` bytes (at most as many
    /// blocks as the free map can count), with a root directory holding "." and
    /// "..", both pointing at the root; what changed is written back to the device.
    pub fn create(device: D, space: usize) -> (r: Result<Self, FsError>)
        requires
            space / BLKSIZE >= 16,
        ensures
            r matches Ok(fs) ==> {
                let nb = if space / BLKSIZE < BLKBITS { space / BLKSIZE } else { BLKBITS };
                &&& fs.wf()
                &&& fs.reliable() == device.reliable()
                &&& fs.nb() == nb
                &&& fs.super_block().magic == MAGIC
                &&& fs.super_block().blocks == nb
                &&& fs.ncached() == 1
                &&& fs.is_cached(BLKN_ROOT as int)
                &&& fs.inode(BLKN_ROOT as int).type_ == FileType::Dir
                &&& fs.dir_lookup(BLKN_ROOT as int, dot_name()) == Some(BLKN_ROOT as u32)
                &&& fs.dir_lookup(BLKN_ROOT as int, dotdot_name()) == Some(BLKN_ROOT as u32)
                &&& !fs.super_block_dirty() && !fs.free_map_dirty() && !fs.inode_dirty(0)
                &&& fs.super_block().unused_blocks == nb - 5
                &&& fs.free().len() == nb - 5
                &&& image_ok(fs.dev())
                &&& image_free(fs.dev()) == fs.free()
                &&& SuperBlock::spec_decodes(fs.dev().subrange(0, SUPER_BLOCK_SIZE as int), fs.super_block())
            },
            r is Err ==> r == Err::<Self, FsError>(FsError::DeviceError),
            device.reliable() ==> r is Ok,
    {
        let blocks = if space / BLKSIZE < BLKBITS {
            space / BLKSIZE
        } else {
            BLKBITS
        };
        let info: Vec<u8> = vec![115u8, 105, 109, 112, 108, 101, 32, 102, 105, 108, 101, 32, 115, 121, 115, 116, 101, 109];
        let super_block = SuperBlock {
            magic: MAGIC,
            blocks: blocks as u32,
            unused_blocks: (blocks - 3) as u32,
            info: Str32::from_slice(info.as_slice()),
        };
        let mut free_map = FreeMap::with_capacity(BLKBITS);
        let mut i: usize = 3;
        while i < blocks
            invariant
                free_map.wf(),
                free_map.nbits() == BLKBITS,
                16 <= blocks <= BLKBITS,
                3 <= i <= blocks,
                free_map.free() == Set::<nat>::range(3, i as nat),
            decreases blocks - i,
        {
            free_map.insert(i);
            proof {
                assert(Set::<nat>::range(3, i as nat).insert(i as nat) =~= Set::<nat>::range(3, (i + 1) as nat));
            }
            i = i + 1;
        }
        proof {
            <nat as vstd::set_lib::FiniteRange>::range_properties(3, blocks as nat);
        }
        // make the device hold every block of the file system
        let mut device = device;
        let zero: Vec<u8> = vec![0u8];
        match write_block(&mut device, blocks - 1, BLKSIZE - 1, zero.as_slice()) {
            Ok(()) => {},
            Err(_) => {
                return Err(FsError::DeviceError);
            },
        }
        let mut fs = SimpleFileSystem {
            super_block: Dirty::new_dirty(super_block),
            free_map: Dirty::new_dirty(free_map),
            inodes: Vec::new(),
            device,
        };
        let root = DiskINode::new_dir();
        fs.inodes.push(INode { disk_inode: Dirty::new_dirty(root), id: BLKN_ROOT });
        proof {
            let t = fs.table();
            assert(t =~= seq![(root, BLKN_ROOT as int)]);
            assert(inode_ok(root, fs.dev(), BLKN_ROOT as int, fs.nb(), fs.free()));
            assert(inodes_ok(t, fs.dev(), fs.nb(), fs.free()));
            // the root takes two of the free blocks
            assert(fs.free() == Set::<nat>::range(3, blocks as nat));
            assert(grow_needs(t[0].0.blocks as int, 2) == 2);
        }
        fs.init_dir(0, BLKN_ROOT as u32)?;
        let ghost fs1 = fs;
        fs.sync()?;
        proof {
            fs.lemma_slot(0);
            fs1.lemma_slot(0);
            assert(fs.kept(&fs1, BLKN_ROOT as int));
            let c = fs1.bytes(BLKN_ROOT as int);
            assert(find_index(c, 0, dot_name()) is None);
            law_find_after_append(c, c, 0, BLKN_ROOT as u32, dot_name());
            assert(c.subrange(0, 0) =~= Seq::<u8>::empty());
            lemma_find_index_mono(c, 1, 2, dot_name());
            assert(dot_name().len() == 1 && dotdot_name().len() == 2);
            let dot = entry_bytes(BLKN_ROOT as u32, dot_name());
            assert(!entry_named(c, 0, dotdot_name())) by {
                crate::structs::lemma_padded_name(dot_name(), 256);
                crate::codec::lemma_u32_le_bytes(BLKN_ROOT as u32);
                assert(entry_name_field(c, 0) =~= spec_zero_padded(dot_name(), 256)) by {
                    assert forall|t: int| 0 <= t < 256 implies #[trigger] entry_name_field(c, 0)[t] == spec_zero_padded(dot_name(), 256)[t] by {
                        assert(c.subrange(0, DISK_ENTRY_SIZE as int)[4 + t] == dot[4 + t]);
                    }
                }
            }
            assert(find_index(c, 0, dotdot_name()) is None);
            assert(find_index(c, 1, dotdot_name()) is None);
            law_find_after_append(c, c, 1, BLKN_ROOT as u32, dotdot_name());
            assert(fs.wf());
            assert(fs.nb() == blocks);
            assert(fs.ncached() == 1);
            assert(fs.is_cached(BLKN_ROOT as int));
            assert(fs.inode(BLKN_ROOT as int).type_ == FileType::Dir);
            assert(fs.dir_lookup(BLKN_ROOT as int, dot_name()) == Some(BLKN_ROOT as u32));
            assert(fs.dir_lookup(BLKN_ROOT as int, dotdot_name()) == Some(BLKN_ROOT as u32));
            assert(fs1.super_block_dirty() && fs1.free_map_dirty());
            fs.law_open_after_sync();
        }
        Ok(fs)
    }

    /// Allocate a block, return block id
    fn alloc_block(&mut self) -> (r: Option<usize>)
        requires
            old(self).base_ok(),
        ensures
            final(self).dirty_kept(old(self)),
            final(self).base_ok(),
            final(self).dev() == old(self).dev(),
            final(self).reliable() == old(self).reliable(),
            final(self).inodes == old(self).inodes,
            final(self).nb() == old(self).nb(),
            final(self).super_block().magic == old(self).super_block().magic,
            final(self).super_block().blocks == old(self).super_block().blocks,
            match r {
                Some(x) => {
                    &&& old(self).free().contains(x as nat)
                    &&& forall|j: nat| j < x ==> !old(self).free().contains(j)
                    &&& usable(x as int, old(self).nb(), final(self).free())
                    &&& final(self).free() == old(self).free().remove(x as nat)
                    &&& final(self).free().len() == old(self).free().len() - 1
                },
                None => {
                    &&& final(self).free() == old(self).free()
                    &&& old(self).free().len() == 0
                },
            },
    {
        let r = self.free_map.get_mut().allocate();
        match r {
            Some(x) => {
                proof {
                    vstd::set::axiom_set_remove_len(old(self).free(), x as nat);
                }
                let sb = self.super_block.get_mut();
                sb.unused_blocks = sb.unused_blocks - 1;
                Some(x)
            },
            None => None,
        }
    }

    /// Free a block
    fn free_block(&mut self, block_id: usize)
        requires
            old(self).base_ok(),
            usable(block_id as int, old(self).nb(), old(self).free()),
        ensures
            final(self).dirty_kept(old(self)),
            final(self).base_ok(),
            final(self).dev() == old(self).dev(),
            final(self).reliable() == old(self).reliable(),
            final(self).inodes == old(self).inodes,
            final(self).nb() == old(self).nb(),
            final(self).super_block().magic == old(self).super_block().magic,
            final(self).free() == old(self).free().insert(block_id as nat),
            final(self).free().len() == old(self).free().len() + 1,
    {
        proof {
            vstd::set::axiom_set_insert_len(old(self).free(), block_id as nat);
            crate::bitset::lemma_bounded_finite(old(self).free(), old(self).nb() as nat);
        }
        self.free_map.get_mut().insert(block_id);
        let sb = self.super_block.get_mut();
        sb.unused_blocks = sb.unused_blocks + 1;
    }
}

} // verus!
