//! A naive cache layer for `BlockDevice`: a fixed number of buffers, each
//! holding one block read from the device or written by the user and not
//! yet written back.

use vstd::prelude::*;
use crate::rcore_vfs::FsError;

verus! {

/// A device read and written in whole blocks
pub trait BlockDevice {
    /// log2 of the size of a block
    spec fn block_size_log2(&self) -> u8;

    /// The bytes of block `id`
    spec fn block(&self, id: usize) -> Seq<u8>;

    /// Whether every read and write succeeds
    spec fn reliable(&self) -> bool;

    /// The size of a block in bytes
    fn block_size(&self) -> (n: usize)
        ensures
            n == block_bytes(self.block_size_log2()),
    ;

    /// Read block `block_id` into the first bytes of `buf`
    fn read_at(&mut self, block_id: usize, buf: &mut [u8]) -> (r: Result<(), FsError>)
        requires
            old(buf)@.len() >= block_bytes(old(self).block_size_log2()),
        ensures
            final(self).block_size_log2() == old(self).block_size_log2(),
            final(self).reliable() == old(self).reliable(),
            forall|id: usize| #[trigger] final(self).block(id) == old(self).block(id),
            final(buf)@.len() == old(buf)@.len(),
            r is Ok ==> final(buf)@.subrange(0, block_bytes(old(self).block_size_log2()) as int) == old(self).block(block_id),
            old(self).reliable() ==> r is Ok,
    ;

    /// Write the first bytes of `buf` to block `block_id`
    fn write_at(&mut self, block_id: usize, buf: &[u8]) -> (r: Result<(), FsError>)
        requires
            buf@.len() >= block_bytes(old(self).block_size_log2()),
        ensures
            final(self).block_size_log2() == old(self).block_size_log2(),
            final(self).reliable() == old(self).reliable(),
            r is Ok ==> forall|id: usize| #[trigger] final(self).block(id) == if id == block_id {
                buf@.subrange(0, block_bytes(old(self).block_size_log2()) as int)
            } else {
                old(self).block(id)
            },
            r is Err ==> forall|id: usize| #[trigger] final(self).block(id) == old(self).block(id),
            old(self).reliable() ==> r is Ok,
    ;

    /// Make the blocks written so far last
    fn sync(&mut self) -> (r: Result<(), FsError>)
        ensures
            final(self).block_size_log2() == old(self).block_size_log2(),
            final(self).reliable() == old(self).reliable(),
            forall|id: usize| #[trigger] final(self).block(id) == old(self).block(id),
            old(self).reliable() ==> r is Ok,
    ;
}

/// The size of a block whose log2 is `log2`
pub open spec fn block_bytes(log2: u8) -> nat {
    vstd::arithmetic::power2::pow2(log2 as nat)
}

/// What a buffer holds
pub enum BufStatus {
    /// buffer is unused
    Unused,
    /// buffer has been read from disk
    Valid(usize),
    /// buffer needs to be written to disk
    Dirty(usize),
}

/// One buffer of the cache
pub struct Buf {
    status: BufStatus,
    data: Vec<u8>,
}

/// The block a buffer status names, if any
pub open spec fn holds(s: BufStatus) -> Option<usize> {
    match s {
        BufStatus::Unused => None,
        BufStatus::Valid(id) => Some(id),
        BufStatus::Dirty(id) => Some(id),
    }
}

/// A cache of `capacity` buffers in front of a block device
pub struct BlockCache<T: BlockDevice> {
    device: T,
    bufs: Vec<Buf>,
}

impl<T: BlockDevice> BlockCache<T> {
    /// The number of buffers
    pub closed spec fn capacity(&self) -> nat {
        self.bufs@.len()
    }

    /// The device under the cache
    pub closed spec fn device(&self) -> T {
        self.device
    }

    /// Whether buffer `k` holds block `id`
    pub closed spec fn buf_holds(&self, k: int, id: usize) -> bool {
        holds(self.bufs@[k].status) == Some(id)
    }

    /// Whether some buffer holds block `id`
    pub open spec fn is_buffered(&self, id: usize) -> bool {
        exists|k: int| 0 <= k < self.capacity() && #[trigger] self.buf_holds(k, id)
    }

    /// The bytes of buffer `k`
    pub closed spec fn buf_data(&self, k: int) -> Seq<u8> {
        self.bufs@[k].data@
    }

    /// Whether buffer `k` must be written back
    pub closed spec fn buf_dirty(&self, k: int) -> bool {
        self.bufs@[k].status is Dirty
    }

    /// The bytes of block `id` as the user of the cache sees them: those of
    /// the buffer that holds it, or those on the device
    pub closed spec fn view_block(&self, id: usize) -> Seq<u8> {
        if self.is_buffered(id) {
            self.buf_data(choose|k: int| 0 <= k < self.capacity() && #[trigger] self.buf_holds(k, id))
        } else {
            self.device.block(id)
        }
    }

    /// The invariant: each buffer holds a whole block, no block is held
    /// twice, and a buffer not to be written back holds what the device holds.
    pub closed spec fn wf(&self) -> bool {
        let bs = block_bytes(self.device.block_size_log2());
        &&& self.bufs@.len() > 0
        &&& forall|k: int| 0 <= k < self.bufs@.len() ==> (#[trigger] self.bufs@[k]).data@.len() == bs
        &&& forall|k: int| 0 <= k < self.bufs@.len() && (#[trigger] self.bufs@[k]).status is Valid
            ==> self.bufs@[k].data@ == self.device.block(self.bufs@[k].status->Valid_0)
        &&& forall|k1: int, k2: int|
            0 <= k1 < self.bufs@.len() && 0 <= k2 < self.bufs@.len() && k1 != k2 && holds((#[trigger] self.bufs@[k1]).status) is Some
                ==> holds(self.bufs@[k1].status) != holds((#[trigger] self.bufs@[k2]).status)
    }

    /// A buffer holding block `id` holds what the user sees of it.
    proof fn lemma_view(&self, k: int, id: usize)
        requires
            self.wf(),
            0 <= k < self.capacity(),
            self.buf_holds(k, id),
        ensures
            self.is_buffered(id),
            self.view_block(id) == self.buf_data(k),
    {
        let j = choose|j: int| 0 <= j < self.capacity() && #[trigger] self.buf_holds(j, id);
        if j != k {
            assert(holds(self.bufs@[j].status) != holds(self.bufs@[k].status));
        }
    }

    /// The same buffers over the same blocks show the same blocks.
    proof fn lemma_same_bufs(&self, prev: &Self)
        requires
            self.wf(),
            prev.wf(),
            self.bufs == prev.bufs,
            forall|id: usize| #[trigger] self.device.block(id) == prev.device.block(id),
        ensures
            self.same_view(prev),
    {
        assert forall|x: usize| #[trigger] self.view_block(x) == prev.view_block(x) by {
            if prev.is_buffered(x) {
                let j = choose|j: int| 0 <= j < prev.capacity() && #[trigger] prev.buf_holds(j, x);
                assert(self.buf_holds(j, x));
                prev.lemma_view(j, x);
                self.lemma_view(j, x);
            }
            if self.is_buffered(x) {
                let j = choose|j: int| 0 <= j < self.capacity() && #[trigger] self.buf_holds(j, x);
                assert(prev.buf_holds(j, x));
            }
        }
    }

    /// Whether `self` and `prev` show the user the same blocks
    pub open spec fn same_view(&self, prev: &Self) -> bool {
        forall|id: usize| #[trigger] self.view_block(id) == prev.view_block(id)
    }

    /// A new cache of `capacity` empty buffers in front of `device`
    pub fn new(device: T, capacity: usize) -> (c: Self)
        requires
            capacity > 0,
        ensures
            c.wf(),
            c.capacity() == capacity,
            c.device() == device,
            forall|id: usize| #[trigger] c.view_block(id) == device.block(id),
    {
        let bs = device.block_size();
        let mut bufs: Vec<Buf> = Vec::new();
        let mut i: usize = 0;
        while i < capacity
            invariant
                i <= capacity,
                bufs@.len() == i,
                bs == block_bytes(device.block_size_log2()),
                forall|k: int| 0 <= k < i ==> (#[trigger] bufs@[k]).status == BufStatus::Unused && bufs@[k].data@.len() == bs,
            decreases capacity - i,
        {
            bufs.push(Buf { status: BufStatus::Unused, data: vec![0u8; bs] });
            i = i + 1;
        }
        let c = BlockCache { device, bufs };
        assert forall|id: usize| #[trigger] c.view_block(id) == device.block(id) by {
            if c.is_buffered(id) {
                let k = choose|k: int| 0 <= k < c.capacity() && #[trigger] c.buf_holds(k, id);
                assert(c.bufs@[k].status == BufStatus::Unused);
            }
        }
        c
    }

    /// The buffer that holds block `block_id`, if one does
    fn find_buf(&self, block_id: usize) -> (r: Option<usize>)
        requires
            self.wf(),
        ensures
            r matches Some(k) ==> k < self.capacity() && self.buf_holds(k as int, block_id),
            r is None ==> !self.is_buffered(block_id),
    {
        let mut k: usize = 0;
        while k < self.bufs.len()
            invariant
                k <= self.bufs@.len(),
                forall|j: int| 0 <= j < k ==> !#[trigger] self.buf_holds(j, block_id),
            decreases self.bufs@.len() - k,
        {
            let held = match self.bufs[k].status {
                BufStatus::Unused => false,
                BufStatus::Valid(id) => id == block_id,
                BufStatus::Dirty(id) => id == block_id,
            };
            if held {
                return Some(k);
            }
            k = k + 1;
        }
        None
    }

    /// Write back data if buffer `k` is dirty
    fn write_back(&mut self, k: usize) -> (r: Result<(), FsError>)
        requires
            old(self).wf(),
            k < old(self).capacity(),
        ensures
            final(self).wf(),
            final(self).capacity() == old(self).capacity(),
            final(self).same_view(old(self)),
            final(self).device().block_size_log2() == old(self).device().block_size_log2(),
            final(self).device().reliable() == old(self).device().reliable(),
            forall|j: int, id: usize| 0 <= j < old(self).capacity() ==> (#[trigger] final(self).buf_holds(j, id)) == old(self).buf_holds(j, id),
            forall|j: int| 0 <= j < old(self).capacity() && j != k ==> #[trigger] final(self).buf_dirty(j) == old(self).buf_dirty(j),
            forall|j: int| 0 <= j < old(self).capacity() ==> #[trigger] final(self).buf_data(j) == old(self).buf_data(j),
            r is Ok ==> !final(self).buf_dirty(k as int),
            r is Ok && old(self).buf_dirty(k as int) ==> forall|id: usize| #[trigger] old(self).buf_holds(k as int, id)
                ==> final(self).device().block(id) == old(self).buf_data(k as int),
            forall|id: usize| !(old(self).buf_dirty(k as int) && #[trigger] old(self).buf_holds(k as int, id)) ==> final(self).device().block(id)
                == old(self).device().block(id),
            old(self).device().reliable() ==> r is Ok,
    {
        let id = match self.bufs[k].status {
            BufStatus::Dirty(id) => id,
            _ => {
                return Ok(());
            },
        };
        let ghost prev = *self;
        match self.device.write_at(id, self.bufs[k].data.as_slice()) {
            Ok(()) => {},
            Err(e) => {
                proof {
                    self.lemma_same_bufs(&prev);
                }
                return Err(e);
            },
        }
        let data = self.bufs[k].data.clone();
        proof {
            assert(data@ == prev.bufs@[k as int].data@);
            assert(prev.bufs@[k as int].data@.subrange(0, block_bytes(prev.device.block_size_log2()) as int) =~= prev.bufs@[k as int].data@);
        }
        self.bufs.set(k, Buf { status: BufStatus::Valid(id), data });
        proof {
            assert forall|j: int| 0 <= j < self.bufs@.len() && (#[trigger] self.bufs@[j]).status is Valid
                implies self.bufs@[j].data@ == self.device.block(self.bufs@[j].status->Valid_0) by {
                if j != k {
                    assert(prev.bufs@[j] == self.bufs@[j]);
                    assert(self.bufs@[j].status->Valid_0 != id) by {
                        assert(holds(prev.bufs@[j].status) != holds(prev.bufs@[k as int].status));
                    }
                }
            }
            assert forall|k1: int, k2: int|
                0 <= k1 < self.bufs@.len() && 0 <= k2 < self.bufs@.len() && k1 != k2 && holds((#[trigger] self.bufs@[k1]).status) is Some
                    implies holds(self.bufs@[k1].status) != holds((#[trigger] self.bufs@[k2]).status) by {
                assert(holds(self.bufs@[k1].status) == holds(prev.bufs@[k1].status));
                assert(holds(self.bufs@[k2].status) == holds(prev.bufs@[k2].status));
            }
            assert forall|j: int, x: usize| 0 <= j < prev.capacity() implies (#[trigger] self.buf_holds(j, x)) == prev.buf_holds(j, x) by {
                assert(holds(self.bufs@[j].status) == holds(prev.bufs@[j].status));
            }
            assert forall|x: usize| #[trigger] self.view_block(x) == prev.view_block(x) by {
                assert(self.is_buffered(x) == prev.is_buffered(x)) by {
                    if prev.is_buffered(x) {
                        let j = choose|j: int| 0 <= j < prev.capacity() && #[trigger] prev.buf_holds(j, x);
                        assert(self.buf_holds(j, x));
                    }
                    if self.is_buffered(x) {
                        let j = choose|j: int| 0 <= j < self.capacity() && #[trigger] self.buf_holds(j, x);
                        assert(prev.buf_holds(j, x));
                    }
                }
                if prev.is_buffered(x) {
                    let j = choose|j: int| 0 <= j < prev.capacity() && #[trigger] prev.buf_holds(j, x);
                    prev.lemma_view(j, x);
                    self.lemma_view(j, x);
                } else {
                    assert(x != id) by {
                        assert(prev.buf_holds(k as int, id));
                    }
                }
            }
        }
        Ok(())
    }

    /// Whether buffer `k` holds no block
    pub closed spec fn buf_unused(&self, k: int) -> bool {
        self.bufs@[k].status is Unused
    }

    /// Setting buffer `k` to hold block `id` with bytes `data` shows `data`
    /// as block `id` and keeps every other block, when `k` held `id` or
    /// nothing and no other buffer holds `id`.
    proof fn lemma_set(&self, prev: &Self, k: int, id: usize)
        requires
            prev.wf(),
            self.wf(),
            0 <= k < prev.capacity(),
            self.capacity() == prev.capacity(),
            forall|j: int| 0 <= j < prev.capacity() && j != k ==> self.bufs@[j] == prev.bufs@[j],
            prev.buf_holds(k, id) || (prev.buf_unused(k) && !prev.is_buffered(id)),
            self.buf_holds(k, id),
            forall|x: usize| x != id ==> #[trigger] self.device.block(x) == prev.device.block(x),
        ensures
            self.view_block(id) == self.buf_data(k),
            forall|x: usize| x != id ==> #[trigger] self.view_block(x) == prev.view_block(x),
    {
        self.lemma_view(k, id);
        assert forall|x: usize| x != id implies #[trigger] self.view_block(x) == prev.view_block(x) by {
            if prev.is_buffered(x) {
                let j = choose|j: int| 0 <= j < prev.capacity() && #[trigger] prev.buf_holds(j, x);
                assert(j != k);
                assert(self.buf_holds(j, x));
                prev.lemma_view(j, x);
                self.lemma_view(j, x);
            } else if self.is_buffered(x) {
                let j = choose|j: int| 0 <= j < self.capacity() && #[trigger] self.buf_holds(j, x);
                assert(j != k);
                assert(prev.buf_holds(j, x));
            }
        }
    }

    /// Get an unused buffer; when none is unused, the first buffer is
    /// written back and emptied
    fn get_unused(&mut self) -> (r: Result<usize, FsError>)
        requires
            old(self).wf(),
        ensures
            final(self).wf(),
            final(self).capacity() == old(self).capacity(),
            final(self).same_view(old(self)),
            final(self).device().block_size_log2() == old(self).device().block_size_log2(),
            final(self).device().reliable() == old(self).device().reliable(),
            r matches Ok(k) ==> k < final(self).capacity() && final(self).buf_unused(k as int),
            r matches Ok(k) ==> forall|j: int, id: usize| 0 <= j < old(self).capacity() && j != k ==> (#[trigger] final(self).buf_holds(j, id))
                == old(self).buf_holds(j, id),
            r matches Ok(k) ==> forall|id: usize| #[trigger] final(self).is_buffered(id) ==> old(self).is_buffered(id),
            old(self).device().reliable() ==> r is Ok,
    {
        let mut k: usize = 0;
        while k < self.bufs.len()
            invariant
                k <= self.bufs@.len(),
                self.wf(),
                *self == *old(self),
            decreases self.bufs@.len() - k,
        {
            let unused = match self.bufs[k].status {
                BufStatus::Unused => true,
                _ => false,
            };
            if unused {
                proof {
                    assert forall|id: usize| #[trigger] self.is_buffered(id) implies old(self).is_buffered(id) by {}
                }
                return Ok(k);
            }
            k = k + 1;
        }
        match self.write_back(0) {
            Ok(()) => {},
            Err(e) => {
                return Err(e);
            },
        }
        let ghost prev = *self;
        let data = self.bufs[0].data.clone();
        proof {
            assert(data@ == prev.bufs@[0].data@);
        }
        self.bufs.set(0, Buf { status: BufStatus::Unused, data });
        proof {
            assert forall|j: int| 0 <= j < self.bufs@.len() implies (#[trigger] self.bufs@[j]).data@.len() == block_bytes(
                self.device.block_size_log2(),
            ) by {
                assert(prev.bufs@[j].data@.len() == block_bytes(prev.device.block_size_log2()));
            }
            assert forall|j: int| 0 <= j < self.bufs@.len() && (#[trigger] self.bufs@[j]).status is Valid
                implies self.bufs@[j].data@ == self.device.block(self.bufs@[j].status->Valid_0) by {
                assert(prev.bufs@[j] == self.bufs@[j]);
            }
            assert forall|k1: int, k2: int|
                0 <= k1 < self.bufs@.len() && 0 <= k2 < self.bufs@.len() && k1 != k2 && holds((#[trigger] self.bufs@[k1]).status) is Some
                    implies holds(self.bufs@[k1].status) != holds((#[trigger] self.bufs@[k2]).status) by {
                assert(prev.bufs@[k1] == self.bufs@[k1]);
                if k2 != 0 {
                    assert(prev.bufs@[k2] == self.bufs@[k2]);
                }
            }
            assert forall|j: int, id: usize| 0 <= j < prev.capacity() && j != 0 implies (#[trigger] self.buf_holds(j, id)) == prev.buf_holds(j, id) by {
                assert(prev.bufs@[j] == self.bufs@[j]);
            }
            assert forall|x: usize| #[trigger] self.view_block(x) == prev.view_block(x) by {
                if prev.is_buffered(x) {
                    let j = choose|j: int| 0 <= j < prev.capacity() && #[trigger] prev.buf_holds(j, x);
                    prev.lemma_view(j, x);
                    if j != 0 {
                        assert(self.buf_holds(j, x));
                        self.lemma_view(j, x);
                    } else {
                        assert(!self.is_buffered(x)) by {
                            if self.is_buffered(x) {
                                let i = choose|i: int| 0 <= i < self.capacity() && #[trigger] self.buf_holds(i, x);
                                assert(i != 0);
                                assert(prev.buf_holds(i, x));
                                assert(holds(prev.bufs@[i].status) != holds(prev.bufs@[0].status));
                            }
                        }
                    }
                } else if self.is_buffered(x) {
                    let j = choose|j: int| 0 <= j < self.capacity() && #[trigger] self.buf_holds(j, x);
                    assert(prev.buf_holds(j, x));
                }
            }
            assert forall|id: usize| #[trigger] self.is_buffered(id) implies old(self).is_buffered(id) by {
                let j = choose|j: int| 0 <= j < self.capacity() && #[trigger] self.buf_holds(j, id);
                assert(prev.buf_holds(j, id));
            }
        }
        Ok(0)
    }

    /// Get a buffer for `block_id`: the one that holds it, or an unused one
    fn get_buf(&mut self, block_id: usize) -> (r: Result<usize, FsError>)
        requires
            old(self).wf(),
        ensures
            final(self).wf(),
            final(self).capacity() == old(self).capacity(),
            final(self).same_view(old(self)),
            final(self).device().block_size_log2() == old(self).device().block_size_log2(),
            final(self).device().reliable() == old(self).device().reliable(),
            r matches Ok(k) ==> k < final(self).capacity() && (final(self).buf_holds(k as int, block_id) || (final(self).buf_unused(k as int)
                && !final(self).is_buffered(block_id))),
            old(self).device().reliable() ==> r is Ok,
    {
        match self.find_buf(block_id) {
            Some(k) => {
                proof {
                    self.lemma_same_bufs(old(self));
                }
                Ok(k)
            },
            None => {
                let r = self.get_unused();
                proof {
                    if r is Ok {
                        assert(!self.is_buffered(block_id));
                    }
                }
                r
            },
        }
    }

    /// The device under the cache, giving up the buffers
    pub fn into_device(self) -> (d: T)
        ensures
            d == self.device(),
    {
        self.device
    }

    /// The size of a block in bytes
    pub closed spec fn bsize(&self) -> nat {
        block_bytes(self.device.block_size_log2())
    }

    /// Read block `block_id` into the first bytes of `buffer`: from the
    /// buffer that holds it, or from the device into a buffer
    pub fn read_at(&mut self, block_id: usize, buffer: &mut [u8]) -> (r: Result<(), FsError>)
        requires
            old(self).wf(),
            old(buffer)@.len() >= old(self).bsize(),
        ensures
            final(self).wf(),
            final(self).capacity() == old(self).capacity(),
            final(self).bsize() == old(self).bsize(),
            final(self).same_view(old(self)),
            final(self).device().reliable() == old(self).device().reliable(),
            final(buffer)@.len() == old(buffer)@.len(),
            r is Ok ==> final(buffer)@.subrange(0, old(self).bsize() as int) == old(self).view_block(block_id),
            old(self).device().reliable() ==> r is Ok,
    {
        let bs = self.device.block_size();
        let k = match self.get_buf(block_id) {
            Ok(k) => k,
            Err(e) => {
                return Err(e);
            },
        };
        let ghost s1 = *self;
        let unused = match self.bufs[k].status {
            BufStatus::Unused => true,
            _ => false,
        };
        if unused {
            let mut data: Vec<u8> = vec![0u8; bs];
            match self.device.read_at(block_id, data.as_mut_slice()) {
                Ok(()) => {},
                Err(e) => {
                    proof {
                        self.lemma_same_bufs(&s1);
                    }
                    return Err(e);
                },
            }
            proof {
                assert(data@.subrange(0, bs as int) =~= data@);
            }
            self.bufs.set(k, Buf { status: BufStatus::Valid(block_id), data });
            proof {
                assert forall|j: int| 0 <= j < self.bufs@.len() implies (#[trigger] self.bufs@[j]).data@.len() == block_bytes(
                    self.device.block_size_log2(),
                ) by {
                    if j != k {
                        assert(s1.bufs@[j].data@.len() == block_bytes(s1.device.block_size_log2()));
                    }
                }
                assert forall|j: int| 0 <= j < self.bufs@.len() && (#[trigger] self.bufs@[j]).status is Valid
                    implies self.bufs@[j].data@ == self.device.block(self.bufs@[j].status->Valid_0) by {
                    if j != k {
                        assert(s1.bufs@[j] == self.bufs@[j]);
                    }
                }
                assert forall|k1: int, k2: int|
                    0 <= k1 < self.bufs@.len() && 0 <= k2 < self.bufs@.len() && k1 != k2 && holds((#[trigger] self.bufs@[k1]).status) is Some
                        implies holds(self.bufs@[k1].status) != holds((#[trigger] self.bufs@[k2]).status) by {
                    if k1 != k {
                        assert(s1.bufs@[k1] == self.bufs@[k1]);
                        assert(!s1.buf_holds(k1, block_id));
                    }
                    if k2 != k {
                        assert(s1.bufs@[k2] == self.bufs@[k2]);
                        assert(!s1.buf_holds(k2, block_id));
                    }
                }
                self.lemma_set(&s1, k as int, block_id);
                assert(self.view_block(block_id) == s1.view_block(block_id));
            }
        }
        proof {
            self.lemma_view(k as int, block_id);
        }
        let mut i: usize = 0;
        while i < bs
            invariant
                i <= bs,
                bs == self.bsize(),
                k < self.capacity(),
                self.wf(),
                buffer@.len() == old(buffer)@.len(),
                old(buffer)@.len() >= bs,
                forall|t: int| 0 <= t < i ==> buffer@[t] == self.buf_data(k as int)[t],
            decreases bs - i,
        {
            buffer[i] = self.bufs[k].data[i];
            i = i + 1;
        }
        proof {
            assert(buffer@.subrange(0, bs as int) =~= self.buf_data(k as int));
            assert forall|x: usize| #[trigger] self.view_block(x) == old(self).view_block(x) by {
                assert(s1.view_block(x) == old(self).view_block(x));
            }
        }
        Ok(())
    }

    /// Write the first bytes of `buffer` as block `block_id`: into the buffer
    /// that holds it, or into a buffer; the device gets them on write back
    pub fn write_at(&mut self, block_id: usize, buffer: &[u8]) -> (r: Result<(), FsError>)
        requires
            old(self).wf(),
            buffer@.len() >= old(self).bsize(),
        ensures
            final(self).wf(),
            final(self).capacity() == old(self).capacity(),
            final(self).bsize() == old(self).bsize(),
            final(self).device().reliable() == old(self).device().reliable(),
            r is Ok ==> final(self).view_block(block_id) == buffer@.subrange(0, old(self).bsize() as int),
            r is Ok ==> forall|id: usize| id != block_id ==> #[trigger] final(self).view_block(id) == old(self).view_block(id),
            r is Err ==> final(self).same_view(old(self)),
            old(self).device().reliable() ==> r is Ok,
    {
        let bs = self.device.block_size();
        let k = match self.get_buf(block_id) {
            Ok(k) => k,
            Err(e) => {
                return Err(e);
            },
        };
        let ghost s1 = *self;
        let data = vstd::slice::slice_to_vec(vstd::slice::slice_subrange(buffer, 0, bs));
        self.bufs.set(k, Buf { status: BufStatus::Dirty(block_id), data });
        proof {
            assert forall|j: int| 0 <= j < self.bufs@.len() implies (#[trigger] self.bufs@[j]).data@.len() == block_bytes(
                self.device.block_size_log2(),
            ) by {
                if j != k {
                    assert(s1.bufs@[j].data@.len() == block_bytes(s1.device.block_size_log2()));
                }
            }
            assert forall|j: int| 0 <= j < self.bufs@.len() && (#[trigger] self.bufs@[j]).status is Valid
                implies self.bufs@[j].data@ == self.device.block(self.bufs@[j].status->Valid_0) by {
                assert(j != k);
                assert(s1.bufs@[j] == self.bufs@[j]);
            }
            assert forall|k1: int, k2: int|
                0 <= k1 < self.bufs@.len() && 0 <= k2 < self.bufs@.len() && k1 != k2 && holds((#[trigger] self.bufs@[k1]).status) is Some
                    implies holds(self.bufs@[k1].status) != holds((#[trigger] self.bufs@[k2]).status) by {
                if k1 != k {
                    assert(s1.bufs@[k1] == self.bufs@[k1]);
                    assert(!s1.buf_holds(k1, block_id));
                }
                if k2 != k {
                    assert(s1.bufs@[k2] == self.bufs@[k2]);
                    assert(!s1.buf_holds(k2, block_id));
                }
            }
            self.lemma_set(&s1, k as int, block_id);
            assert forall|x: usize| x != block_id implies #[trigger] self.view_block(x) == old(self).view_block(x) by {
                assert(s1.view_block(x) == old(self).view_block(x));
            }
        }
        Ok(())
    }

    /// Write every dirty buffer back to the device, then sync the device
    pub fn sync(&mut self) -> (r: Result<(), FsError>)
        requires
            old(self).wf(),
        ensures
            final(self).wf(),
            final(self).capacity() == old(self).capacity(),
            final(self).bsize() == old(self).bsize(),
            final(self).same_view(old(self)),
            final(self).device().reliable() == old(self).device().reliable(),
            r is Ok ==> forall|id: usize| #[trigger] final(self).device().block(id) == old(self).view_block(id),
            old(self).device().reliable() ==> r is Ok,
    {
        let n = self.bufs.len();
        let mut k: usize = 0;
        while k < n
            invariant
                k <= n,
                n == self.capacity(),
                n == old(self).capacity(),
                self.wf(),
                self.bsize() == old(self).bsize(),
                self.same_view(old(self)),
                self.device().reliable() == old(self).device().reliable(),
                forall|j: int| 0 <= j < k ==> !#[trigger] self.buf_dirty(j),
            decreases n - k,
        {
            let ghost prev = *self;
            match self.write_back(k) {
                Ok(()) => {},
                Err(e) => {
                    proof {
                        assert forall|x: usize| #[trigger] self.view_block(x) == old(self).view_block(x) by {
                            assert(prev.view_block(x) == old(self).view_block(x));
                        }
                    }
                    return Err(e);
                },
            }
            proof {
                assert forall|x: usize| #[trigger] self.view_block(x) == old(self).view_block(x) by {
                    assert(prev.view_block(x) == old(self).view_block(x));
                }
                assert forall|j: int| 0 <= j < k + 1 implies !#[trigger] self.buf_dirty(j) by {
                    if j < k {
                        assert(!prev.buf_dirty(j));
                    }
                }
            }
            k = k + 1;
        }
        let ghost prev = *self;
        let r = self.device.sync();
        proof {
            assert(self.bufs == prev.bufs);
            self.lemma_same_bufs(&prev);
            assert forall|x: usize| #[trigger] self.view_block(x) == old(self).view_block(x) by {
                assert(prev.view_block(x) == old(self).view_block(x));
            }
            assert forall|id: usize| #[trigger] self.device().block(id) == old(self).view_block(id) by {
                assert(self.view_block(id) == old(self).view_block(id));
                if self.is_buffered(id) {
                    let j = choose|j: int| 0 <= j < self.capacity() && #[trigger] self.buf_holds(j, id);
                    self.lemma_view(j, id);
                    assert(!prev.buf_dirty(j));
                    assert(self.bufs@[j].status is Valid);
                    assert(self.bufs@[j].status->Valid_0 == id);
                    assert(self.bufs@[j].data@ == self.device.block(id));
                }
            }
        }
        r
    }
}

/// `n` zero bytes
pub open spec fn zeros(n: nat) -> Seq<u8> {
    Seq::new(n, |i: int| 0u8)
}

/// A block device held in memory; blocks never written hold zeros
pub struct MemBlockDevice {
    log2: u8,
    size: usize,
    blocks: Vec<Vec<u8>>,
}

impl MemBlockDevice {
    #[verifier::type_invariant]
    spec fn inv(&self) -> bool {
        &&& self.size == block_bytes(self.log2)
        &&& forall|k: int| 0 <= k < self.blocks@.len() ==> (#[trigger] self.blocks@[k])@.len() == self.size
    }

    /// A device of blocks of `1 << log2` bytes, all zero
    pub fn new(log2: u8) -> (d: MemBlockDevice)
        requires
            log2 <= 16,
        ensures
            d.block_size_log2() == log2,
            forall|id: usize| #[trigger] d.block(id) == zeros(block_bytes(log2)),
    {
        let mut size: usize = 1;
        let mut i: u8 = 0;
        proof {
            vstd::arithmetic::power2::lemma2_to64();
        }
        while i < log2
            invariant
                i <= log2,
                log2 <= 16,
                size == block_bytes(i),
                size <= 0x10000,
            decreases log2 - i,
        {
            proof {
                vstd::arithmetic::power2::lemma_pow2_unfold((i + 1) as nat);
                vstd::arithmetic::power2::lemma2_to64();
            }
            size = size * 2;
            i = i + 1;
        }
        proof {
            vstd::arithmetic::power2::lemma2_to64();
        }
        MemBlockDevice { log2, size, blocks: Vec::new() }
    }
}

impl BlockDevice for MemBlockDevice {
    closed spec fn block_size_log2(&self) -> u8 {
        self.log2
    }

    closed spec fn block(&self, id: usize) -> Seq<u8> {
        if id < self.blocks@.len() {
            self.blocks@[id as int]@
        } else {
            zeros(block_bytes(self.log2))
        }
    }

    open spec fn reliable(&self) -> bool {
        true
    }

    fn block_size(&self) -> (n: usize) {
        proof {
            use_type_invariant(self);
        }
        self.size
    }

    fn read_at(&mut self, block_id: usize, buf: &mut [u8]) -> (r: Result<(), FsError>) {
        proof {
            use_type_invariant(&*self);
        }
        let n = self.size;
        let mut i: usize = 0;
        while i < n
            invariant
                i <= n,
                n == self.size,
                n == block_bytes(self.log2),
                buf@.len() == old(buf)@.len(),
                old(buf)@.len() >= n,
                forall|k: int| 0 <= k < self.blocks@.len() ==> (#[trigger] self.blocks@[k])@.len() == n,
                forall|t: int| 0 <= t < i ==> buf@[t] == self.block(block_id)[t],
            decreases n - i,
        {
            if block_id < self.blocks.len() {
                buf[i] = self.blocks[block_id][i];
            } else {
                buf[i] = 0;
            }
            i = i + 1;
        }
        assert(buf@.subrange(0, n as int) =~= self.block(block_id));
        Ok(())
    }

    fn write_at(&mut self, block_id: usize, buf: &[u8]) -> (r: Result<(), FsError>) {
        proof {
            use_type_invariant(&*self);
        }
        let n = self.size;
        let ghost prev = self.blocks@;
        let mut blocks: Vec<Vec<u8>> = Vec::new();
        std::mem::swap(&mut blocks, &mut self.blocks);
        while blocks.len() <= block_id
            invariant
                forall|k: int| 0 <= k < blocks@.len() ==> (#[trigger] blocks@[k])@.len() == n,
                prev.len() <= blocks@.len(),
                forall|k: int| 0 <= k < prev.len() ==> #[trigger] blocks@[k] == prev[k],
                forall|k: int| prev.len() <= k < blocks@.len() ==> (#[trigger] blocks@[k])@ == zeros(n as nat),
            decreases block_id + 1 - blocks@.len(),
        {
            let z: Vec<u8> = vec![0u8; n];
            proof {
                assert(z@ =~= zeros(n as nat));
            }
            blocks.push(z);
        }
        let data = vstd::slice::slice_to_vec(vstd::slice::slice_subrange(buf, 0, n));
        blocks.set(block_id, data);
        std::mem::swap(&mut blocks, &mut self.blocks);
        proof {
            assert forall|id: usize| #[trigger] self.block(id) == if id == block_id {
                buf@.subrange(0, n as int)
            } else {
                old(self).block(id)
            } by {
                if id != block_id && id < self.blocks@.len() && id >= prev.len() {
                    assert(self.blocks@[id as int]@ == zeros(n as nat));
                }
            }
        }
        Ok(())
    }

    fn sync(&mut self) -> (r: Result<(), FsError>) {
        Ok(())
    }
}

} // verus!
