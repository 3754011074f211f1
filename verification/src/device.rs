//! Byte-addressed storage under a file system.

use vstd::prelude::*;

verus! {

/// The contents of storage `c` after writing `data` at byte `off`; storage
/// grows, zero-filled, when the write ends past its end.
pub open spec fn spec_write(c: Seq<u8>, off: int, data: Seq<u8>) -> Seq<u8> {
    let n = if c.len() >= off + data.len() {
        c.len() as int
    } else {
        off + data.len()
    };
    Seq::new(
        n as nat,
        |i: int|
            if off <= i < off + data.len() {
                data[i - off]
            } else if i < c.len() {
                c[i]
            } else {
                0u8
            },
    )
}

/// Interface for SFS to read & write
pub trait Device {
    /// The bytes the device holds
    spec fn content(&self) -> Seq<u8>;

    /// Whether every read inside the device and every write succeed in full
    spec fn reliable(&self) -> bool;

    /// Read up to `buf.len()` bytes at `offset`; returns how many were read.
    fn read_at(&mut self, offset: usize, buf: &mut [u8]) -> (r: Option<usize>)
        ensures
            final(self).content() == old(self).content(),
            final(self).reliable() == old(self).reliable(),
            final(buf)@.len() == old(buf)@.len(),
            r matches Some(n) ==> (n <= old(buf)@.len() && offset + n <= old(self).content().len()
                && final(buf)@.subrange(0, n as int) == old(self).content().subrange(
                offset as int,
                offset + n,
            )),
            old(self).reliable() && offset + old(buf)@.len() <= old(self).content().len() ==> r
                == Some(old(buf)@.len() as usize),
    ;

    /// Write up to `buf.len()` bytes at `offset`; returns how many were written.
    fn write_at(&mut self, offset: usize, buf: &[u8]) -> (r: Option<usize>)
        ensures
            final(self).reliable() == old(self).reliable(),
            r matches Some(n) ==> (n <= buf@.len() && final(self).content() == spec_write(
                old(self).content(),
                offset as int,
                buf@.subrange(0, n as int),
            )),
            r is None ==> final(self).content() == old(self).content(),
            old(self).reliable() && offset + buf@.len() <= usize::MAX ==> r == Some(buf@.len() as usize),
    ;
}

/// A device held in memory; it grows on writes past its end.
pub struct MemDevice {
    data: Vec<u8>,
}

impl MemDevice {
    /// A device of `size` zero bytes
    pub fn new(size: usize) -> (d: MemDevice)
        ensures
            d.content() == Seq::new(size as nat, |i: int| 0u8),
            d.reliable(),
    {
        let mut data: Vec<u8> = Vec::new();
        let mut i: usize = 0;
        while i < size
            invariant
                i <= size,
                data@ == Seq::new(i as nat, |k: int| 0u8),
            decreases size - i,
        {
            data.push(0u8);
            i = i + 1;
            assert(data@ =~= Seq::new(i as nat, |k: int| 0u8));
        }
        MemDevice { data }
    }

    /// A device holding `data`
    pub fn from_bytes(data: Vec<u8>) -> (d: MemDevice)
        ensures
            d.content() == data@,
            d.reliable(),
    {
        MemDevice { data }
    }

    /// The bytes the device holds
    pub fn bytes(&self) -> (r: &Vec<u8>)
        ensures
            r@ == self.content(),
    {
        &self.data
    }
}

impl Device for MemDevice {
    closed spec fn content(&self) -> Seq<u8> {
        self.data@
    }

    open spec fn reliable(&self) -> bool {
        true
    }

    fn read_at(&mut self, offset: usize, buf: &mut [u8]) -> (r: Option<usize>) {
        let len = self.data.len();
        if offset > len {
            return None;
        }
        let avail = len - offset;
        let n = if buf.len() < avail {
            buf.len()
        } else {
            avail
        };
        let mut i: usize = 0;
        while i < n
            invariant
                n <= buf@.len(),
                len == self.data@.len(),
                offset + n <= self.data@.len(),
                i <= n,
                buf@.len() == old(buf)@.len(),
                forall|k: int| 0 <= k < i ==> buf@[k] == self.data@[offset + k],
            decreases n - i,
        {
            buf[i] = self.data[offset + i];
            i = i + 1;
        }
        assert(buf@.subrange(0, n as int) =~= self.data@.subrange(offset as int, offset + n));
        Some(n)
    }

    fn write_at(&mut self, offset: usize, buf: &[u8]) -> (r: Option<usize>) {
        let n = buf.len();
        if offset > usize::MAX - n {
            return None;
        }
        let ghost old_data = self.data@;
        let end = offset + n;
        while self.data.len() < end
            invariant
                old_data.len() <= self.data@.len() <= if old_data.len() >= end { old_data.len() as int } else { end as int },
                forall|k: int| 0 <= k < self.data@.len() ==> self.data@[k] == if k < old_data.len() { old_data[k] } else { 0u8 },
            decreases end - self.data@.len(),
        {
            self.data.push(0u8);
        }
        let mut i: usize = 0;
        while i < n
            invariant
                end == offset + n,
                n == buf@.len(),
                i <= n,
                self.data@.len() == if old_data.len() >= end { old_data.len() as int } else { end as int },
                forall|k: int| 0 <= k < self.data@.len() ==> self.data@[k] == if offset <= k < offset + i { buf@[k - offset] } else if k < old_data.len() { old_data[k] } else { 0u8 },
            decreases n - i,
        {
            self.data.set(offset + i, buf[i]);
            i = i + 1;
        }
        assert(buf@.subrange(0, n as int) =~= buf@);
        assert(self.data@ =~= spec_write(old_data, offset as int, buf@));
        Some(n)
    }
}

} // verus!
