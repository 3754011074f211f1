//! The free-block map of SEFS, kept in a `bitvec::vec::BitVec` with the most
//! significant bit of each byte first.

use vstd::prelude::*;
use bitvec::order::Msb0;
use bitvec::vec::BitVec;
use crate::bitset::byte_bit;

verus! {

/// A `BitVec` of bits stored most significant bit first in bytes; Verus
/// sees only its bits, through `bitvec_bits`.
#[verifier::external_body]
pub struct Bits {
    v: BitVec<Msb0, u8>,
}

/// The bits of a bit vector, in order.
pub uninterp spec fn bitvec_bits(v: Bits) -> Seq<bool>;

/// The largest number of bits the maps here hold
pub const MAX_MAP_BITS: usize = 0x100_0000;

/// `BitVec::with_capacity`: an empty bit vector.
#[verifier::external_body]
fn bitvec_with_capacity(capacity: usize) -> (v: Bits)
    ensures
        bitvec_bits(v) == Seq::<bool>::empty(),
{
    Bits { v: BitVec::<Msb0, u8>::with_capacity(capacity) }
}

/// `BitVec::push`: appends one bit.
#[verifier::external_body]
fn bitvec_push(v: &mut Bits, value: bool)
    requires
        bitvec_bits(*old(v)).len() < MAX_MAP_BITS,
    ensures
        bitvec_bits(*final(v)) == bitvec_bits(*old(v)).push(value),
{
    v.v.push(value)
}

/// `BitSlice::set`: changes bit `index`.
#[verifier::external_body]
fn bitvec_set(v: &mut Bits, index: usize, value: bool)
    requires
        index < bitvec_bits(*old(v)).len(),
    ensures
        bitvec_bits(*final(v)) == bitvec_bits(*old(v)).update(index as int, value),
{
    v.v.set(index, value)
}

/// Indexing a `BitSlice`: bit `index`.
#[verifier::external_body]
fn bitvec_get(v: &Bits, index: usize) -> (b: bool)
    requires
        index < bitvec_bits(*v).len(),
    ensures
        b == bitvec_bits(*v)[index as int],
{
    v.v[index]
}

/// `BitSlice::len`: the number of bits.
#[verifier::external_body]
fn bitvec_len(v: &Bits) -> (n: usize)
    ensures
        n == bitvec_bits(*v).len(),
{
    v.v.len()
}

/// `BitVec::as_slice`: the bytes under the bits, bit `i` being bit `7 - i % 8` of byte `i / 8`.
#[verifier::external_body]
fn bitvec_as_bytes(v: &Bits) -> (bytes: Vec<u8>)
    ensures
        bytes@.len() == (bitvec_bits(*v).len() + 7) / 8,
        forall|i: int| 0 <= i < bitvec_bits(*v).len() ==> #[trigger] bitvec_bits(*v)[i] == byte_bit(bytes@[i / 8], 7 - i % 8),
{
    v.v.as_slice().to_vec()
}

/// `BitVec::from_slice`: the bits of `bytes`, most significant bit of each byte first.
#[verifier::external_body]
fn bitvec_from_bytes(bytes: &[u8]) -> (v: Bits)
    requires
        bytes@.len() * 8 < MAX_MAP_BITS,
    ensures
        bitvec_bits(v).len() == bytes@.len() * 8,
        forall|i: int| 0 <= i < bitvec_bits(v).len() ==> #[trigger] bitvec_bits(v)[i] == byte_bit(bytes@[i / 8], 7 - i % 8),
{
    Bits { v: BitVec::<Msb0, u8>::from_slice(bytes) }
}

/// A map of blocks: a block is free when its bit is set.
pub struct BlockMap {
    bits: Bits,
}

impl BlockMap {
    /// The bit of each block
    pub closed spec fn view(&self) -> Seq<bool> {
        bitvec_bits(self.bits)
    }

    /// An empty map
    pub fn new() -> (m: BlockMap)
        ensures
            m@ == Seq::<bool>::empty(),
    {
        BlockMap { bits: bitvec_with_capacity(0) }
    }

    /// Append `n` bits of value `value`
    pub fn extend(&mut self, value: bool, n: usize)
        requires
            old(self)@.len() + n <= MAX_MAP_BITS,
        ensures
            final(self)@ == old(self)@ + Seq::new(n as nat, |i: int| value),
    {
        let mut k: usize = 0;
        while k < n
            invariant
                k <= n,
                old(self)@.len() + n <= MAX_MAP_BITS,
                self@ == old(self)@ + Seq::new(k as nat, |i: int| value),
            decreases n - k,
        {
            bitvec_push(&mut self.bits, value);
            k = k + 1;
            assert(self@ =~= old(self)@ + Seq::new(k as nat, |i: int| value));
        }
    }

    /// Change the bit of block `i`
    pub fn set(&mut self, i: usize, value: bool)
        requires
            i < old(self)@.len(),
        ensures
            final(self)@ == old(self)@.update(i as int, value),
    {
        bitvec_set(&mut self.bits, i, value)
    }

    /// The bit of block `i`
    pub fn get(&self, i: usize) -> (b: bool)
        requires
            i < self@.len(),
        ensures
            b == self@[i as int],
    {
        bitvec_get(&self.bits, i)
    }

    /// The number of blocks
    pub fn len(&self) -> (n: usize)
        ensures
            n == self@.len(),
    {
        bitvec_len(&self.bits)
    }

    /// The bytes of the map, most significant bit of each byte first
    pub fn as_bytes(&self) -> (bytes: Vec<u8>)
        ensures
            bytes@.len() == (self@.len() + 7) / 8,
            forall|i: int| 0 <= i < self@.len() ==> #[trigger] self@[i] == byte_bit(bytes@[i / 8], 7 - i % 8),
    {
        bitvec_as_bytes(&self.bits)
    }

    /// The map stored in `bytes`, most significant bit of each byte first
    pub fn from_bytes(bytes: &[u8]) -> (m: BlockMap)
        requires
            bytes@.len() * 8 < MAX_MAP_BITS,
        ensures
            m@.len() == bytes@.len() * 8,
            forall|i: int| 0 <= i < m@.len() ==> #[trigger] m@[i] == byte_bit(bytes@[i / 8], 7 - i % 8),
    {
        BlockMap { bits: bitvec_from_bytes(bytes) }
    }

    /// Take the first block whose bit is set, clearing its bit
    pub fn allocate(&mut self) -> (r: Option<usize>)
        ensures
            match r {
                Some(i) => {
                    &&& i < old(self)@.len()
                    &&& old(self)@[i as int]
                    &&& forall|j: int| 0 <= j < i ==> !old(self)@[j]
                    &&& final(self)@ == old(self)@.update(i as int, false)
                },
                None => {
                    &&& forall|j: int| 0 <= j < old(self)@.len() ==> !old(self)@[j]
                    &&& final(self)@ == old(self)@
                },
            },
    {
        let n = self.len();
        let mut i: usize = 0;
        while i < n
            invariant
                n == self@.len(),
                self@ == old(self)@,
                i <= n,
                forall|j: int| 0 <= j < i ==> !old(self)@[j],
            decreases n - i,
        {
            if self.get(i) {
                self.set(i, false);
                return Some(i);
            }
            i = i + 1;
        }
        None
    }
}

} // verus!
