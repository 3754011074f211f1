//! The free-block map of SFS, kept in a `bit_set::BitSet`.

use vstd::prelude::*;
use bit_set::BitSet;

verus! {

#[verifier::external_type_specification]
#[verifier::external_body]
#[verifier::reject_recursive_types(B)]
pub struct ExBitSet<B>(BitSet<B>);

/// The elements of a bit set.
pub uninterp spec fn bitset_elems(s: BitSet) -> Set<nat>;

/// The length of the bit vector under a bit set: every element is below it.
pub uninterp spec fn bitset_nbits(s: BitSet) -> nat;

/// Whether every element of the set lies below the length of its bit vector.
pub open spec fn bitset_bounded(s: BitSet) -> bool {
    forall|i: nat| #[trigger] bitset_elems(s).contains(i) ==> i < bitset_nbits(s)
}

/// Bit `k` (0 = least significant) of a byte.
pub open spec fn byte_bit(b: u8, k: int) -> bool {
    (b >> (k as u8)) & 1u8 == 1u8
}

/// Bit `k` (0 = least significant) of a word.
pub open spec fn word_bit(w: u32, k: int) -> bool {
    (w >> (k as u32)) & 1u32 == 1u32
}

/// `BitSet::with_capacity`: an empty set over `nbits` cleared bits.
#[verifier::external_body]
fn bitset_with_capacity(nbits: usize) -> (s: BitSet)
    ensures
        bitset_elems(s) == Set::<nat>::empty(),
        bitset_nbits(s) == nbits,
{
    BitSet::with_capacity(nbits)
}

/// `BitSet::insert`: adds `value`, growing the bit vector to hold it.
#[verifier::external_body]
fn bitset_insert(s: &mut BitSet, value: usize) -> (r: bool)
    requires
        value < usize::MAX,
    ensures
        bitset_elems(*final(s)) == bitset_elems(*old(s)).insert(value as nat),
        bitset_nbits(*final(s)) == if value < bitset_nbits(*old(s)) {
            bitset_nbits(*old(s))
        } else {
            (value + 1) as nat
        },
        bitset_bounded(*old(s)) ==> bitset_bounded(*final(s)),
        r == !bitset_elems(*old(s)).contains(value as nat),
{
    s.insert(value)
}

/// `BitSet::remove`: removes `value`.
#[verifier::external_body]
fn bitset_remove(s: &mut BitSet, value: usize) -> (r: bool)
    ensures
        bitset_elems(*final(s)) == bitset_elems(*old(s)).remove(value as nat),
        bitset_nbits(*final(s)) == bitset_nbits(*old(s)),
        bitset_bounded(*old(s)) ==> bitset_bounded(*final(s)),
        r == bitset_elems(*old(s)).contains(value as nat),
{
    s.remove(value)
}

/// `BitSet::contains`.
#[verifier::external_body]
fn bitset_contains(s: &BitSet, value: usize) -> (r: bool)
    ensures
        r == bitset_elems(*s).contains(value as nat),
{
    s.contains(value)
}

/// `BitSet::len`: the number of elements (set bits).
#[verifier::external_body]
fn bitset_len(s: &BitSet) -> (r: usize)
    requires
        bitset_bounded(*s),
    ensures
        r == bitset_elems(*s).len(),
{
    s.len()
}

/// A set of naturals below `n` is finite and has at most `n` elements.
pub proof fn lemma_bounded_finite(s: Set<nat>, n: nat)
    requires
        forall|i: nat| #[trigger] s.contains(i) ==> i < n,
    ensures
        s.finite(),
        s.len() <= n,
{
    let r = Set::<nat>::range(0, n);
    <nat as vstd::set_lib::FiniteRange>::range_properties(0, n);
    assert(s.subset_of(r));
    vstd::set_lib::lemma_len_subset(s, r);
}

/// `BitVec::storage` of the set's bit vector: the set bits packed into words,
/// bit `i` of the set being bit `i % 32` of word `i / 32`.
#[verifier::external_body]
fn bitset_storage(s: &BitSet) -> (r: Vec<u32>)
    requires
        bitset_bounded(*s),
    ensures
        r@.len() == (bitset_nbits(*s) + 31) / 32,
        forall|i: nat|
            i < r@.len() * 32 ==> (#[trigger] bitset_elems(*s).contains(i) <==> word_bit(
                r@[(i / 32) as int],
                (i % 32) as int,
            )),
{
    s.get_ref().storage().to_vec()
}

/// A map of free blocks: a block is free when its bit is set.
pub struct FreeMap {
    bits: BitSet,
    /// The number of bits of `bits`
    nbits: usize,
}

impl FreeMap {
    /// The set of free blocks
    pub closed spec fn free(&self) -> Set<nat> {
        bitset_elems(self.bits)
    }

    /// The number of bits of the map
    pub closed spec fn nbits(&self) -> nat {
        bitset_nbits(self.bits)
    }

    pub closed spec fn wf(&self) -> bool {
        &&& bitset_bounded(self.bits)
        &&& self.nbits == bitset_nbits(self.bits)
    }

    /// Every free block lies below the number of bits of the map.
    pub proof fn lemma_free_below(&self)
        requires
            self.wf(),
        ensures
            forall|i: nat| #[trigger] self.free().contains(i) ==> i < self.nbits(),
    {
    }

    /// A map with `nbits` bits and no free block
    pub fn with_capacity(nbits: usize) -> (m: FreeMap)
        ensures
            m.wf(),
            m.free() == Set::<nat>::empty(),
            m.nbits() == nbits,
    {
        FreeMap { bits: bitset_with_capacity(nbits), nbits }
    }

    pub fn contains(&self, id: usize) -> (r: bool)
        ensures
            r == self.free().contains(id as nat),
    {
        bitset_contains(&self.bits, id)
    }

    /// Mark `id` free
    pub fn insert(&mut self, id: usize)
        requires
            old(self).wf(),
            id < usize::MAX,
        ensures
            final(self).wf(),
            final(self).free() == old(self).free().insert(id as nat),
            id < old(self).nbits() ==> final(self).nbits() == old(self).nbits(),
    {
        bitset_insert(&mut self.bits, id);
        if id >= self.nbits {
            self.nbits = id + 1;
        }
    }

    /// Mark `id` used
    pub fn remove(&mut self, id: usize)
        requires
            old(self).wf(),
        ensures
            final(self).wf(),
            final(self).free() == old(self).free().remove(id as nat),
            final(self).nbits() == old(self).nbits(),
    {
        bitset_remove(&mut self.bits, id);
    }

    /// The number of free blocks
    pub fn len(&self) -> (n: usize)
        requires
            self.wf(),
        ensures
            n == self.free().len(),
            self.free().finite(),
    {
        proof {
            lemma_bounded_finite(self.free(), self.nbits());
        }
        bitset_len(&self.bits)
    }

    /// Allocate a block: take the smallest free block and mark it used;
    /// `None` when no block is free.
    pub fn allocate(&mut self) -> (r: Option<usize>)
        requires
            old(self).wf(),
        ensures
            final(self).wf(),
            final(self).nbits() == old(self).nbits(),
            old(self).free().finite(),
            match r {
                Some(id) => {
                    &&& old(self).free().contains(id as nat)
                    &&& forall|j: nat| j < id ==> !old(self).free().contains(j)
                    &&& final(self).free() == old(self).free().remove(id as nat)
                },
                None => {
                    &&& old(self).free() == Set::<nat>::empty()
                    &&& final(self).free() == old(self).free()
                },
            },
    {
        proof {
            lemma_bounded_finite(self.free(), self.nbits());
        }
        let n = self.nbits;
        let mut i: usize = 0;
        while i < n
            invariant
                self.wf(),
                self.bits == old(self).bits,
                self.nbits == old(self).nbits,
                n == old(self).nbits(),
                old(self).free().finite(),
                i <= n,
                forall|j: nat| j < i ==> !old(self).free().contains(j),
            decreases n - i,
        {
            if bitset_contains(&self.bits, i) {
                bitset_remove(&mut self.bits, i);
                return Some(i);
            }
            i = i + 1;
        }
        proof {
            assert(old(self).free() =~= Set::<nat>::empty());
        }
        None
    }

    /// The map as bytes: word `w` of the bit vector becomes bytes `4*w .. 4*w+4`, little-endian
    pub fn as_words(&self) -> (r: Vec<u32>)
        requires
            self.wf(),
        ensures
            r@.len() == (self.nbits() + 31) / 32,
            forall|i: nat|
                i < r@.len() * 32 ==> (#[trigger] self.free().contains(i) <==> word_bit(
                    r@[(i / 32) as int],
                    (i % 32) as int,
                )),
    {
        bitset_storage(&self.bits)
    }
}

} // verus!
