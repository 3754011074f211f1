//! Little-endian encoding of integers and integer arrays, shared by the on-disk layouts.

use vstd::prelude::*;
use vstd::bytes::*;
use vstd::slice::slice_subrange;

verus! {

/// Little-endian encoding of a sequence of `u32` words.
pub open spec fn spec_words_to_le_bytes(s: Seq<u32>) -> Seq<u8>
    decreases s.len(),
{
    if s.len() == 0 {
        Seq::empty()
    } else {
        spec_words_to_le_bytes(s.drop_last()) + spec_u32_to_le_bytes(s.last())
    }
}

/// The `u32` stored little-endian at byte position `pos` of `s`.
pub open spec fn spec_u32_at(s: Seq<u8>, pos: int) -> u32 {
    spec_u32_from_le_bytes(s.subrange(pos, pos + 4))
}

/// The `u16` stored little-endian at byte position `pos` of `s`.
pub open spec fn spec_u16_at(s: Seq<u8>, pos: int) -> u16 {
    spec_u16_from_le_bytes(s.subrange(pos, pos + 2))
}

pub proof fn lemma_u32_le_bytes(x: u32)
    ensures
        spec_u32_to_le_bytes(x).len() == 4,
        spec_u32_from_le_bytes(spec_u32_to_le_bytes(x)) == x,
{
    lemma_auto_spec_u32_to_from_le_bytes();
    assert(spec_u32_to_le_bytes(x).len() == 4);
}

pub proof fn lemma_u16_le_bytes(x: u16)
    ensures
        spec_u16_to_le_bytes(x).len() == 2,
        spec_u16_from_le_bytes(spec_u16_to_le_bytes(x)) == x,
{
    lemma_auto_spec_u16_to_from_le_bytes();
    assert(spec_u16_to_le_bytes(x).len() == 2);
}

/// Word `i` of an encoded word sequence sits at bytes `4*i .. 4*i+4`.
pub proof fn lemma_words_to_le_bytes(s: Seq<u32>)
    ensures
        spec_words_to_le_bytes(s).len() == 4 * s.len(),
        forall|i: int|
            0 <= i < s.len() ==> #[trigger] spec_u32_at(spec_words_to_le_bytes(s), 4 * i) == s[i],
    decreases s.len(),
{
    lemma_auto_spec_u32_to_from_le_bytes();
    if s.len() > 0 {
        let p = s.drop_last();
        lemma_words_to_le_bytes(p);
        let b = spec_words_to_le_bytes(s);
        assert(b == spec_words_to_le_bytes(p) + spec_u32_to_le_bytes(s.last()));
        assert forall|i: int| 0 <= i < s.len() implies #[trigger] spec_u32_at(b, 4 * i) == s[i] by {
            if i < p.len() {
                assert(b.subrange(4 * i, 4 * i + 4) =~= spec_words_to_le_bytes(p).subrange(
                    4 * i,
                    4 * i + 4,
                ));
                assert(spec_u32_at(spec_words_to_le_bytes(p), 4 * i) == p[i]);
            } else {
                assert(b.subrange(4 * i, 4 * i + 4) =~= spec_u32_to_le_bytes(s.last()));
            }
        }
    }
}

/// Append all bytes of `src` to `dst`.
pub fn extend_bytes(dst: &mut Vec<u8>, src: &[u8])
    ensures
        final(dst)@ == old(dst)@ + src@,
{
    let mut i: usize = 0;
    while i < src.len()
        invariant
            i <= src@.len(),
            dst@ == old(dst)@ + src@.subrange(0, i as int),
        decreases src@.len() - i,
    {
        dst.push(src[i]);
        i = i + 1;
        assert(src@.subrange(0, i as int) =~= src@.subrange(0, (i - 1) as int).push(src@[i - 1]));
    }
    assert(src@.subrange(0, src@.len() as int) =~= src@);
}

/// Append the little-endian encoding of `x`.
pub fn push_u32(dst: &mut Vec<u8>, x: u32)
    ensures
        final(dst)@ == old(dst)@ + spec_u32_to_le_bytes(x),
{
    let b = u32_to_le_bytes(x);
    extend_bytes(dst, b.as_slice());
}

/// Append the little-endian encoding of `x`.
pub fn push_u16(dst: &mut Vec<u8>, x: u16)
    ensures
        final(dst)@ == old(dst)@ + spec_u16_to_le_bytes(x),
{
    let b = u16_to_le_bytes(x);
    extend_bytes(dst, b.as_slice());
}

/// Append the little-endian encoding of each word of `words`.
pub fn push_words(dst: &mut Vec<u8>, words: &[u32])
    ensures
        final(dst)@ == old(dst)@ + spec_words_to_le_bytes(words@),
{
    let mut i: usize = 0;
    while i < words.len()
        invariant
            i <= words@.len(),
            dst@ == old(dst)@ + spec_words_to_le_bytes(words@.subrange(0, i as int)),
        decreases words@.len() - i,
    {
        let ghost before = dst@;
        push_u32(dst, words[i]);
        proof {
            let p = words@.subrange(0, i as int);
            let q = words@.subrange(0, i + 1);
            assert(q.drop_last() =~= p);
            assert(q.last() == words@[i as int]);
            assert(dst@ =~= old(dst)@ + spec_words_to_le_bytes(q));
        }
        i = i + 1;
    }
    assert(words@.subrange(0, words@.len() as int) =~= words@);
}

/// Read the little-endian `u32` at byte position `pos`.
pub fn read_u32(buf: &[u8], pos: usize) -> (x: u32)
    requires
        pos + 4 <= buf@.len(),
    ensures
        x == spec_u32_at(buf@, pos as int),
{
    let _n = buf.len();
    u32_from_le_bytes(slice_subrange(buf, pos, pos + 4))
}

/// Read the little-endian `u16` at byte position `pos`.
pub fn read_u16(buf: &[u8], pos: usize) -> (x: u16)
    requires
        pos + 2 <= buf@.len(),
    ensures
        x == spec_u16_at(buf@, pos as int),
{
    let _n = buf.len();
    u16_from_le_bytes(slice_subrange(buf, pos, pos + 2))
}

} // verus!
