//! Little-endian 32-bit words and their bytes.

use vstd::prelude::*;

verus! {

/// The little-endian word made of four bytes.
pub open spec fn le_word(b0: u8, b1: u8, b2: u8, b3: u8) -> u32 {
    (b0 as u32) | ((b1 as u32) << 8) | ((b2 as u32) << 16) | ((b3 as u32) << 24)
}

/// Byte `k` (0 is the least significant) of the word `w`.
pub open spec fn word_byte(w: u32, k: int) -> u8 {
    if k == 0 {
        (w & 0xff) as u8
    } else if k == 1 {
        ((w >> 8) & 0xff) as u8
    } else if k == 2 {
        ((w >> 16) & 0xff) as u8
    } else {
        ((w >> 24) & 0xff) as u8
    }
}

/// The little-endian word at offset `at` of `bytes`.
pub open spec fn word_in(bytes: Seq<u8>, at: int) -> u32 {
    le_word(bytes[at], bytes[at + 1], bytes[at + 2], bytes[at + 3])
}

/// Taking a word apart and putting it together again gives the word back.
pub proof fn lemma_word_of_bytes(w: u32)
    ensures
        le_word(word_byte(w, 0), word_byte(w, 1), word_byte(w, 2), word_byte(w, 3)) == w,
{
    assert(((w & 0xff) as u8 as u32) | ((((w >> 8) & 0xff) as u8 as u32) << 8) | ((((w >> 16)
        & 0xff) as u8 as u32) << 16) | ((((w >> 24) & 0xff) as u8 as u32) << 24) == w)
        by (bit_vector);
}

/// The bytes of a word put together from four bytes are those bytes.
pub proof fn lemma_bytes_of_word(b0: u8, b1: u8, b2: u8, b3: u8)
    ensures
        word_byte(le_word(b0, b1, b2, b3), 0) == b0,
        word_byte(le_word(b0, b1, b2, b3), 1) == b1,
        word_byte(le_word(b0, b1, b2, b3), 2) == b2,
        word_byte(le_word(b0, b1, b2, b3), 3) == b3,
{
    let w = le_word(b0, b1, b2, b3);
    assert(w == (b0 as u32) | ((b1 as u32) << 8) | ((b2 as u32) << 16) | ((b3 as u32) << 24));
    assert((w & 0xff) as u8 == b0 && ((w >> 8) & 0xff) as u8 == b1 && ((w >> 16) & 0xff) as u8
        == b2 && ((w >> 24) & 0xff) as u8 == b3) by (bit_vector)
        requires
            w == (b0 as u32) | ((b1 as u32) << 8) | ((b2 as u32) << 16) | ((b3 as u32) << 24),
    ;
}

/// A word is erased exactly when all four of its bytes are.
pub proof fn lemma_erased_word(b0: u8, b1: u8, b2: u8, b3: u8)
    ensures
        le_word(b0, b1, b2, b3) == 0xffff_ffffu32 <==> (b0 == 0xff && b1 == 0xff && b2 == 0xff
            && b3 == 0xff),
        le_word(b0, b1, b2, b3) == 0u32 <==> (b0 == 0 && b1 == 0 && b2 == 0 && b3 == 0),
{
    assert(((b0 as u32) | ((b1 as u32) << 8) | ((b2 as u32) << 16) | ((b3 as u32) << 24))
        == 0xffff_ffffu32 <==> (b0 == 0xff && b1 == 0xff && b2 == 0xff && b3 == 0xff))
        by (bit_vector);
    assert(((b0 as u32) | ((b1 as u32) << 8) | ((b2 as u32) << 16) | ((b3 as u32) << 24)) == 0u32
        <==> (b0 == 0 && b1 == 0 && b2 == 0 && b3 == 0)) by (bit_vector);
}

/// Puts four bytes together, least significant first.
pub fn word_from(b0: u8, b1: u8, b2: u8, b3: u8) -> (w: u32)
    ensures
        w == le_word(b0, b1, b2, b3),
{
    (b0 as u32) | ((b1 as u32) << 8) | ((b2 as u32) << 16) | ((b3 as u32) << 24)
}

/// The little-endian word at offset `at` of `bytes`.
pub fn read_word(bytes: &[u8], at: usize) -> (w: u32)
    requires
        at + 4 <= bytes@.len(),
    ensures
        w == word_in(bytes@, at as int),
{
    word_from(bytes[at], bytes[at + 1], bytes[at + 2], bytes[at + 3])
}

/// Appends the four bytes of `w` to `out`, least significant first.
pub fn push_word(out: &mut Vec<u8>, w: u32)
    ensures
        final(out)@.len() == old(out)@.len() + 4,
        final(out)@ == old(out)@.push(word_byte(w, 0)).push(word_byte(w, 1)).push(
            word_byte(w, 2),
        ).push(word_byte(w, 3)),
{
    assert((w & 0xff) < 256 && ((w >> 8) & 0xff) < 256 && ((w >> 16) & 0xff) < 256 && ((w >> 24)
        & 0xff) < 256) by (bit_vector);
    out.push((w & 0xff) as u8);
    out.push(((w >> 8) & 0xff) as u8);
    out.push(((w >> 16) & 0xff) as u8);
    out.push(((w >> 24) & 0xff) as u8);
}

} // verus!
