//! IEEE CRC-32 (reflected, polynomial `0xEDB88320`).

use vstd::prelude::*;

verus! {

/// The reflected IEEE polynomial.
pub const POLY: u32 = 0xedb8_8320;

/// Initial register value, also the final XOR mask.
pub const INIT: u32 = 0xffff_ffff;

/// One shift of the CRC register: divide by `x`, and subtract the polynomial
/// when a one bit fell out.
pub open spec fn crc_shift(crc: u32) -> u32 {
    if crc & 1 != 0 {
        (crc >> 1) ^ POLY
    } else {
        crc >> 1
    }
}

/// `n` shifts of the CRC register.
pub open spec fn crc_shifts(crc: u32, n: nat) -> u32
    decreases n,
{
    if n == 0 {
        crc
    } else {
        crc_shifts(crc_shift(crc), (n - 1) as nat)
    }
}

/// The register after one more input byte.
pub open spec fn crc_feed(crc: u32, b: u8) -> u32 {
    crc_shifts(crc ^ (b as u32), 8)
}

/// The register after all bytes of `s`, starting from `INIT`.
pub open spec fn crc_register(s: Seq<u8>) -> u32
    decreases s.len(),
{
    if s.len() == 0 {
        INIT
    } else {
        crc_feed(crc_register(s.drop_last()), s.last())
    }
}

/// The CRC-32 of `s`: the final register, inverted.
pub open spec fn spec_crc32(s: Seq<u8>) -> u32 {
    !crc_register(s)
}

/// Computes the IEEE CRC-32 of `data`, one bit at a time.
pub fn crc32(data: &[u8]) -> (crc: u32)
    ensures
        crc == spec_crc32(data@),
{
    let mut crc: u32 = 0xffff_ffff;
    let mut i: usize = 0;
    while i < data.len()
        invariant
            i <= data@.len(),
            crc == crc_register(data@.take(i as int)),
        decreases data@.len() - i,
    {
        let b: u8 = data[i];
        let ghost before: u32 = crc;
        crc = crc ^ b as u32;
        let mut k: u8 = 0;
        while k < 8
            invariant
                k <= 8,
                crc_shifts(crc, (8 - k) as nat) == crc_feed(before, b),
            decreases 8 - k,
        {
            if crc & 1 != 0 {
                crc = crc >> 1 ^ 0xedb8_8320;
            } else {
                crc = crc >> 1;
            }
            k += 1;
        }
        proof {
            assert(data@.take(i + 1).drop_last() == data@.take(i as int));
            assert(data@.take(i + 1).last() == b);
        }
        i += 1;
    }
    proof {
        assert(data@.take(i as int) == data@);
    }
    !crc
}

/// The CRC-32 of nothing is zero.
pub proof fn lemma_crc32_empty()
    ensures
        spec_crc32(Seq::<u8>::empty()) == 0u32,
{
    assert(!0xffff_ffffu32 == 0u32) by (bit_vector);
}

/// A shift of the register loses nothing: different registers stay different.
pub proof fn lemma_shift_injective(a: u32, b: u32)
    requires
        crc_shift(a) == crc_shift(b),
    ensures
        a == b,
{
    assert((if a & 1 != 0 {
        (a >> 1) ^ 0xedb8_8320u32
    } else {
        a >> 1
    }) == (if b & 1 != 0 {
        (b >> 1) ^ 0xedb8_8320u32
    } else {
        b >> 1
    }) ==> a == b) by (bit_vector);
}

/// Any number of shifts loses nothing.
pub proof fn lemma_shifts_injective(a: u32, b: u32, n: nat)
    requires
        crc_shifts(a, n) == crc_shifts(b, n),
    ensures
        a == b,
    decreases n,
{
    if n > 0 {
        lemma_shifts_injective(crc_shift(a), crc_shift(b), (n - 1) as nat);
        lemma_shift_injective(a, b);
    }
}

/// Feeding the same byte to different registers gives different registers.
pub proof fn lemma_feed_injective_in_register(a: u32, b: u32, x: u8)
    requires
        crc_feed(a, x) == crc_feed(b, x),
    ensures
        a == b,
{
    let w = x as u32;
    lemma_shifts_injective(a ^ w, b ^ w, 8);
    assert((a ^ w) == (b ^ w) ==> a == b) by (bit_vector);
}

/// Feeding different bytes to the same register gives different registers.
pub proof fn lemma_feed_injective_in_byte(c: u32, x: u8, y: u8)
    requires
        crc_feed(c, x) == crc_feed(c, y),
    ensures
        x == y,
{
    lemma_shifts_injective(c ^ (x as u32), c ^ (y as u32), 8);
    assert((c ^ (x as u32)) == (c ^ (y as u32)) ==> x == y) by (bit_vector);
}

/// The CRC-32 tells apart any two sequences of one length that differ in
/// exactly one byte.
pub proof fn lemma_crc32_detects_byte(s: Seq<u8>, t: Seq<u8>, k: int)
    requires
        s.len() == t.len(),
        0 <= k < s.len(),
        s[k] != t[k],
        forall|i: int| 0 <= i < s.len() && i != k ==> s[i] == t[i],
    ensures
        crc_register(s) != crc_register(t),
        spec_crc32(s) != spec_crc32(t),
    decreases s.len(),
{
    let a = crc_register(s);
    let b = crc_register(t);
    if k == s.len() - 1 {
        assert(s.drop_last() =~= t.drop_last());
        if a == b {
            lemma_feed_injective_in_byte(crc_register(s.drop_last()), s.last(), t.last());
        }
    } else {
        lemma_crc32_detects_byte(s.drop_last(), t.drop_last(), k);
        if a == b {
            lemma_feed_injective_in_register(
                crc_register(s.drop_last()),
                crc_register(t.drop_last()),
                s.last(),
            );
        }
    }
    assert(!a == !b ==> a == b) by (bit_vector);
}

/// The check value of the IEEE CRC-32: the digits `1` to `9` give `0xCBF43926`.
pub proof fn lemma_crc32_check_value()
    ensures
        spec_crc32(
            seq![0x31u8, 0x32u8, 0x33u8, 0x34u8, 0x35u8, 0x36u8, 0x37u8, 0x38u8, 0x39u8],
        ) == 0xcbf4_3926u32,
{
    let d = seq![0x31u8, 0x32u8, 0x33u8, 0x34u8, 0x35u8, 0x36u8, 0x37u8, 0x38u8, 0x39u8];
    assert(crc_shifts(0xffffffffu32 ^ 0x31u32, 8) == 0x7c231048u32) by (bit_vector);
    assert(crc_shifts(0x7c231048u32 ^ 0x32u32, 8) == 0xb0acbb32u32) by (bit_vector);
    assert(crc_shifts(0xb0acbb32u32 ^ 0x33u32, 8) == 0x77b79c2du32) by (bit_vector);
    assert(crc_shifts(0x77b79c2du32 ^ 0x34u32, 8) == 0x641c1f5cu32) by (bit_vector);
    assert(crc_shifts(0x641c1f5cu32 ^ 0x35u32, 8) == 0x340ac5e3u32) by (bit_vector);
    assert(crc_shifts(0x340ac5e3u32 ^ 0x36u32, 8) == 0xf68d2c9eu32) by (bit_vector);
    assert(crc_shifts(0xf68d2c9eu32 ^ 0x37u32, 8) == 0xaffc9660u32) by (bit_vector);
    assert(crc_shifts(0xaffc9660u32 ^ 0x38u32, 8) == 0x651f2550u32) by (bit_vector);
    assert(crc_shifts(0x651f2550u32 ^ 0x39u32, 8) == 0x340bc6d9u32) by (bit_vector);
    assert(d.take(0) =~= Seq::<u8>::empty());
    assert(crc_register(d.take(0)) == 0xffff_ffffu32);
    assert(d.take(1).drop_last() =~= d.take(0) && d.take(1).last() == 0x31u8);
    assert(0x31u8 as u32 == 0x31u32);
    assert(crc_register(d.take(1)) == 0x7c231048u32);
    assert(d.take(2).drop_last() =~= d.take(1) && d.take(2).last() == 0x32u8);
    assert(0x32u8 as u32 == 0x32u32);
    assert(crc_register(d.take(2)) == 0xb0acbb32u32);
    assert(d.take(3).drop_last() =~= d.take(2) && d.take(3).last() == 0x33u8);
    assert(0x33u8 as u32 == 0x33u32);
    assert(crc_register(d.take(3)) == 0x77b79c2du32);
    assert(d.take(4).drop_last() =~= d.take(3) && d.take(4).last() == 0x34u8);
    assert(0x34u8 as u32 == 0x34u32);
    assert(crc_register(d.take(4)) == 0x641c1f5cu32);
    assert(d.take(5).drop_last() =~= d.take(4) && d.take(5).last() == 0x35u8);
    assert(0x35u8 as u32 == 0x35u32);
    assert(crc_register(d.take(5)) == 0x340ac5e3u32);
    assert(d.take(6).drop_last() =~= d.take(5) && d.take(6).last() == 0x36u8);
    assert(0x36u8 as u32 == 0x36u32);
    assert(crc_register(d.take(6)) == 0xf68d2c9eu32);
    assert(d.take(7).drop_last() =~= d.take(6) && d.take(7).last() == 0x37u8);
    assert(0x37u8 as u32 == 0x37u32);
    assert(crc_register(d.take(7)) == 0xaffc9660u32);
    assert(d.take(8).drop_last() =~= d.take(7) && d.take(8).last() == 0x38u8);
    assert(0x38u8 as u32 == 0x38u32);
    assert(crc_register(d.take(8)) == 0x651f2550u32);
    assert(d.take(9).drop_last() =~= d.take(8) && d.take(9).last() == 0x39u8);
    assert(0x39u8 as u32 == 0x39u32);
    assert(crc_register(d.take(9)) == 0x340bc6d9u32);
    assert(d.take(9) =~= d);
    assert(!0x340bc6d9u32 == 0xcbf4_3926u32) by (bit_vector);
}

} // verus!
