//! PNG's CRC-32 (IEEE, reflected polynomial `0xEDB88320`).
use vstd::prelude::*;

verus! {

/// One step of the reflected division: drops the lowest bit of the remainder
/// and subtracts the polynomial where that bit was set.
pub open spec fn crc_bit(c: u32) -> u32 {
    if c & 1 != 0 {
        (c >> 1) ^ 0xEDB8_8320
    } else {
        c >> 1
    }
}

/// `n` steps of the division.
pub open spec fn crc_bits(c: u32, n: nat) -> u32
    decreases n,
{
    if n == 0 {
        c
    } else {
        crc_bit(crc_bits(c, (n - 1) as nat))
    }
}

/// The remainder after the bytes of `s`, when it was `c` before them.
pub open spec fn crc_remainder(c: u32, s: Seq<u8>) -> u32
    decreases s.len(),
{
    if s.len() == 0 {
        c
    } else {
        crc_bits(crc_remainder(c, s.drop_last()) ^ (s.last() as u32), 8)
    }
}

/// The CRC-32 of `s`.
pub open spec fn crc32_of(s: Seq<u8>) -> u32 {
    !crc_remainder(0xFFFF_FFFF, s)
}

/// The CRC-32 of `bytes`.
///
/// Bitwise rather than table-driven: the only input is a palette chunk, so a
/// lookup table would cost more cache than it saves.
pub fn crc32(bytes: &[u8]) -> (r: u32)
    ensures
        r == crc32_of(bytes@),
{
    let mut crc: u32 = 0xFFFF_FFFF;
    let mut i: usize = 0;
    while i < bytes.len()
        invariant
            i <= bytes@.len(),
            crc == crc_remainder(0xFFFF_FFFF, bytes@.take(i as int)),
        decreases bytes@.len() - i,
    {
        let ghost seen = bytes@.take(i as int);
        crc = crc ^ (bytes[i] as u32);
        let ghost start = crc;
        let mut k: u32 = 0;
        while k < 8
            invariant
                k <= 8,
                crc == crc_bits(start, k as nat),
            decreases 8 - k,
        {
            crc = if crc & 1 != 0 {
                (crc >> 1) ^ 0xEDB8_8320
            } else {
                crc >> 1
            };
            k = k + 1;
        }
        i = i + 1;
        proof {
            let now = bytes@.take(i as int);
            assert(now.drop_last() =~= seen);
            assert(now.last() == bytes@[i - 1]);
        }
    }
    assert(bytes@.take(i as int) =~= bytes@);
    !crc
}

} // verus!
