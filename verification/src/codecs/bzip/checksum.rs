//! The cyclic redundancy checks of BZip2.

use vstd::prelude::*;

verus! {

/// The remainder after one more bit.
pub open spec fn crc_bit(crc: u32) -> u32 {
    if crc >= 0x8000_0000 {
        (crc << 1u32) ^ 0x04c1_1db7u32
    } else {
        crc << 1u32
    }
}

/// The remainder after `n` more bits.
pub open spec fn crc_bits(crc: u32, n: nat) -> u32
    decreases n,
{
    if n == 0 {
        crc
    } else {
        crc_bit(crc_bits(crc, (n - 1) as nat))
    }
}

/// The remainder behind `data`.
pub open spec fn crc_remainder(data: Seq<u8>) -> u32
    decreases data.len(),
{
    if data.len() == 0 {
        0xffff_ffff
    } else {
        crc_bits(crc_remainder(data.drop_last()) ^ ((data.last() as u32) << 24u32), 8)
    }
}

/// The CRC of a block.
pub open spec fn crc(data: Seq<u8>) -> u32 {
    !crc_remainder(data)
}

/// The CRC of a stream after one more block.
pub open spec fn combined(stream: u32, block: u32) -> u32 {
    ((stream << 1u32) | (stream >> 31u32)) ^ block
}

/// Computes the CRC of a block.
pub fn crc32(input: &[u8]) -> (checksum: u32)
    ensures
        checksum == crc(input@),
{
    let mut remainder: u32 = 0xffff_ffff;
    let mut i: usize = 0;
    assert(input@.take(0) =~= Seq::<u8>::empty());
    while i < input.len()
        invariant
            i <= input@.len(),
            remainder == crc_remainder(input@.take(i as int)),
        decreases input.len() - i,
    {
        let start: u32 = remainder ^ ((input[i] as u32) << 24u32);
        remainder = start;
        let mut bit: usize = 0;
        while bit < 8
            invariant
                bit <= 8,
                remainder == crc_bits(start, bit as nat),
            decreases 8 - bit,
        {
            remainder =
            if remainder >= 0x8000_0000 {
                (remainder << 1u32) ^ 0x04c1_1db7u32
            } else {
                remainder << 1u32
            };
            bit += 1;
        }
        assert(input@.take(i + 1).drop_last() =~= input@.take(i as int));
        i += 1;
    }
    assert(input@.take(i as int) =~= input@);
    !remainder
}

/// Computes the CRC of a stream after one more block.
pub fn combine(stream: u32, block: u32) -> (checksum: u32)
    ensures
        checksum == combined(stream, block),
{
    ((stream << 1u32) | (stream >> 31u32)) ^ block
}

} // verus!
