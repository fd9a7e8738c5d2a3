//! The Adler-32 checksum of RFC 1950.

use vstd::prelude::*;

verus! {

/// The largest prime below `2^16`.
pub const MODULUS: u32 = 65521;

/// The two running sums behind `data`: of the bytes, and of the first sums.
pub open spec fn adler_sums(data: Seq<u8>) -> (int, int)
    decreases data.len(),
{
    if data.len() == 0 {
        (1, 0)
    } else {
        let (a, b) = adler_sums(data.drop_last());
        let next = (a + data.last()) % (MODULUS as int);
        (next, (b + next) % (MODULUS as int))
    }
}

/// The Adler-32 checksum of `data`.
pub open spec fn adler(data: Seq<u8>) -> u32 {
    let (a, b) = adler_sums(data);
    (b * 0x10000 + a) as u32
}

/// Computes the Adler-32 checksum.
pub fn adler32(input: &[u8]) -> (checksum: u32)
    ensures
        checksum == adler(input@),
{
    let mut a: u32 = 1;
    let mut b: u32 = 0;
    let mut i: usize = 0;
    assert(input@.take(0) =~= Seq::<u8>::empty());
    while i < input.len()
        invariant
            i <= input@.len(),
            a < MODULUS,
            b < MODULUS,
            (a as int, b as int) == adler_sums(input@.take(i as int)),
        decreases input.len() - i,
    {
        a += input[i] as u32;
        if a >= MODULUS {
            a -= MODULUS;
        }
        b += a;
        if b >= MODULUS {
            b -= MODULUS;
        }
        assert(input@.take(i + 1).drop_last() =~= input@.take(i as int));
        i += 1;
    }
    assert(input@.take(i as int) =~= input@);
    b * 0x10000 + a
}

} // verus!
