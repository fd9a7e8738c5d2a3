//! Encoder properties by level, and how they are recorded.

use vstd::prelude::*;

use crate::codecs::lzma::options::{property_bytes, LzmaProps};

verus! {

/// The smallest dictionary, however small the input.
pub const REDUCE_MIN: u32 = 4096;

/// The dictionary of a level.
pub open spec fn level_dictionary(level: u32) -> u32 {
    if level == 0 {
        0x1_0000
    } else if level == 1 {
        0x4_0000
    } else if level == 2 {
        0x10_0000
    } else if level == 3 {
        0x40_0000
    } else if level == 4 {
        0x80_0000
    } else if level == 5 {
        0x100_0000
    } else if level <= 7 {
        0x200_0000
    } else {
        0x400_0000
    }
}

/// The dictionary of a level, no larger than the input needs.
pub open spec fn reduced_dictionary(level: u32, reduce_size: u32) -> u32 {
    let least = if reduce_size < REDUCE_MIN {
        REDUCE_MIN
    } else {
        reduce_size
    };
    if level_dictionary(level) > least {
        least
    } else {
        level_dictionary(level)
    }
}

/// The properties of a level.
pub open spec fn level_props(level: u32, reduce_size: u32) -> LzmaProps {
    LzmaProps {
        lc: 3,
        lp: 0,
        pb: 2,
        dict_size: reduced_dictionary(level, reduce_size),
        fb: if level < 7 {
            32
        } else {
            64
        },
        mc: if level < 7 {
            32
        } else {
            48
        },
    }
}

/// The numbers that dictionaries below 2 MiB are rounded to: powers of two, and powers of two
/// times three.
pub open spec fn step_size(i: nat) -> int
    decreases i,
{
    if i == 0 {
        4096
    } else if i == 1 {
        6144
    } else {
        2 * step_size((i - 2) as nat)
    }
}

/// The first of these numbers from number `i` on that is large enough.
pub open spec fn rounded_from(size: u32, i: nat) -> int
    decreases 40 - i,
{
    if step_size(i) >= size || i >= 40 {
        step_size(i)
    } else {
        rounded_from(size, i + 1)
    }
}

/// The dictionary as it is recorded: rounded up.
pub open spec fn recorded_dictionary(size: u32) -> u32 {
    if size >= 0x20_0000 {
        let up = (size + 0xf_ffff) / 0x10_0000 * 0x10_0000;
        if up > u32::MAX {
            size
        } else {
            up as u32
        }
    } else {
        rounded_from(size, 0) as u32
    }
}

proof fn lemma_step_size(i: nat)
    ensures
        4096 <= step_size(i),
        i % 2 == 0 ==> step_size(i + 1) * 2 == step_size(i) * 3,
        i % 2 == 1 ==> step_size(i + 1) * 3 == step_size(i) * 4,
        i <= 18 ==> step_size(i) <= 0x20_0000,
        i == 18 ==> step_size(i) == 0x20_0000,
    decreases i,
{
    if i >= 2 {
        lemma_step_size((i - 2) as nat);
    } else {
        assert(step_size(2) == 2 * step_size(0));
    }
    if i <= 18 {
        lemma_step_bound(i);
    }
}

proof fn lemma_step_bound(i: nat)
    requires
        i <= 18,
    ensures
        step_size(i) <= 0x20_0000,
        i == 18 ==> step_size(i) == 0x20_0000,
{
    assert(step_size(0) == 4096);
    assert(step_size(1) == 6144);
    assert(step_size(2) == 8192);
    assert(step_size(3) == 12288);
    assert(step_size(4) == 16384);
    assert(step_size(5) == 24576);
    assert(step_size(6) == 32768);
    assert(step_size(7) == 49152);
    assert(step_size(8) == 65536);
    assert(step_size(9) == 98304);
    assert(step_size(10) == 131072);
    assert(step_size(11) == 196608);
    assert(step_size(12) == 262144);
    assert(step_size(13) == 393216);
    assert(step_size(14) == 524288);
    assert(step_size(15) == 786432);
    assert(step_size(16) == 1048576);
    assert(step_size(17) == 1572864);
    assert(step_size(18) == 2097152);
}

proof fn lemma_rounded_from(size: u32, i: nat)
    requires
        i <= 18,
        size < 0x20_0000,
    ensures
        size <= rounded_from(size, i) <= 0x20_0000,
        rounded_from(size, i) >= 4096,
    decreases 18 - i,
{
    lemma_step_size(i);
    if step_size(i) < size {
        lemma_rounded_from(size, i + 1);
    }
}

/// A recorded dictionary is large enough.
pub proof fn lemma_recorded_dictionary(size: u32)
    ensures
        recorded_dictionary(size) >= size,
        recorded_dictionary(size) >= 4096,
{
    if size < 0x20_0000 {
        lemma_rounded_from(size, 0);
    }
}

/// The dictionary as it is recorded: rounded up.
pub fn recorded_size(size: u32) -> (recorded: u32)
    ensures
        recorded == recorded_dictionary(size),
{
    if size >= 0x20_0000 {
        let up: u64 = (size as u64 + 0xf_ffff) / 0x10_0000 * 0x10_0000;
        if up > u32::MAX as u64 {
            size
        } else {
            up as u32
        }
    } else {
        proof {
            lemma_rounded_from(size, 0);
        }
        let mut even: u32 = 4096;
        let mut odd: u32 = 6144;
        let mut i: u32 = 0;
        let ghost whole = rounded_from(size, 0);
        while even < size
            invariant
                size < 0x20_0000,
                i <= 18,
                even == step_size(i as nat),
                odd == step_size((i + 1) as nat),
                whole == rounded_from(size, i as nat),
                whole == rounded_from(size, 0),
                even <= 0x20_0000,
                odd <= 0x30_0000,
            ensures
                even == whole,
            decreases 18 - i,
        {
            proof {
                lemma_step_size(i as nat);
                lemma_step_size((i + 1) as nat);
                lemma_step_bound((i + 1) as nat);
            }
            let next: u32 = 2 * even;
            even = odd;
            odd = next;
            i += 1;
        }
        even
    }
}

impl LzmaProps {
    /// The properties of a level for inputs of at most `reduce_size` bytes.
    pub fn for_level(level: u32, reduce_size: u32) -> (props: LzmaProps)
        ensures
            props == level_props(level, reduce_size),
            props.valid(),
    {
        let full: u32 = match level {
            0 => 0x1_0000,
            1 => 0x4_0000,
            2 => 0x10_0000,
            3 => 0x40_0000,
            4 => 0x80_0000,
            5 => 0x100_0000,
            6 | 7 => 0x200_0000,
            _ => 0x400_0000,
        };
        let least: u32 = if reduce_size < REDUCE_MIN {
            REDUCE_MIN
        } else {
            reduce_size
        };
        let (fb, mc): (u32, u32) = if level < 7 {
            (32, 32)
        } else {
            (64, 48)
        };
        LzmaProps {
            lc: 3,
            lp: 0,
            pb: 2,
            dict_size: if full > least {
                least
            } else {
                full
            },
            fb,
            mc,
        }
    }

    /// The properties for a hunk of the given size.
    pub fn chd_for_hunk(hunk_bytes: u32) -> (props: LzmaProps)
        ensures
            props == level_props(8, hunk_bytes),
            props.valid(),
            props.fb == 64,
            props.mc == 48,
            props.dict_size == (if hunk_bytes < 4096 {
                4096u32
            } else if hunk_bytes > 67108864 {
                67108864
            } else {
                hunk_bytes
            }),
    {
        LzmaProps::for_level(8, hunk_bytes)
    }

    /// The five bytes that record the properties, with the dictionary rounded up.
    pub fn decoder_props(&self) -> (bytes: [u8; 5])
        requires
            self.contexts_ok(),
        ensures
            bytes@ == property_bytes(
                LzmaProps { dict_size: recorded_dictionary(self.dict_size), ..*self },
            ),
    {
        let recorded: u32 = recorded_size(self.dict_size);
        let code: u8 = ((self.pb * 5 + self.lp) * 9 + self.lc) as u8;
        let bytes: [u8; 5] = [
            code,
            (recorded % 0x100) as u8,
            (recorded / 0x100 % 0x100) as u8,
            (recorded / 0x1_0000 % 0x100) as u8,
            (recorded / 0x100_0000) as u8,
        ];
        assert(bytes@ =~= property_bytes(
            LzmaProps { dict_size: recorded_dictionary(self.dict_size), ..*self },
        ));
        bytes
    }
}

} // verus!
