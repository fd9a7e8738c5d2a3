//! Compression choices and the flags that record them.

use vstd::prelude::*;
use vstd::string::*;

use crate::error::{DzipError, Trouble};
use crate::format::{
    CHUNK_BZIP, CHUNK_COMBUF, CHUNK_COPYCOMP, CHUNK_DZ, CHUNK_JPEG, CHUNK_LZMA, CHUNK_MP3,
    CHUNK_RANDOMACCESS, CHUNK_ZERO, CHUNK_ZLIB,
};

verus! {

/// A compression engine.
#[derive(Debug, Clone, Copy, PartialEq, Eq, Hash, Structural)]
pub enum Codec {
    Bzip,
    Zlib,
    Lzma,
    Dz,
}

impl Codec {
    /// The flag that records the engine.
    pub open spec fn bit(self) -> u16 {
        match self {
            Codec::Bzip => CHUNK_BZIP,
            Codec::Zlib => CHUNK_ZLIB,
            Codec::Lzma => CHUNK_LZMA,
            Codec::Dz => CHUNK_DZ,
        }
    }

    pub open spec fn label(self) -> Seq<char> {
        match self {
            Codec::Bzip => "bzip"@,
            Codec::Zlib => "zlib"@,
            Codec::Lzma => "lzma"@,
            Codec::Dz => "dz"@,
        }
    }

    /// The flag that records the engine.
    pub fn flag(self) -> (flag: u16)
        ensures
            flag == self.bit(),
    {
        match self {
            Codec::Bzip => CHUNK_BZIP,
            Codec::Zlib => CHUNK_ZLIB,
            Codec::Lzma => CHUNK_LZMA,
            Codec::Dz => CHUNK_DZ,
        }
    }

    pub fn name(self) -> (name: &'static str)
        ensures
            name@ == self.label(),
    {
        match self {
            Codec::Bzip => "bzip",
            Codec::Zlib => "zlib",
            Codec::Lzma => "lzma",
            Codec::Dz => "dz",
        }
    }
}

/// How an archive entry is stored.
#[derive(Debug, Clone, Copy, PartialEq, Eq, Hash, Structural)]
pub enum Compression {
    Copy,
    Zero,
    Bzip,
    Zlib,
    Lzma,
    Dz,
}

impl Compression {
    /// The engine behind the choice, if there is one.
    pub open spec fn engine(self) -> Option<Codec> {
        match self {
            Compression::Copy | Compression::Zero => None,
            Compression::Bzip => Some(Codec::Bzip),
            Compression::Zlib => Some(Codec::Zlib),
            Compression::Lzma => Some(Codec::Lzma),
            Compression::Dz => Some(Codec::Dz),
        }
    }

    /// The flag that records the choice.
    pub open spec fn bit(self) -> u16 {
        match self {
            Compression::Copy => CHUNK_COPYCOMP,
            Compression::Zero => CHUNK_ZERO,
            Compression::Bzip => CHUNK_BZIP,
            Compression::Zlib => CHUNK_ZLIB,
            Compression::Lzma => CHUNK_LZMA,
            Compression::Dz => CHUNK_DZ,
        }
    }

    pub open spec fn label(self) -> Seq<char> {
        match self {
            Compression::Copy => "copy"@,
            Compression::Zero => "zero"@,
            Compression::Bzip => "bzip"@,
            Compression::Zlib => "zlib"@,
            Compression::Lzma => "lzma"@,
            Compression::Dz => "dz"@,
        }
    }

    /// The choice that a name stands for, in any mixture of cases.
    pub open spec fn named(name: Seq<char>) -> Option<Compression> {
        let name = lowered(name);
        if name == "copy"@ {
            Some(Compression::Copy)
        } else if name == "zero"@ {
            Some(Compression::Zero)
        } else if name == "bzip"@ || name == "bzip2"@ {
            Some(Compression::Bzip)
        } else if name == "zlib"@ {
            Some(Compression::Zlib)
        } else if name == "lzma"@ {
            Some(Compression::Lzma)
        } else if name == "dz"@ {
            Some(Compression::Dz)
        } else {
            None
        }
    }

    /// The engine behind the choice, if there is one.
    pub fn codec(self) -> (codec: Option<Codec>)
        ensures
            codec == self.engine(),
    {
        match self {
            Compression::Copy | Compression::Zero => None,
            Compression::Bzip => Some(Codec::Bzip),
            Compression::Zlib => Some(Codec::Zlib),
            Compression::Lzma => Some(Codec::Lzma),
            Compression::Dz => Some(Codec::Dz),
        }
    }

    /// The flag that records the choice.
    pub fn flag(self) -> (flag: u16)
        ensures
            flag == self.bit(),
    {
        match self {
            Compression::Copy => CHUNK_COPYCOMP,
            Compression::Zero => CHUNK_ZERO,
            Compression::Bzip => CHUNK_BZIP,
            Compression::Zlib => CHUNK_ZLIB,
            Compression::Lzma => CHUNK_LZMA,
            Compression::Dz => CHUNK_DZ,
        }
    }

    pub fn name(self) -> (name: &'static str)
        ensures
            name@ == self.label(),
    {
        match self {
            Compression::Copy => "copy",
            Compression::Zero => "zero",
            Compression::Bzip => "bzip",
            Compression::Zlib => "zlib",
            Compression::Lzma => "lzma",
            Compression::Dz => "dz",
        }
    }

    /// The choice that uses an engine.
    pub fn of_codec(codec: Codec) -> (compression: Compression)
        ensures
            compression.engine() == Some(codec),
    {
        match codec {
            Codec::Bzip => Compression::Bzip,
            Codec::Zlib => Compression::Zlib,
            Codec::Lzma => Compression::Lzma,
            Codec::Dz => Compression::Dz,
        }
    }

    /// The choice that a name stands for, in any mixture of cases.
    pub fn parse(value: &str) -> (result: Result<Compression, ParseCompressionError>)
        ensures
            match Compression::named(value@) {
                Some(compression) => result matches Ok(got) && got == compression,
                None => result matches Err(error) && error.value@ == value@,
            },
    {
        if same_name(value, "copy") {
            Ok(Compression::Copy)
        } else if same_name(value, "zero") {
            Ok(Compression::Zero)
        } else if same_name(value, "bzip") || same_name(value, "bzip2") {
            Ok(Compression::Bzip)
        } else if same_name(value, "zlib") {
            Ok(Compression::Zlib)
        } else if same_name(value, "lzma") {
            Ok(Compression::Lzma)
        } else if same_name(value, "dz") {
            Ok(Compression::Dz)
        } else {
            Err(ParseCompressionError { value: value.to_owned() })
        }
    }
}

impl core::str::FromStr for Compression {
    type Err = ParseCompressionError;

    fn from_str(value: &str) -> (result: Result<Compression, ParseCompressionError>) {
        Compression::parse(value)
    }
}

/// A name that stands for no choice.
#[derive(Debug, Clone, PartialEq, Eq)]
pub struct ParseCompressionError {
    pub value: String,
}

impl ParseCompressionError {
    /// The human-readable description of the error.
    pub fn message(&self) -> (text: String)
        ensures
            text@ == "unknown Dzip compression strategy: "@ + self.value@,
    {
        let mut text = "unknown Dzip compression strategy: ".to_owned();
        text.append(self.value.as_str());
        text
    }
}

/// A letter in lower case.
pub open spec fn lower(c: char) -> char {
    if 'A' <= c <= 'Z' {
        (c as u32 + 32) as char
    } else {
        c
    }
}

pub open spec fn lowered(name: Seq<char>) -> Seq<char> {
    Seq::new(name.len(), |i: int| lower(name[i]))
}

/// Tells whether a text in lower case is the given name.
fn same_name(value: &str, name: &str) -> (same: bool)
    ensures
        same == (lowered(value@) == name@),
{
    let size: usize = value.unicode_len();
    if size != name.unicode_len() {
        return false;
    }
    let mut i: usize = 0;
    while i < size
        invariant
            i <= size,
            size == value@.len(),
            size == name@.len(),
            forall|k: int| 0 <= k < i ==> lower(value@[k]) == #[trigger] name@[k],
        decreases size - i,
    {
        let c: char = value.get_char(i);
        let c: char = if 'A' <= c && c <= 'Z' {
            (c as u8 + 32) as char
        } else {
            c
        };
        if c != name.get_char(i) {
            assert(lowered(value@)[i as int] != name@[i as int]);
            return false;
        }
        i += 1;
    }
    assert(lowered(value@) =~= name@);
    true
}

/// What the decoded bytes are.
#[derive(Debug, Clone, Copy, PartialEq, Eq, Hash, Structural)]
pub enum ContentHint {
    Mp3,
    Jpeg,
    /// Both flags are set.
    Mp3AndJpeg,
}

impl ContentHint {
    /// The flags that record the hint.
    pub open spec fn bits(self) -> u16 {
        match self {
            ContentHint::Mp3 => 0x20,
            ContentHint::Jpeg => 0x40,
            ContentHint::Mp3AndJpeg => 0x60,
        }
    }

    /// The flags that record the hint.
    pub fn flags(self) -> (flags: u16)
        ensures
            flags == self.bits(),
    {
        match self {
            ContentHint::Mp3 => 0x20,
            ContentHint::Jpeg => 0x40,
            ContentHint::Mp3AndJpeg => 0x60,
        }
    }
}

/// All flags with a meaning.
pub const KNOWN_FLAGS: u16 = 0x7fd;

/// The flags that select how a chunk is stored.
pub const STORAGE_FLAGS: u16 = 0x39c;

/// The meaning of the flags of a chunk.
#[derive(Debug, Clone, Copy, PartialEq, Eq, Structural)]
pub struct ChunkEncoding {
    pub compression: Compression,
    pub random_access: bool,
    pub common_buffer: bool,
    pub content_hint: Option<ContentHint>,
    pub unknown_flags: u16,
}

/// The way of storing that the flags select; of several, the one whose coder is asked first.
pub open spec fn registered(flags: u16) -> Option<Compression> {
    if flags & CHUNK_ZERO != 0 {
        Some(Compression::Zero)
    } else if flags & CHUNK_BZIP != 0 {
        Some(Compression::Bzip)
    } else if flags & CHUNK_COPYCOMP != 0 {
        Some(Compression::Copy)
    } else if flags & CHUNK_ZLIB != 0 {
        Some(Compression::Zlib)
    } else if flags & CHUNK_LZMA != 0 {
        Some(Compression::Lzma)
    } else if flags & CHUNK_DZ != 0 {
        Some(Compression::Dz)
    } else {
        None
    }
}

/// What the flags say of the decoded bytes.
pub open spec fn hint_of(flags: u16) -> Option<ContentHint> {
    if flags & CHUNK_MP3 != 0 && flags & CHUNK_JPEG != 0 {
        Some(ContentHint::Mp3AndJpeg)
    } else if flags & CHUNK_MP3 != 0 {
        Some(ContentHint::Mp3)
    } else if flags & CHUNK_JPEG != 0 {
        Some(ContentHint::Jpeg)
    } else {
        None
    }
}

/// The meaning of the flags of a chunk, if they select a way of storing.
pub open spec fn meaning(flags: u16) -> Option<ChunkEncoding> {
    match registered(flags) {
        None => None,
        Some(compression) => Some(
            ChunkEncoding {
                compression,
                random_access: flags & CHUNK_RANDOMACCESS != 0,
                common_buffer: flags & CHUNK_COMBUF != 0,
                content_hint: hint_of(flags),
                unknown_flags: flags & !KNOWN_FLAGS,
            },
        ),
    }
}

/// The flags that record a meaning.
pub open spec fn flags_of(encoding: ChunkEncoding) -> u16 {
    encoding.compression.bit() | encoding.unknown_flags | (if encoding.random_access {
        CHUNK_RANDOMACCESS
    } else {
        0
    }) | (if encoding.common_buffer {
        CHUNK_COMBUF
    } else {
        0
    }) | (match encoding.content_hint {
        Some(hint) => hint.bits(),
        None => 0,
    })
}

/// Flags that select one way of storing are what their meaning is recorded by.
pub proof fn lemma_flags_round_trip(flags: u16)
    requires
        registered(flags) matches Some(compression) && flags & STORAGE_FLAGS == compression.bit(),
    ensures
        flags_of(meaning(flags)->Some_0) == flags,
{
    let encoding = meaning(flags)->Some_0;
    let a = encoding.compression.bit();
    let b = encoding.unknown_flags;
    let c: u16 = if encoding.random_access {
        CHUNK_RANDOMACCESS
    } else {
        0
    };
    let d: u16 = if encoding.common_buffer {
        CHUNK_COMBUF
    } else {
        0
    };
    let e: u16 = match encoding.content_hint {
        Some(hint) => hint.bits(),
        None => 0,
    };
    assert(c == flags & 0x400) by {
        assert(flags & 0x400 == 0 || flags & 0x400 == 0x400) by (bit_vector);
    }
    assert(d == flags & 0x1) by {
        assert(flags & 0x1 == 0 || flags & 0x1 == 0x1) by (bit_vector);
    }
    assert(e == flags & 0x60) by {
        assert((flags & 0x20 == 0 || flags & 0x20 == 0x20) && (flags & 0x40 == 0 || flags & 0x40
            == 0x40) && (flags & 0x20) | (flags & 0x40) == flags & 0x60 && 0x20u16 | 0x40u16
            == 0x60u16 && 0u16 | 0x40u16 == 0x40 && 0x20u16 | 0u16 == 0x20 && 0u16 | 0u16 == 0u16)
            by (bit_vector);
    }
    assert((flags & 0x39c) | (flags & !0x7fdu16) | (flags & 0x400) | (flags & 0x1) | (flags & 0x60)
        == flags) by (bit_vector);
}

/// The flags that record a meaning say just that, unless they contradict the meaning by way of
/// the unknown flags.
pub proof fn lemma_encoding_round_trip(encoding: ChunkEncoding)
    requires
        encoding.unknown_flags & KNOWN_FLAGS == 0,
    ensures
        meaning(flags_of(encoding)) == Some(encoding),
{
    let u = encoding.unknown_flags;
    let a = encoding.compression.bit();
    let c: u16 = if encoding.random_access {
        CHUNK_RANDOMACCESS
    } else {
        0
    };
    let d: u16 = if encoding.common_buffer {
        CHUNK_COMBUF
    } else {
        0
    };
    let e: u16 = match encoding.content_hint {
        Some(hint) => hint.bits(),
        None => 0,
    };
    let f = a | u | c | d | e;
    assert(flags_of(encoding) == f);
    assert(u & 0x7fd == 0 && (a == 0x100 || a == 0x80 || a == 0x10 || a == 0x8 || a == 0x200 || a
        == 0x4) && (c == 0x400 || c == 0) && (d == 1 || d == 0) && (e == 0x20 || e == 0x40 || e
        == 0x60 || e == 0));
    assert(f & 0x80 == a & 0x80 && f & 0x10 == a & 0x10 && f & 0x100 == a & 0x100 && f & 0x8 == a
        & 0x8 && f & 0x200 == a & 0x200 && f & 0x4 == a & 0x4 && f & 0x400 == c && f & 0x1 == d
        && f & 0x20 == e & 0x20 && f & 0x40 == e & 0x40 && f & !0x7fdu16 == u) by (bit_vector)
        requires
            f == a | u | c | d | e,
            u & 0x7fd == 0,
            a == 0x100 || a == 0x80 || a == 0x10 || a == 0x8 || a == 0x200 || a == 0x4,
            c == 0x400 || c == 0,
            d == 1 || d == 0,
            e == 0x20 || e == 0x40 || e == 0x60 || e == 0,
    ;
    assert(0x100u16 & 0x80 == 0 && 0x100u16 & 0x10 == 0 && 0x100u16 & 0x100 == 0x100 && 0x80u16
        & 0x80 == 0x80 && 0x10u16 & 0x80 == 0 && 0x10u16 & 0x10 == 0x10 && 0x8u16 & 0x80 == 0
        && 0x8u16 & 0x10 == 0 && 0x8u16 & 0x100 == 0 && 0x8u16 & 0x8 == 0x8 && 0x200u16 & 0x80 == 0
        && 0x200u16 & 0x10 == 0 && 0x200u16 & 0x100 == 0 && 0x200u16 & 0x8 == 0 && 0x200u16
        & 0x200 == 0x200 && 0x4u16 & 0x80 == 0 && 0x4u16 & 0x10 == 0 && 0x4u16 & 0x100 == 0
        && 0x4u16 & 0x8 == 0 && 0x4u16 & 0x200 == 0 && 0x4u16 & 0x4 == 0x4 && 0x20u16 & 0x20 == 0x20
        && 0x20u16 & 0x40 == 0 && 0x40u16 & 0x20 == 0 && 0x40u16 & 0x40 == 0x40 && 0x60u16 & 0x20
        == 0x20 && 0x60u16 & 0x40 == 0x40 && 0u16 & 0x20 == 0 && 0u16 & 0x40 == 0) by (bit_vector);
}

impl ChunkEncoding {
    /// The meaning of the flags of a chunk.
    pub fn from_flags(flags: u16) -> (result: Result<ChunkEncoding, DzipError>)
        ensures
            match meaning(flags) {
                Some(encoding) => result matches Ok(got) && got == encoding,
                None => result matches Err(error) && error@ == Trouble::UnsupportedCompression(
                    flags,
                ),
            },
    {
        let compression = match crate::compat::registered_compression(flags) {
            Some(compression) => compression,
            None => return Err(DzipError::UnsupportedCompression(flags)),
        };
        let mp3: bool = flags & CHUNK_MP3 != 0;
        let jpeg: bool = flags & CHUNK_JPEG != 0;
        let content_hint = if mp3 && jpeg {
            Some(ContentHint::Mp3AndJpeg)
        } else if mp3 {
            Some(ContentHint::Mp3)
        } else if jpeg {
            Some(ContentHint::Jpeg)
        } else {
            None
        };
        Ok(
            ChunkEncoding {
                compression,
                random_access: flags & CHUNK_RANDOMACCESS != 0,
                common_buffer: flags & CHUNK_COMBUF != 0,
                content_hint,
                unknown_flags: flags & !KNOWN_FLAGS,
            },
        )
    }

    /// The flags that record the meaning.
    pub fn to_flags(self) -> (flags: u16)
        ensures
            flags == flags_of(self),
    {
        let random_access: u16 = if self.random_access {
            CHUNK_RANDOMACCESS
        } else {
            0
        };
        let common_buffer: u16 = if self.common_buffer {
            CHUNK_COMBUF
        } else {
            0
        };
        let hint: u16 = match self.content_hint {
            Some(hint) => hint.flags(),
            None => 0,
        };
        self.compression.flag() | self.unknown_flags | random_access | common_buffer | hint
    }
}

} // verus!
