//! The error type of the archive layer.

use vstd::prelude::*;
use vstd::string::*;

use crate::codec::error::{CodecError, CodecTrouble};
use crate::codecs::text::{append_decimal, append_wide, decimal, digit};

verus! {

/// The kind of a failure of input or output.
#[non_exhaustive]
#[derive(Debug, Clone, Copy, PartialEq, Eq, Structural)]
pub enum IoErrorKind {
    /// A request that cannot be carried out.
    InvalidInput,
    /// Input that ends too early.
    UnexpectedEof,
}

/// A failure of input or output.
#[derive(Debug)]
pub struct IoError {
    pub kind: IoErrorKind,
    pub message: String,
}

/// What is known of bytes that are not UTF-8: how many of them are, and how many of the next
/// are in the way. Where the bytes end within a character, none are.
#[verifier::ext_equal]
pub struct Utf8Detail {
    pub bytes: Seq<u8>,
    pub valid_up_to: usize,
    pub error_len: Option<usize>,
}

impl Utf8Detail {
    /// The description of the failure.
    pub open spec fn text(self) -> Seq<char> {
        match self.error_len {
            Some(length) => "invalid utf-8 sequence of "@ + decimal(length as nat)
                + " bytes from index "@ + decimal(self.valid_up_to as nat),
            None => "incomplete utf-8 byte sequence from index "@ + decimal(
                self.valid_up_to as nat,
            ),
        }
    }
}

/// Bytes that are not UTF-8.
#[derive(Debug)]
pub struct Utf8Failure {
    bytes: Vec<u8>,
    valid_up_to: usize,
    error_len: Option<usize>,
}

impl View for Utf8Failure {
    type V = Utf8Detail;

    closed spec fn view(&self) -> Utf8Detail {
        Utf8Detail {
            bytes: self.bytes@,
            valid_up_to: self.valid_up_to,
            error_len: self.error_len,
        }
    }
}

impl Utf8Failure {
    pub fn new(bytes: Vec<u8>, valid_up_to: usize, error_len: Option<usize>) -> (failure: Utf8Failure)
        ensures
            failure@ == (Utf8Detail { bytes: bytes@, valid_up_to, error_len }),
    {
        Utf8Failure { bytes, valid_up_to, error_len }
    }

    /// The bytes.
    pub fn as_bytes(&self) -> (bytes: &[u8])
        ensures
            bytes@ == self@.bytes,
    {
        self.bytes.as_slice()
    }

    /// How many bytes are UTF-8.
    pub fn valid_up_to(&self) -> (length: usize)
        ensures
            length == self@.valid_up_to,
    {
        self.valid_up_to
    }

    /// How many bytes behind those are in the way; none where the bytes end too early.
    pub fn error_len(&self) -> (length: Option<usize>)
        ensures
            length == self@.error_len,
    {
        self.error_len
    }

    /// The human-readable description of the failure.
    pub fn message(&self) -> (text: String)
        ensures
            text@ == self@.text(),
    {
        match self.error_len {
            Some(length) => {
                let mut text = "invalid utf-8 sequence of ".to_owned();
                append_decimal(&mut text, length);
                text.append(" bytes from index ");
                append_decimal(&mut text, self.valid_up_to);
                text
            },
            None => {
                let mut text = "incomplete utf-8 byte sequence from index ".to_owned();
                append_decimal(&mut text, self.valid_up_to);
                text
            },
        }
    }
}

/// What a [`DzipError`] says.
pub enum Trouble {
    Io { kind: IoErrorKind, text: Seq<char> },
    InvalidHeader,
    UnsupportedVersion(u8),
    Utf8(Utf8Detail),
    UnsupportedCompression(u16),
    InvalidDz(Seq<char>),
    VolumeNotFound(u16),
    VolumeOpenError(u16, Seq<char>),
    Codec(CodecTrouble),
    InvalidArchive(Seq<char>),
    LimitExceeded { resource: Seq<char>, limit: u64, actual: u64 },
    EntryNotFound(Seq<char>),
}

/// An error of the archive layer.
#[non_exhaustive]
#[derive(Debug)]
pub enum DzipError {
    Io(IoError),
    InvalidHeader,
    UnsupportedVersion(u8),
    /// A name is not UTF-8.
    Utf8(Utf8Failure),
    UnsupportedCompression(u16),
    InvalidDz(String),
    VolumeNotFound(u16),
    VolumeOpenError(u16, String),
    Codec(CodecError),
    InvalidArchive(String),
    LimitExceeded { resource: &'static str, limit: u64, actual: u64 },
    EntryNotFound(String),
}

impl View for DzipError {
    type V = Trouble;

    open spec fn view(&self) -> Trouble {
        match self {
            DzipError::Io(error) => Trouble::Io { kind: error.kind, text: error.message@ },
            DzipError::InvalidHeader => Trouble::InvalidHeader,
            DzipError::UnsupportedVersion(version) => Trouble::UnsupportedVersion(*version),
            DzipError::Utf8(failure) => Trouble::Utf8(failure@),
            DzipError::UnsupportedCompression(flags) => Trouble::UnsupportedCompression(*flags),
            DzipError::InvalidDz(text) => Trouble::InvalidDz(text@),
            DzipError::VolumeNotFound(volume) => Trouble::VolumeNotFound(*volume),
            DzipError::VolumeOpenError(volume, text) => Trouble::VolumeOpenError(*volume, text@),
            DzipError::Codec(error) => Trouble::Codec(error@),
            DzipError::InvalidArchive(text) => Trouble::InvalidArchive(text@),
            DzipError::LimitExceeded { resource, limit, actual } => Trouble::LimitExceeded {
                resource: resource@,
                limit: *limit,
                actual: *actual,
            },
            DzipError::EntryNotFound(text) => Trouble::EntryNotFound(text@),
        }
    }
}

/// A hexadecimal digit.
pub open spec fn hex_digit(d: int) -> char {
    if d < 10 {
        (48 + d) as char
    } else {
        (87 + d) as char
    }
}

/// The hexadecimal notation of `n`, without leading zeros.
pub open spec fn hexadecimal(n: nat) -> Seq<char>
    decreases n,
{
    if n < 16 {
        seq![hex_digit(n as int)]
    } else {
        hexadecimal(n / 16).push(hex_digit((n % 16) as int))
    }
}

/// The description of an error.
pub open spec fn trouble_text(trouble: Trouble) -> Seq<char> {
    match trouble {
        Trouble::Io { kind: _, text } => "IO error: "@ + text,
        Trouble::InvalidHeader => "Invalid DTRZ header"@,
        Trouble::UnsupportedVersion(version) => "Unsupported version: "@ + decimal(version as nat),
        Trouble::Utf8(detail) => "UTF-8 error: "@ + detail.text(),
        Trouble::UnsupportedCompression(flags) => "Unsupported compression method: flags=0x"@
            + hexadecimal(flags as nat),
        Trouble::InvalidDz(text) => "Invalid DZ stream: "@ + text,
        Trouble::VolumeNotFound(volume) => "Volume "@ + decimal(volume as nat)
            + " not found in file list"@,
        Trouble::VolumeOpenError(volume, text) => "Failed to open volume "@ + decimal(
            volume as nat,
        ) + ": "@ + text,
        Trouble::Codec(error) => error.text(),
        Trouble::InvalidArchive(text) => "Invalid Dzip archive: "@ + text,
        Trouble::LimitExceeded { resource, limit, actual } => "Dzip "@ + resource
            + " limit exceeded: limit "@ + decimal(limit as nat) + ", actual "@ + decimal(
            actual as nat,
        ),
        Trouble::EntryNotFound(text) => "Archive entry not found: "@ + text,
    }
}

fn hex_text(d: u16) -> (text: &'static str)
    requires
        d < 16,
    ensures
        text@ == seq![hex_digit(d as int)],
{
    proof {
        reveal_strlit("0");
        reveal_strlit("1");
        reveal_strlit("2");
        reveal_strlit("3");
        reveal_strlit("4");
        reveal_strlit("5");
        reveal_strlit("6");
        reveal_strlit("7");
        reveal_strlit("8");
        reveal_strlit("9");
        reveal_strlit("a");
        reveal_strlit("b");
        reveal_strlit("c");
        reveal_strlit("d");
        reveal_strlit("e");
        reveal_strlit("f");
    }
    let text = match d {
        0 => "0",
        1 => "1",
        2 => "2",
        3 => "3",
        4 => "4",
        5 => "5",
        6 => "6",
        7 => "7",
        8 => "8",
        9 => "9",
        10 => "a",
        11 => "b",
        12 => "c",
        13 => "d",
        14 => "e",
        _ => "f",
    };
    assert(text@ =~= seq![hex_digit(d as int)]);
    text
}

fn append_hexadecimal(text: &mut String, n: u16)
    ensures
        final(text)@ == old(text)@ + hexadecimal(n as nat),
    decreases n,
{
    if n < 16 {
        text.append(hex_text(n));
    } else {
        append_hexadecimal(text, n / 16);
        text.append(hex_text(n % 16));
        assert(final(text)@ =~= old(text)@ + hexadecimal(n as nat));
    }
}

/// Two texts one behind the other.
fn joined(head: &str, tail: &str) -> (text: String)
    ensures
        text@ == head@ + tail@,
{
    let mut text = head.to_owned();
    text.append(tail);
    text
}

impl DzipError {
    /// The human-readable description of the error.
    pub fn message(&self) -> (text: String)
        ensures
            text@ == trouble_text(self@),
    {
        match self {
            DzipError::Io(inner) => joined("IO error: ", inner.message.as_str()),
            DzipError::InvalidHeader => "Invalid DTRZ header".to_owned(),
            DzipError::UnsupportedVersion(version) => {
                let mut text = "Unsupported version: ".to_owned();
                append_decimal(&mut text, *version as usize);
                text
            },
            DzipError::Utf8(failure) => joined("UTF-8 error: ", failure.message().as_str()),
            DzipError::UnsupportedCompression(flags) => {
                let mut text = "Unsupported compression method: flags=0x".to_owned();
                append_hexadecimal(&mut text, *flags);
                text
            },
            DzipError::InvalidDz(inner) => joined("Invalid DZ stream: ", inner.as_str()),
            DzipError::VolumeNotFound(volume) => {
                let mut text = "Volume ".to_owned();
                append_decimal(&mut text, *volume as usize);
                text.append(" not found in file list");
                text
            },
            DzipError::VolumeOpenError(volume, inner) => {
                let mut text = "Failed to open volume ".to_owned();
                append_decimal(&mut text, *volume as usize);
                text.append(": ");
                text.append(inner.as_str());
                text
            },
            DzipError::Codec(error) => error.message(),
            DzipError::InvalidArchive(inner) => joined("Invalid Dzip archive: ", inner.as_str()),
            DzipError::LimitExceeded { resource, limit, actual } => {
                let mut text = joined("Dzip ", resource);
                text.append(" limit exceeded: limit ");
                append_wide(&mut text, *limit);
                text.append(", actual ");
                append_wide(&mut text, *actual);
                text
            },
            DzipError::EntryNotFound(inner) => joined(
                "Archive entry not found: ",
                inner.as_str(),
            ),
        }
    }
}

/// The archive contradicts itself.
pub fn invalid_archive(text: &str) -> (error: DzipError)
    ensures
        error@ == Trouble::InvalidArchive(text@),
{
    DzipError::InvalidArchive(text.to_owned())
}

/// The archive contradicts itself at the thing with the given number.
pub fn invalid_archive_at(head: &str, number: u64, tail: &str) -> (error: DzipError)
    ensures
        error@ == Trouble::InvalidArchive(head@ + decimal(number as nat) + tail@),
{
    let mut text = head.to_owned();
    append_wide(&mut text, number);
    text.append(tail);
    DzipError::InvalidArchive(text)
}

/// The request cannot be carried out.
pub open spec fn refused(text: Seq<char>) -> Trouble {
    Trouble::Io { kind: IoErrorKind::InvalidInput, text }
}

/// The request cannot be carried out.
pub fn invalid_input(text: &str) -> (error: DzipError)
    ensures
        error@ == refused(text@),
{
    DzipError::Io(IoError { kind: IoErrorKind::InvalidInput, message: text.to_owned() })
}

/// The input ends too early.
pub open spec fn ended() -> Trouble {
    Trouble::Io { kind: IoErrorKind::UnexpectedEof, text: "failed to fill whole buffer"@ }
}

/// The input ends too early.
pub fn unexpected_end() -> (error: DzipError)
    ensures
        error@ == ended(),
{
    DzipError::Io(
        IoError {
            kind: IoErrorKind::UnexpectedEof,
            message: "failed to fill whole buffer".to_owned(),
        },
    )
}

/// Refuses what passes a limit.
pub fn check_limit(resource: &'static str, limit: u64, actual: u64) -> (result: Result<
    (),
    DzipError,
>)
    ensures
        match result {
            Ok(()) => actual <= limit,
            Err(error) => actual > limit && error@ == (Trouble::LimitExceeded {
                resource: resource@,
                limit,
                actual,
            }),
        },
{
    if actual > limit {
        return Err(DzipError::LimitExceeded { resource, limit, actual });
    }
    Ok(())
}

/// The result of a step, by what went wrong.
pub open spec fn told(result: Result<(), DzipError>, trouble: Option<Trouble>) -> bool {
    match trouble {
        None => result is Ok,
        Some(trouble) => result matches Err(error) && error@ == trouble,
    }
}

/// The number that hexadecimal digits stand for.
pub open spec fn hexadecimal_value(text: Seq<char>) -> int
    decreases text.len(),
{
    if text.len() == 0 {
        0
    } else {
        16 * hexadecimal_value(text.drop_last()) + (if text.last() <= '9' {
            text.last() as int - '0' as int
        } else {
            10 + text.last() as int - 'a' as int
        })
    }
}

/// The hexadecimal notation of a number stands for it, in small letters and without zeros in
/// front.
pub proof fn lemma_hexadecimal(n: nat)
    ensures
        hexadecimal_value(hexadecimal(n)) == n,
        hexadecimal(n).len() >= 1,
        n > 0 ==> hexadecimal(n)[0] != '0',
        forall|i: int|
            0 <= i < hexadecimal(n).len() ==> '0' <= #[trigger] hexadecimal(n)[i] <= '9' || 'a'
                <= hexadecimal(n)[i] <= 'f',
    decreases n,
{
    if n >= 16 {
        lemma_hexadecimal(n / 16);
        assert(hexadecimal(n).drop_last() =~= hexadecimal(n / 16));
    } else {
        assert(hexadecimal(n).drop_last() =~= Seq::<char>::empty());
        assert(hexadecimal_value(Seq::<char>::empty()) == 0);
    }
}

} // verus!
