//! What holds of stored chunks.

use vstd::prelude::*;

use crate::codec::bzip::{bzip_chunk, bzip_content};
use crate::codec::error::CodecTrouble;
use crate::codec::flags::Compression;
use crate::codec::limits::CodecLimits;
use crate::codec::lzma::{
    chunk_properties, engine_content as lzma_engine_content, lemma_digits, little_endian, lzma_chunk,
    lzma_content, number_at,
};
use crate::codec::zlib::{engine_content, gzip_payload, zero_from, zlib_chunk, zlib_content};
use crate::codec::{chunk_content, limited_content, stored, DzSetup};
use crate::codecs::lzma::options::{properties_of, property_bytes};
use crate::codecs::zlib::deflate::deflate;
use crate::codecs::zlib::options::StreamFormat;
use crate::error::Trouble;

verus! {

/// Plain bytes are stored as they are, zeros as nothing, and come back as so many zeros; an empty
/// input of any of the others but BZip2 is stored as nothing and nothing decodes to it.
pub proof fn lemma_simple_chunks(
    input: Seq<u8>,
    expected: usize,
    setup: Option<DzSetup>,
    limits: CodecLimits,
)
    ensures
        stored(Compression::Copy, input) == Some(Ok::<Seq<u8>, CodecTrouble>(input)),
        stored(Compression::Zero, input) == Some(Ok::<Seq<u8>, CodecTrouble>(Seq::empty())),
        chunk_content(Compression::Copy, input, expected, setup, limits) == Ok::<Seq<u8>, Trouble>(
            input,
        ),
        chunk_content(Compression::Zero, input, expected, setup, limits) matches Ok(out)
            && out.len() == expected && forall|i: int| 0 <= i < expected ==> #[trigger] out[i] == 0,
        zlib_chunk(Seq::empty()) == Seq::<u8>::empty(),
        lzma_chunk(Seq::empty()) == Ok::<Seq<u8>, CodecTrouble>(Seq::empty()),
        zlib_content(Seq::empty(), 0, limits) == Ok::<Seq<u8>, CodecTrouble>(Seq::empty()),
        lzma_content(Seq::empty(), 0, limits) == Ok::<Seq<u8>, CodecTrouble>(Seq::empty()),
        bzip_content(Seq::empty(), 0, limits) == Ok::<Seq<u8>, CodecTrouble>(Seq::empty()),
{
}

/// A Zlib chunk: the ten bytes of a gzip header without name, time or further fields, and a raw
/// stream with nothing behind it.
pub proof fn lemma_gzip_written(input: Seq<u8>)
    requires
        input.len() > 0,
    ensures
        zlib_chunk(input) == seq![0x1fu8, 0x8b, 8, 0, 0, 0, 0, 0, 0, 11] + deflate(input),
        gzip_payload(zlib_chunk(input)) == Ok::<int, Seq<char>>(10),
{
    let data = zlib_chunk(input);
    assert(data[2] == 8 && data[3] == 0);
    assert(0u8 & 0xe0 == 0 && 0u8 & 0x04 == 0 && 0u8 & 0x08 == 0 && 0u8 & 0x10 == 0 && 0u8 & 0x02
        == 0) by (bit_vector);
}

/// The fields that a gzip header may have follow the ten bytes in this order: with flag 4 an extra
/// field behind its length in two bytes, lowest first; with flag 8 a name and with flag 16 a
/// comment, each up to a zero; with flag 2 two bytes of checksum.
pub proof fn lemma_gzip_fields(data: Seq<u8>)
    requires
        data.len() >= 10,
        data[2] == 8,
        data[3] & 0xe0 == 0,
    ensures
        data[3] == 0 ==> gzip_payload(data) == Ok::<int, Seq<char>>(10),
        data[3] == 4 && data.len() >= 12 && 12 + data[10] + 256 * data[11] <= data.len()
            ==> gzip_payload(data) == Ok::<int, Seq<char>>(12 + data[10] + 256 * data[11]),
        data[3] == 2 && data.len() >= 12 ==> gzip_payload(data) == Ok::<int, Seq<char>>(12),
        forall|n: int| #[trigger]
            text_up_to(data, 10, n) && (data[3] == 8 || data[3] == 16) ==> gzip_payload(data)
                == Ok::<int, Seq<char>>(n + 1),
        forall|n: int, m: int|
            #![trigger text_up_to(data, 10, n), text_up_to(data, n + 1, m)]
            text_up_to(data, 10, n) && text_up_to(data, n + 1, m) && data[3] == 24
                ==> gzip_payload(data) == Ok::<int, Seq<char>>(m + 1),
        forall|n: int| #[trigger]
            text_up_to(data, 10, n) && n + 3 <= data.len() && (data[3] == 10 || data[3] == 18)
                ==> gzip_payload(data) == Ok::<int, Seq<char>>(n + 3),
        forall|n: int| #[trigger]
            text_up_to(data, 12 + data[10] + 256 * data[11], n) && data.len() >= 12 && (data[3]
                == 12 || data[3] == 20) ==> gzip_payload(data) == Ok::<int, Seq<char>>(n + 1),
{
    assert(0u8 & 4 == 0 && 0u8 & 8 == 0 && 0u8 & 16 == 0 && 0u8 & 2 == 0 && 4u8 & 4 != 0 && 4u8 & 8
        == 0 && 4u8 & 16 == 0 && 4u8 & 2 == 0 && 2u8 & 4 == 0 && 2u8 & 8 == 0 && 2u8 & 16 == 0
        && 2u8 & 2 != 0 && 8u8 & 4 == 0 && 8u8 & 8 != 0 && 8u8 & 16 == 0 && 8u8 & 2 == 0 && 16u8 & 4
        == 0 && 16u8 & 8 == 0 && 16u8 & 16 != 0 && 16u8 & 2 == 0 && 24u8 & 4 == 0 && 24u8 & 8 != 0
        && 24u8 & 16 != 0 && 24u8 & 2 == 0 && 10u8 & 4 == 0 && 10u8 & 8 != 0 && 10u8 & 16 == 0
        && 10u8 & 2 != 0 && 18u8 & 4 == 0 && 18u8 & 8 == 0 && 18u8 & 16 != 0 && 18u8 & 2 != 0
        && 12u8 & 4 != 0 && 12u8 & 8 != 0 && 12u8 & 16 == 0 && 12u8 & 2 == 0 && 20u8 & 4 != 0
        && 20u8 & 8 == 0 && 20u8 & 16 != 0 && 20u8 & 2 == 0) by (bit_vector);
    assert forall|i: int, n: int| #[trigger] text_up_to(data, i, n) implies zero_from(data, i)
        == n by {
        lemma_zero_found(data, i, n);
    }
}

/// The text from `i` on ends with the zero at `n`.
pub open spec fn text_up_to(data: Seq<u8>, i: int, n: int) -> bool {
    &&& 0 <= i <= n < data.len()
    &&& data[n] == 0
    &&& forall|k: int| i <= k < n ==> #[trigger] data[k] != 0
}

proof fn lemma_zero_found(data: Seq<u8>, i: int, n: int)
    requires
        text_up_to(data, i, n),
    ensures
        zero_from(data, i) == n,
    decreases n - i,
{
    if i < n {
        assert(data[i] != 0);
        lemma_zero_found(data, i + 1, n);
    }
}

/// A Zlib chunk that begins with the two bytes of a gzip header holds a raw stream behind it, any
/// other a stream with a zlib frame.
pub proof fn lemma_zlib_kinds(data: Seq<u8>, expected: usize, limits: CodecLimits)
    requires
        data.len() >= 2,
    ensures
        data[0] == 0x1f && data[1] == 0x8b ==> (gzip_payload(data) matches Ok(i) ==> zlib_content(
            data,
            expected,
            limits,
        ) == engine_content(data.skip(i), expected, StreamFormat::RawDeflate, limits)),
        data[0] != 0x1f || data[1] != 0x8b ==> zlib_content(data, expected, limits)
            == engine_content(data, expected, StreamFormat::Zlib, limits),
{
}

/// An LZMA chunk: five property bytes, which are always the same, the length in eight bytes,
/// lowest first, and the stream.
pub proof fn lemma_lzma_written(input: Seq<u8>)
    requires
        input.len() > 0,
    ensures
        property_bytes(chunk_properties()) == seq![0x5du8, 0, 0, 1, 0],
        lzma_chunk(input) matches Ok(data) ==> {
            &&& data.len() >= 13
            &&& data.take(5) == seq![0x5du8, 0, 0, 1, 0]
            &&& input.len() <= u64::MAX ==> data[5] + 0x100 * data[6] + 0x1_0000 * data[7]
                + 0x100_0000 * data[8] + 0x1_0000_0000 * data[9] + 0x100_0000_0000 * data[10]
                + 0x1_0000_0000_0000 * data[11] + 0x100_0000_0000_0000 * data[12] == input.len()
            &&& crate::codecs::lzma::unlimited_encoding(input, chunk_properties()) == Ok::<
                Seq<u8>,
                crate::codecs::lzma::fault::Fault,
            >(data.skip(13))
        },
{
    assert(property_bytes(chunk_properties()) =~= seq![0x5du8, 0, 0, 1, 0]);
    if let Ok(data) = lzma_chunk(input) {
        let stream = crate::codecs::lzma::unlimited_encoding(input, chunk_properties())->Ok_0;
        assert(data.take(5) =~= seq![0x5du8, 0, 0, 1, 0]);
        assert(data.skip(13) =~= stream);
        if input.len() <= u64::MAX {
            let v = input.len() as u64;
            let b = little_endian(v);
            assert(data[5] == b[0] && data[6] == b[1] && data[7] == b[2] && data[8] == b[3]
                && data[9] == b[4] && data[10] == b[5] && data[11] == b[6] && data[12] == b[7]);
            lemma_digits(v as int);
        }
    }
}

/// Reading an LZMA chunk: 13 bytes of header, a length of all ones where it is not known, another
/// one only if it is the expected one, and then the stream.
pub proof fn lemma_lzma_read(data: Seq<u8>, expected: usize, limits: CodecLimits)
    requires
        data.len() >= 13,
    ensures
        ({
            let declared = data[5] + 0x100 * data[6] + 0x1_0000 * data[7] + 0x100_0000 * data[8]
                + 0x1_0000_0000 * data[9] + 0x100_0000_0000 * data[10] + 0x1_0000_0000_0000
                * data[11] + 0x100_0000_0000_0000 * data[12];
            &&& declared != expected && declared != 0xffff_ffff_ffff_ffff ==> lzma_content(
                data,
                expected,
                limits,
            ) is Err
            &&& declared == expected || declared == 0xffff_ffff_ffff_ffff ==> (data[0] < 225
                ==> lzma_content(data, expected, limits) == lzma_engine_content(
                data.skip(13),
                properties_of(data.take(5), 32, 32).with_dictionary(),
                expected,
                limits,
            ))
            &&& data[0] >= 225 ==> lzma_content(data, expected, limits) is Err
        }),
{
    assert(number_at(data, 5) == data[5] + 0x100 * data[6] + 0x1_0000 * data[7] + 0x100_0000
        * data[8] + 0x1_0000_0000 * data[9] + 0x100_0000_0000 * data[10] + 0x1_0000_0000_0000
        * data[11] + 0x100_0000_0000_0000 * data[12]);
}

/// A BZip2 chunk is a stream with blocks of the smallest size.
pub proof fn lemma_bzip_written(input: Seq<u8>)
    ensures
        bzip_chunk(input) matches Ok(data) ==> data == crate::codecs::bzip::engine::bzip_stream(
            input,
            1,
        ),
{
}

/// Chunks beyond the limits are refused before they are decoded.
pub proof fn lemma_limits(
    compression: Compression,
    data: Seq<u8>,
    expected: usize,
    setup: Option<DzSetup>,
    limits: CodecLimits,
)
    ensures
        data.len() > limits.max_input_size ==> limited_content(
            compression,
            data,
            expected,
            setup,
            limits,
        ) is Err,
        expected > limits.max_output_size ==> limited_content(
            compression,
            data,
            expected,
            setup,
            limits,
        ) is Err,
        limited_content(compression, data, expected, setup, limits) matches Ok(out) ==> chunk_content(compression, data, expected, setup, limits) == Ok::<
            Seq<u8>,
            Trouble,
        >(out),
{
}

} // verus!
