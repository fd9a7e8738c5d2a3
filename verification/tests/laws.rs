//! What holds of the codecs as a whole, on concrete values.

use dzip::codecs::bzip::bwt::bwt;
use dzip::codecs::bzip::huffman::canonical_codes;
use dzip::codecs::bzip::transform::rle1_block_end;
use dzip::codecs::dz::range::{AdaptiveModel, RangeDecoder, RangeEncoder};
use dzip::codecs::dz::{compress_chunk, decompress_chunk, RangeSettings};
use dzip::codecs::lzma::LzmaProps;
use dzip::codecs::sdk::matchfinder::{Match, MatchFinder};
use dzip::codecs::sdk::price::ProbPrices;
use dzip::codecs::{bzip, lzma, sdk, zlib};

fn words(count: usize) -> Vec<u8> {
    (0..count)
        .flat_map(|k| format!("word {} of {} ", k % 7, k % 11).into_bytes())
        .collect()
}

#[test]
fn zlib_streams_are_refused_unless_they_are_whole() {
    let input = words(30);
    let stream = zlib::encode_zlib(&input);
    assert_eq!(zlib::decode_zlib(&stream, input.len()).unwrap(), input);
    for size in [0, 1, input.len() - 1, input.len() + 1, 4 * input.len()] {
        assert!(zlib::decode_zlib(&stream, size).is_err());
    }
    for end in 0..stream.len() {
        assert!(zlib::decode_zlib(&stream[..end], input.len()).is_err());
    }
    let mut padded = stream.clone();
    padded.push(0);
    assert!(zlib::decode_zlib(&padded, input.len()).is_err());
    let mut damaged = stream.clone();
    let last = damaged.len() - 1;
    damaged[last] ^= 1;
    let error = zlib::decode_zlib(&damaged, input.len()).unwrap_err();
    assert_eq!(error.message(), "zlib Adler-32 mismatch");
    let mut repeated = stream.clone();
    repeated.extend_from_slice(&stream[stream.len() - 4..]);
    assert_eq!(zlib::decode_zlib(&repeated, input.len()).unwrap(), input);
}

#[test]
fn bzip_streams_are_refused_unless_they_are_whole() {
    let input = words(30);
    let stream = bzip::encode_default(&input).unwrap();
    assert_eq!(bzip::decode_exact(&stream, input.len()).unwrap(), input);
    for size in [0, 1, input.len() - 1, input.len() + 1] {
        assert!(bzip::decode_exact(&stream, size).is_err());
    }
    for end in 0..stream.len() {
        assert!(bzip::decode_exact(&stream[..end], input.len()).is_err());
    }
    for padding in [b"\0".as_slice(), b"BZh", b"BZh0"] {
        let mut padded = stream.clone();
        padded.extend_from_slice(padding);
        assert!(bzip::decode_exact(&padded, input.len()).is_err());
    }
}

#[test]
fn end_markers_come_too_early_where_more_is_expected() {
    let input = words(12);
    let props = LzmaProps::default();
    let stream = lzma::encode_with_end_marker(&input, &props).unwrap();
    let properties = lzma::decoder_props(&props).unwrap();
    assert_eq!(lzma::decode_raw(&stream, &properties, input.len()).unwrap(), input);
    assert!(lzma::decode_raw(&stream, &properties, input.len() + 1).is_err());

    let props = LzmaProps::for_level(5, input.len() as u32);
    let stream = sdk::encoder::encode_with_end_marker(&input, &props);
    let properties = props.decoder_props();
    assert_eq!(stream[0], 0);
    assert_eq!(
        sdk::decoder::decode_raw(&stream, &properties, input.len()).unwrap(),
        input
    );
    for more in [1, 2, 1000] {
        assert!(sdk::decoder::decode_raw(&stream, &properties, input.len() + more).is_err());
    }
    assert_eq!(sdk::encoder::encode(&input, &props)[0], 0);
}

#[test]
fn dz_chunks_have_one_size() {
    let input = words(20);
    let settings = RangeSettings::default();
    let chunk = compress_chunk(&input, settings).unwrap();
    for size in 0..input.len() + 20 {
        assert_eq!(
            decompress_chunk(&chunk, size, settings).is_ok(),
            size == input.len()
        );
    }
}

#[test]
fn skipping_is_like_asking_for_matches() {
    let input = words(40);
    let props = LzmaProps::for_level(5, input.len() as u32);
    let mut asked = MatchFinder::new(&input, &props);
    let mut skipped = MatchFinder::new(&input, &props);
    let mut matches: Vec<Match> = Vec::new();
    for _ in 0..input.len() {
        asked.get_matches(&mut matches);
        skipped.skip(1);
        assert!(asked.son == skipped.son && asked.hash == skipped.hash);
        assert_eq!(asked.pos, skipped.pos);
        for pair in matches.windows(2) {
            assert!(pair[0].len < pair[1].len);
            assert!(pair[0].dist < pair[1].dist);
        }
    }
}

#[test]
fn the_transform_has_the_bytes_of_its_input() {
    let input = words(9);
    let (mut column, pointer) = bwt(&input);
    assert!(pointer < input.len());
    assert_ne!(column, input);
    let mut sorted = input.clone();
    sorted.sort_unstable();
    column.sort_unstable();
    assert_eq!(column, sorted);
}

#[test]
fn lists_of_symbols_are_read_back_up_to_their_end() {
    let symbols: Vec<usize> = (0..500usize).map(|k| k * k % 17).collect();
    let mut model = AdaptiveModel::new(17).unwrap();
    let mut encoder = RangeEncoder::new();
    for symbol in &symbols {
        encoder.encode(&mut model, *symbol).unwrap();
    }
    let mut stream = encoder.finish();
    let length = stream.len();
    stream.extend_from_slice(&[0xff, 0, 0xff]);
    let mut model = AdaptiveModel::new(17).unwrap();
    let mut decoder = RangeDecoder::new(&stream);
    for symbol in &symbols {
        assert_eq!(decoder.decode(&mut model).unwrap(), *symbol);
    }
    assert_eq!(decoder.finished_position(), length);
}

#[test]
fn probable_bits_cost_less() {
    let prices = ProbPrices::new();
    for prob in 0..2047u16 {
        assert!(prices.price_0(prob) >= prices.price_0(prob + 1));
        assert!(prices.price_1(prob) <= prices.price_1(prob + 1));
        assert!(prices.price_0(prob + 1) >= 1);
        assert!(prices.price_1(prob) >= 1);
    }
}

#[test]
fn limits_and_lists_may_be_large() {
    let input = [7u8; 300];
    assert_eq!(rle1_block_end(&input, 0, usize::MAX), 300);
    assert_eq!(rle1_block_end(&input, 0, 5), 259);
    assert!(canonical_codes(&vec![20; 70_000]).is_ok());
    assert!(canonical_codes(&vec![1; 70_000]).is_err());
}
