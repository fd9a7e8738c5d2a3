//! The LZMA encoder that searches for a cheap parse.

use dzip::codecs::lzma::LzmaProps;
use dzip::codecs::sdk::decoder::{decode_raw, DecodeError};
use dzip::codecs::sdk::encoder::{encode, encode_with_end_marker};
use dzip::codecs::sdk::matchfinder::{Match, MatchFinder};
use dzip::codecs::sdk::price::ProbPrices;
use dzip::codecs::sdk::prices::{len_to_pos_state, Prices};
use dzip::codecs::sdk::props::REDUCE_MIN;
use dzip::codecs::sdk::rangecoder::RangeEncoder;

fn roundtrip(input: &[u8]) {
    let props = LzmaProps::for_level(8, (input.len() as u32).max(1));
    let stream = encode(input, &props);
    assert_eq!(stream.first().copied(), Some(0), "stream starts with 0x00");
    let decoded = decode_raw(&stream, &props.decoder_props(), input.len()).unwrap();
    assert_eq!(
        decoded,
        input,
        "round-trip failed for {}-byte input",
        input.len()
    );
}

#[test]
fn roundtrip_edge_cases() {
    roundtrip(b"");
    roundtrip(b"A");
    roundtrip(b"AB");
    roundtrip(&[0u8; 4096]);
    roundtrip(&[0xFFu8; 1000]);
}

#[test]
fn roundtrip_repetitive() {
    roundtrip(&b"the quick brown fox jumps over the lazy dog. ".repeat(64));
    roundtrip(&b"abcabcabcabc".repeat(100));
}

#[test]
fn roundtrip_far_and_random() {
    roundtrip(&(0..6000u32).map(|i| i as u8).collect::<Vec<_>>());
    let data: Vec<u8> = (0..4000u32)
        .map(|i| (i.wrapping_mul(2654435761) >> 24) as u8)
        .collect();
    roundtrip(&data);
    let mut mixed = data.clone();
    mixed.extend_from_slice(&data);
    roundtrip(&mixed);
}

fn prng(n: usize, seed: u32) -> Vec<u8> {
    let mut x = seed | 1;
    (0..n)
        .map(|_| {
            x ^= x << 13;
            x ^= x >> 17;
            x ^= x << 5;
            (x >> 24) as u8
        })
        .collect()
}

fn corpus() -> Vec<(&'static str, Vec<u8>)> {
    let text = b"the quick brown fox jumps over the lazy dog. ";
    let mut cases: Vec<(&'static str, Vec<u8>)> = vec![
        ("empty", Vec::new()),
        ("one", vec![0x42]),
        ("two", vec![0x42, 0x43]),
        ("zeros_100", vec![0u8; 100]),
        ("zeros_4k", vec![0u8; 4096]),
        ("zeros_65k", vec![0u8; 65536]),
        ("ff_1000", vec![0xFFu8; 1000]),
        ("text", text.repeat(64)),
        ("text_big", text.repeat(2000)),
        ("abc", b"abcabcabcabc".repeat(200)),
        ("counter", (0..6000u32).map(|i| i as u8).collect()),
        ("counter_big", (0..70000u32).map(|i| i as u8).collect()),
        ("random_4k", prng(4096, 1)),
        ("random_19584", prng(19584, 7)),
        ("random_65k", prng(65536, 99)),
    ];
    let r = prng(8000, 1234);
    let mut mixed = r.clone();
    mixed.extend_from_slice(&r);
    cases.push(("mixed", mixed));
    let mut noisy = text.repeat(500);
    let noise = prng(noisy.len(), 55);
    for (i, b) in noisy.iter_mut().enumerate() {
        if i % 37 == 0 {
            *b = noise[i];
        }
    }
    cases.push(("noisy_text", noisy));
    cases
}

#[test]
fn round_trip_corpus() {
    for (name, input) in corpus() {
        let reduce = (input.len() as u32).max(1);
        let props = LzmaProps::for_level(8, reduce);
        let stream = encode(&input, &props);
        assert_eq!(
            stream.first(),
            Some(&0u8),
            "[{name}] stream must start with 0x00"
        );
        let decoded = decode_raw(&stream, &props.decoder_props(), input.len()).unwrap();
        assert_eq!(
            decoded,
            input,
            "[{name}] round-trip mismatch ({} bytes)",
            input.len()
        );
    }
}

#[test]
fn round_trip_chd_hunk_sizes() {
    for &hunk in &[4096u32, 19584, 65536] {
        let input = prng(hunk as usize, hunk);
        let props = LzmaProps::chd_for_hunk(hunk);
        let stream = encode(&input, &props);
        let decoded = decode_raw(&stream, &props.decoder_props(), input.len()).unwrap();
        assert_eq!(decoded, input, "hunk {hunk} round-trip mismatch");
    }
}

#[test]
fn table_shape_and_anchors() {
    let p = ProbPrices::new();
    assert_eq!(p.table.len(), 128);
    assert_eq!(p.table[0], 0x80);
    assert!(p.table[127] < p.table[0]);
    assert!(p.table[127] >= 1);
}

#[test]
fn price_helpers() {
    let p = ProbPrices::new();
    let max = 2047u16;
    for &prob in &[1u16, 32, 512, 1024, 1536, 2016, 2047] {
        assert_eq!(p.price(prob, 0), p.price_0(prob));
        assert_eq!(p.price(prob, 1), p.price_1(prob));
        assert_eq!(p.price_0(prob), p.price_1(max - prob));
    }
    assert!(p.price_0(32) > p.price_0(2016));
}

#[test]
fn chd_level8_params_match_sdk() {
    let p = LzmaProps::chd_for_hunk(65536);
    assert_eq!(p.lc, 3);
    assert_eq!(p.lp, 0);
    assert_eq!(p.pb, 2);
    assert_eq!(p.fb, 64);
    assert_eq!(p.mc, 48);
}

#[test]
fn dict_size_reduces_to_hunk() {
    assert_eq!(LzmaProps::chd_for_hunk(4096).dict_size, 4096);
    assert_eq!(LzmaProps::chd_for_hunk(19584).dict_size, 19584);
    assert_eq!(LzmaProps::chd_for_hunk(65536).dict_size, 65536);
}

#[test]
fn dict_size_honors_floor_and_cap() {
    assert_eq!(LzmaProps::chd_for_hunk(100).dict_size, REDUCE_MIN);
    assert_eq!(LzmaProps::chd_for_hunk(1 << 27).dict_size, 1 << 26);
}

#[test]
fn decoder_props_byte0_is_0x5d() {
    let p = LzmaProps::chd_for_hunk(4096);
    assert_eq!(p.decoder_props()[0], 0x5D);
}

#[test]
fn decoder_props_dict_is_aligned_not_raw() {
    assert_eq!(
        LzmaProps::chd_for_hunk(4096).decoder_props(),
        [0x5D, 0x00, 0x10, 0x00, 0x00]
    );
    assert_eq!(
        LzmaProps::chd_for_hunk(19584).decoder_props(),
        [0x5D, 0x00, 0x60, 0x00, 0x00]
    );
    assert_eq!(
        LzmaProps::chd_for_hunk(65536).decoder_props(),
        [0x5D, 0x00, 0x00, 0x01, 0x00]
    );
    assert_eq!(
        LzmaProps::chd_for_hunk(1 << 27).decoder_props(),
        [0x5D, 0x00, 0x00, 0x00, 0x04]
    );
}

#[test]
fn empty_stream_flushes_to_five_zeros() {
    let rc = RangeEncoder::new();
    assert_eq!(rc.finish(), vec![0, 0, 0, 0, 0]);
}

#[test]
fn output_always_starts_with_zero_byte() {
    let mut rc = RangeEncoder::new();
    rc.encode_direct_bits(0b1011, 4);
    let out = rc.finish();
    assert_eq!(out[0], 0x00);
    assert!(out.len() >= 5);
}

#[test]
fn props_unpack() {
    let mut d = 0x5Du32;
    let lc = d % 9;
    d /= 9;
    let lp = d % 5;
    let pb = d / 5;
    assert_eq!((lc, lp, pb), (3, 0, 2));
}

#[test]
fn property_byte_is_read_by_the_decoder() {
    let props = LzmaProps {
        lc: 3,
        lp: 0,
        pb: 2,
        dict_size: 4096,
        fb: 64,
        mc: 48,
    };
    assert_eq!(props.decoder_props()[0], 0x5d);
    let stream = encode(b"properties", &props);
    assert_eq!(decode_raw(&stream, &props.decoder_props(), 10).unwrap(), b"properties");
}

#[test]
fn streams_with_an_end_marker_decode_too() {
    let input = b"marked and marked and marked".repeat(10);
    let props = LzmaProps::for_level(5, input.len() as u32);
    let stream = encode_with_end_marker(&input, &props);
    assert_eq!(decode_raw(&stream, &props.decoder_props(), input.len()).unwrap(), input);
    assert_eq!(
        decode_raw(&stream, &props.decoder_props(), input.len() + 1),
        Err(DecodeError::UnexpectedEndMarker)
    );
    assert!(stream.len() > encode(&input, &props).len());
}

#[test]
fn repetitive_input_becomes_short() {
    let input = b"abcabcabcabc".repeat(100);
    let props = LzmaProps::for_level(8, input.len() as u32);
    assert!(encode(&input, &props).len() < 40);
}

#[test]
fn all_context_settings_round_trip() {
    let mut input = prng(3000, 5);
    let copy = input[100..1100].to_vec();
    input.extend_from_slice(&copy);
    for (lc, lp, pb) in [(0, 0, 0), (8, 4, 4), (3, 1, 2), (0, 2, 1)] {
        for fb in [2, 5, 64, 273] {
            let props = LzmaProps {
                lc,
                lp,
                pb,
                dict_size: 2048,
                fb,
                mc: 3,
            };
            let stream = encode(&input, &props);
            assert_eq!(decode_raw(&stream, &props.decoder_props(), input.len()).unwrap(), input);
        }
    }
}

#[test]
fn damaged_streams_name_what_is_wrong() {
    let props = LzmaProps::for_level(8, 4096).decoder_props();
    assert_eq!(
        decode_raw(&[0; 5], &[225, 0, 0, 0, 0], 0),
        Err(DecodeError::InvalidProperties)
    );
    assert_eq!(decode_raw(&[0; 4], &props, 0), Err(DecodeError::TruncatedInput));
    assert_eq!(
        decode_raw(&[1, 0, 0, 0, 0], &props, 0),
        Err(DecodeError::InvalidRangeCode)
    );
    assert_eq!(
        decode_raw(&[0, 0xff, 0xff, 0xff, 0xff, 0xff, 0xff, 0xff, 0xff, 0xff], &props, 9)
            .unwrap_err()
            .message()
            .split(' ')
            .next(),
        Some("invalid")
    );
    let stream = encode(&[7; 300], &LzmaProps::for_level(8, 4096));
    assert_eq!(
        decode_raw(&stream, &props, 100),
        Err(DecodeError::MatchExceedsOutput {
            match_length: 273,
            remaining: 99
        })
    );
    assert_eq!(
        DecodeError::InvalidDistance {
            distance: 7,
            output_position: 3
        }
        .message(),
        "invalid LZMA distance 7 at output position 3"
    );
    assert_eq!(
        DecodeError::MatchExceedsOutput {
            match_length: 273,
            remaining: 99
        }
        .message(),
        "LZMA match length 273 exceeds 99 remaining output bytes"
    );
}

#[test]
fn matches_are_found_in_increasing_length() {
    let input = b"abcdef-abcx-abcdefgh".to_vec();
    let props = LzmaProps::for_level(8, 4096);
    let mut finder = MatchFinder::new(&input, &props);
    let mut found = Vec::new();
    finder.skip(12);
    assert_eq!(finder.pos_index(), 12);
    assert_eq!(finder.num_available(), 8);
    finder.get_matches(&mut found);
    assert_eq!(
        found,
        vec![Match { len: 3, dist: 4 }, Match { len: 6, dist: 11 }]
    );
    assert_eq!(finder.pos_index(), 13);
}

#[test]
fn fresh_models_have_even_prices() {
    let mut prices = Prices::new(14, 32);
    let models = vec![1024u16; 1860];
    prices.fill_align_prices(&models);
    prices.fill_distances_prices(&models);
    let pp = ProbPrices::new();
    assert_eq!((pp.price_0(1024), pp.price_1(1024)), (16, 17));
    assert_eq!(prices.align_prices[0], 64);
    assert_eq!(prices.align_prices[15], 68);
    assert_eq!(prices.pos_slot_prices[0][13], 99);
    assert_eq!(prices.distances_prices[3][3], 98);
    assert_eq!(prices.distances_prices[3][127], 184);
    assert_eq!(
        [len_to_pos_state(2), len_to_pos_state(4), len_to_pos_state(5), len_to_pos_state(273)],
        [0, 2, 3, 3]
    );
}
