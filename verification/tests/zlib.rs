//! DEFLATE and zlib streams.

use dzip::codecs::zlib::window::{
    compare256, compare256_rle_slice, compare256_slice, first_chunk, slide_hash, slide_hash_chain,
    State,
};
use dzip::codecs::zlib::{
    adler32, decode, decode_raw, decode_zlib, encode, encode_raw, encode_zlib, Decoder,
    DecoderOptions, Encoder, EncoderOptions, ErrorKind, ResourceLimits, StreamFormat,
};

fn deterministic_bytes(length: usize, mut state: u32) -> Vec<u8> {
    (0..length)
        .map(|_| {
            state ^= state << 13;
            state ^= state >> 17;
            state ^= state << 5;
            state as u8
        })
        .collect()
}

fn fixtures() -> Vec<Vec<u8>> {
    vec![
        Vec::new(),
        vec![0],
        b"dependency-free deflate".repeat(100),
        (0..=255).cycle().take(65_537).collect(),
        (0..100_000).map(|index| (index * 37) as u8).collect(),
    ]
}

#[test]
fn raw_round_trip_boundaries() {
    for input in fixtures() {
        let encoded = encode_raw(&input);
        assert_eq!(decode_raw(&encoded, input.len()).unwrap(), input);
    }
}

#[test]
fn zlib_round_trip_and_checksum() {
    for input in fixtures() {
        let encoded = encode_zlib(&input);
        assert_eq!(decode_zlib(&encoded, input.len()).unwrap(), input);
    }
}

#[test]
fn decodes_dynamic_literal_only_block_without_a_distance_tree() {
    let encoded = [
        0x05, 0xc0, 0x01, 0x09, 0x00, 0x00, 0x00, 0x00, 0x90, 0x6d, 0xfe, 0x9f, 0x92,
    ];
    assert_eq!(decode_raw(&encoded, 1).unwrap(), b"A");
}

#[test]
fn zlib_large_deterministic_round_trip_matrix() {
    const SIZES: [usize; 35] = [
        0, 1, 2, 3, 4, 5, 7, 8, 15, 16, 31, 32, 63, 64, 127, 128, 255, 256, 257, 258, 259, 511,
        512, 1023, 4095, 8191, 16_383, 16_384, 16_385, 32_767, 32_768, 32_769, 65_535, 65_536,
        65_537,
    ];
    let mut cases = 0usize;
    for &size in &SIZES {
        let inputs = [
            vec![0; size],
            (0..size).map(|index| index as u8).collect(),
            (0..size)
                .map(|index| b"deflate-boundary-pattern"[index % 24])
                .collect(),
            deterministic_bytes(size, 0x9e37_79b9 ^ size as u32),
        ];
        for input in inputs {
            let raw = encode_raw(&input);
            assert_eq!(decode_raw(&raw, input.len()).unwrap(), input);

            let wrapped = encode_zlib(&input);
            assert_eq!(decode_zlib(&wrapped, input.len()).unwrap(), input);
            cases += 1;
        }
    }
    assert_eq!(cases, 140);
}

#[test]
fn rejects_truncation_and_corruption() {
    let input = b"corruption must be reported".repeat(100);
    let mut raw = encode_raw(&input);
    raw.truncate(raw.len() / 2);
    assert!(decode_raw(&raw, input.len()).is_err());

    let mut wrapped = encode_zlib(&input);
    *wrapped.last_mut().unwrap() ^= 1;
    assert!(decode_zlib(&wrapped, input.len()).is_err());
}

#[test]
fn engine_rejects_all_truncations_and_never_silently_corrupts_bit_flips() {
    let input = deterministic_bytes(8193, 0x1234_5678);
    let encoded = encode_zlib(&input);

    for end in 0..encoded.len() {
        assert!(
            decode_zlib(&encoded[..end], input.len()).is_err(),
            "accepted truncation at {end}/{}",
            encoded.len()
        );
    }

    let mut rejected = 0usize;
    for index in 0..encoded.len() {
        for bit in 0..8 {
            let mut damaged = encoded.clone();
            damaged[index] ^= 1 << bit;
            match decode_zlib(&damaged, input.len()) {
                Err(_) => rejected += 1,
                Ok(decoded) => assert_eq!(
                    decoded, input,
                    "bit flip {bit} in byte {index} silently changed output"
                ),
            }
        }
    }
    assert!(rejected > encoded.len() * 7);

    assert!(decode_raw(&[0b0000_0111], 0).is_err());
    assert!(decode_raw(&[0x01, 0x01, 0x00, 0x00, 0x00, 0x00], 1).is_err());
    assert!(decode_zlib(&[0x78, 0x00, 0, 0, 0, 1], 0).is_err());
    assert!(decode_zlib(&[0x78, 0x20, 0, 0, 0, 1], 0).is_err());
}

#[test]
fn decodes_external_stored_fixed_dynamic_and_multiblock_streams() {
    let stored = [
        0x78, 0x01, 0x01, 0x1a, 0x00, 0xe5, 0xff, 0x73, 0x74, 0x6f, 0x72, 0x65, 0x64, 0x2d,
        0x62, 0x6c, 0x6f, 0x63, 0x6b, 0x2d, 0x63, 0x6f, 0x6d, 0x70, 0x61, 0x74, 0x69, 0x62,
        0x69, 0x6c, 0x69, 0x74, 0x79, 0x8b, 0x27, 0x0a, 0x71,
    ];
    assert_eq!(
        decode_zlib(&stored, 26).unwrap(),
        b"stored-block-compatibility"
    );

    let fixed = [
        0x78, 0x01, 0x4b, 0xcb, 0xac, 0x48, 0x4d, 0xd1, 0xcd, 0x28, 0x4d, 0x4b, 0xcb, 0x4d,
        0xcc, 0xd3, 0x4d, 0xce, 0xcf, 0x2d, 0x48, 0x2c, 0xc9, 0x4c, 0xca, 0xcc, 0xc9, 0x2c,
        0xa9, 0x54, 0x48, 0x1b, 0x95, 0x1b, 0x95, 0x43, 0x93, 0x03, 0x00, 0x32, 0xdd, 0xda,
        0x35,
    ];
    let expected_fixed = b"fixed-huffman-compatibility ".repeat(20);
    let decoded_fixed = decode_raw(&fixed[2..fixed.len() - 4], 560).unwrap();
    assert_eq!(decoded_fixed, expected_fixed);
    assert_eq!(decode_zlib(&fixed, 560).unwrap(), expected_fixed);

    let dynamic = [
        0x78, 0x9c, 0xed, 0xca, 0xc7, 0x01, 0x80, 0x20, 0x10, 0x45, 0xc1, 0x56, 0x7e, 0x05,
        0x56, 0x43, 0x03, 0x06, 0x14, 0x03, 0xac, 0xa2, 0x98, 0xaa, 0xb7, 0x09, 0x8f, 0x6f,
        0xce, 0xe3, 0x82, 0xd7, 0x56, 0xc6, 0x76, 0x56, 0x93, 0xed, 0x4a, 0xea, 0xed, 0xd6,
        0x54, 0xe2, 0xba, 0xcb, 0x4e, 0x9f, 0x75, 0x04, 0xaf, 0xa5, 0x7e, 0x1f, 0x75, 0x36,
        0x54, 0x72, 0x64, 0x32, 0x99, 0x4c, 0x26, 0x93, 0xc9, 0x64, 0x32, 0x99, 0x4c, 0x26,
        0x93, 0xc9, 0xe4, 0xf8, 0x43, 0xfe, 0x00, 0x1d, 0xc8, 0x4f, 0x97,
    ];
    assert_eq!(
        decode_zlib(&dynamic, 4500).unwrap(),
        b"The quick brown fox jumps over the lazy dog. ".repeat(100)
    );

    let multiblock = [
        0x78, 0x01, 0x00, 0x03, 0x00, 0xfc, 0xff, 0x61, 0x62, 0x63, 0x01, 0x03, 0x00, 0xfc,
        0xff, 0x64, 0x65, 0x66, 0x08, 0x1e, 0x02, 0x56,
    ];
    assert_eq!(decode_zlib(&multiblock, 6).unwrap(), b"abcdef");

    let small_fixed = [
        0x78, 0x9c, 0xcb, 0x48, 0xcd, 0xc9, 0xc9, 0x57, 0xc8, 0x40, 0x90, 0x00, 0x3a, 0x2e,
        0x06, 0x7d,
    ];
    assert_eq!(decode_zlib(&small_fixed, 17).unwrap(), b"hello hello hello");
}

#[test]
fn formats_reusable_api_and_limits() {
    let input = b"deflate facade".repeat(200);
    for format in [StreamFormat::RawDeflate, StreamFormat::Zlib] {
        let mut encoder = Encoder::new(EncoderOptions {
            format,
            ..EncoderOptions::default()
        })
        .unwrap();
        let encoded = encoder.encode(&input).unwrap().to_vec();
        let mut decoder = Decoder::new(DecoderOptions {
            format,
            ..DecoderOptions::new(input.len())
        })
        .unwrap();
        assert_eq!(decoder.decode(&encoded).unwrap(), input);
    }

    let error = Decoder::new(DecoderOptions {
        limits: ResourceLimits {
            max_output_size: 1,
            ..ResourceLimits::unlimited()
        },
        ..DecoderOptions::new(input.len())
    })
    .err()
    .unwrap();
    assert_eq!(error.kind(), ErrorKind::OutputLimitExceeded);

    let mut encoder = Encoder::new(EncoderOptions {
        limits: ResourceLimits {
            max_workspace_size: 0,
            ..ResourceLimits::unlimited()
        },
        ..EncoderOptions::default()
    })
    .unwrap();
    assert_eq!(
        encoder.encode(&input).unwrap_err().kind(),
        ErrorKind::WorkspaceLimitExceeded
    );
}

const MAX_COMPARE_SIZE: usize = 256;

#[test]
fn compare256_finds_first_difference() {
    let left = [b'a'; MAX_COMPARE_SIZE];
    let mut right = left;

    for i in 0..right.len() {
        right[i] = 0;
        assert_eq!(compare256(&left, &right), i);
        right[i] = b'a';
    }
}

#[test]
fn compare256_rle_finds_first_difference() {
    let mut input = [b'a'; MAX_COMPARE_SIZE];

    for i in 0..input.len() {
        input[i] = 0;
        assert_eq!(compare256_rle_slice(b'a', &input), i);
        input[i] = b'a';
    }
}

const WSIZE: u16 = 32768;

const INPUT: [u16; 64] = [
    0, 0, 28790, 0, 0, 0, 0, 0, 0, 0, 0, 0, 0, 0, 0, 43884, 0, 0, 0, 0, 0, 0, 0, 0, 0, 0, 0, 0,
    0, 0, 0, 0, 64412, 0, 0, 0, 0, 0, 21043, 0, 0, 0, 0, 0, 23707, 0, 0, 0, 0, 0, 0, 0, 0, 0,
    0, 0, 0, 0, 0, 0, 64026, 0, 0, 20182,
];

const OUTPUT: [u16; 64] = [
    0, 0, 0, 0, 0, 0, 0, 0, 0, 0, 0, 0, 0, 0, 0, 11116, 0, 0, 0, 0, 0, 0, 0, 0, 0, 0, 0, 0, 0,
    0, 0, 0, 31644, 0, 0, 0, 0, 0, 0, 0, 0, 0, 0, 0, 0, 0, 0, 0, 0, 0, 0, 0, 0, 0, 0, 0, 0, 0,
    0, 0, 31258, 0, 0, 0,
];

#[test]
fn slide_hash_is_saturating_subtraction() {
    let mut input = INPUT.to_vec();
    slide_hash_chain(&mut input, WSIZE);
    assert_eq!(input, OUTPUT.to_vec());
}

#[test]
fn windows_slide_both_tables() {
    let mut state = State {
        w_size: 10,
        head: vec![0, 9, 10, 11],
        prev: vec![65535],
    };
    slide_hash(&mut state);
    assert_eq!(state.head, vec![0, 0, 0, 1]);
    assert_eq!(state.prev, vec![65525]);
    assert_eq!(state.w_size, 10);
}

#[test]
fn chunks_need_enough_elements() {
    let data = [1u8, 2, 3];
    assert_eq!(first_chunk(&data, 2), Some(&data[..2]));
    assert_eq!(first_chunk(&data, 3), Some(&data[..]));
    assert_eq!(first_chunk(&data, 4), None);
    assert_eq!(compare256_slice(&[7; 256], &[7; 300]), 256);
}

#[test]
fn adler32_known_values() {
    assert_eq!(adler32(b""), 1);
    assert_eq!(adler32(b"Wikipedia"), 0x11e6_0398);
}

#[test]
fn one_shot_functions_agree_with_the_codecs() {
    let input = b"one shot".repeat(9);
    let raw = EncoderOptions {
        format: StreamFormat::RawDeflate,
        ..EncoderOptions::default()
    };
    assert_eq!(encode(&input, &raw).unwrap(), encode_raw(&input));
    assert_eq!(
        encode(&input, &EncoderOptions::default()).unwrap(),
        encode_zlib(&input)
    );
    let stream = encode_zlib(&input);
    assert_eq!(
        decode(&stream, &DecoderOptions::new(input.len())).unwrap(),
        input
    );
    let tight = DecoderOptions {
        limits: ResourceLimits {
            max_input_size: 1,
            ..ResourceLimits::unlimited()
        },
        ..DecoderOptions::new(input.len())
    };
    assert_eq!(
        decode(&stream, &tight).unwrap_err().kind(),
        ErrorKind::InputLimitExceeded
    );
    assert_eq!(
        decode(&stream[..4], &DecoderOptions::new(input.len()))
            .unwrap_err()
            .kind(),
        ErrorKind::TruncatedData
    );
}
