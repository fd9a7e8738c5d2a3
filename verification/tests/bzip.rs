//! BZip2 streams.

use dzip::codecs::bzip::bwt::{bwt, inverse_bwt};
use dzip::codecs::bzip::checksum::crc32;
use dzip::codecs::bzip::engine::BLOCK_OVERSHOOT_GUARD;
use dzip::codecs::bzip::options::decode_workspace;
use dzip::codecs::bzip::transform::{decode_rle1, derandomize, encode_rle1, rle1_block_end};
use dzip::codecs::bzip::{
    decode_exact, encode, encode_default, encode_with_block_size, Decoder, DecoderOptions, Encoder,
    EncoderOptions, ErrorKind, ResourceLimits,
};

fn deterministic_bytes(length: usize, mut state: u32) -> Vec<u8> {
    (0..length)
        .map(|_| {
            state ^= state << 13;
            state ^= state >> 17;
            state ^= state << 5;
            state as u8
        })
        .collect()
}

fn fixtures() -> Vec<Vec<u8>> {
    vec![
        Vec::new(),
        vec![0],
        vec![b'a'; 259],
        vec![b'a'; 260],
        b"from-scratch bzip2 block coding".repeat(100),
        (0..=255).cycle().take(100_001).collect(),
    ]
}

#[test]
fn rle1_round_trip_boundaries() {
    for input in fixtures() {
        let encoded = encode_rle1(&input);
        assert_eq!(decode_rle1(&encoded, input.len()).unwrap(), input);
    }
}

#[test]
fn bwt_round_trip() {
    for input in [
        b"banana".as_slice(),
        b"mississippi",
        b"abcdefg",
        b"aaaaaaaa",
    ] {
        let (encoded, pointer) = bwt(input);
        assert_eq!(inverse_bwt(&encoded, pointer).unwrap(), input);
    }
}

#[test]
fn stream_round_trip_boundaries() {
    for input in fixtures() {
        let encoded = encode_default(&input).unwrap();
        assert_eq!(&encoded[..4], b"BZh1");
        assert_eq!(decode_exact(&encoded, input.len()).unwrap(), input);
    }
}

#[test]
fn rle1_expansion_is_split_at_the_encoded_block_limit() {
    for size in [80_000, 80_001, 99_999, 100_000, 100_001, 200_001] {
        let input: Vec<u8> = (0..size).map(|index| (index / 4 % 251) as u8).collect();
        let encoded = encode_default(&input).unwrap();
        assert_eq!(decode_exact(&encoded, input.len()).unwrap(), input, "size {size}");

        let mut start = 0usize;
        while start < input.len() {
            let end = rle1_block_end(&input, start, 100_000 - BLOCK_OVERSHOOT_GUARD);
            assert!(encode_rle1(&input[start..end]).len() <= 100_000 - BLOCK_OVERSHOOT_GUARD);
            start = end;
        }
    }
}

#[test]
fn decodes_concatenated_bzip2_streams() {
    let first = b"first concatenated stream".repeat(100);
    let second = deterministic_bytes(4097, 0x9e37_79b9);
    let mut encoded = encode_default(&first).unwrap();
    encoded.extend_from_slice(&encode_with_block_size(&second, 9).unwrap());

    let mut expected = first;
    expected.extend_from_slice(&second);
    assert_eq!(decode_exact(&encoded, expected.len()).unwrap(), expected);

    encoded.push(0);
    assert!(decode_exact(&encoded, expected.len()).is_err());
}

#[test]
fn large_deterministic_round_trip_matrix() {
    const SIZES: [usize; 41] = [
        0, 1, 2, 3, 4, 5, 7, 8, 15, 16, 31, 32, 63, 64, 127, 128, 255, 256, 257, 258, 259, 511,
        512, 1023, 4095, 8191, 16_383, 16_384, 16_385, 32_767, 32_768, 32_769, 65_535, 65_536,
        65_537, 99_999, 100_000, 100_001, 199_999, 200_000, 200_001,
    ];
    let mut cases = 0usize;
    for &size in &SIZES {
        let inputs = [
            vec![0; size],
            (0..size).map(|index| index as u8).collect(),
            deterministic_bytes(size, 0x517c_c1b7 ^ size as u32),
        ];
        for input in inputs {
            let encoded = encode_default(&input).unwrap();
            assert_eq!(decode_exact(&encoded, input.len()).unwrap(), input);
            cases += 1;
        }
    }
    assert_eq!(cases, 123);

    let input = deterministic_bytes(200_001, 0xc2b2_ae35);
    for block_size in [1, 2, 9] {
        let encoded = encode_with_block_size(&input, block_size).unwrap();
        assert_eq!(encoded[3], b'0' + block_size);
        assert_eq!(decode_exact(&encoded, input.len()).unwrap(), input);
    }
}

#[test]
fn rejects_corruption_and_truncation() {
    let input = b"corrupt bzip streams must fail".repeat(100);
    let mut encoded = encode_default(&input).unwrap();
    encoded.truncate(encoded.len() / 2);
    assert!(decode_exact(&encoded, input.len()).is_err());

    let mut encoded = encode_default(&input).unwrap();
    encoded[10] ^= 1;
    assert!(decode_exact(&encoded, input.len()).is_err());
}

#[test]
fn rejects_all_truncations_and_never_silently_corrupts_bit_flips() {
    let input = deterministic_bytes(257, 0x1234_5678);
    let encoded = encode_default(&input).unwrap();
    for end in 0..encoded.len() {
        assert!(
            decode_exact(&encoded[..end], input.len()).is_err(),
            "accepted truncation at {end}/{}",
            encoded.len()
        );
    }

    let mut rejected = 0usize;
    for index in 0..encoded.len() {
        for bit in 0..8 {
            let mut damaged = encoded.clone();
            damaged[index] ^= 1 << bit;
            match decode_exact(&damaged, input.len()) {
                Err(_) => rejected += 1,
                Ok(decoded) => assert_eq!(
                    decoded, input,
                    "bit flip {bit} in byte {index} silently changed output"
                ),
            }
        }
    }
    assert!(rejected > encoded.len() * 7);
}

#[test]
fn decodes_external_bzip2_streams() {
    let empty = [
        0x42, 0x5a, 0x68, 0x31, 0x17, 0x72, 0x45, 0x38, 0x50, 0x90, 0x00, 0x00, 0x00, 0x00,
    ];
    assert_eq!(decode_exact(&empty, 0).unwrap(), Vec::<u8>::new());

    let fixed_text = [
        0x42, 0x5a, 0x68, 0x31, 0x31, 0x41, 0x59, 0x26, 0x53, 0x59, 0x9e, 0x62, 0x5b, 0xfe,
        0x00, 0x00, 0x02, 0x91, 0x00, 0x40, 0x00, 0x02, 0x44, 0xa0, 0x00, 0x21, 0x14, 0x60,
        0x66, 0x82, 0x91, 0xef, 0x23, 0x47, 0x0b, 0xb9, 0x22, 0x9c, 0x28, 0x48, 0x4f, 0x31,
        0x2d, 0xff, 0x00,
    ];
    assert_eq!(decode_exact(&fixed_text, 17).unwrap(), b"hello hello hello");

    let repeated = [
        0x42, 0x5a, 0x68, 0x31, 0x31, 0x41, 0x59, 0x26, 0x53, 0x59, 0xaf, 0xe7, 0x12, 0xf2,
        0x00, 0x00, 0x31, 0x81, 0x00, 0x3e, 0x00, 0x20, 0x00, 0x30, 0xcd, 0x00, 0x52, 0x89,
        0xa7, 0x11, 0x61, 0x16, 0x91, 0x78, 0x8b, 0x88, 0xbe, 0x2e, 0xe4, 0x8a, 0x70, 0xa1,
        0x21, 0x5f, 0xce, 0x25, 0xe4,
    ];
    assert_eq!(decode_exact(&repeated, 500).unwrap(), b"abcde".repeat(100));

    let mut concatenated = fixed_text.to_vec();
    concatenated.extend_from_slice(&repeated);
    let mut expected = b"hello hello hello".to_vec();
    expected.extend_from_slice(&b"abcde".repeat(100));
    assert_eq!(decode_exact(&concatenated, expected.len()).unwrap(), expected);
}

#[test]
fn crc_known_value() {
    assert_eq!(crc32(b"123456789"), 0xfc89_1918);
}

#[test]
fn legacy_randomization_is_reversible() {
    let original: Vec<u8> = (0..=255).cycle().take(20_000).collect();
    let mut randomized = original.clone();
    derandomize(&mut randomized);
    assert_ne!(randomized, original);
    derandomize(&mut randomized);
    assert_eq!(randomized, original);
}

#[test]
fn reusable_api_and_limits() {
    let input = b"bzip facade".repeat(200);
    let mut encoder = Encoder::new(EncoderOptions::default()).unwrap();
    let encoded = encoder.encode(&input).unwrap().to_vec();
    let mut decoder = Decoder::new(DecoderOptions::new(input.len())).unwrap();
    assert_eq!(decoder.decode(&encoded).unwrap(), input);

    let error = Encoder::new(EncoderOptions {
        block_size: 0,
        ..EncoderOptions::default()
    })
    .err()
    .unwrap();
    assert_eq!(error.kind(), ErrorKind::InvalidOptions);

    let error = Decoder::new(DecoderOptions {
        expected_size: input.len(),
        limits: ResourceLimits {
            max_output_size: 1,
            ..ResourceLimits::unlimited()
        },
    })
    .err()
    .unwrap();
    assert_eq!(error.kind(), ErrorKind::OutputLimitExceeded);

    let mut encoder = Encoder::new(EncoderOptions {
        limits: ResourceLimits {
            max_workspace_size: 0,
            ..ResourceLimits::unlimited()
        },
        ..EncoderOptions::default()
    })
    .unwrap();
    assert_eq!(
        encoder.encode(&input).unwrap_err().kind(),
        ErrorKind::WorkspaceLimitExceeded
    );

    let first = encode(
        b"first",
        &EncoderOptions {
            block_size: 1,
            ..EncoderOptions::default()
        },
    )
    .unwrap();
    let second = encode(
        b"second",
        &EncoderOptions {
            block_size: 9,
            ..EncoderOptions::default()
        },
    )
    .unwrap();
    let mut concatenated = first;
    concatenated.extend_from_slice(&second);
    let mut decoder = Decoder::new(DecoderOptions {
        expected_size: 11,
        limits: ResourceLimits {
            max_workspace_size: decode_workspace(1),
            ..ResourceLimits::unlimited()
        },
    })
    .unwrap();
    assert_eq!(
        decoder.decode(&concatenated).unwrap_err().kind(),
        ErrorKind::WorkspaceLimitExceeded
    );
}

