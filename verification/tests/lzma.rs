//! LZMA streams.

use dzip::codecs::lzma::options::MIN_DICTIONARY_SIZE;
use dzip::codecs::lzma::{
    decode_raw, encode_checked, Decoder, DecoderOptions, Encoder, EncoderOptions, ErrorKind,
    LzmaProps, ResourceLimits,
};

fn deterministic_bytes(length: usize, mut state: u32) -> Vec<u8> {
    (0..length)
        .map(|_| {
            state ^= state << 13;
            state ^= state >> 17;
            state ^= state << 5;
            state as u8
        })
        .collect()
}

fn fixtures() -> Vec<Vec<u8>> {
    vec![
        Vec::new(),
        vec![0],
        b"literal-only streams are valid LZMA".repeat(100),
        (0..=255).cycle().take(65_537).collect(),
    ]
}

#[test]
fn round_trip_boundaries() {
    let props = LzmaProps::default();
    let encoded_props = props.decoder_properties().unwrap();
    for input in fixtures() {
        let encoded = encode_checked(&input, &props).unwrap();
        assert_eq!(
            decode_raw(&encoded, &encoded_props, input.len()).unwrap(),
            input
        );
    }
}

#[test]
fn engine_large_deterministic_round_trip_matrix() {
    const SIZES: [usize; 35] = [
        0, 1, 2, 3, 4, 5, 7, 8, 15, 16, 31, 32, 63, 64, 127, 128, 255, 256, 257, 258, 259, 511,
        512, 1023, 4095, 8191, 16_383, 16_384, 16_385, 32_767, 32_768, 32_769, 65_535, 65_536,
        65_537,
    ];
    let props = LzmaProps::default();
    let encoded_props = props.decoder_properties().unwrap();
    let mut cases = 0usize;
    for &size in &SIZES {
        let inputs = [
            vec![0; size],
            (0..size).map(|index| index as u8).collect(),
            (0..size)
                .map(|index| b"lzma-boundary-pattern"[index % 21])
                .collect(),
            deterministic_bytes(size, 0x85eb_ca6b ^ size as u32),
        ];
        for input in inputs {
            let encoded = encode_checked(&input, &props).unwrap();
            assert_eq!(
                decode_raw(&encoded, &encoded_props, input.len()).unwrap(),
                input
            );
            cases += 1;
        }
    }
    assert_eq!(cases, 140);

    let input = deterministic_bytes(8193, 0x27d4_eb2f);
    for props in [
        LzmaProps {
            lc: 0,
            lp: 0,
            pb: 0,
            dict_size: 4096,
            fb: 16,
            mc: 8,
        },
        LzmaProps {
            lc: 2,
            lp: 1,
            pb: 3,
            dict_size: 32_768,
            fb: 64,
            mc: 64,
        },
        LzmaProps::default(),
    ] {
        let encoded = encode_checked(&input, &props).unwrap();
        assert_eq!(
            decode_raw(&encoded, &props.decoder_properties().unwrap(), input.len()).unwrap(),
            input
        );
    }
}

#[test]
fn decodes_sdk_empty_stream() {
    let props = [0x5d, 0, 0, 1, 0];
    let stream = [0, 0x83, 0xff, 0xfb, 0xff, 0xff, 0xc0, 0, 0, 0];
    assert_eq!(decode_raw(&stream, &props, 0).unwrap(), Vec::<u8>::new());
}

#[test]
fn decodes_sdk_distance_slot_four_stream() {
    let props = [0x5d, 0, 0, 1, 0];
    let stream = [
        0x00, 0x30, 0x98, 0x88, 0x98, 0x3e, 0xd5, 0x2d, 0x63, 0x04, 0x57, 0x7b, 0xff, 0xff,
        0x73, 0x08, 0x00, 0x00,
    ];
    assert_eq!(
        decode_raw(&stream, &props, 100).unwrap(),
        b"abcde".repeat(20)
    );
}

#[test]
fn decodes_external_lzma_property_variants() {
    let default_props = [0x5d, 0x00, 0x00, 0x01, 0x00];
    let default_stream = [
        0x00, 0x30, 0x98, 0x88, 0x98, 0x3e, 0xd5, 0xf7, 0xc3, 0x5c, 0x87, 0xb5, 0x7d, 0xff,
        0xff, 0xfd, 0xcc, 0x20, 0x00,
    ];
    assert_eq!(
        decode_raw(&default_stream, &default_props, 500).unwrap(),
        b"abcde".repeat(100)
    );
    let zero_dictionary_props = [0x5d, 0, 0, 0, 0];
    assert_eq!(
        decode_raw(&default_stream, &zero_dictionary_props, 500).unwrap(),
        b"abcde".repeat(100)
    );

    let zero_context_props = [0x00, 0x00, 0x10, 0x00, 0x00];
    let zero_context_stream = [
        0x00, 0x38, 0x1e, 0x0f, 0xaf, 0x5b, 0xb1, 0xa4, 0x20, 0x59, 0xae, 0xde, 0xbf, 0xdf,
        0x51, 0xab, 0x6c, 0x16, 0x11, 0x7f, 0x38, 0x3f, 0x49, 0xdf, 0xfe, 0x25, 0x54, 0x00,
    ];
    assert_eq!(
        decode_raw(&zero_context_stream, &zero_context_props, 560).unwrap(),
        b"property-zero ".repeat(40)
    );

    let mixed_props = [0x92, 0x00, 0x80, 0x00, 0x00];
    let mixed_stream = [
        0x00, 0x00, 0x00, 0x40, 0x4e, 0xa2, 0xfb, 0x50, 0x95, 0x53, 0x8c, 0x18, 0x1b, 0xb4,
        0x74, 0x2c, 0x59, 0xe2, 0x2c, 0xbf, 0xa9, 0x84, 0xdc, 0xb6, 0xdb, 0x1c, 0x39, 0x16,
        0xab, 0xfe, 0x73, 0xf1, 0xdd, 0x7b, 0x6b, 0x60, 0x65, 0xf5, 0x57, 0x2a, 0x67, 0x2f,
        0xef, 0x68, 0x2f, 0xfa, 0xb4, 0xa5, 0x05, 0x6e, 0x29, 0x73, 0x9c, 0xe8, 0x0c, 0xd5,
        0x79, 0xc7, 0x58, 0x54, 0xce, 0x0e, 0xa4, 0x3e, 0x8d, 0x93, 0x59, 0x7e, 0xc7, 0x9b,
        0x4c, 0x8c, 0xcb, 0xff, 0xff, 0xaf, 0x72, 0x00, 0x00,
    ];
    assert_eq!(
        decode_raw(&mixed_stream, &mixed_props, 512).unwrap(),
        (0..64).cycle().take(512).collect::<Vec<u8>>()
    );
}

#[test]
fn engine_truncations_and_bit_flips_are_bounded() {
    let input = deterministic_bytes(1025, 0x1234_5678);
    let props = LzmaProps::default();
    let encoded_props = props.decoder_properties().unwrap();
    let encoded = encode_checked(&input, &props).unwrap();

    let mut rejected_truncations = 0usize;
    for end in 0..encoded.len() {
        match decode_raw(&encoded[..end], &encoded_props, input.len()) {
            Err(_) => rejected_truncations += 1,
            Ok(decoded) => assert_eq!(decoded, input),
        }
    }
    assert!(rejected_truncations > encoded.len() / 2);

    let mut affected = 0usize;
    for index in 0..encoded.len() {
        for bit in 0..8 {
            let mut damaged = encoded.clone();
            damaged[index] ^= 1 << bit;
            match decode_raw(&damaged, &encoded_props, input.len()) {
                Err(_) => affected += 1,
                Ok(decoded) if decoded != input => affected += 1,
                Ok(_) => {}
            }
        }
    }
    assert!(affected > encoded.len() * 4);
}

#[test]
fn rejects_properties_and_truncation() {
    let props = LzmaProps::default();
    let mut encoded = encode_checked(b"damaged", &props).unwrap();
    encoded.truncate(4);
    assert!(decode_raw(&encoded, &props.decoder_properties().unwrap(), 7).is_err());
    assert!(decode_raw(&[0; 5], &[u8::MAX, 0, 0, 0, 0], 0).is_err());
}

#[test]
fn codec_reusable_api_and_limits() {
    let input = b"lzma facade".repeat(200);
    let mut encoder = Encoder::new(EncoderOptions::default()).unwrap();
    let encoded = encoder.encode(&input).unwrap().to_vec();
    let mut decoder =
        Decoder::new(DecoderOptions::new(LzmaProps::default(), input.len()).unwrap()).unwrap();
    assert_eq!(decoder.decode(&encoded).unwrap(), input);

    let error = Encoder::new(EncoderOptions {
        properties: LzmaProps {
            lc: 9,
            ..LzmaProps::default()
        },
        ..EncoderOptions::default()
    })
    .err()
    .unwrap();
    assert_eq!(error.kind(), ErrorKind::InvalidOptions);

    let error = Decoder::new(DecoderOptions {
        limits: ResourceLimits {
            max_output_size: 1,
            ..ResourceLimits::unlimited()
        },
        ..DecoderOptions::new(LzmaProps::default(), input.len()).unwrap()
    })
    .err()
    .unwrap();
    assert_eq!(error.kind(), ErrorKind::OutputLimitExceeded);

    let mut encoder = Encoder::new(EncoderOptions {
        limits: ResourceLimits {
            max_workspace_size: 0,
            ..ResourceLimits::unlimited()
        },
        ..EncoderOptions::default()
    })
    .unwrap();
    assert_eq!(
        encoder.encode(&input).unwrap_err().kind(),
        ErrorKind::WorkspaceLimitExceeded
    );
}

#[test]
fn sdk_minimum_dictionary_is_applied_to_small_properties() {
    for dictionary in [0, 1, MIN_DICTIONARY_SIZE - 1, MIN_DICTIONARY_SIZE] {
        let props = LzmaProps {
            dict_size: dictionary,
            ..LzmaProps::default()
        }
        .validate()
        .unwrap();
        assert_eq!(props.dict_size, MIN_DICTIONARY_SIZE);
    }

    let props = LzmaProps::from_decoder_properties([0x5d, 0, 0, 0, 0]).unwrap();
    assert_eq!(props.dict_size, MIN_DICTIONARY_SIZE);
    assert_eq!(props.decoder_properties().unwrap(), [0x5d, 0, 0x10, 0, 0]);
}
