use refpack::data::SliceReader;
use refpack::format::{Maxis, Reference, SimEA};
use refpack::{compress, decompress, easy_compress, easy_decompress, CompressionOptions, RefPackError};

const OPTIONS: [CompressionOptions; 3] = [
    CompressionOptions::Fastest,
    CompressionOptions::Fast,
    CompressionOptions::Optimal,
];

/// Deterministic pseudo random bytes in `0..modulus`
fn noise(length: usize, modulus: u32, seed: u32) -> Vec<u8> {
    let mut state = seed;
    (0..length)
        .map(|_| {
            state = state.wrapping_mul(1_103_515_245).wrapping_add(12_345);
            ((state >> 16) % modulus) as u8
        })
        .collect()
}

fn samples() -> Vec<Vec<u8>> {
    vec![
        vec![7],
        vec![1, 2],
        vec![1, 2, 3],
        vec![0, 0, 0, 0],
        b"Hello World!".to_vec(),
        b"DEADBEEFBEEFBEEFBEEFBEEFBEEF".to_vec(),
        vec![0; 2000],
        noise(1000, 2, 1),
        noise(999, 4, 2),
        noise(5000, 256, 3),
        noise(20_000, 3, 4),
        (0..=255u8).cycle().take(3000).collect(),
    ]
}

#[test]
fn compression_empty_input_yields_error() {
    let input = vec![];
    let result = easy_compress::<Reference>(&input, CompressionOptions::Fast);
    assert!(result.is_err());
    assert!(matches!(result.unwrap_err(), RefPackError::EmptyInput));
}

#[test]
fn mod_empty_input_yields_error() {
    let input = vec![];
    let result = easy_compress::<Reference>(&input, CompressionOptions::Fast);
    assert!(result.is_err());
    assert!(matches!(result.unwrap_err(), RefPackError::EmptyInput));
}

#[test]
fn reference_symmetrical_read_write() {
    for data in samples() {
        for options in OPTIONS {
            let compressed = easy_compress::<Reference>(&data, options).unwrap();
            let got = easy_decompress::<Reference>(&compressed).unwrap();
            assert_eq!(data, got);
        }
    }
}

#[test]
fn maxis_symmetrical_read_write() {
    for data in samples() {
        for options in OPTIONS {
            let compressed = easy_compress::<Maxis>(&data, options).unwrap();
            let got = easy_decompress::<Maxis>(&compressed).unwrap();
            assert_eq!(data, got);
        }
    }
}

#[test]
fn simea_symmetrical_read_write() {
    for data in samples() {
        for options in OPTIONS {
            let compressed = easy_compress::<SimEA>(&data, options).unwrap();
            let got = easy_decompress::<SimEA>(&compressed).unwrap();
            assert_eq!(data, got);
        }
    }
}

#[test]
fn repetitive_data_shrinks() {
    let data = vec![0u8; 2000];
    for options in OPTIONS {
        let compressed = easy_compress::<Reference>(&data, options).unwrap();
        assert!(compressed.len() < 100, "{options:?}: {}", compressed.len());
    }
}

#[test]
fn optimal_is_never_larger() {
    for data in samples() {
        let optimal = easy_compress::<Reference>(&data, CompressionOptions::Optimal).unwrap();
        let fast = easy_compress::<Reference>(&data, CompressionOptions::Fast).unwrap();
        let fastest = easy_compress::<Reference>(&data, CompressionOptions::Fastest).unwrap();
        assert!(optimal.len() <= fast.len());
        assert!(optimal.len() <= fastest.len());
    }
}

#[test]
fn short_inputs_are_a_stop_block() {
    let compressed = easy_compress::<Reference>(&[1, 2, 3], CompressionOptions::Optimal).unwrap();
    assert_eq!(compressed, vec![3, 0, 0, 0, 0xFF, 1, 2, 3]);
    let compressed = easy_compress::<Reference>(&[9], CompressionOptions::Fastest).unwrap();
    assert_eq!(compressed, vec![1, 0, 0, 0, 0xFD, 9]);
}

#[test]
fn maxis_header_holds_the_compressed_length() {
    let data = b"Hello World!".to_vec();
    let compressed = easy_compress::<Maxis>(&data, CompressionOptions::Fast).unwrap();
    let body = (compressed.len() - 9) as u32;
    assert_eq!(compressed[0..4].to_vec(), body.to_le_bytes().to_vec());
    assert_eq!(compressed[4], 0x10);
    assert_eq!(compressed[5], 0xFB);
    assert_eq!(compressed[6..9].to_vec(), vec![0, 0, 12]);
}

#[test]
fn reader_compression() {
    for options in OPTIONS {
        let input = noise(256, 4, 9);
        let mut reader = SliceReader::new(&input);
        let mut output = vec![];
        compress::<Reference>(input.len(), &mut reader, &mut output, options).unwrap();
        assert_eq!(reader.position(), input.len());
        let mut compressed = SliceReader::new(&output);
        let mut decompressed = vec![];
        decompress::<Reference>(&mut compressed, &mut decompressed).unwrap();
        assert_eq!(decompressed, input);
    }
}

#[test]
fn reader_compression_errors() {
    let input = vec![1, 2, 3];
    let mut reader = SliceReader::new(&input);
    let mut output = vec![];
    let err = compress::<Reference>(4, &mut reader, &mut output, CompressionOptions::Fast).unwrap_err();
    assert_eq!(err, RefPackError::Io(refpack::IoErrorKind::UnexpectedEof));
    assert!(output.is_empty());
    let err = compress::<Reference>(0, &mut reader, &mut output, CompressionOptions::Fast).unwrap_err();
    assert_eq!(err, RefPackError::EmptyInput);
}

#[test]
fn truncated_data_is_an_io_error() {
    let data = noise(500, 3, 11);
    let compressed = easy_compress::<Reference>(&data, CompressionOptions::Fast).unwrap();
    let err = easy_decompress::<Reference>(&compressed[..compressed.len() - 1]).unwrap_err();
    assert_eq!(err, RefPackError::Io(refpack::IoErrorKind::UnexpectedEof));
}

#[test]
fn copy_before_start_is_a_control_error() {
    // header of 8 bytes, then a short copy of 3 bytes at offset 1 with nothing written yet
    let data = vec![8, 0, 0, 0, 0x00, 0x00, 0xFC];
    let err = easy_decompress::<Reference>(&data).unwrap_err();
    assert_eq!(
        err,
        RefPackError::ControlError {
            error: refpack::data::DecodeError::NegativePosition(0, 1),
            position: 0
        }
    );
    assert_eq!(
        err.to_string(),
        "Error occured while decoding control block at position `0`:\nOffset went past start of buffer: buffer length `0`, offset `1`"
    );
}

#[test]
fn copy_past_the_end_is_a_control_error() {
    // header of 2 bytes, a literal stop of 1 byte, ... here a short copy block carrying 1 literal
    let data = vec![2, 0, 0, 0, 0x01, 0x00, 0xAA, 0xFC];
    let err = easy_decompress::<Reference>(&data).unwrap_err();
    assert_eq!(
        err,
        RefPackError::ControlError {
            error: refpack::data::DecodeError::BadLength(2),
            position: 1
        }
    );
}

#[test]
fn bad_magic_is_reported() {
    let err = easy_decompress::<SimEA>(&[0x10, 0x00, 0, 0, 0]).unwrap_err();
    assert_eq!(err, RefPackError::BadMagic(0));
}

#[test]
fn decompress_appends_to_the_writer() {
    let compressed = easy_compress::<Reference>(b"abcabcabcabc", CompressionOptions::Optimal).unwrap();
    let mut reader = SliceReader::new(&compressed);
    let mut out = vec![0xEE];
    decompress::<Reference>(&mut reader, &mut out).unwrap();
    assert_eq!(out, b"\xEEabcabcabcabc".to_vec());
}

#[test]
fn optimal_matches_reference() {
    let inputs: Vec<Vec<u8>> = vec![
        vec![0],
        vec![3, 1],
        noise(10, 4, 21),
        noise(100, 4, 22),
        noise(1_000, 4, 23),
        noise(5_000, 4, 24),
        noise(20_000, 4, 25),
        vec![2; 3_000],
        (0..4u8).cycle().take(4_000).collect(),
        vec![0, 0, 0, 0, 1, 0, 0, 0, 0, 0],
    ];
    for input in inputs {
        let compressed_reference =
            easy_compress::<Reference>(&input, CompressionOptions::OptimalReference).unwrap();
        let compressed_optimal = easy_compress::<Reference>(&input, CompressionOptions::Optimal).unwrap();
        assert_eq!(
            compressed_reference, compressed_optimal,
            "Optimal compression should match the reference implementation."
        );
    }
}

#[test]
fn decompression_stops_after_the_stop_block() {
    for options in OPTIONS {
        let first = noise(700, 3, 31);
        let second = b"a second stream".to_vec();
        let mut stream = easy_compress::<Maxis>(&first, options).unwrap();
        let first_len = stream.len();
        stream.extend(easy_compress::<Maxis>(&second, options).unwrap());
        let mut reader = SliceReader::new(&stream);
        let mut out = vec![];
        decompress::<Maxis>(&mut reader, &mut out).unwrap();
        assert_eq!(out, first);
        assert_eq!(reader.position(), first_len);
        let mut out2 = vec![];
        decompress::<Maxis>(&mut reader, &mut out2).unwrap();
        assert_eq!(out2, second);
        assert_eq!(reader.position(), stream.len());
    }
}

#[test]
fn optimal_wraps_around_the_chain() {
    // longer than the ring of links that the hash chains keep
    let inputs: Vec<Vec<u8>> = vec![
        noise(300_000, 4, 41),
        (0..=255u8).cycle().take(270_000).collect(),
    ];
    for input in inputs {
        let compressed = easy_compress::<Reference>(&input, CompressionOptions::Optimal).unwrap();
        assert!(compressed.len() < input.len());
        assert_eq!(easy_decompress::<Reference>(&compressed).unwrap(), input);
    }
}

#[test]
fn literal_past_the_header_length_is_a_control_error() {
    // header length 0, then a 4 byte literal block
    let input = vec![0, 0, 0, 0, 0xE0, 1, 2, 3, 4];
    let err = easy_decompress::<Reference>(&input).unwrap_err();
    assert_eq!(
        err,
        RefPackError::ControlError {
            error: refpack::data::DecodeError::BadLength(4),
            position: 0,
        }
    );
}

#[test]
fn fastest_and_fast_give_their_exact_encoding() {
    // three literals carried by a short copy of 9 bytes at distance 3, then
    // an empty stop block
    let expected = vec![12, 0, 0, 0, 0x1B, 0x02, b'a', b'b', b'c', 0xFC];
    for options in [CompressionOptions::Fastest, CompressionOptions::Fast] {
        let compressed = easy_compress::<Reference>(b"abcabcabcabc", options).unwrap();
        assert_eq!(compressed, expected);
    }
}

#[test]
fn compress_appends_what_easy_compress_returns() {
    for options in OPTIONS {
        let input = noise(700, 3, 21);
        let mut reader = SliceReader::new(&input);
        let mut output = vec![0xAA];
        compress::<Reference>(input.len(), &mut reader, &mut output, options).unwrap();
        let mut expected = vec![0xAA];
        expected.extend(easy_compress::<Reference>(&input, options).unwrap());
        assert_eq!(output, expected);
    }
}
