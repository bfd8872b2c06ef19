use refpack::data::{rle_decode_fixed, DecodeError};

#[test]
fn errors_on_bad_offset() {
    let error = rle_decode_fixed(&mut vec![0], 0, 0, 1).unwrap_err();
    assert!(matches!(error, DecodeError::BadOffset));
}

#[test]
fn errors_on_negative_position() {
    let error = rle_decode_fixed(&mut vec![0], 0, 1, 1).unwrap_err();
    assert_eq!(
        error.to_string(),
        "Offset went past start of buffer: buffer length `0`, offset `1`"
    );
}

#[test]
fn errors_on_bad_length() {
    let error = rle_decode_fixed(&mut vec![0, 0], 1, 1, 10).unwrap_err();
    assert_eq!(
        error.to_string(),
        "Decompressed data overran decompressed size in header by `9` bytes"
    );
}

#[test]
fn rle_repeats_the_last_bytes() {
    let mut buffer = vec![0xDE, 0xAD, 0xBE, 0xEF, 0, 0, 0, 0, 0, 0, 0, 0, 0, 0];
    let position = rle_decode_fixed(&mut buffer, 4, 2, 10).unwrap();
    assert_eq!(position, 14);
    assert_eq!(
        buffer,
        vec![0xDE, 0xAD, 0xBE, 0xEF, 0xBE, 0xEF, 0xBE, 0xEF, 0xBE, 0xEF, 0xBE, 0xEF, 0xBE, 0xEF]
    );
}

#[test]
fn rle_copies_without_overlap() {
    let mut buffer = vec![1, 2, 3, 4, 0, 0, 9];
    let position = rle_decode_fixed(&mut buffer, 4, 4, 2).unwrap();
    assert_eq!(position, 6);
    assert_eq!(buffer, vec![1, 2, 3, 4, 1, 2, 9]);
}

#[test]
fn rle_error_leaves_buffer_untouched() {
    let mut buffer = vec![5, 6, 7];
    let error = rle_decode_fixed(&mut buffer, 2, 1, 5).unwrap_err();
    assert_eq!(error, DecodeError::BadLength(4));
    assert_eq!(buffer, vec![5, 6, 7]);
    assert_eq!(
        DecodeError::BadOffset.to_string(),
        "Offset is 0 in compressed data control command"
    );
}
