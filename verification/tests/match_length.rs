use refpack::data::compression::match_length::{match_length, match_length_except, match_length_or};

#[test]
fn match_length_counts_common_bytes() {
    let buffer = b"abcdeXabcdeY".to_vec();
    assert_eq!(match_length(&buffer, 6, 0, 1028, 0), 5);
    assert_eq!(match_length(&buffer, 6, 0, 3, 0), 3);
}

#[test]
fn match_length_except_takes_long_lengths() {
    // 2000 common bytes, and the byte after them equals the byte after the
    // same bytes at the bad position
    let buffer = vec![0u8; 5000];
    assert_eq!(match_length_except(&buffer, 3000, 1000, 0, 2000, 0), 2000);
    // exactly 1500 common bytes, and the byte after the same bytes at the
    // bad position differs: one more than the length
    let mut buffer = vec![0u8; 5000];
    buffer[2500] = 1;
    buffer[4500] = 2;
    assert_eq!(match_length_except(&buffer, 3000, 1000, 0, 1500, 0), 1501);
}

#[test]
fn match_length_or_marks_a_different_next_byte() {
    let buffer = b"abcQ----abcR----abcZ".to_vec();
    // position 0 matches 3 bytes of position 16, and position 8 goes on
    // after the same bytes with 'R', not 'Q': one more than the length
    assert_eq!(match_length_or(&buffer, 16, 0, 8, 3, 0), 4);
}
