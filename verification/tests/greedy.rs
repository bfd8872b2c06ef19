use refpack::data::compression::greedy::encode_stream;
use refpack::data::control::Control;

/// Applies control blocks to an empty output
fn apply(controls: &[Control]) -> Vec<u8> {
    let mut out: Vec<u8> = vec![];
    for control in controls {
        out.extend_from_slice(&control.bytes);
        if let Some((offset, length)) = control.command.offset_copy() {
            for _ in 0..length {
                let byte = out[out.len() - offset];
                out.push(byte);
            }
        }
    }
    out
}

fn noise(length: usize, modulus: u32, seed: u32) -> Vec<u8> {
    let mut state = seed;
    (0..length)
        .map(|_| {
            state = state.wrapping_mul(1_103_515_245).wrapping_add(12_345);
            ((state >> 16) % modulus) as u8
        })
        .collect()
}

#[test]
fn greedy_reproduces_its_input() {
    let inputs: Vec<Vec<u8>> = vec![
        vec![],
        vec![1],
        vec![1, 2, 3],
        b"Hello World! Hello World! Hello World!".to_vec(),
        vec![0; 5000],
        noise(3000, 2, 9),
        noise(40_000, 4, 10),
        (0..=255u8).cycle().take(70_000).collect(),
    ];
    for input in inputs {
        let controls = encode_stream(&input);
        assert!(controls.last().unwrap().command.is_stop());
        assert_eq!(apply(&controls), input);
    }
}

#[test]
fn greedy_copies_repeats() {
    let input = vec![7u8; 100];
    let controls = encode_stream(&input);
    // one literal byte and a copy of the other 99 at distance one, then the
    // stop block
    assert_eq!(controls.len(), 2);
    assert_eq!(controls[0].bytes, vec![7]);
    assert_eq!(controls[0].command.offset_copy(), Some((1, 99)));
    assert_eq!(apply(&controls), input);

    // copies are at most 1025 bytes long
    let input = vec![0u8; 5000];
    let controls = encode_stream(&input);
    assert_eq!(controls[0].command.offset_copy(), Some((1, 1025)));
    assert_eq!(controls[1].command.offset_copy(), Some((1, 1025)));
    assert_eq!(apply(&controls), input);
}

#[test]
fn greedy_refuses_short_far_matches() {
    // "abcd" again 2000 bytes later: 4 bytes at a distance over 1024
    let mut input = b"abcd".to_vec();
    input.extend(noise(2000, 256, 5).iter().map(|b| b | 0x80));
    input.extend_from_slice(b"abcd");
    input.extend_from_slice(b"xyz");
    let controls = encode_stream(&input);
    assert!(controls.iter().all(|c| c.command.offset_copy().map_or(true, |(o, _)| o != 2004)));
    assert_eq!(apply(&controls), input);
}

#[test]
fn greedy_gives_its_exact_encoding() {
    let controls = encode_stream(b"abcabcabcabc");
    assert_eq!(controls.len(), 2);
    assert_eq!(controls[0].bytes, b"abc".to_vec());
    assert_eq!(controls[0].command.offset_copy(), Some((3, 9)));
    assert!(controls[1].command.is_stop());
    assert!(controls[1].bytes.is_empty());
}
