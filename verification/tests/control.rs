use refpack::control;
use refpack::data::control::iterator::Iter;
use refpack::data::control::mode::{Mode, Reference, Simcity4};
use refpack::data::control::{Command, CommandKind, Control};
use refpack::data::SliceReader;

fn encode(command: Command) -> Vec<u8> {
    let mut buf = vec![];
    command.write(&mut buf);
    buf
}

fn decode(bytes: &[u8]) -> Command {
    let mut reader = SliceReader::new(bytes);
    let command = Command::read(&mut reader).unwrap();
    assert_eq!(reader.position(), bytes.len());
    command
}

#[test]
fn command_new_picks_the_smallest_kind() {
    assert_eq!(Command::new(1, 3, 0).kind, CommandKind::Short);
    assert_eq!(Command::new(1024, 10, 3).kind, CommandKind::Short);
    assert_eq!(Command::new(1025, 10, 0).kind, CommandKind::Medium);
    assert_eq!(Command::new(16_384, 67, 0).kind, CommandKind::Medium);
    assert_eq!(Command::new(16_385, 5, 0).kind, CommandKind::Long);
    assert_eq!(Command::new(1, 68, 2).kind, CommandKind::Long);
}

#[test]
fn command_known_encodings() {
    assert_eq!(encode(Command::new(1, 3, 0)), vec![0x00, 0x00]);
    assert_eq!(encode(Command::new(1024, 10, 3)), vec![0x7F, 0xFF]);
    assert_eq!(encode(Command::new(16_384, 67, 3)), vec![0xBF, 0xFF, 0xFF]);
    assert_eq!(encode(Command::new(131_072, 1028, 3)), vec![0xDF, 0xFF, 0xFF, 0xFF]);
    assert_eq!(encode(Command::new_literal(112)), vec![0xFB]);
    assert_eq!(encode(Command::new_literal(4)), vec![0xE0]);
    assert_eq!(encode(Command::new_stop(3)), vec![0xFF]);
}

#[test]
fn command_symmetrical_copy() {
    for offset in [1u32, 2, 1023, 1024, 1025, 16_383, 16_384, 16_385, 131_071, 131_072] {
        for length in [5u16, 6, 10, 11, 67, 68, 1027, 1028] {
            for literal in 0..=3u8 {
                let command = Command::new(offset, length, literal);
                assert_eq!(decode(&encode(command)), command);
            }
        }
    }
}

#[test]
fn command_symmetrical_literal_and_stop() {
    for literal in 0..=27u8 {
        let command = Command::new_literal(literal * 4 + 4);
        assert_eq!(decode(&encode(command)), command);
    }
    for literal in 0..=3usize {
        let command = Command::new_stop(literal);
        assert_eq!(decode(&encode(command)), command);
        assert!(command.is_stop());
    }
}

#[test]
fn command_accessors() {
    let copy = Command::new(20, 7, 2);
    assert_eq!(copy.num_of_literal(), Some(2));
    assert_eq!(copy.offset_copy(), Some((20, 7)));
    assert!(!copy.is_stop());
    let stop = Command::new_stop(0);
    assert_eq!(stop.num_of_literal(), None);
    assert_eq!(stop.offset_copy(), None);
}

#[test]
fn truncated_command_is_an_error() {
    let mut reader = SliceReader::new(&[0x80, 0x00]);
    assert!(Command::read(&mut reader).is_err());
}

#[test]
fn test_control_iterator() {
    let input = vec![
        Control::new(Command::new(1, 3, 2), vec![1, 2]),
        Control::new_literal_block(&[5, 6, 7, 8]),
        Control::new(Command::new(3000, 40, 0), vec![]),
        Control::new_stop(&[9]),
    ];
    let mut buf = vec![];
    for control in &input {
        control.write(&mut buf);
    }
    let mut reader = SliceReader::new(&buf);
    let mut iter = Iter::new(&mut reader);
    let mut out = vec![];
    while let Some(control) = iter.next() {
        out.push(control);
    }
    assert_eq!(out, input);
}

#[test]
fn legacy_command_new() {
    assert_eq!(
        control::Command::new(1023, 10, 1),
        control::Command::Short { offset: 1023, length: 10, literal: 1 }
    );
    assert_eq!(
        control::Command::new(1024, 10, 1),
        control::Command::Medium { offset: 1024, length: 10, literal: 1 }
    );
    assert_eq!(
        control::Command::new(16_384, 5, 0),
        control::Command::Long { offset: 16_384, length: 5, literal: 0 }
    );
    assert_eq!(control::Command::new_literal(8), control::Command::Literal(8));
    assert_eq!(control::Command::new_stop(2), control::Command::Stop(2));
}

#[test]
fn legacy_control_symmetrical() {
    let controls = vec![
        control::Control::new(control::Command::new(5, 9, 1), vec![42]),
        control::Control::new_literal_block(&[1, 2, 3, 4, 5, 6, 7, 8]),
        control::Control::new(control::Command::new(131_071, 1028, 0), vec![]),
        control::Control::new_stop(&[]),
    ];
    let mut buf = vec![];
    for control in &controls {
        control.write(&mut buf);
    }
    let mut reader = SliceReader::new(&buf);
    let mut iter = control::Iter::new(&mut reader);
    let mut out = vec![];
    while let Some(control) = iter.next() {
        out.push(control);
    }
    assert_eq!(out, controls);
}

fn mode_round_trip<M: Mode>(input: &[u8]) {
    let mut reader = SliceReader::new(input);
    let command = M::read(&mut reader).unwrap();
    let mut out = vec![];
    M::write(command, &mut out).unwrap();
    assert_eq!(out, input.to_vec());
}

#[test]
fn symmetrical_read_write() {
    let inputs: Vec<Vec<u8>> = vec![
        vec![0x00, 0x00],
        vec![0x6B, 0x12],
        vec![0x80, 0x00, 0x00],
        vec![0xBF, 0xC3, 0x21],
        vec![0xC0, 0x00, 0x00, 0x00],
        vec![0xDE, 0x12, 0x34, 0x56],
        vec![0xE0],
        vec![0xFB],
        vec![0xFC],
        vec![0xFF],
    ];
    for input in &inputs {
        mode_round_trip::<Reference>(input);
        mode_round_trip::<Simcity4>(input);
    }
}

#[test]
fn simcity_4_long_layout() {
    let mut reader = SliceReader::new(&[0xDE, 0x12, 0x34, 0x56]);
    let command = Simcity4::read(&mut reader).unwrap();
    assert_eq!(
        command,
        control::Command::Long { offset: 0x1234, length: ((0x1C << 6) | 0x56) + 5, literal: 2 }
    );
    let mut reader = SliceReader::new(&[0xDE, 0x12, 0x34, 0x56]);
    let command = Reference::read(&mut reader).unwrap();
    assert_eq!(
        command,
        control::Command::Long { offset: (0x10 << 12 | 0x1234) + 1, length: ((0x0C << 6) | 0x56) + 5, literal: 2 }
    );
}

#[test]
fn reference_sizes() {
    let sizes = Reference::sizes();
    assert_eq!(sizes.literal_min(), 4);
    assert_eq!(sizes.literal_max(), 112);
    assert_eq!(sizes.copy_literal_min(), 0);
    assert_eq!(sizes.copy_literal_max(), 3);
    assert_eq!(sizes.short_offset_min(), 1);
    assert_eq!(sizes.short_offset_max(), 1_023);
    assert_eq!(sizes.short_length_min(), 3);
    assert_eq!(sizes.short_length_max(), 10);
    assert_eq!(sizes.medium_offset_min(), 1);
    assert_eq!(sizes.medium_offset_max(), 16_383);
    assert_eq!(sizes.medium_length_min(), 4);
    assert_eq!(sizes.medium_length_max(), 67);
    assert_eq!(sizes.long_offset_min(), 1);
    assert_eq!(sizes.long_offset_max(), 131_072);
    assert_eq!(sizes.long_length_min(), 5);
    assert_eq!(sizes.long_length_max(), 1028);
    assert_eq!(sizes.literal_effective_min(), 0);
    assert_eq!(sizes.literal_effective_max(), 27);
}

#[test]
fn reference_writers() {
    let mut buf = vec![];
    Reference::write_short(1024, 10, 3, &mut buf).unwrap();
    Reference::write_medium(16_384, 67, 3, &mut buf).unwrap();
    Reference::write_long(131_072, 1028, 3, &mut buf).unwrap();
    Reference::write_literal(112, &mut buf).unwrap();
    Reference::write_stop(3, &mut buf).unwrap();
    assert_eq!(
        buf,
        vec![0x7F, 0xFF, 0xBF, 0xFF, 0xFF, 0xDF, 0xFF, 0xFF, 0xFF, 0xFB, 0xFF]
    );
}
