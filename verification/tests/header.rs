use refpack::data::SliceReader;
use refpack::header::mode::{Flags, Maxis, Maxis2, Mode, Reference, SimEA};
use refpack::header::{Header, MAGIC};
use refpack::RefPackError;

/// Flags byte of the Maxis header
const FLAGS: u8 = 0x10;

fn read_header<M: Mode>(buf: &[u8]) -> Result<Header, RefPackError> {
    let mut reader = SliceReader::new(buf);
    Header::read::<M>(&mut reader)
}

fn write_header<M: Mode>(header: Header) -> Vec<u8> {
    let mut buf = vec![];
    header.write::<M>(&mut buf);
    buf
}

#[test]
fn flags_every_combo_symmetrical() {
    for big_decompressed in &[true, false] {
        for restricted in &[true, false] {
            for compressed_size_present in &[true, false] {
                let flags = Flags {
                    big_decompressed: *big_decompressed,
                    restricted: *restricted,
                    compressed_size_present: *compressed_size_present,
                };
                let written = flags.write();
                let read = Flags::read(written).unwrap();
                assert_eq!(flags, read);
            }
        }
    }
}

#[test]
fn flags_reads_correctly() {
    let buf = vec![0b0101_0000];
    let mut reader = SliceReader::new(&buf);
    let got = Flags::read(reader.read_u8().unwrap()).unwrap();
    let expected = Flags {
        big_decompressed: false,
        restricted: true,
        compressed_size_present: false,
    };
    assert_eq!(got, expected);
}

#[test]
fn flags_writes_correctly() {
    let flags = Flags {
        big_decompressed: false,
        restricted: true,
        compressed_size_present: false,
    };
    let mut buf = vec![];
    buf.push(flags.write());
    let expected = vec![0b0101_0000];
    assert_eq!(buf, expected);
}

#[test]
fn maxis_reads_correctly() {
    let buf = vec![255, 0, 0, 0, FLAGS, MAGIC, 0, 0, 255];
    let got = read_header::<Maxis>(&buf).unwrap();
    let want = Header {
        decompressed_length: 255,
        compressed_length: Some(255),
    };
    assert_eq!(got, want);
}

#[test]
fn maxis_writes_correctly() {
    let header = Header {
        decompressed_length: 255,
        compressed_length: Some(255),
    };
    let buf = write_header::<Maxis>(header);
    let want = vec![255, 0, 0, 0, FLAGS, MAGIC, 0, 0, 255];
    assert_eq!(buf, want);
}

#[test]
fn maxis_rejects_bad_flags() {
    let buf = vec![0, 0, 0, 0, 0x50, 0, 0, 0, 0];
    let err = read_header::<Maxis>(&buf).unwrap_err();
    assert_eq!(err.to_string(), RefPackError::BadFlags(0x50).to_string());
}

#[test]
fn maxis_rejects_bad_magic() {
    let buf = vec![0, 0, 0, 0, FLAGS, 0x50, 0, 0, 0];
    let err = read_header::<Maxis>(&buf).unwrap_err();
    assert_eq!(err.to_string(), RefPackError::BadMagic(0x50).to_string());
}

#[test]
fn reference_reads_correctly() {
    let buf = vec![255u8, 0x00, 0x00, 0x00];
    let header = read_header::<Reference>(&buf).unwrap();
    assert_eq!(header.decompressed_length, 255);
}

#[test]
fn reference_writes_correctly() {
    let header = Header {
        decompressed_length: 255,
        compressed_length: None,
    };
    let buf = write_header::<Reference>(header);
    assert_eq!(buf, vec![255u8, 0x00, 0x00, 0x00]);
}

#[test]
fn sim_ea_reads_correctly() {
    let buf = vec![0x10, 0xFB, 0x12, 0x34, 0x56];
    let got = read_header::<SimEA>(&buf).unwrap();
    let expected = Header {
        decompressed_length: 0x12_34_56,
        compressed_length: None,
    };
    assert_eq!(got, expected);
}

#[test]
fn sim_ea_writes_correctly() {
    let header = Header {
        decompressed_length: 0x12_34_56,
        compressed_length: None,
    };
    let buf = write_header::<SimEA>(header);
    let expected = vec![0x10, 0xFB, 0x12, 0x34, 0x56];
    assert_eq!(buf, expected);
}

#[test]
fn sim_ea_rejects_bad_flags() {
    let buf = vec![0xFF, 0];
    let err = read_header::<SimEA>(&buf).unwrap_err();
    assert_eq!(err.to_string(), RefPackError::BadFlags(0xFF).to_string());
}

#[test]
fn sim_ea_rejects_bad_magic() {
    let buf = vec![0, 0xFF];
    let err = read_header::<SimEA>(&buf).unwrap_err();
    assert_eq!(err.to_string(), RefPackError::BadMagic(0xFF).to_string());
}

#[test]
fn error_messages_format_numbers() {
    assert_eq!(
        RefPackError::BadFlags(0x50).to_string(),
        "Unknown flag was set in compression header `01010000`"
    );
    assert_eq!(
        RefPackError::BadMagic(0xFF).to_string(),
        "Invalid magic number at compression header `0xFF`"
    );
    assert_eq!(
        RefPackError::EmptyInput.to_string(),
        "No input provided to compression"
    );
}

#[test]
fn sim_ea_big_length_round_trips() {
    let header = Header {
        decompressed_length: 0x1234_5678,
        compressed_length: None,
    };
    let buf = write_header::<SimEA>(header);
    assert_eq!(buf.len(), SimEA::length(0x1234_5678));
    assert_eq!(read_header::<SimEA>(&buf).unwrap(), header);
}

#[test]
fn maxis2_round_trips() {
    for length in [0u32, 255, 0xFF_FFFF, 0x0100_0000, u32::MAX] {
        let header = Header {
            decompressed_length: length,
            compressed_length: None,
        };
        let buf = write_header::<Maxis2>(header);
        assert_eq!(buf.len(), Maxis2::length(length as usize));
        assert_eq!(read_header::<Maxis2>(&buf).unwrap(), header);
    }
}

#[test]
fn maxis_caps_large_lengths() {
    let header = Header {
        decompressed_length: 0x0100_0000,
        compressed_length: Some(7),
    };
    let buf = write_header::<Maxis>(header);
    let got = read_header::<Maxis>(&buf).unwrap();
    assert_eq!(got.compressed_length, Some(7));
    assert_eq!(got.decompressed_length, 0xFF_FFFF);
}

#[test]
fn short_header_is_an_io_error() {
    let err = read_header::<Reference>(&[1, 2]).unwrap_err();
    assert_eq!(err, RefPackError::Io(refpack::IoErrorKind::UnexpectedEof));
}

#[test]
fn maxis_keeps_a_zero_compressed_length() {
    for compressed in [0u32, 1, u32::MAX] {
        let header = Header {
            decompressed_length: 100,
            compressed_length: Some(compressed),
        };
        let buf = write_header::<Maxis>(header);
        assert_eq!(read_header::<Maxis>(&buf).unwrap(), header);
    }
}
