use vstd::prelude::*;

use crate::data::SliceReader;
use crate::error::{Error, IoErrorKind, RefPackResult};
use crate::header::mode::{
    be_u24_bytes, be_u24_value, be_u32_bytes, be_u32_value, lemma_be_u24, lemma_be_u32, push_all,
    read_u24_be, read_u32_be, write_u24_be, write_u32_be, Mode,
};
use crate::header::{Header, MAGIC};

verus! {

/// Header used by many Maxis and SimEA games: the same as
/// [Maxis](crate::header::mode::Maxis) but without the compressed length
///
/// ## Structure
/// - u8: Flags field, telling how the decompressed length is stored
/// - Magic Number: 0xFB
/// - Big Endian u24 or u32: Decompressed Length
pub struct Maxis2 {
    _private: (),
}

/// Flags byte telling a 24 bit decompressed length
pub const FLAG_LITTLE: u8 = 0x10;

/// Flags byte telling a restricted 24 bit decompressed length
pub const FLAG_LITTLE_RESTRICTED: u8 = 0x40;

/// Flags byte telling a 32 bit decompressed length
pub const FLAG_BIG: u8 = 0x80;

impl Mode for Maxis2 {
    open spec fn spec_length(decompressed_size: nat) -> nat {
        if decompressed_size > 0xFF_FFFF {
            6
        } else {
            5
        }
    }

    open spec fn spec_read(input: Seq<u8>) -> RefPackResult<(Header, nat)> {
        if input.len() < 1 {
            Err(Error::Io(IoErrorKind::UnexpectedEof))
        } else if input[0] != FLAG_LITTLE && input[0] != FLAG_LITTLE_RESTRICTED && input[0]
            != FLAG_BIG {
            Err(Error::BadMagic(input[0]))
        } else if input.len() < 2 {
            Err(Error::Io(IoErrorKind::UnexpectedEof))
        } else if input[1] != MAGIC {
            Err(Error::BadMagic(input[1]))
        } else if input[0] == FLAG_BIG {
            if input.len() < 6 {
                Err(Error::Io(IoErrorKind::UnexpectedEof))
            } else {
                Ok(
                    (
                        Header {
                            decompressed_length: be_u32_value(input.skip(2)),
                            compressed_length: None,
                        },
                        6,
                    ),
                )
            }
        } else {
            if input.len() < 5 {
                Err(Error::Io(IoErrorKind::UnexpectedEof))
            } else {
                Ok(
                    (
                        Header {
                            decompressed_length: be_u24_value(input.skip(2)),
                            compressed_length: None,
                        },
                        5,
                    ),
                )
            }
        }
    }

    open spec fn spec_write(header: Header) -> Seq<u8> {
        if header.decompressed_length > 0xFF_FFFF {
            seq![FLAG_BIG, MAGIC] + be_u32_bytes(header.decompressed_length)
        } else {
            seq![FLAG_LITTLE, MAGIC] + be_u24_bytes(header.decompressed_length)
        }
    }

    open spec fn spec_fits(decompressed_size: nat) -> bool {
        true
    }

    open spec fn spec_stored(header: Header) -> Header {
        Header { decompressed_length: header.decompressed_length, compressed_length: None }
    }

    fn length(decompressed_size: usize) -> (n: usize) {
        if decompressed_size > 0xFF_FFFF {
            6
        } else {
            5
        }
    }

    fn read(reader: &mut SliceReader) -> (r: RefPackResult<Header>) {
        let ghost rest = reader.rest();
        let flags = reader.read_u8()?;
        if flags != FLAG_LITTLE && flags != FLAG_LITTLE_RESTRICTED && flags != FLAG_BIG {
            return Err(Error::BadMagic(flags));
        }
        assert(reader.rest() =~= rest.skip(1));
        let magic = reader.read_u8()?;
        if magic != MAGIC {
            return Err(Error::BadMagic(magic));
        }
        assert(reader.rest() =~= rest.skip(2));
        let decompressed_length = if flags == FLAG_BIG {
            let bytes = reader.read_exact(4)?;
            assert(bytes@ =~= rest.skip(2).take(4));
            read_u32_be(bytes)
        } else {
            let bytes = reader.read_exact(3)?;
            assert(bytes@ =~= rest.skip(2).take(3));
            read_u24_be(bytes)
        };
        Ok(Header { decompressed_length, compressed_length: None })
    }

    fn write(header: Header, writer: &mut Vec<u8>) {
        let big_decompressed = header.decompressed_length > 0xFF_FFFF;
        writer.push(
            if big_decompressed {
                FLAG_BIG
            } else {
                FLAG_LITTLE
            },
        );
        writer.push(MAGIC);
        if big_decompressed {
            let bytes = write_u32_be(header.decompressed_length);
            push_all(writer, &bytes);
        } else {
            let bytes = write_u24_be(header.decompressed_length);
            push_all(writer, &bytes);
        }
        assert(writer@ =~= old(writer)@ + Self::spec_write(header));
    }

    proof fn lemma_read_errors(input: Seq<u8>) {
    }

    proof fn lemma_roundtrip(header: Header, rest: Seq<u8>) {
        let w = Self::spec_write(header) + rest;
        if header.decompressed_length > 0xFF_FFFF {
            lemma_be_u32(header.decompressed_length, rest);
            assert(w.skip(2) =~= be_u32_bytes(header.decompressed_length) + rest);
        } else {
            lemma_be_u24(header.decompressed_length, rest);
            assert(w.skip(2) =~= be_u24_bytes(header.decompressed_length) + rest);
        }
    }
}

} // verus!
