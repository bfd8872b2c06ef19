use vstd::prelude::*;

use crate::data::SliceReader;
use crate::error::{Error, IoErrorKind, RefPackResult};
use crate::header::mode::{
    be_u24_bytes, be_u24_value, le_u32_bytes, le_u32_value, lemma_be_u24, lemma_le_u32, push_all,
    read_u24_be, read_u32_le, write_u24_be, write_u32_le, Mode,
};
use crate::header::{Header, MAGIC};

verus! {

/// Header used by many Maxis and SimEA games
///
/// ## Structure
/// - Little Endian u32: Compressed length
/// - u8: Flags field; flags are unknown, and in all known cases is `0x10`
/// - Magic Number: 0xFB
/// - Big Endian u24: Decompressed Length
pub struct Maxis {
    _private: (),
}

/// The only known value of the flags field
pub const FLAGS: u8 = 0x10;

/// Compressed length as read back: the field is always there, and a header
/// without one is written with 0
pub open spec fn stored_compressed(compressed: Option<u32>) -> Option<u32> {
    match compressed {
        Some(c) => Some(c),
        None => Some(0),
    }
}

/// Decompressed length as written: capped to 24 bits
pub open spec fn capped(decompressed: u32) -> u32 {
    if decompressed < 0xFF_FFFF {
        decompressed
    } else {
        0xFF_FFFF
    }
}

impl Mode for Maxis {
    open spec fn spec_length(decompressed_size: nat) -> nat {
        9
    }

    open spec fn spec_read(input: Seq<u8>) -> RefPackResult<(Header, nat)> {
        if input.len() < 5 {
            Err(Error::Io(IoErrorKind::UnexpectedEof))
        } else if input[4] != FLAGS {
            Err(Error::BadFlags(input[4]))
        } else if input.len() < 6 {
            Err(Error::Io(IoErrorKind::UnexpectedEof))
        } else if input[5] != MAGIC {
            Err(Error::BadMagic(input[5]))
        } else if input.len() < 9 {
            Err(Error::Io(IoErrorKind::UnexpectedEof))
        } else {
            let c = le_u32_value(input);
            Ok(
                (
                    Header {
                        decompressed_length: be_u24_value(input.skip(6)),
                        compressed_length: Some(c),
                    },
                    9,
                ),
            )
        }
    }

    open spec fn spec_write(header: Header) -> Seq<u8> {
        le_u32_bytes(
            match header.compressed_length {
                Some(c) => c,
                None => 0,
            },
        ) + seq![FLAGS, MAGIC] + be_u24_bytes(capped(header.decompressed_length))
    }

    open spec fn spec_fits(decompressed_size: nat) -> bool {
        decompressed_size <= 0xFF_FFFF
    }

    open spec fn spec_stored(header: Header) -> Header {
        Header {
            decompressed_length: capped(header.decompressed_length),
            compressed_length: stored_compressed(header.compressed_length),
        }
    }

    fn length(_decompressed_size: usize) -> (n: usize) {
        9
    }

    fn read(reader: &mut SliceReader) -> (r: RefPackResult<Header>) {
        let ghost rest = reader.rest();
        let ghost p0 = reader.pos();
        let bytes = reader.read_exact(4)?;
        assert(bytes@ =~= rest.take(4));
        let compressed_length_prewrap = read_u32_le(bytes);
        let compressed_length = Some(compressed_length_prewrap);
        assert(reader.rest() =~= rest.skip(4));
        let flags = reader.read_u8()?;
        if flags != FLAGS {
            return Err(Error::BadFlags(flags));
        }
        assert(reader.rest() =~= rest.skip(5));
        let magic = reader.read_u8()?;
        if magic != MAGIC {
            return Err(Error::BadMagic(magic));
        }
        assert(reader.rest() =~= rest.skip(6));
        let bytes = reader.read_exact(3)?;
        assert(bytes@ =~= rest.skip(6).take(3));
        let decompressed_length = read_u24_be(bytes);
        Ok(Header { decompressed_length, compressed_length })
    }

    fn write(header: Header, writer: &mut Vec<u8>) {
        let compressed = match header.compressed_length {
            Some(c) => c,
            None => 0,
        };
        let bytes = write_u32_le(compressed);
        push_all(writer, &bytes);
        writer.push(FLAGS);
        writer.push(MAGIC);
        let decompressed = if header.decompressed_length < 0xFF_FFFF {
            header.decompressed_length
        } else {
            0xFF_FFFF
        };
        let bytes = write_u24_be(decompressed);
        push_all(writer, &bytes);
        assert(writer@ =~= old(writer)@ + Self::spec_write(header));
    }

    proof fn lemma_read_errors(input: Seq<u8>) {
    }

    proof fn lemma_roundtrip(header: Header, rest: Seq<u8>) {
        let c = match header.compressed_length {
            Some(c) => c,
            None => 0,
        };
        let w = Self::spec_write(header) + rest;
        lemma_le_u32(c, seq![FLAGS, MAGIC] + be_u24_bytes(capped(header.decompressed_length)) + rest);
        assert(w =~= le_u32_bytes(c) + (seq![FLAGS, MAGIC] + be_u24_bytes(
            capped(header.decompressed_length),
        ) + rest));
        lemma_be_u24(capped(header.decompressed_length), rest);
        assert(w.skip(6) =~= be_u24_bytes(capped(header.decompressed_length)) + rest);
    }
}

} // verus!
