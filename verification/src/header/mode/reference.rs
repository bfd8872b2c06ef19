use vstd::prelude::*;

use crate::data::SliceReader;
use crate::error::{Error, IoErrorKind, RefPackResult};
use crate::header::mode::{
    le_u32_bytes, le_u32_value, lemma_le_u32, push_all, read_u32_le, write_u32_le, Mode,
};
use crate::header::Header;

verus! {

/// Earliest "Reference" header: a little endian `u32` decompressed length,
/// nothing else
pub struct Reference {
    _private: (),
}

impl Mode for Reference {
    open spec fn spec_length(decompressed_size: nat) -> nat {
        4
    }

    open spec fn spec_read(input: Seq<u8>) -> RefPackResult<(Header, nat)> {
        if input.len() < 4 {
            Err(Error::Io(IoErrorKind::UnexpectedEof))
        } else {
            Ok((Header { decompressed_length: le_u32_value(input), compressed_length: None }, 4))
        }
    }

    open spec fn spec_write(header: Header) -> Seq<u8> {
        le_u32_bytes(header.decompressed_length)
    }

    open spec fn spec_fits(decompressed_size: nat) -> bool {
        true
    }

    open spec fn spec_stored(header: Header) -> Header {
        Header { decompressed_length: header.decompressed_length, compressed_length: None }
    }

    fn length(_decompressed_size: usize) -> (n: usize) {
        4
    }

    fn read(reader: &mut SliceReader) -> (r: RefPackResult<Header>) {
        let ghost rest = reader.rest();
        let bytes = reader.read_exact(4)?;
        assert(bytes@ =~= rest.take(4));
        let decompressed_length = read_u32_le(bytes);
        Ok(Header { decompressed_length, compressed_length: None })
    }

    fn write(header: Header, writer: &mut Vec<u8>) {
        let bytes = write_u32_le(header.decompressed_length);
        push_all(writer, &bytes);
    }

    proof fn lemma_read_errors(input: Seq<u8>) {
    }

    proof fn lemma_roundtrip(header: Header, rest: Seq<u8>) {
        lemma_le_u32(header.decompressed_length, rest);
    }
}

} // verus!
