//! Headers of compressed data, which hold the decompressed length, sometimes
//! flags or a magic number, and sometimes the compressed length.
use vstd::prelude::*;

use crate::data::SliceReader;
use crate::error::RefPackResult;
use crate::header::mode::Mode;

pub mod mode;

verus! {

/// Magic number in the header. This immediately follows a flag field in most
/// cases
pub const MAGIC: u8 = 0xFB;

/// A decoded header
#[derive(Debug, Default, Clone, Copy, PartialEq, Eq, Structural)]
pub struct Header {
    pub decompressed_length: u32,
    pub compressed_length: Option<u32>,
}

impl Header {
    /// Reads a header in the layout of mode `M`
    ///
    /// # Errors
    /// - [RefPackError::BadFlags](crate::RefPackError::BadFlags): unsupported flags
    /// - [RefPackError::BadMagic](crate::RefPackError::BadMagic): invalid magic number
    /// - [RefPackError::Io](crate::RefPackError::Io): the reader ends before the header does
    pub fn read<M: Mode>(reader: &mut SliceReader) -> (r: RefPackResult<Header>)
        ensures
            final(reader).bytes() == old(reader).bytes(),
            match M::spec_read(old(reader).rest()) {
                Ok((h, n)) => r == Ok::<Header, crate::error::Error>(h) && final(reader).pos()
                    == old(reader).pos() + n,
                Err(e) => r == Err::<Header, crate::error::Error>(e),
            },
    {
        M::read(reader)
    }

    /// Writes the header in the layout of mode `M`
    pub fn write<M: Mode>(self, writer: &mut Vec<u8>)
        ensures
            final(writer)@ == old(writer)@ + M::spec_write(self),
    {
        M::write(self, writer)
    }
}

} // verus!
