use vstd::prelude::*;

use crate::data::SliceReader;
use crate::error::{Error, IoErrorKind, RefPackResult};
use crate::header::mode::{
    be_u24_bytes, be_u24_value, be_u32_bytes, be_u32_value, lemma_be_u24, lemma_be_u32, push_all,
    read_u24_be, read_u32_be, write_u24_be, write_u32_be, Mode,
};
use crate::header::{Header, MAGIC};

verus! {

/// Header used by The Sims 3 and The Sims 4: the same as
/// [Maxis](crate::header::mode::Maxis) but without the compressed length, and
/// with a flags field that is used
///
/// ## Structure
/// - u8: Flags field
/// - Magic Number: 0xFB
/// - Big Endian u24 or u32 (when the "big" flag is set): Decompressed Length
pub struct SimEA {
    _private: (),
}

/// The header flags
#[derive(Clone, Copy, PartialEq, Eq, Debug, Hash, Structural)]
pub struct Flags {
    pub big_decompressed: bool,
    pub restricted: bool,
    pub compressed_size_present: bool,
}

impl Flags {
    /// The flags decoded from their byte, or the byte itself as an error when
    /// a bit that has no known meaning is set
    pub open spec fn spec_read(data: u8) -> RefPackResult<Flags> {
        if data & 0b0010_1110 != 0 {
            Err(Error::BadFlags(data))
        } else {
            Ok(
                Flags {
                    big_decompressed: data & 0b1000_0000 != 0,
                    restricted: data & 0b0100_0000 != 0,
                    compressed_size_present: data & 0b0000_0001 != 0,
                },
            )
        }
    }

    /// The byte of the flags; bit 4 is always set
    pub open spec fn spec_write(self) -> u8 {
        (if self.big_decompressed {
            0x80u8
        } else {
            0u8
        }) | (if self.restricted {
            0x40u8
        } else {
            0u8
        }) | (if self.compressed_size_present {
            1u8
        } else {
            0u8
        }) | 0b0001_0000u8
    }

    /// Decodes the flags from their byte
    ///
    /// # Errors
    /// - [Error::BadFlags]: a bit with no known meaning is set
    pub fn read(data: u8) -> (r: RefPackResult<Self>)
        ensures
            r == Self::spec_read(data),
    {
        if (data & 0b0010_1110) != 0 {
            Err(Error::BadFlags(data))
        } else {
            Ok(
                Self {
                    big_decompressed: (data & 0b1000_0000) != 0,
                    restricted: (data & 0b0100_0000) != 0,
                    compressed_size_present: (data & 0b0000_0001) != 0,
                },
            )
        }
    }

    /// Encodes the flags as a byte
    pub fn write(self) -> (b: u8)
        ensures
            b == self.spec_write(),
    {
        (if self.big_decompressed {
            0x80u8
        } else {
            0u8
        }) | (if self.restricted {
            0x40u8
        } else {
            0u8
        }) | (if self.compressed_size_present {
            1u8
        } else {
            0u8
        }) | 0b0001_0000u8
    }
}

/// Law: any flags written read back as themselves
pub proof fn lemma_flags_roundtrip(flags: Flags)
    ensures
        Flags::spec_read(flags.spec_write()) == Ok::<Flags, Error>(flags),
{
    let b = flags.spec_write();
    let x = flags.big_decompressed;
    let y = flags.restricted;
    let z = flags.compressed_size_present;
    assert(b & 0b0010_1110 == 0 && (b & 0b1000_0000 != 0) == x && (b & 0b0100_0000 != 0) == y && (b
        & 0b0000_0001 != 0) == z) by (bit_vector)
        requires
            b == (if x {
                0x80u8
            } else {
                0u8
            }) | (if y {
                0x40u8
            } else {
                0u8
            }) | (if z {
                1u8
            } else {
                0u8
            }) | 0b0001_0000u8,
    ;
}

impl Mode for SimEA {
    open spec fn spec_length(decompressed_size: nat) -> nat {
        if decompressed_size > 0xFF_FFFF {
            6
        } else {
            5
        }
    }

    open spec fn spec_read(input: Seq<u8>) -> RefPackResult<(Header, nat)> {
        if input.len() < 1 {
            Err(Error::Io(IoErrorKind::UnexpectedEof))
        } else {
            match Flags::spec_read(input[0]) {
                Err(e) => Err(e),
                Ok(flags) => if input.len() < 2 {
                    Err(Error::Io(IoErrorKind::UnexpectedEof))
                } else if input[1] != MAGIC {
                    Err(Error::BadMagic(input[1]))
                } else if flags.big_decompressed {
                    if input.len() < 6 {
                        Err(Error::Io(IoErrorKind::UnexpectedEof))
                    } else {
                        Ok(
                            (
                                Header {
                                    decompressed_length: be_u32_value(input.skip(2)),
                                    compressed_length: None,
                                },
                                6,
                            ),
                        )
                    }
                } else {
                    if input.len() < 5 {
                        Err(Error::Io(IoErrorKind::UnexpectedEof))
                    } else {
                        Ok(
                            (
                                Header {
                                    decompressed_length: be_u24_value(input.skip(2)),
                                    compressed_length: None,
                                },
                                5,
                            ),
                        )
                    }
                },
            }
        }
    }

    open spec fn spec_write(header: Header) -> Seq<u8> {
        let big = header.decompressed_length > 0xFF_FFFF;
        seq![
            (Flags {
                big_decompressed: big,
                restricted: false,
                compressed_size_present: false,
            }).spec_write(),
            MAGIC,
        ] + if big {
            be_u32_bytes(header.decompressed_length)
        } else {
            be_u24_bytes(header.decompressed_length)
        }
    }

    open spec fn spec_fits(decompressed_size: nat) -> bool {
        true
    }

    open spec fn spec_stored(header: Header) -> Header {
        Header { decompressed_length: header.decompressed_length, compressed_length: None }
    }

    fn length(decompressed_size: usize) -> (n: usize) {
        if decompressed_size > 0xFF_FFFF {
            6
        } else {
            5
        }
    }

    fn read(reader: &mut SliceReader) -> (r: RefPackResult<Header>) {
        let ghost rest = reader.rest();
        let flags = Flags::read(reader.read_u8()?)?;
        assert(reader.rest() =~= rest.skip(1));
        let magic = reader.read_u8()?;
        if magic != MAGIC {
            return Err(Error::BadMagic(magic));
        }
        assert(reader.rest() =~= rest.skip(2));
        let decompressed_length = if flags.big_decompressed {
            let bytes = reader.read_exact(4)?;
            assert(bytes@ =~= rest.skip(2).take(4));
            read_u32_be(bytes)
        } else {
            let bytes = reader.read_exact(3)?;
            assert(bytes@ =~= rest.skip(2).take(3));
            read_u24_be(bytes)
        };
        Ok(Header { decompressed_length, compressed_length: None })
    }

    fn write(header: Header, writer: &mut Vec<u8>) {
        let big_decompressed = header.decompressed_length > 0xFF_FFFF;
        let flags = Flags { big_decompressed, restricted: false, compressed_size_present: false };
        writer.push(flags.write());
        writer.push(MAGIC);
        if big_decompressed {
            let bytes = write_u32_be(header.decompressed_length);
            push_all(writer, &bytes);
        } else {
            let bytes = write_u24_be(header.decompressed_length);
            push_all(writer, &bytes);
        }
        assert(writer@ =~= old(writer)@ + Self::spec_write(header));
    }

    proof fn lemma_read_errors(input: Seq<u8>) {
    }

    proof fn lemma_roundtrip(header: Header, rest: Seq<u8>) {
        let big = header.decompressed_length > 0xFF_FFFF;
        let flags = Flags { big_decompressed: big, restricted: false, compressed_size_present: false };
        lemma_flags_roundtrip(flags);
        let w = Self::spec_write(header) + rest;
        if big {
            lemma_be_u32(header.decompressed_length, rest);
            assert(w.skip(2) =~= be_u32_bytes(header.decompressed_length) + rest);
        } else {
            lemma_be_u24(header.decompressed_length, rest);
            assert(w.skip(2) =~= be_u24_bytes(header.decompressed_length) + rest);
        }
    }
}

} // verus!
