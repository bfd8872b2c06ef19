//! The reference encoding of commands
use vstd::prelude::*;

use crate::control::{code_of, command_of, from_code, parse, Command};
use crate::data::control::mode::{Mode, Sizes};
use crate::data::control::{
    lemma_parse_encode, literal_byte, long_bytes, long_from, medium_bytes, medium_from,
    parse_command, short_bytes, short_from, stop_byte, Command as Code,
};
use crate::data::SliceReader;
use crate::error::{Error, IoErrorKind, RefPackResult};

verus! {

/// Reference encoding used by the vast majority of RefPack implementations,
/// dating back to the first RefPack implementation, by Frank Barchard.
///
/// | Command | Len | Literal | Length | Position | Layout |
/// |---------|-----|---------|--------|----------|--------|
/// | Short   | 2   | (0-3) +0 | (3-10) +3 | (1-1023) +1 | `0PPL-LLBB:PPPP-PPPP` |
/// | Medium  | 3   | (0-3) +0 | (4-67) +4 | (1-16383) +1 | `10LL-LLLL:BBPP-PPPP:PPPP-PPPP` |
/// | Long    | 4   | (0-3) +0 | (5-1028) +5 | (1-131072) +1 | `110P-LLBB:PPPP-PPPP:PPPP-PPPP:LLLL-LLLL` |
/// | Literal | 1   | (4-112) +4 | 0 | 0 | `111B-BBBB` |
/// | Stop    | 1   | (0-3) +0 | 0 | 0 | `1111-11PP` |
///
/// Literal commands store their length less 4 and shifted right by 2, since
/// any other command can carry the remaining 0 to 3 literals. The cap is 112
/// rather than 128 because a first byte of `252..=255` is a stop code.
pub struct Reference {
    _private: (),
}

impl Reference {
    /// Reads the rest of a short command whose first byte is `first`
    ///
    /// # Errors
    /// - [Error::Io]: the remaining byte is missing
    pub fn read_short(first: u8, reader: &mut SliceReader) -> (r: RefPackResult<Command>)
        ensures
            final(reader).bytes() == old(reader).bytes(),
            old(reader).rest().len() >= 1 ==> r == Ok::<Command, Error>(
                command_of(short_from(first, old(reader).rest()[0])),
            ) && final(reader).pos() == old(reader).pos() + 1,
            old(reader).rest().len() < 1 ==> r == Err::<Command, Error>(
                Error::Io(IoErrorKind::UnexpectedEof),
            ),
    {
        Ok(from_code(Code::read_short(first, reader)?))
    }

    /// Reads the rest of a medium command whose first byte is `first`
    ///
    /// # Errors
    /// - [Error::Io]: the remaining two bytes are missing
    pub fn read_medium(first: u8, reader: &mut SliceReader) -> (r: RefPackResult<Command>)
        ensures
            final(reader).bytes() == old(reader).bytes(),
            old(reader).rest().len() >= 2 ==> r == Ok::<Command, Error>(
                command_of(medium_from(first, old(reader).rest()[0], old(reader).rest()[1])),
            ) && final(reader).pos() == old(reader).pos() + 2,
            old(reader).rest().len() < 2 ==> r == Err::<Command, Error>(
                Error::Io(IoErrorKind::UnexpectedEof),
            ),
    {
        Ok(from_code(Code::read_medium(first, reader)?))
    }

    /// Reads the rest of a long command whose first byte is `first`
    ///
    /// # Errors
    /// - [Error::Io]: the remaining three bytes are missing
    pub fn read_long(first: u8, reader: &mut SliceReader) -> (r: RefPackResult<Command>)
        ensures
            final(reader).bytes() == old(reader).bytes(),
            old(reader).rest().len() >= 3 ==> r == Ok::<Command, Error>(
                command_of(
                    long_from(
                        first,
                        old(reader).rest()[0],
                        old(reader).rest()[1],
                        old(reader).rest()[2],
                    ),
                ),
            ) && final(reader).pos() == old(reader).pos() + 3,
            old(reader).rest().len() < 3 ==> r == Err::<Command, Error>(
                Error::Io(IoErrorKind::UnexpectedEof),
            ),
    {
        Ok(from_code(Code::read_long(first, reader)?))
    }

    /// Decodes a literal command from its byte
    #[must_use]
    pub fn read_literal(first: u8) -> (c: Command)
        ensures
            c == Command::Literal((((first & 0x1F) << 2u8) + 4) as u8),
    {
        from_code(Code::read_literal(first))
    }

    /// Decodes a stop command from its byte
    #[must_use]
    pub fn read_stop(first: u8) -> (c: Command)
        ensures
            c == Command::Stop(first & 0x3),
    {
        from_code(Code::read_stop(first))
    }

    /// Writes a short copy command
    pub fn write_short(offset: u16, length: u8, literal: u8, writer: &mut Vec<u8>) -> (r:
        RefPackResult<()>)
        requires
            offset >= 1,
            length >= 3,
        ensures
            r is Ok,
            final(writer)@ == old(writer)@ + short_bytes(offset as u32, length as u16, literal),
    {
        Code::write_short(offset as u32, length as u16, literal, writer);
        Ok(())
    }

    /// Writes a medium copy command
    pub fn write_medium(offset: u16, length: u8, literal: u8, writer: &mut Vec<u8>) -> (r:
        RefPackResult<()>)
        requires
            offset >= 1,
            length >= 4,
        ensures
            r is Ok,
            final(writer)@ == old(writer)@ + medium_bytes(offset as u32, length as u16, literal),
    {
        Code::write_medium(offset as u32, length as u16, literal, writer);
        Ok(())
    }

    /// Writes a long copy command
    pub fn write_long(offset: u32, length: u16, literal: u8, writer: &mut Vec<u8>) -> (r:
        RefPackResult<()>)
        requires
            offset >= 1,
            length >= 5,
        ensures
            r is Ok,
            final(writer)@ == old(writer)@ + long_bytes(offset, length, literal),
    {
        Code::write_long(offset, length, literal, writer);
        Ok(())
    }

    /// Writes a literal command
    pub fn write_literal(literal: u8, writer: &mut Vec<u8>) -> (r: RefPackResult<()>)
        requires
            literal >= 4,
        ensures
            r is Ok,
            final(writer)@ == old(writer)@.push(literal_byte(literal)),
    {
        Code::write_literal(literal, writer);
        Ok(())
    }

    /// Writes a stop command
    pub fn write_stop(number: u8, writer: &mut Vec<u8>) -> (r: RefPackResult<()>)
        ensures
            r is Ok,
            final(writer)@ == old(writer)@.push(stop_byte(number)),
    {
        Code::write_stop(number, writer);
        Ok(())
    }
}

impl Mode for Reference {
    open spec fn spec_sizes() -> Sizes {
        Sizes {
            literal: (4, 112),
            copy_literal: (0, 3),
            short_offset: (1, 1_023),
            short_length: (3, 10),
            medium_offset: (1, 16_383),
            medium_length: (4, 67),
            long_offset: (1, 131_072),
            long_length: (5, 1028),
        }
    }

    open spec fn spec_read(input: Seq<u8>) -> Option<(Command, nat)> {
        parse(input)
    }

    open spec fn spec_write(command: Command) -> Seq<u8> {
        command.encoded()
    }

    open spec fn writable(command: Command) -> bool {
        code_of(command).writable()
    }

    fn sizes() -> (s: Sizes) {
        Sizes {
            literal: (4, 112),
            copy_literal: (0, 3),
            short_offset: (1, 1_023),
            short_length: (3, 10),
            medium_offset: (1, 16_383),
            medium_length: (4, 67),
            long_offset: (1, 131_072),
            long_length: (5, 1028),
        }
    }

    fn read(reader: &mut SliceReader) -> (r: RefPackResult<Command>) {
        let ghost rest = reader.rest();
        let first = reader.read_u8()?;
        proof {
            assert(reader.rest() =~= rest.drop_first());
        }
        if first <= 0x7F {
            Reference::read_short(first, reader)
        } else if first <= 0xBF {
            Reference::read_medium(first, reader)
        } else if first <= 0xDF {
            Reference::read_long(first, reader)
        } else if first <= 0xFB {
            Ok(Reference::read_literal(first))
        } else {
            Ok(Reference::read_stop(first))
        }
    }

    fn write(command: Command, writer: &mut Vec<u8>) -> (r: RefPackResult<()>) {
        match command {
            Command::Short { offset, length, literal } => Reference::write_short(
                offset,
                length,
                literal,
                writer,
            ),
            Command::Medium { offset, length, literal } => Reference::write_medium(
                offset,
                length,
                literal,
                writer,
            ),
            Command::Long { offset, length, literal } => Reference::write_long(
                offset,
                length,
                literal,
                writer,
            ),
            Command::Literal(literal) => {
                let r = Reference::write_literal(literal, writer);
                assert(writer@ =~= old(writer)@ + command.encoded());
                r
            },
            Command::Stop(literal) => {
                let r = Reference::write_stop(literal, writer);
                assert(writer@ =~= old(writer)@ + command.encoded());
                r
            },
        }
    }

    proof fn lemma_symmetric(input: Seq<u8>) {
        lemma_parse_encode(input);
        let c = parse_command(input)->Some_0.0;
        assert(code_of(command_of(c)) == c);
    }
}

} // verus!
