//! The encoding of commands of Simcity 4
use vstd::prelude::*;

use crate::control::{code_of, command_of, parse, Command};
use crate::data::control::mode::{Mode, Reference, Sizes};
use crate::data::control::{
    lemma_low_byte, lemma_low_byte_u16, lemma_parse_encode, lemma_second_byte, parse_command,
};
use crate::data::SliceReader;
use crate::error::{Error, IoErrorKind, RefPackResult};

verus! {

/// Simcity 4 uses a nonstandard bit layout for long copy commands:
///
/// - Long: 4 bytes, 0-3 literals, copy length 5-2047 (+5), position 0-65535
///   (stored as is), layout `110L-LLBB|PPPP-PPPP|PPPP-PPPP|LLLL-LLLL`
///
/// All the other commands are laid out as in [Reference].
pub struct Simcity4 {
    _private: (),
}

/// Long command decoded from its four bytes in the layout of Simcity 4
pub open spec fn long_from(b1: u8, b2: u8, b3: u8, b4: u8) -> Command {
    Command::Long {
        offset: ((b2 as u32) << 8u32) | (b3 as u32),
        length: (((((b1 & 0x1C) as u16) << 6u16) | (b4 as u16)) + 5) as u16,
        literal: b1 & 0x3,
    }
}

/// Bytes of a long command in the layout of Simcity 4
pub open spec fn long_bytes(offset: u32, length: u16, literal: u8) -> Seq<u8> {
    let l = (length - 5) as u16;
    seq![
        0xC0u8 | (((l >> 6u16) & 0x1C) as u8) | (literal & 0x3),
        ((offset >> 8u32) & 0xFF) as u8,
        (offset & 0xFF) as u8,
        (l & 0xFF) as u8,
    ]
}

impl Mode for Simcity4 {
    open spec fn spec_sizes() -> Sizes {
        Sizes {
            literal: (4, 112),
            copy_literal: (0, 3),
            short_offset: (1, 1_023),
            short_length: (3, 10),
            medium_offset: (1, 16_383),
            medium_length: (4, 67),
            long_offset: (0, 65_535),
            long_length: (5, 2047),
        }
    }

    open spec fn spec_read(input: Seq<u8>) -> Option<(Command, nat)> {
        if input.len() > 0 && 0xC0 <= input[0] <= 0xDF {
            if input.len() < 4 {
                None
            } else {
                Some((long_from(input[0], input[1], input[2], input[3]), 4))
            }
        } else {
            parse(input)
        }
    }

    open spec fn spec_write(command: Command) -> Seq<u8> {
        match command {
            Command::Long { offset, length, literal } => long_bytes(offset, length, literal),
            _ => command.encoded(),
        }
    }

    open spec fn writable(command: Command) -> bool {
        match command {
            Command::Long { length, .. } => length >= 5,
            _ => code_of(command).writable(),
        }
    }

    fn sizes() -> (s: Sizes) {
        Sizes {
            literal: (4, 112),
            copy_literal: (0, 3),
            short_offset: (1, 1_023),
            short_length: (3, 10),
            medium_offset: (1, 16_383),
            medium_length: (4, 67),
            long_offset: (0, 65_535),
            long_length: (5, 2047),
        }
    }

    fn read(reader: &mut SliceReader) -> (r: RefPackResult<Command>) {
        let ghost rest = reader.rest();
        let first = reader.read_u8()?;
        proof {
            assert(reader.rest() =~= rest.drop_first());
        }
        if first <= 0x7F {
            Reference::read_short(first, reader)
        } else if first <= 0xBF {
            Reference::read_medium(first, reader)
        } else if first <= 0xDF {
            let second = reader.read_u8()?;
            let third = reader.read_u8()?;
            let fourth = reader.read_u8()?;
            proof {
                assert((((first & 0x1C) as u16) << 6u16) | (fourth as u16) < 2048) by (bit_vector);
            }
            let offset = (second as u32) << 8 | third as u32;
            let length = (((first & 0b0001_1100) as u16) << 6 | fourth as u16) + 5;
            let literal = first & 0b0000_0011;
            Ok(Command::Long { offset, length, literal })
        } else if first <= 0xFB {
            Ok(Reference::read_literal(first))
        } else {
            Ok(Reference::read_stop(first))
        }
    }

    fn write(command: Command, writer: &mut Vec<u8>) -> (r: RefPackResult<()>) {
        match command {
            Command::Short { offset, length, literal } => Reference::write_short(
                offset,
                length,
                literal,
                writer,
            ),
            Command::Medium { offset, length, literal } => Reference::write_medium(
                offset,
                length,
                literal,
                writer,
            ),
            Command::Long { offset, length, literal } => {
                let length_adjusted = length - 5;

                let first = 0b1100_0000u8 | ((length_adjusted >> 6) & 0b0001_1100) as u8 | literal
                    & 0b0000_0011;
                let second = ((offset >> 8) & 0b1111_1111) as u8;
                let third = (offset & 0b1111_1111) as u8;
                let fourth = (length_adjusted & 0b1111_1111) as u8;

                writer.push(first);
                writer.push(second);
                writer.push(third);
                writer.push(fourth);
                assert(writer@ =~= old(writer)@ + long_bytes(offset, length, literal));
                Ok(())
            },
            Command::Literal(literal) => {
                let r = Reference::write_literal(literal, writer);
                assert(writer@ =~= old(writer)@ + command.encoded());
                r
            },
            Command::Stop(literal) => {
                let r = Reference::write_stop(literal, writer);
                assert(writer@ =~= old(writer)@ + command.encoded());
                r
            },
        }
    }

    proof fn lemma_symmetric(input: Seq<u8>) {
        if input.len() > 0 && 0xC0 <= input[0] <= 0xDF {
            let (b1, b2, b3, b4) = (input[0], input[1], input[2], input[3]);
            let offset = ((b2 as u32) << 8u32) | (b3 as u32);
            let l = ((((b1 & 0x1C) as u16) << 6u16) | (b4 as u16));
            assert(l < 2048 && 0xC0u8 | (((l >> 6u16) & 0x1C) as u8) | ((b1 & 0x3) & 0x3) == b1
                && ((offset >> 8u32) & 0xFF) as u8 == b2 && (offset & 0xFF) as u8 == b3 && (l
                & 0xFF) as u8 == b4) by (bit_vector)
                requires
                    offset == ((b2 as u32) << 8u32) | (b3 as u32),
                    l == ((((b1 & 0x1C) as u16) << 6u16) | (b4 as u16)),
                    0xC0 <= b1 <= 0xDF,
            ;
            assert(long_bytes(offset, (l + 5) as u16, b1 & 0x3) =~= input.take(4));
        } else {
            lemma_parse_encode(input);
            let c = parse_command(input)->Some_0.0;
            assert(code_of(command_of(c)) == c);
        }
    }
}

/// The length bits of a long command in the layout of Simcity 4, as a number
proof fn lemma_long_length_bits(b1: u8, b4: u8)
    by (bit_vector)
    ensures
        (((b1 & 0x1C) as u16) << 6u16) | (b4 as u16) == (((b1 / 4) % 8) as u16 * 256 + b4 as u16)
            as u16,
        b1 & 0x3 == b1 % 4,
{
}

/// The offset bytes of a long command in the layout of Simcity 4, as a number
proof fn lemma_long_offset_bits(b2: u8, b3: u8)
    by (bit_vector)
    ensures
        ((b2 as u32) << 8u32) | (b3 as u32) == (b2 as u32 * 256 + b3 as u32) as u32,
{
}

/// The first byte of a long command in the layout of Simcity 4, as a number
proof fn lemma_long_first_bits(l: u16, lit: u8)
    by (bit_vector)
    requires
        l < 2043,
        lit < 4,
    ensures
        0xC0u8 | (((l >> 6u16) & 0x1C) as u8) | (lit & 0x3) == (0xC0u16 + (l / 256) * 4 + (
        lit as u16)) as u8,
{
}

/// Law: a long command read in the layout of Simcity 4 takes its offset, as
/// is, from the second and third bytes, most significant first, and its
/// length less 5 from bits 4 to 2 of the first byte, above the fourth byte
pub proof fn lemma_long_read_layout(input: Seq<u8>)
    requires
        input.len() >= 4,
        0xC0 <= input[0] <= 0xDF,
    ensures
        Simcity4::spec_read(input) == Some(
            (
                Command::Long {
                    offset: (input[1] * 256 + input[2]) as u32,
                    length: (((input[0] / 4) % 8) * 256 + input[3] + 5) as u16,
                    literal: input[0] % 4,
                },
                4nat,
            ),
        ),
{
    lemma_long_length_bits(input[0], input[3]);
    lemma_long_offset_bits(input[1], input[2]);
}

/// Law: a long command written in the layout of Simcity 4 is the first byte
/// with bits 10 to 8 of the length less 5 and the literal count, the offset
/// as is, most significant byte first, then the low byte of the length less 5
pub proof fn lemma_long_write_layout(offset: u32, length: u16, literal: u8)
    requires
        offset <= 65535,
        5 <= length <= 2047,
        literal <= 3,
    ensures
        Simcity4::spec_write(Command::Long { offset, length, literal }) == seq![
            (0xC0 + ((length - 5) / 256) * 4 + literal) as u8,
            (offset / 256) as u8,
            (offset % 256) as u8,
            ((length - 5) % 256) as u8,
        ],
{
    let l = (length - 5) as u16;
    lemma_long_first_bits(l, literal);
    lemma_second_byte(offset);
    lemma_low_byte(offset);
    lemma_low_byte_u16(l);
}

} // verus!
