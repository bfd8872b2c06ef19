//! Control codes used by compression and decompression
//!
//! Each control block is a command code followed by the literal bytes it
//! carries. There are five commands:
//!
//! | Command | Len | Literal      | Length        | Offset          | Layout                                    |
//! |---------|-----|--------------|---------------|-----------------|-------------------------------------------|
//! | Short   | 2   | (0..=3) +0   | (3..=10) +3   | (1..=1024) +1   | `0PPL-LLBB:PPPP-PPPP`                     |
//! | Medium  | 3   | (0..=3) +0   | (4..=67) +4   | (1..=16384) +1  | `10LL-LLLL:BBPP-PPPP:PPPP-PPPP`           |
//! | Long    | 4   | (0..=3) +0   | (5..=1028) +5 | (1..=131072) +1 | `110P-LLBB:PPPP-PPPP:PPPP-PPPP:LLLL-LLLL` |
//! | Literal | 1   | (4..=112) +4 | 0             | 0               | `111B-BBBB`                               |
//! | Stop    | 1   | (0..=3) +0   | 0             | 0               | `1111-11BB`                               |
//!
//! `P` are offset bits, `L` length bits, `B` literal count bits; the stored
//! values are the real ones minus the number after the `+`.
//!
//! Literal commands carry a multiple of 4 bytes, stored shifted right by 2,
//! since every other command can carry the remaining 0 to 3 literal bytes.
//! The first byte of a command decides its kind by range: a first byte in
//! `252..=255` is a stop command, which caps literal commands at 112 bytes
//! (`0b1111_1011`, 251).
use vstd::prelude::*;

use crate::data::SliceReader;
use crate::error::{Error, IoErrorKind, RefPackResult};

pub mod iterator;
pub mod mode;

verus! {

/// minimum value of the literal length in a literal command
pub const LITERAL_MIN: u8 = 4;

/// maximum value of the literal length in a literal command
pub const LITERAL_MAX: u8 = 112;

/// "Real" minimum of the literal value in a literal command once encoded
pub const LITERAL_EFFECTIVE_MIN: u8 = (LITERAL_MIN - 4) / 4;

/// "Real" maximum of the literal value in a literal command once encoded
pub const LITERAL_EFFECTIVE_MAX: u8 = (LITERAL_MAX - 4) / 4;

/// minimum value of the literal length in a non-literal command
pub const COPY_LITERAL_MIN: u8 = 0;

/// maximum value of the literal length in a non-literal command
pub const COPY_LITERAL_MAX: u8 = 3;

/// minimum offset distance for a short command
pub const SHORT_OFFSET_MIN: u32 = 1;

/// maximum offset distance for a short command
pub const SHORT_OFFSET_MAX: u32 = 1_024;

/// minimum length for a short command
pub const SHORT_LENGTH_MIN: u16 = 3;

/// maximum length for a short command
pub const SHORT_LENGTH_MAX: u16 = 10;

/// minimum offset distance for a medium command
pub const MEDIUM_OFFSET_MIN: u32 = 1;

/// maximum offset distance for a medium command
pub const MEDIUM_OFFSET_MAX: u32 = 16_384;

/// minimum length for a medium command
pub const MEDIUM_LENGTH_MIN: u16 = 4;

/// maximum length for a medium command
pub const MEDIUM_LENGTH_MAX: u16 = 67;

/// minimum offset distance for a long command
pub const LONG_OFFSET_MIN: u32 = 1;

/// maximum offset distance for a long command
pub const LONG_OFFSET_MAX: u32 = 131_072;

/// minimum length for a long command
pub const LONG_LENGTH_MIN: u16 = 5;

/// maximum length for a long command
pub const LONG_LENGTH_MAX: u16 = 1_028;

/// The kinds of command codes
#[derive(Debug, Clone, Copy, PartialEq, Eq, Hash, Structural)]
pub enum CommandKind {
    Short,
    Medium,
    Long,
    Literal,
    Stop,
}

/// A command code. For copy commands (short, medium, long) `offset` and
/// `length` describe the back-reference and `literal` the number of literal
/// bytes (0 to 3) written before the copy; for literal and stop commands only
/// `literal` is used.
#[derive(Debug, Clone, Copy, PartialEq, Eq, Structural)]
pub struct Command {
    pub offset: u32,
    pub length: u16,
    pub literal: u8,
    pub kind: CommandKind,
}

/// First byte of an encoded short command
pub open spec fn short_first(offset: u32, length: u16, literal: u8) -> u8 {
    let o = (offset - 1) as u32;
    let l = (length - 3) as u16;
    (((o & 0x300) >> 3u32) as u8) | (((l & 0x7) << 2u16) as u8) | (literal & 0x3)
}

/// Bytes of an encoded short command
pub open spec fn short_bytes(offset: u32, length: u16, literal: u8) -> Seq<u8> {
    seq![short_first(offset, length, literal), (((offset - 1) as u32) & 0xFF) as u8]
}

/// Bytes of an encoded medium command
pub open spec fn medium_bytes(offset: u32, length: u16, literal: u8) -> Seq<u8> {
    let o = (offset - 1) as u32;
    let l = (length - 4) as u16;
    seq![
        (0x80 | (l & 0x3F)) as u8,
        ((literal & 0x3) << 6u8) | ((o >> 8u32) as u8),
        (o & 0xFF) as u8,
    ]
}

/// First byte of an encoded long command
pub open spec fn long_first(offset: u32, length: u16, literal: u8) -> u8 {
    let o = (offset - 1) as u32;
    let l = (length - 5) as u16;
    0xC0u8 | (((o >> 12u32) & 0x10) as u8) | (((l >> 6u16) & 0xC) as u8) | (literal & 0x3)
}

/// Bytes of an encoded long command
pub open spec fn long_bytes(offset: u32, length: u16, literal: u8) -> Seq<u8> {
    let o = (offset - 1) as u32;
    let l = (length - 5) as u16;
    seq![
        long_first(offset, length, literal),
        ((o >> 8u32) & 0xFF) as u8,
        (o & 0xFF) as u8,
        (l & 0xFF) as u8,
    ]
}

/// Byte of an encoded literal command
pub open spec fn literal_byte(literal: u8) -> u8 {
    0xE0u8 | ((((literal - 4) as u8) >> 2u8) & 0x1F)
}

/// Byte of an encoded stop command
pub open spec fn stop_byte(number: u8) -> u8 {
    0xFCu8 | (number & 0x3)
}

/// Short command decoded from its two bytes
pub open spec fn short_from(b1: u8, b2: u8) -> Command {
    Command {
        offset: (((((b1 as u32) & 0x60) << 3u32) | (b2 as u32)) + 1) as u32,
        length: ((((b1 as u16) & 0x1C) >> 2u16) + 3) as u16,
        literal: b1 & 0x3,
        kind: CommandKind::Short,
    }
}

/// Medium command decoded from its three bytes
pub open spec fn medium_from(b1: u8, b2: u8, b3: u8) -> Command {
    Command {
        offset: (((((b2 as u32) & 0x3F) << 8u32) | (b3 as u32)) + 1) as u32,
        length: (((b1 as u16) & 0x3F) + 4) as u16,
        literal: (b2 & 0xC0) >> 6u8,
        kind: CommandKind::Medium,
    }
}

/// Long command decoded from its four bytes
pub open spec fn long_from(b1: u8, b2: u8, b3: u8, b4: u8) -> Command {
    Command {
        offset: (((((b1 as u32) & 0x10) << 12u32) | ((b2 as u32) << 8u32) | (b3 as u32)) + 1) as u32,
        length: (((((b1 as u16) & 0xC) << 6u16) | (b4 as u16)) + 5) as u16,
        literal: b1 & 0x3,
        kind: CommandKind::Long,
    }
}

/// Literal command decoded from its byte
pub open spec fn literal_from(first: u8) -> Command {
    Command {
        offset: 0,
        length: 0,
        literal: (((first & 0x1F) << 2u8) + 4) as u8,
        kind: CommandKind::Literal,
    }
}

/// Stop command decoded from its byte
pub open spec fn stop_from(first: u8) -> Command {
    Command { offset: 0, length: 0, literal: first & 0x3, kind: CommandKind::Stop }
}

/// Number of bytes of a command whose first byte is `first`
pub open spec fn command_size(first: u8) -> nat {
    if first <= 0x7F {
        2
    } else if first <= 0xBF {
        3
    } else if first <= 0xDF {
        4
    } else {
        1
    }
}

/// The command encoded at the start of `input`, with its size in bytes, or
/// `None` if `input` ends before the command does
pub open spec fn parse_command(input: Seq<u8>) -> Option<(Command, nat)> {
    if input.len() == 0 {
        None
    } else {
        let first = input[0];
        if input.len() < command_size(first) {
            None
        } else if first <= 0x7F {
            Some((short_from(first, input[1]), 2))
        } else if first <= 0xBF {
            Some((medium_from(first, input[1], input[2]), 3))
        } else if first <= 0xDF {
            Some((long_from(first, input[1], input[2], input[3]), 4))
        } else if first <= 0xFB {
            Some((literal_from(first), 1))
        } else {
            Some((stop_from(first), 1))
        }
    }
}

proof fn lemma_short_roundtrip(offset: u32, length: u16, literal: u8)
    requires
        1 <= offset <= 1024,
        3 <= length <= 10,
        literal <= 3,
    ensures
        short_first(offset, length, literal) <= 0x7F,
        short_from(short_first(offset, length, literal), ((offset - 1) as u32 & 0xFF) as u8)
            == (Command { offset, length, literal, kind: CommandKind::Short }),
{
    let o = (offset - 1) as u32;
    let l = (length - 3) as u16;
    let first = short_first(offset, length, literal);
    assert(first == (((o & 0x300) >> 3u32) as u8) | (((l & 0x7) << 2u16) as u8) | (literal & 0x3));
    let second = (o & 0xFF) as u8;
    assert(first <= 0x7F && ((((first as u32) & 0x60) << 3u32) | (second as u32)) == o && (((
    first as u16) & 0x1C) >> 2u16) == l && first & 0x3 == literal) by (bit_vector)
        requires
            first == (((o & 0x300) >> 3u32) as u8) | (((l & 0x7) << 2u16) as u8) | (literal & 0x3),
            second == (o & 0xFF) as u8,
            o < 1024,
            l < 8,
            literal < 4,
    ;
}

proof fn lemma_medium_roundtrip(offset: u32, length: u16, literal: u8)
    requires
        1 <= offset <= 16384,
        4 <= length <= 67,
        literal <= 3,
    ensures
        0x80 <= medium_bytes(offset, length, literal)[0] <= 0xBF,
        medium_from(
            medium_bytes(offset, length, literal)[0],
            medium_bytes(offset, length, literal)[1],
            medium_bytes(offset, length, literal)[2],
        ) == (Command { offset, length, literal, kind: CommandKind::Medium }),
{
    let o = (offset - 1) as u32;
    let l = (length - 4) as u16;
    let b1 = (0x80 | (l & 0x3F)) as u8;
    let b2 = ((literal & 0x3) << 6u8) | ((o >> 8u32) as u8);
    let b3 = (o & 0xFF) as u8;
    assert(0x80 <= b1 <= 0xBF && ((((b2 as u32) & 0x3F) << 8u32) | (b3 as u32)) == o && ((b1 as u16)
        & 0x3F) == l && (b2 & 0xC0) >> 6u8 == literal) by (bit_vector)
        requires
            b1 == (0x80 | (l & 0x3F)) as u8,
            b2 == ((literal & 0x3) << 6u8) | ((o >> 8u32) as u8),
            b3 == (o & 0xFF) as u8,
            o < 16384,
            l < 64,
            literal < 4,
    ;
}

proof fn lemma_long_roundtrip(offset: u32, length: u16, literal: u8)
    requires
        1 <= offset <= 131072,
        5 <= length <= 1028,
        literal <= 3,
    ensures
        0xC0 <= long_bytes(offset, length, literal)[0] <= 0xDF,
        long_from(
            long_bytes(offset, length, literal)[0],
            long_bytes(offset, length, literal)[1],
            long_bytes(offset, length, literal)[2],
            long_bytes(offset, length, literal)[3],
        ) == (Command { offset, length, literal, kind: CommandKind::Long }),
{
    let o = (offset - 1) as u32;
    let l = (length - 5) as u16;
    let b1 = long_first(offset, length, literal);
    assert(b1 == 0xC0u8 | (((o >> 12u32) & 0x10) as u8) | (((l >> 6u16) & 0xC) as u8) | (literal
        & 0x3));
    let b2 = ((o >> 8u32) & 0xFF) as u8;
    let b3 = (o & 0xFF) as u8;
    let b4 = (l & 0xFF) as u8;
    assert(0xC0 <= b1 <= 0xDF && ((((b1 as u32) & 0x10) << 12u32) | ((b2 as u32) << 8u32) | (
    b3 as u32)) == o && ((((b1 as u16) & 0xC) << 6u16) | (b4 as u16)) == l && b1 & 0x3 == literal)
        by (bit_vector)
        requires
            b1 == 0xC0u8 | (((o >> 12u32) & 0x10) as u8) | (((l >> 6u16) & 0xC) as u8) | (literal
                & 0x3),
            b2 == ((o >> 8u32) & 0xFF) as u8,
            b3 == (o & 0xFF) as u8,
            b4 == (l & 0xFF) as u8,
            o < 131072,
            l < 1024,
            literal < 4,
    ;
}

proof fn lemma_literal_roundtrip(literal: u8)
    requires
        4 <= literal <= 112,
        literal % 4 == 0,
    ensures
        0xE0 <= literal_byte(literal) <= 0xFB,
        literal_from(literal_byte(literal)) == (Command {
            offset: 0,
            length: 0,
            literal,
            kind: CommandKind::Literal,
        }),
{
    let b = literal_byte(literal);
    assert(0xE0 <= b <= 0xFB && ((b & 0x1F) << 2u8) + 4 == literal) by (bit_vector)
        requires
            b == 0xE0u8 | ((((literal - 4) as u8) >> 2u8) & 0x1F),
            4 <= literal <= 112,
            literal % 4 == 0,
    ;
}

proof fn lemma_stop_roundtrip(number: u8)
    requires
        number <= 3,
    ensures
        0xFC <= stop_byte(number),
        stop_from(stop_byte(number)) == (Command {
            offset: 0,
            length: 0,
            literal: number,
            kind: CommandKind::Stop,
        }),
{
    let b = stop_byte(number);
    assert(0xFC <= b && b & 0x3 == number) by (bit_vector)
        requires
            b == 0xFCu8 | (number & 0x3),
            number <= 3,
    ;
}

/// Law: a valid command reads back as itself from its encoding, whatever
/// bytes follow it
pub proof fn lemma_command_roundtrip(c: Command, rest: Seq<u8>)
    requires
        c.valid(),
    ensures
        parse_command(c.encoded() + rest) == Some((c, c.encoded().len())),
{
    let e = c.encoded();
    let s = e + rest;
    match c.kind {
        CommandKind::Short => {
            lemma_short_roundtrip(c.offset, c.length, c.literal);
            assert(s[0] == e[0] && s[1] == e[1]);
        },
        CommandKind::Medium => {
            lemma_medium_roundtrip(c.offset, c.length, c.literal);
            assert(s[0] == e[0] && s[1] == e[1] && s[2] == e[2]);
        },
        CommandKind::Long => {
            lemma_long_roundtrip(c.offset, c.length, c.literal);
            assert(s[0] == e[0] && s[1] == e[1] && s[2] == e[2] && s[3] == e[3]);
        },
        CommandKind::Literal => {
            lemma_literal_roundtrip(c.literal);
            assert(s[0] == e[0]);
        },
        CommandKind::Stop => {
            lemma_stop_roundtrip(c.literal);
            assert(s[0] == e[0]);
        },
    }
}

/// Law: every command that can be read is valid, and writing it gives back
/// exactly the bytes it was read from
pub proof fn lemma_parse_encode(input: Seq<u8>)
    requires
        parse_command(input) is Some,
    ensures
        parse_command(input)->Some_0.0.valid(),
        parse_command(input)->Some_0.0.writable(),
        parse_command(input)->Some_0.0.encoded() == input.take(
            parse_command(input)->Some_0.1 as int,
        ),
{
    let (c, n) = parse_command(input)->Some_0;
    let b1 = input[0];
    if b1 <= 0x7F {
        let b2 = input[1];
        let off = ((((b1 as u32) & 0x60) << 3u32) | (b2 as u32));
        let len = (((b1 as u16) & 0x1C) >> 2u16);
        let lit = b1 & 0x3;
        assert((off < 1024 && len < 8 && lit < 4) && ((((off & 0x300) >> 3u32) as u8) | (((len & 0x7) << 2u16) as u8) | (lit & 0x3) == b1
            && (off & 0xFF) as u8 == b2)) by (bit_vector)
            requires
                off == ((((b1 as u32) & 0x60) << 3u32) | (b2 as u32)),
                len == (((b1 as u16) & 0x1C) >> 2u16),
                lit == b1 & 0x3,
                b1 <= 0x7F,
        ;
        assert(c.encoded() =~= input.take(2));
    } else if b1 <= 0xBF {
        let b2 = input[1];
        let b3 = input[2];
        let off = ((((b2 as u32) & 0x3F) << 8u32) | (b3 as u32));
        let len = ((b1 as u16) & 0x3F);
        let lit = (b2 & 0xC0) >> 6u8;
        assert((off < 16384 && len < 64 && lit < 4) && ((0x80 | (len & 0x3F)) as u8 == b1 && ((lit & 0x3) << 6u8) | ((off >> 8u32) as u8)
            == b2 && (off & 0xFF) as u8 == b3)) by (bit_vector)
            requires
                off == ((((b2 as u32) & 0x3F) << 8u32) | (b3 as u32)),
                len == ((b1 as u16) & 0x3F),
                lit == (b2 & 0xC0) >> 6u8,
                0x80 <= b1 <= 0xBF,
        ;
        assert(c.encoded() =~= input.take(3));
    } else if b1 <= 0xDF {
        let b2 = input[1];
        let b3 = input[2];
        let b4 = input[3];
        let off = ((((b1 as u32) & 0x10) << 12u32) | ((b2 as u32) << 8u32) | (b3 as u32));
        let len = ((((b1 as u16) & 0xC) << 6u16) | (b4 as u16));
        let lit = b1 & 0x3;
        assert((off < 131072 && len < 1024 && lit < 4) && (0xC0u8 | (((off >> 12u32) & 0x10) as u8) | (((len >> 6u16) & 0xC) as u8) | (lit
            & 0x3) == b1 && ((off >> 8u32) & 0xFF) as u8 == b2 && (off & 0xFF) as u8 == b3 && (len
            & 0xFF) as u8 == b4)) by (bit_vector)
            requires
                off == ((((b1 as u32) & 0x10) << 12u32) | ((b2 as u32) << 8u32) | (b3 as u32)),
                len == ((((b1 as u16) & 0xC) << 6u16) | (b4 as u16)),
                lit == b1 & 0x3,
                0xC0 <= b1 <= 0xDF,
        ;
        assert(c.encoded() =~= input.take(4));
    } else if b1 <= 0xFB {
        let lit = (((b1 & 0x1F) << 2u8) + 4) as u8;
        assert(4 <= lit <= 112 && lit % 4 == 0 && 0xE0u8 | ((((lit - 4) as u8) >> 2u8) & 0x1F)
            == b1) by (bit_vector)
            requires
                lit == (((b1 & 0x1F) << 2u8) + 4) as u8,
                0xE0 <= b1 <= 0xFB,
        ;
        assert(c.encoded() =~= input.take(1));
    } else {
        assert((b1 & 0x3) <= 3 && 0xFCu8 | ((b1 & 0x3) & 0x3) == b1) by (bit_vector)
            requires
                0xFC <= b1,
        ;
        assert(c.encoded() =~= input.take(1));
    }
}

impl Command {
    /// The command is within the ranges of its kind, so that it is encoded
    /// without loss
    pub open spec fn valid(self) -> bool {
        match self.kind {
            CommandKind::Short => 1 <= self.offset <= SHORT_OFFSET_MAX && SHORT_LENGTH_MIN
                <= self.length <= SHORT_LENGTH_MAX && self.literal <= COPY_LITERAL_MAX,
            CommandKind::Medium => 1 <= self.offset <= MEDIUM_OFFSET_MAX && MEDIUM_LENGTH_MIN
                <= self.length <= MEDIUM_LENGTH_MAX && self.literal <= COPY_LITERAL_MAX,
            CommandKind::Long => 1 <= self.offset <= LONG_OFFSET_MAX && LONG_LENGTH_MIN
                <= self.length <= LONG_LENGTH_MAX && self.literal <= COPY_LITERAL_MAX,
            CommandKind::Literal => self.offset == 0 && self.length == 0 && LITERAL_MIN
                <= self.literal <= LITERAL_MAX && self.literal % 4 == 0,
            CommandKind::Stop => self.offset == 0 && self.length == 0 && self.literal
                <= COPY_LITERAL_MAX,
        }
    }

    /// The command can be encoded at all: the stored values do not underflow
    pub open spec fn writable(self) -> bool {
        match self.kind {
            CommandKind::Short => self.offset >= 1 && self.length >= 3,
            CommandKind::Medium => self.offset >= 1 && self.length >= 4,
            CommandKind::Long => self.offset >= 1 && self.length >= 5,
            CommandKind::Literal => self.literal >= 4,
            CommandKind::Stop => true,
        }
    }

    /// Bytes of the encoded command
    pub open spec fn encoded(self) -> Seq<u8> {
        match self.kind {
            CommandKind::Short => short_bytes(self.offset, self.length, self.literal),
            CommandKind::Medium => medium_bytes(self.offset, self.length, self.literal),
            CommandKind::Long => long_bytes(self.offset, self.length, self.literal),
            CommandKind::Literal => seq![literal_byte(self.literal)],
            CommandKind::Stop => seq![stop_byte(self.literal)],
        }
    }

    /// Number of bytes that a copy command copies from earlier output
    pub open spec fn copy_length(self) -> nat {
        match self.kind {
            CommandKind::Short | CommandKind::Medium | CommandKind::Long => self.length as nat,
            _ => 0,
        }
    }

    /// Is this a copy command
    pub open spec fn is_copy(self) -> bool {
        self.kind == CommandKind::Short || self.kind == CommandKind::Medium || self.kind
            == CommandKind::Long
    }

    /// Kind that [Command::new] picks for a copy of `length` bytes at `offset`
    pub open spec fn copy_kind(offset: u32, length: u16) -> CommandKind {
        if offset > MEDIUM_OFFSET_MAX || length > MEDIUM_LENGTH_MAX {
            CommandKind::Long
        } else if offset > SHORT_OFFSET_MAX || length > SHORT_LENGTH_MAX {
            CommandKind::Medium
        } else {
            CommandKind::Short
        }
    }

    /// The arguments to [Command::new] stay in the limits it checks
    pub open spec fn new_accepts(offset: u32, length: u16, literal: u8) -> bool {
        &&& literal <= COPY_LITERAL_MAX
        &&& 1 <= offset <= LONG_OFFSET_MAX
        &&& SHORT_LENGTH_MIN <= length <= LONG_LENGTH_MAX
        &&& Self::copy_kind(offset, length) == CommandKind::Long ==> length >= LONG_LENGTH_MIN
        &&& Self::copy_kind(offset, length) == CommandKind::Medium ==> length >= MEDIUM_LENGTH_MIN
    }

    /// Create a new copy command; the smallest kind that can hold `offset`
    /// and `length` is picked.
    pub fn new(offset: u32, length: u16, literal: u8) -> (c: Self)
        requires
            Self::new_accepts(offset, length, literal),
        ensures
            c == (Command { offset, length, literal, kind: Self::copy_kind(offset, length) }),
    {
        if offset > MEDIUM_OFFSET_MAX || length > MEDIUM_LENGTH_MAX {
            Self { offset, length, literal, kind: CommandKind::Long }
        } else if offset > SHORT_OFFSET_MAX || length > SHORT_LENGTH_MAX {
            Self { offset, length, literal, kind: CommandKind::Medium }
        } else {
            Self { offset, length, literal, kind: CommandKind::Short }
        }
    }

    /// Creates a new literal command of `length` literal bytes
    pub fn new_literal(length: u8) -> (c: Self)
        requires
            length <= LITERAL_MAX,
        ensures
            c == (Command { offset: 0, length: 0, literal: length, kind: CommandKind::Literal }),
    {
        Self { offset: 0, length: 0, literal: length, kind: CommandKind::Literal }
    }

    /// Creates a new stop command with `literal_length` literal bytes
    pub fn new_stop(literal_length: usize) -> (c: Self)
        requires
            literal_length <= COPY_LITERAL_MAX,
        ensures
            c == (Command {
                offset: 0,
                length: 0,
                literal: literal_length as u8,
                kind: CommandKind::Stop,
            }),
    {
        Self { offset: 0, length: 0, literal: literal_length as u8, kind: CommandKind::Stop }
    }

    /// Creates a new stop command without checking the literal length
    pub fn new_stop_unchecked(literal_length: u8) -> (c: Self)
        ensures
            c == (Command { offset: 0, length: 0, literal: literal_length, kind: CommandKind::Stop }),
    {
        Self { offset: 0, length: 0, literal: literal_length, kind: CommandKind::Stop }
    }

    /// Number of literal bytes of the command, `None` if it has none
    pub fn num_of_literal(self) -> (n: Option<usize>)
        ensures
            self.literal == 0 ==> n == None::<usize>,
            self.literal != 0 ==> n == Some(self.literal as usize),
    {
        if self.literal == 0 {
            None
        } else {
            Some(self.literal as usize)
        }
    }

    /// Offset and length of a copy command; `None` if `self` is not a copy
    /// command
    pub fn offset_copy(self) -> (r: Option<(usize, usize)>)
        ensures
            self.is_copy() ==> r == Some((self.offset as usize, self.length as usize)),
            !self.is_copy() ==> r == None::<(usize, usize)>,
    {
        match self.kind {
            CommandKind::Short | CommandKind::Medium | CommandKind::Long => Some(
                (self.offset as usize, self.length as usize),
            ),
            _ => None,
        }
    }

    /// Is the command a stop command
    pub fn is_stop(self) -> (b: bool)
        ensures
            b == (self.kind == CommandKind::Stop),
    {
        match self.kind {
            CommandKind::Stop => true,
            _ => false,
        }
    }

    /// Reads the rest of a short command whose first byte is `first`
    ///
    /// # Errors
    /// - [Error::Io]: the remaining byte is missing
    pub fn read_short(first: u8, reader: &mut SliceReader) -> (r: RefPackResult<Self>)
        ensures
            final(reader).bytes() == old(reader).bytes(),
            old(reader).rest().len() >= 1 ==> r == Ok::<Command, Error>(
                short_from(first, old(reader).rest()[0]),
            ) && final(reader).pos() == old(reader).pos() + 1,
            old(reader).rest().len() < 1 ==> r == Err::<Command, Error>(
                Error::Io(IoErrorKind::UnexpectedEof),
            ),
    {
        let byte1 = first as u32;
        let byte2 = reader.read_u8()? as u32;
        proof {
            assert(((byte1 & 0x60) << 3u32) | byte2 < 1024 && ((first as u16) & 0x1C) >> 2u16 < 8)
                by (bit_vector)
                requires
                    byte1 < 256,
                    byte2 < 256,
            ;
        }
        let offset = (((byte1 & 0b0110_0000) << 3) | byte2) + 1;
        let length = (((first as u16) & 0b0001_1100) >> 2) + 3;
        let literal = first & 0b0000_0011;
        Ok(Self { offset, length, literal, kind: CommandKind::Short })
    }

    /// Reads the rest of a medium command whose first byte is `first`
    ///
    /// # Errors
    /// - [Error::Io]: the remaining bytes are missing
    pub fn read_medium(first: u8, reader: &mut SliceReader) -> (r: RefPackResult<Self>)
        ensures
            final(reader).bytes() == old(reader).bytes(),
            old(reader).rest().len() >= 2 ==> r == Ok::<Command, Error>(
                medium_from(first, old(reader).rest()[0], old(reader).rest()[1]),
            ) && final(reader).pos() == old(reader).pos() + 2,
            old(reader).rest().len() < 2 ==> r == Err::<Command, Error>(
                Error::Io(IoErrorKind::UnexpectedEof),
            ),
    {
        let b2 = reader.read_u8()?;
        let b3 = reader.read_u8()?;
        let byte2 = b2 as u32;
        let byte3 = b3 as u32;
        proof {
            assert(((byte2 & 0x3F) << 8u32) | byte3 < 16384 && (first as u16) & 0x3F < 64)
                by (bit_vector)
                requires
                    byte2 < 256,
                    byte3 < 256,
            ;
        }
        let offset = (((byte2 & 0b0011_1111) << 8) | byte3) + 1;
        let length = ((first as u16) & 0b0011_1111) + 4;
        let literal = (b2 & 0b1100_0000) >> 6;
        Ok(Self { offset, length, literal, kind: CommandKind::Medium })
    }

    /// Reads the rest of a long command whose first byte is `first`
    ///
    /// # Errors
    /// - [Error::Io]: the remaining bytes are missing
    pub fn read_long(first: u8, reader: &mut SliceReader) -> (r: RefPackResult<Self>)
        ensures
            final(reader).bytes() == old(reader).bytes(),
            old(reader).rest().len() >= 3 ==> r == Ok::<Command, Error>(
                long_from(
                    first,
                    old(reader).rest()[0],
                    old(reader).rest()[1],
                    old(reader).rest()[2],
                ),
            ) && final(reader).pos() == old(reader).pos() + 3,
            old(reader).rest().len() < 3 ==> r == Err::<Command, Error>(
                Error::Io(IoErrorKind::UnexpectedEof),
            ),
    {
        let b2 = reader.read_u8()?;
        let b3 = reader.read_u8()?;
        let b4 = reader.read_u8()?;
        let byte1 = first as u32;
        let byte2 = b2 as u32;
        let byte3 = b3 as u32;
        proof {
            let b4w = b4 as u16;
            assert(((byte1 & 0x10) << 12u32) | (byte2 << 8u32) | byte3 < 131072 && (((first as u16)
                & 0xC) << 6u16) | b4w < 1024) by (bit_vector)
                requires
                    byte1 < 256,
                    byte2 < 256,
                    byte3 < 256,
                    b4w < 256,
            ;
        }
        let offset = (((byte1 & 0b0001_0000) << 12) | (byte2 << 8) | byte3) + 1;
        let length = ((((first as u16) & 0b0000_1100) << 6) | (b4 as u16)) + 5;
        let literal = first & 0b0000_0011;
        Ok(Self { offset, length, literal, kind: CommandKind::Long })
    }

    /// Decodes a literal command from its byte
    pub fn read_literal(first: u8) -> (c: Self)
        ensures
            c == literal_from(first),
    {
        proof {
            assert((first & 0x1F) << 2u8 <= 124) by (bit_vector);
        }
        Self {
            offset: 0,
            length: 0,
            literal: ((first & 0b0001_1111) << 2) + 4,
            kind: CommandKind::Literal,
        }
    }

    /// Decodes a stop command from its byte
    pub fn read_stop(first: u8) -> (c: Self)
        ensures
            c == stop_from(first),
    {
        Self::new_stop_unchecked(first & 0b0000_0011)
    }

    /// Reads and decodes a command
    ///
    /// # Errors
    /// - [Error::Io]: the reader ends before the command does
    pub fn read(reader: &mut SliceReader) -> (r: RefPackResult<Self>)
        ensures
            final(reader).bytes() == old(reader).bytes(),
            old(reader).pos() <= old(reader).bytes().len(),
            match parse_command(old(reader).rest()) {
                Some((c, n)) => r == Ok::<Command, Error>(c) && final(reader).pos() == old(
                    reader,
                ).pos() + n,
                None => r == Err::<Command, Error>(Error::Io(IoErrorKind::UnexpectedEof)),
            },
    {
        let ghost rest = reader.rest();
        let first = reader.read_u8()?;
        proof {
            assert(reader.rest() =~= rest.drop_first());
        }
        if first <= 0x7F {
            Self::read_short(first, reader)
        } else if first <= 0xBF {
            Self::read_medium(first, reader)
        } else if first <= 0xDF {
            Self::read_long(first, reader)
        } else if first <= 0xFB {
            Ok(Self::read_literal(first))
        } else {
            Ok(Self::read_stop(first))
        }
    }

    /// Writes a short copy command
    pub fn write_short(offset: u32, length: u16, literal: u8, writer: &mut Vec<u8>)
        requires
            offset >= 1,
            length >= 3,
        ensures
            final(writer)@ == old(writer)@ + short_bytes(offset, length, literal),
    {
        let length_adjusted = length - 3;
        let offset_adjusted = offset - 1;

        let first = ((offset_adjusted & 0b0000_0011_0000_0000) >> 3) as u8 | ((length_adjusted
            & 0b0000_0111) << 2) as u8 | literal & 0b0000_0011;
        let second = (offset_adjusted & 0b0000_0000_1111_1111) as u8;

        writer.push(first);
        writer.push(second);
        proof {
            assert(writer@ =~= old(writer)@ + short_bytes(offset, length, literal));
        }
    }

    /// Writes a medium copy command
    pub fn write_medium(offset: u32, length: u16, literal: u8, writer: &mut Vec<u8>)
        requires
            offset >= 1,
            length >= 4,
        ensures
            final(writer)@ == old(writer)@ + medium_bytes(offset, length, literal),
    {
        let length_adjusted = length - 4;
        let offset_adjusted = offset - 1;

        let first = (0b1000_0000 | length_adjusted & 0b0011_1111) as u8;
        let second = ((literal & 0b0000_0011) << 6) | (offset_adjusted >> 8) as u8;
        let third = (offset_adjusted & 0b0000_0000_1111_1111) as u8;

        writer.push(first);
        writer.push(second);
        writer.push(third);
        proof {
            assert(writer@ =~= old(writer)@ + medium_bytes(offset, length, literal));
        }
    }

    /// Writes a long copy command
    pub fn write_long(offset: u32, length: u16, literal: u8, writer: &mut Vec<u8>)
        requires
            offset >= 1,
            length >= 5,
        ensures
            final(writer)@ == old(writer)@ + long_bytes(offset, length, literal),
    {
        let length_adjusted = length - 5;
        let offset_adjusted = offset - 1;

        let first = 0b1100_0000u8 | ((offset_adjusted >> 12) & 0b0001_0000) as u8 | ((
        length_adjusted >> 6) & 0b0000_1100) as u8 | literal & 0b0000_0011;
        let second = ((offset_adjusted >> 8) & 0b1111_1111) as u8;
        let third = (offset_adjusted & 0b1111_1111) as u8;
        let fourth = (length_adjusted & 0b1111_1111) as u8;

        writer.push(first);
        writer.push(second);
        writer.push(third);
        writer.push(fourth);
        proof {
            assert(writer@ =~= old(writer)@ + long_bytes(offset, length, literal));
        }
    }

    /// Writes a literal command
    pub fn write_literal(literal: u8, writer: &mut Vec<u8>)
        requires
            literal >= 4,
        ensures
            final(writer)@ == old(writer)@.push(literal_byte(literal)),
    {
        let adjusted = (literal - 4) >> 2;
        let out = 0b1110_0000 | (adjusted & 0b0001_1111);
        writer.push(out);
    }

    /// Writes a stop command
    pub fn write_stop(number: u8, writer: &mut Vec<u8>)
        ensures
            final(writer)@ == old(writer)@.push(stop_byte(number)),
    {
        let out = 0b1111_1100 | (number & 0b0000_0011);
        writer.push(out);
    }

    /// Encodes and writes the command
    pub fn write(self, writer: &mut Vec<u8>)
        requires
            self.writable(),
        ensures
            final(writer)@ == old(writer)@ + self.encoded(),
    {
        match self.kind {
            CommandKind::Short => Self::write_short(self.offset, self.length, self.literal, writer),
            CommandKind::Medium => Self::write_medium(
                self.offset,
                self.length,
                self.literal,
                writer,
            ),
            CommandKind::Long => Self::write_long(self.offset, self.length, self.literal, writer),
            CommandKind::Literal => {
                Self::write_literal(self.literal, writer);
                assert(writer@ =~= old(writer)@ + self.encoded());
            },
            CommandKind::Stop => {
                Self::write_stop(self.literal, writer);
                assert(writer@ =~= old(writer)@ + self.encoded());
            },
        }
    }
}

/// Full control block: a command and the literal bytes that follow it
#[derive(Debug, Clone, PartialEq, Eq)]
pub struct Control {
    /// The command code
    pub command: Command,
    /// The literal bytes to write to the stream
    pub bytes: Vec<u8>,
}

/// The control block at the start of `input`, as its command and literal
/// bytes with its size in bytes, or `None` if `input` ends before it does
pub open spec fn parse_control(input: Seq<u8>) -> Option<(Command, Seq<u8>, nat)> {
    match parse_command(input) {
        Some((c, n)) => if n + c.literal <= input.len() {
            Some((c, input.subrange(n as int, n + c.literal), n + c.literal as nat))
        } else {
            None
        },
        None => None,
    }
}

impl Control {
    /// Bytes of the encoded control block
    pub open spec fn encoded(self) -> Seq<u8> {
        self.command.encoded() + self.bytes@
    }

    /// The command is valid and carries as many literal bytes as it says
    pub open spec fn valid(self) -> bool {
        self.command.valid() && self.bytes@.len() == self.command.literal
    }

    /// Create a new control block from a command and its literal bytes
    pub fn new(command: Command, bytes: Vec<u8>) -> (c: Self)
        ensures
            c.command == command,
            c.bytes@ == bytes@,
    {
        Self { command, bytes }
    }

    /// Create a new literal block holding `bytes`; the command is made from
    /// the number of bytes
    pub fn new_literal_block(bytes: &[u8]) -> (c: Self)
        requires
            (bytes@.len() as u8) <= LITERAL_MAX,
        ensures
            c.command == (Command {
                offset: 0,
                length: 0,
                literal: bytes@.len() as u8,
                kind: CommandKind::Literal,
            }),
            c.bytes@ == bytes@,
    {
        Self {
            command: Command::new_literal(bytes.len() as u8),
            bytes: vstd::slice::slice_to_vec(bytes),
        }
    }

    /// Create a new stop block holding `bytes`; the command is made from the
    /// number of bytes
    pub fn new_stop(bytes: &[u8]) -> (c: Self)
        requires
            bytes@.len() <= COPY_LITERAL_MAX,
        ensures
            c.command == (Command {
                offset: 0,
                length: 0,
                literal: bytes@.len() as u8,
                kind: CommandKind::Stop,
            }),
            c.bytes@ == bytes@,
    {
        Self { command: Command::new_stop(bytes.len()), bytes: vstd::slice::slice_to_vec(bytes) }
    }

    /// Reads and decodes a control block
    ///
    /// # Errors
    /// - [Error::Io]: the reader ends before the control block does
    pub fn read(reader: &mut SliceReader) -> (r: RefPackResult<Self>)
        ensures
            final(reader).bytes() == old(reader).bytes(),
            match parse_control(old(reader).rest()) {
                Some((c, b, n)) => r is Ok && r->Ok_0.command == c && r->Ok_0.bytes@ == b
                    && final(reader).pos() == old(reader).pos() + n,
                None => r == Err::<Control, Error>(Error::Io(IoErrorKind::UnexpectedEof)),
            },
    {
        let ghost rest = reader.rest();
        let command = Command::read(reader)?;
        let ghost n = parse_command(rest)->Some_0.1;
        assert(reader.rest() =~= rest.skip(n as int));
        let count = match command.num_of_literal() {
            Some(n) => n,
            None => 0,
        };
        let literal = reader.read_exact(count)?;
        assert(literal@ =~= rest.subrange(n as int, n + command.literal));
        Ok(Control { command, bytes: vstd::slice::slice_to_vec(literal) })
    }

    /// Encodes and writes the control block
    pub fn write(&self, writer: &mut Vec<u8>)
        requires
            self.command.writable(),
        ensures
            final(writer)@ == old(writer)@ + self.encoded(),
    {
        self.command.write(writer);
        let mut i: usize = 0;
        let ghost mid = writer@;
        while i < self.bytes.len()
            invariant
                i <= self.bytes@.len(),
                writer@ == mid + self.bytes@.take(i as int),
            decreases self.bytes@.len() - i,
        {
            writer.push(self.bytes[i]);
            i += 1;
            assert(writer@ =~= mid + self.bytes@.take(i as int));
        }
        assert(self.bytes@.take(i as int) =~= self.bytes@);
        assert(writer@ =~= old(writer)@ + self.encoded());
    }
}

/// Law: a valid control block reads back as itself from its encoding,
/// whatever bytes follow it
pub proof fn lemma_control_roundtrip(c: Control, rest: Seq<u8>)
    requires
        c.valid(),
    ensures
        parse_control(c.encoded() + rest) == Some((c.command, c.bytes@, c.encoded().len())),
{
    lemma_command_roundtrip(c.command, c.bytes@ + rest);
    assert(c.encoded() + rest =~= c.command.encoded() + (c.bytes@ + rest));
    assert((c.encoded() + rest).subrange(
        c.command.encoded().len() as int,
        c.command.encoded().len() + c.command.literal,
    ) =~= c.bytes@);
}

/// Bytes of a sequence of control blocks written one after another
pub open spec fn encode_controls(cs: Seq<Control>) -> Seq<u8>
    decreases cs.len(),
{
    if cs.len() == 0 {
        Seq::empty()
    } else {
        cs[0].encoded() + encode_controls(cs.drop_first())
    }
}

/// Appending a control block appends its encoding
pub proof fn lemma_encode_controls_push(cs: Seq<Control>, c: Control)
    ensures
        encode_controls(cs.push(c)) == encode_controls(cs) + c.encoded(),
    decreases cs.len(),
{
    if cs.len() == 0 {
        assert(cs.push(c).drop_first() =~= Seq::<Control>::empty());
        assert(cs.push(c)[0] == c);
        assert(encode_controls(cs.push(c).drop_first()) =~= Seq::<u8>::empty());
        assert(encode_controls(cs.push(c)) =~= encode_controls(cs) + c.encoded());
    } else {
        lemma_encode_controls_push(cs.drop_first(), c);
        assert(cs.push(c).drop_first() =~= cs.drop_first().push(c));
        assert(cs.push(c)[0] == cs[0]);
        assert(encode_controls(cs.push(c)) =~= encode_controls(cs) + c.encoded());
    }
}

/// Bit fields of the first bytes of commands, as numbers
proof fn lemma_decode_bits(b1: u8, b2: u8, b3: u8, b4: u8)
    by (bit_vector)
    ensures
        b1 <= 0x7F ==> (((b1 as u32) & 0x60) << 3u32) | (b2 as u32) == ((b1 / 32) as u32 * 256
            + b2 as u32) as u32,
        ((b1 as u16) & 0x1C) >> 2u16 == ((b1 / 4) % 8) as u16,
        b1 & 0x3 == b1 % 4,
        (b1 as u16) & 0x3F == (b1 % 64) as u16,
        (b2 & 0xC0) >> 6u8 == b2 / 64,
        (((b2 as u32) & 0x3F) << 8u32) | (b3 as u32) == ((b2 % 64) as u32 * 256 + b3 as u32) as u32,
        (((b1 as u32) & 0x10) << 12u32) | ((b2 as u32) << 8u32) | (b3 as u32) == (((b1 / 16) % 2)
            as u32 * 65536 + b2 as u32 * 256 + b3 as u32) as u32,
        (((b1 as u16) & 0xC) << 6u16) | (b4 as u16) == (((b1 / 4) % 4) as u16 * 256 + b4 as u16)
            as u16,
        (b1 & 0x1F) << 2u8 == ((b1 % 32) * 4) as u8,
{
}

/// Law: the fields of a command read from bytes, as the layouts
/// `0PPL-LLBB|PPPP-PPPP` (short), `10LL-LLLL|BBPP-PPPP|PPPP-PPPP` (medium),
/// `110P-LLBB|PPPP-PPPP|PPPP-PPPP|LLLL-LLLL` (long), `111B-BBBB` (literal)
/// and `1111-11BB` (stop) give them: offsets and lengths stored less their
/// minimum, most significant bits first, and literal counts of literal
/// blocks stored divided by 4
pub proof fn lemma_parse_layout(input: Seq<u8>)
    requires
        input.len() >= 4,
    ensures
        ({
            let (b1, b2, b3, b4) = (input[0], input[1], input[2], input[3]);
            let c = parse_command(input)->Some_0.0;
            &&& parse_command(input) is Some
            &&& b1 <= 0x7F ==> c == Command {
                offset: ((b1 / 32) * 256 + b2 + 1) as u32,
                length: ((b1 / 4) % 8 + 3) as u16,
                literal: b1 % 4,
                kind: CommandKind::Short,
            }
            &&& 0x80 <= b1 <= 0xBF ==> c == Command {
                offset: ((b2 % 64) * 256 + b3 + 1) as u32,
                length: (b1 % 64 + 4) as u16,
                literal: b2 / 64,
                kind: CommandKind::Medium,
            }
            &&& 0xC0 <= b1 <= 0xDF ==> c == Command {
                offset: (((b1 / 16) % 2) * 65536 + b2 * 256 + b3 + 1) as u32,
                length: (((b1 / 4) % 4) * 256 + b4 + 5) as u16,
                literal: b1 % 4,
                kind: CommandKind::Long,
            }
            &&& 0xE0 <= b1 <= 0xFB ==> c == Command {
                offset: 0,
                length: 0,
                literal: ((b1 % 32) * 4 + 4) as u8,
                kind: CommandKind::Literal,
            }
            &&& 0xFC <= b1 ==> c == Command {
                offset: 0,
                length: 0,
                literal: b1 % 4,
                kind: CommandKind::Stop,
            }
        }),
{
    lemma_decode_bits(input[0], input[1], input[2], input[3]);
}

/// Bit fields of an encoded short command, as numbers
proof fn lemma_short_bits(o: u32, l: u16, lit: u8)
    by (bit_vector)
    requires
        o < 1024,
        l < 8,
        lit < 4,
    ensures
        (((o & 0x300) >> 3u32) as u8) | (((l & 0x7) << 2u16) as u8) | (lit & 0x3) == ((o / 256)
            * 32 + (l as u32) * 4 + (lit as u32)) as u8,
{
}

/// The low byte of a number, as a number
pub(crate) proof fn lemma_low_byte(o: u32)
    by (bit_vector)
    ensures
        (o & 0xFF) as u8 == (o % 256) as u8,
{
}

/// The second byte of a number, as a number
pub(crate) proof fn lemma_second_byte(o: u32)
    by (bit_vector)
    ensures
        ((o >> 8u32) & 0xFF) as u8 == ((o / 256) % 256) as u8,
{
}

/// The low byte of a length, as a number
pub(crate) proof fn lemma_low_byte_u16(l: u16)
    by (bit_vector)
    ensures
        (l & 0xFF) as u8 == (l % 256) as u8,
{
}

/// The first byte of an encoded medium command, as a number
proof fn lemma_medium_first_bits(l: u16)
    by (bit_vector)
    requires
        l < 64,
    ensures
        (0x80 | (l & 0x3F)) as u8 == (0x80u16 + l) as u8,
{
}

/// The second byte of an encoded medium command, as a number
proof fn lemma_medium_second_bits(o: u32, lit: u8)
    by (bit_vector)
    requires
        o < 16384,
        lit < 4,
    ensures
        ((lit & 0x3) << 6u8) | ((o >> 8u32) as u8) == ((lit as u32) * 64 + o / 256) as u8,
{
}

/// The first byte of an encoded long command, as a number
proof fn lemma_long_first_bits(o: u32, l: u16, lit: u8)
    by (bit_vector)
    requires
        o < 131072,
        l < 1024,
        lit < 4,
    ensures
        0xC0u8 | (((o >> 12u32) & 0x10) as u8) | (((l >> 6u16) & 0xC) as u8) | (lit & 0x3) == (
        0xC0u32 + (o / 65536) * 16 + ((l as u32) / 256) * 4 + (lit as u32)) as u8,
{
}

/// The byte of an encoded stop command, as a number
proof fn lemma_stop_bits(lit: u8)
    by (bit_vector)
    requires
        lit < 4,
    ensures
        0xFCu8 | (lit & 0x3) == (0xFCu8 + lit) as u8,
{
}

/// Bit field of an encoded literal command, as a number
proof fn lemma_literal_bits(x: u8)
    by (bit_vector)
    requires
        x <= 108,
    ensures
        0xE0u8 | ((x >> 2u8) & 0x1F) == (0xE0u8 + x / 4u8) as u8,
{
}

/// Law: the bytes of a valid command, as the layouts of [lemma_parse_layout]
/// give them
pub proof fn lemma_encoded_layout(c: Command)
    requires
        c.valid(),
    ensures
        c.kind == CommandKind::Short ==> c.encoded() == seq![
            (((c.offset - 1) / 256) * 32 + (c.length - 3) * 4 + c.literal) as u8,
            ((c.offset - 1) % 256) as u8,
        ],
        c.kind == CommandKind::Medium ==> c.encoded() == seq![
            (0x80 + (c.length - 4)) as u8,
            (c.literal * 64 + (c.offset - 1) / 256) as u8,
            ((c.offset - 1) % 256) as u8,
        ],
        c.kind == CommandKind::Long ==> c.encoded() == seq![
            (0xC0 + ((c.offset - 1) / 65536) * 16 + ((c.length - 5) / 256) * 4 + c.literal) as u8,
            (((c.offset - 1) / 256) % 256) as u8,
            ((c.offset - 1) % 256) as u8,
            ((c.length - 5) % 256) as u8,
        ],
        c.kind == CommandKind::Literal ==> c.encoded() == seq![(0xE0 + (c.literal - 4) / 4) as u8],
        c.kind == CommandKind::Stop ==> c.encoded() == seq![(0xFC + c.literal) as u8],
{
    let o = if c.offset >= 1 {
        (c.offset - 1) as u32
    } else {
        0u32
    };
    let l: u16 = match c.kind {
        CommandKind::Short => (c.length - 3) as u16,
        CommandKind::Medium => (c.length - 4) as u16,
        CommandKind::Long => (c.length - 5) as u16,
        _ => 0u16,
    };
    lemma_low_byte(o);
    lemma_second_byte(o);
    lemma_low_byte_u16(l);
    match c.kind {
        CommandKind::Short => lemma_short_bits(o, l, c.literal),
        CommandKind::Medium => {
            lemma_medium_first_bits(l);
            lemma_medium_second_bits(o, c.literal);
        },
        CommandKind::Long => lemma_long_first_bits(o, l, c.literal),
        CommandKind::Literal => lemma_literal_bits((c.literal - 4) as u8),
        CommandKind::Stop => lemma_stop_bits(c.literal),
    }
}

} // verus!
