//! Control codes as an enum of command kinds, each with its own fields, and
//! control blocks read one after another up to the stop command.
//!
//! The encoding is the one of [crate::data::control]: numbers are "smashed"
//! together into as small a space as possible. Getting the position from
//! `0PPL-LLBB--PPPP-PPPP`:
//! 1. mask the first byte: `(byte0 & 0b0110_0000)` = `0PP0-0000`
//! 2. shift left by 3: `(0PP0-0000 << 3)` = `0000-00PP--0000-0000`
//! 3. OR with the second: `0000-00PP--PPPP-PPPP`
use vstd::prelude::*;

use crate::data::control::{
    parse_command, parse_control, Command as Code, CommandKind, Control as CodeBlock,
};
use crate::data::SliceReader;
use crate::error::{Error, IoErrorKind, RefPackResult};

verus! {

/// Longest copy
pub const MAX_COPY_LEN: usize = 1028;

/// Farthest copy offset
pub const MAX_OFFSET_DISTANCE: usize = 131_071;

/// Longest literal command
pub const MAX_LITERAL_LEN: usize = 112;

/// A command code
///
/// - Short: 2 bytes, 0-3 literals, copy length 3-10 (+3), position 1-1023
///   (+1), layout `0PPL-LLBB|PPPP-PPPP`
/// - Medium: 3 bytes, 0-3 literals, copy length 4-67 (+4), position 1-16383
///   (+1), layout `10LL-LLLL|BBPP-PPPP|PPPP-PPPP`
/// - Long: 4 bytes, 0-3 literals, copy length 5-1028 (+5), position 1-131072
///   (+1), layout `110P-LLBB|PPPP-PPPP|PPPP-PPPP|LLLL-LLLL`
/// - Literal: 1 byte, 4-112 literals (+4, stored divided by 4), layout
///   `111B-BBBB`; capped at 112 since a higher value would be read as a stop
///   code
/// - Stop: 1 byte, 0-3 literals, layout `1111-11PP`
#[derive(Debug, Clone, Copy, PartialEq, Eq, Structural)]
pub enum Command {
    Short { offset: u16, length: u8, literal: u8 },
    Medium { offset: u16, length: u8, literal: u8 },
    Long { offset: u32, length: u16, literal: u8 },
    Literal(u8),
    Stop(u8),
}

/// The command as a [crate::data::control::Command]
pub open spec fn code_of(c: Command) -> Code {
    match c {
        Command::Short { offset, length, literal } => Code {
            offset: offset as u32,
            length: length as u16,
            literal,
            kind: CommandKind::Short,
        },
        Command::Medium { offset, length, literal } => Code {
            offset: offset as u32,
            length: length as u16,
            literal,
            kind: CommandKind::Medium,
        },
        Command::Long { offset, length, literal } => Code {
            offset,
            length,
            literal,
            kind: CommandKind::Long,
        },
        Command::Literal(n) => Code { offset: 0, length: 0, literal: n, kind: CommandKind::Literal },
        Command::Stop(n) => Code { offset: 0, length: 0, literal: n, kind: CommandKind::Stop },
    }
}

/// The [crate::data::control::Command] as a command; the offset and length of
/// short and medium commands are cut to their field sizes
pub open spec fn command_of(c: Code) -> Command {
    match c.kind {
        CommandKind::Short => Command::Short {
            offset: c.offset as u16,
            length: c.length as u8,
            literal: c.literal,
        },
        CommandKind::Medium => Command::Medium {
            offset: c.offset as u16,
            length: c.length as u8,
            literal: c.literal,
        },
        CommandKind::Long => Command::Long {
            offset: c.offset,
            length: c.length,
            literal: c.literal,
        },
        CommandKind::Literal => Command::Literal(c.literal),
        CommandKind::Stop => Command::Stop(c.literal),
    }
}

/// The command at the start of `input` with its size in bytes, `None` if
/// `input` ends before the command does
pub open spec fn parse(input: Seq<u8>) -> Option<(Command, nat)> {
    match parse_command(input) {
        Some((c, n)) => Some((command_of(c), n)),
        None => None,
    }
}

/// Converts a [crate::data::control::Command]
pub(crate) fn from_code(c: Code) -> (r: Command)
    ensures
        r == command_of(c),
{
    match c.kind {
        CommandKind::Short => Command::Short {
            offset: c.offset as u16,
            length: c.length as u16 as u8,
            literal: c.literal,
        },
        CommandKind::Medium => Command::Medium {
            offset: c.offset as u16,
            length: c.length as u8,
            literal: c.literal,
        },
        CommandKind::Long => Command::Long { offset: c.offset, length: c.length, literal: c.literal },
        CommandKind::Literal => Command::Literal(c.literal),
        CommandKind::Stop => Command::Stop(c.literal),
    }
}

impl Command {
    /// The command is in the ranges of its kind
    pub open spec fn valid(self) -> bool {
        code_of(self).valid()
    }

    /// Bytes of the encoded command
    pub open spec fn encoded(self) -> Seq<u8> {
        code_of(self).encoded()
    }

    /// Create a new copy command; the smallest kind that can hold `offset` and
    /// `length` is picked
    pub fn new(offset: usize, length: usize, literal: usize) -> (c: Self)
        requires
            literal <= 3,
            offset <= 131_072,
            length <= 1028,
        ensures
            (offset > 16383 || length > 67) ==> c == (Command::Long {
                offset: offset as u32,
                length: length as u16,
                literal: literal as u8,
            }),
            !(offset > 16383 || length > 67) && (offset > 1023 || length > 10) ==> c
                == (Command::Medium {
                offset: offset as u16,
                length: length as u8,
                literal: literal as u8,
            }),
            !(offset > 16383 || length > 67) && !(offset > 1023 || length > 10) ==> c
                == (Command::Short {
                offset: offset as u16,
                length: length as u8,
                literal: literal as u8,
            }),
    {
        if offset > 16383 || length > 67 {
            Self::Long { offset: offset as u32, length: length as u16, literal: literal as u8 }
        } else if offset > 1023 || length > 10 {
            Self::Medium { offset: offset as u16, length: length as u8, literal: literal as u8 }
        } else {
            Self::Short { offset: offset as u16, length: length as u8, literal: literal as u8 }
        }
    }

    /// Create a new literal command
    pub fn new_literal(length: usize) -> (c: Self)
        requires
            length <= 112,
        ensures
            c == Command::Literal(length as u8),
    {
        Self::Literal(length as u8)
    }

    /// Create a new stop command
    pub fn new_stop(literal_length: usize) -> (c: Self)
        requires
            literal_length <= 3,
        ensures
            c == Command::Stop(literal_length as u8),
    {
        Self::Stop(literal_length as u8)
    }

    /// Number of literal bytes that follow the command: always given for a
    /// literal command, `None` for no literal bytes after another command
    pub fn num_of_literal(self) -> (n: Option<usize>)
        ensures
            self matches Command::Literal(k) ==> n == Some(k as usize),
            !(self is Literal) && code_of(self).literal == 0 ==> n == None::<usize>,
            !(self is Literal) && code_of(self).literal != 0 ==> n == Some(
                code_of(self).literal as usize,
            ),
    {
        match self {
            Command::Short { literal, .. }
            | Command::Medium { literal, .. }
            | Command::Long { literal, .. } => {
                if literal == 0 {
                    None
                } else {
                    Some(literal as usize)
                }
            },
            Command::Literal(number) => Some(number as usize),
            Command::Stop(number) => {
                if number == 0 {
                    None
                } else {
                    Some(number as usize)
                }
            },
        }
    }

    /// Offset and length of a copy command, `None` for other commands
    pub fn offset_copy(self) -> (r: Option<(usize, usize)>)
        ensures
            code_of(self).is_copy() ==> r == Some(
                (code_of(self).offset as usize, code_of(self).length as usize),
            ),
            !code_of(self).is_copy() ==> r == None::<(usize, usize)>,
    {
        match self {
            Command::Short { offset, length, .. } | Command::Medium { offset, length, .. } => {
                Some((offset as usize, length as usize))
            },
            Command::Long { offset, length, .. } => Some((offset as usize, length as usize)),
            _ => None,
        }
    }

    /// Is the command a stop command
    pub fn is_stop(self) -> (b: bool)
        ensures
            b == (self is Stop),
    {
        match self {
            Command::Stop(_) => true,
            _ => false,
        }
    }

    /// Reads and decodes a command
    ///
    /// # Errors
    /// - [Error::Io]: the reader ends before the command does
    pub fn read(reader: &mut SliceReader) -> (r: RefPackResult<Self>)
        ensures
            final(reader).bytes() == old(reader).bytes(),
            match parse(old(reader).rest()) {
                Some((c, n)) => r == Ok::<Command, Error>(c) && final(reader).pos() == old(
                    reader,
                ).pos() + n,
                None => r == Err::<Command, Error>(Error::Io(IoErrorKind::UnexpectedEof)),
            },
    {
        let code = Code::read(reader)?;
        Ok(from_code(code))
    }

    /// Encodes and writes a valid command
    pub fn write(&self, writer: &mut Vec<u8>)
        requires
            self.valid(),
        ensures
            final(writer)@ == old(writer)@ + self.encoded(),
    {
        let code = match *self {
            Command::Short { offset, length, literal } => Code {
                offset: offset as u32,
                length: length as u16,
                literal,
                kind: CommandKind::Short,
            },
            Command::Medium { offset, length, literal } => Code {
                offset: offset as u32,
                length: length as u16,
                literal,
                kind: CommandKind::Medium,
            },
            Command::Long { offset, length, literal } => Code {
                offset,
                length,
                literal,
                kind: CommandKind::Long,
            },
            Command::Literal(n) => Code {
                offset: 0,
                length: 0,
                literal: n,
                kind: CommandKind::Literal,
            },
            Command::Stop(n) => Code { offset: 0, length: 0, literal: n, kind: CommandKind::Stop },
        };
        code.write(writer);
    }
}

/// Law: a valid command reads back as itself from its encoding, whatever
/// follows it
pub proof fn lemma_command_symmetric(c: Command, rest: Seq<u8>)
    requires
        c.valid(),
    ensures
        parse(c.encoded() + rest) == Some((c, c.encoded().len())),
{
    crate::data::control::lemma_command_roundtrip(code_of(c), rest);
}

/// Full control block: a command and the literal bytes that follow it
#[derive(Debug, Clone, PartialEq)]
pub struct Control {
    pub command: Command,
    pub bytes: Vec<u8>,
}

impl Control {
    /// Bytes of the encoded control block
    pub open spec fn encoded(self) -> Seq<u8> {
        self.command.encoded() + self.bytes@
    }

    /// The command is valid and carries as many literal bytes as it says
    pub open spec fn valid(self) -> bool {
        self.command.valid() && self.bytes@.len() == code_of(self.command).literal
    }

    /// Create a new control block from a command and its literal bytes
    pub fn new(command: Command, bytes: Vec<u8>) -> (c: Self)
        ensures
            c.command == command,
            c.bytes@ == bytes@,
    {
        Self { command, bytes }
    }

    /// Create a new literal block holding `bytes`; the count in the command
    /// is the number of bytes modulo 256
    pub fn new_literal_block(bytes: &[u8]) -> (c: Self)
        ensures
            c.command == Command::Literal((bytes@.len() % 256) as u8),
            c.bytes@ == bytes@,
    {
        let count = (bytes.len() % 256) as u8;
        Self { command: Command::Literal(count), bytes: vstd::slice::slice_to_vec(bytes) }
    }

    /// Create a new stop block holding `bytes`; the count in the command is
    /// the number of bytes modulo 256
    pub fn new_stop(bytes: &[u8]) -> (c: Self)
        ensures
            c.command == Command::Stop((bytes@.len() % 256) as u8),
            c.bytes@ == bytes@,
    {
        let count = (bytes.len() % 256) as u8;
        Self { command: Command::Stop(count), bytes: vstd::slice::slice_to_vec(bytes) }
    }

    /// Reads and decodes a control block
    ///
    /// # Errors
    /// - [Error::Io]: the reader ends before the control block does
    pub fn read(reader: &mut SliceReader) -> (r: RefPackResult<Self>)
        ensures
            final(reader).bytes() == old(reader).bytes(),
            match parse_control(old(reader).rest()) {
                Some((c, b, n)) => r is Ok && r->Ok_0.command == command_of(c) && r->Ok_0.bytes@
                    == b && final(reader).pos() == old(reader).pos() + n,
                None => r == Err::<Control, Error>(Error::Io(IoErrorKind::UnexpectedEof)),
            },
    {
        let block = CodeBlock::read(reader)?;
        Ok(Control { command: from_code(block.command), bytes: block.bytes })
    }

    /// Encodes and writes a valid control block
    pub fn write(&self, writer: &mut Vec<u8>)
        requires
            self.command.valid(),
        ensures
            final(writer)@ == old(writer)@ + self.encoded(),
    {
        self.command.write(writer);
        crate::header::mode::push_all(writer, self.bytes.as_slice());
    }
}

/// Reads control blocks one after another, up to and including the stop
/// command
pub struct Iter<'a, 'b> {
    reader: &'a mut SliceReader<'b>,
    reached_stop: bool,
}

impl<'a, 'b> Iter<'a, 'b> {
    /// The reader the blocks are read from
    pub closed spec fn reader(&self) -> SliceReader<'b> {
        *self.reader
    }

    /// Has the stop command been read
    pub closed spec fn done(&self) -> bool {
        self.reached_stop
    }

    /// Starts reading blocks from `reader`
    pub fn new(reader: &'a mut SliceReader<'b>) -> (it: Self)
        ensures
            it.reader() == *old(reader),
            !it.done(),
    {
        Iter { reader, reached_stop: false }
    }

    /// The next control block; `None` once the stop command was read or when
    /// the reader ends before the next block does
    pub fn next(&mut self) -> (r: Option<Control>)
        ensures
            final(self).reader().bytes() == old(self).reader().bytes(),
            old(self).done() ==> r is None && final(self).done(),
            !old(self).done() ==> match parse_control(old(self).reader().rest()) {
                Some((c, b, n)) => r is Some && r->Some_0.command == command_of(c)
                    && r->Some_0.bytes@ == b && final(self).reader().pos() == old(
                    self,
                ).reader().pos() + n && final(self).done() == (c.kind == CommandKind::Stop),
                None => r is None,
            },
    {
        if self.reached_stop {
            None
        } else {
            match Control::read(self.reader) {
                Ok(control) => {
                    if control.command.is_stop() {
                        self.reached_stop = true;
                    }
                    Some(control)
                },
                Err(_) => None,
            }
        }
    }
}

} // verus!
