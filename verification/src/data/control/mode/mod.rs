//! Possible modes to use for encoding and decoding control blocks
use vstd::prelude::*;

use crate::control::Command;
use crate::data::SliceReader;
use crate::error::{Error, IoErrorKind, RefPackResult};

mod reference;
mod simcity_4;

pub use reference::Reference;
pub use simcity_4::Simcity4;

verus! {

/// Limits of the values of the commands, as (minimum, maximum) pairs
///
/// All values are read through accessors, which reads better where they are
/// used, while the definition stays a plain struct
#[derive(Debug, Copy, Clone, Eq, PartialEq)]
pub struct Sizes {
    pub literal: (u8, u8),
    pub copy_literal: (u8, u8),
    pub short_offset: (u16, u16),
    pub short_length: (u8, u8),
    pub medium_offset: (u16, u16),
    pub medium_length: (u8, u8),
    pub long_offset: (u32, u32),
    pub long_length: (u16, u16),
}

impl Sizes {
    /// minimum value of the literal length in a literal command
    #[must_use]
    pub fn literal_min(self) -> (r: u8)
        ensures
            r == self.literal.0,
    {
        self.literal.0
    }

    /// maximum value of the literal length in a literal command
    #[must_use]
    pub fn literal_max(self) -> (r: u8)
        ensures
            r == self.literal.1,
    {
        self.literal.1
    }

    /// minimum value of the literal length in a non-literal command
    #[must_use]
    pub fn copy_literal_min(self) -> (r: u8)
        ensures
            r == self.copy_literal.0,
    {
        self.copy_literal.0
    }

    /// maximum value of the literal length in a non-literal command
    #[must_use]
    pub fn copy_literal_max(self) -> (r: u8)
        ensures
            r == self.copy_literal.1,
    {
        self.copy_literal.1
    }

    /// minimum offset distance for a short command
    #[must_use]
    pub fn short_offset_min(self) -> (r: u16)
        ensures
            r == self.short_offset.0,
    {
        self.short_offset.0
    }

    /// maximum offset distance for a short command
    #[must_use]
    pub fn short_offset_max(self) -> (r: u16)
        ensures
            r == self.short_offset.1,
    {
        self.short_offset.1
    }

    /// minimum length for a short command
    #[must_use]
    pub fn short_length_min(self) -> (r: u8)
        ensures
            r == self.short_length.0,
    {
        self.short_length.0
    }

    /// maximum length for a short command
    #[must_use]
    pub fn short_length_max(self) -> (r: u8)
        ensures
            r == self.short_length.1,
    {
        self.short_length.1
    }

    /// minimum offset distance for a medium command
    #[must_use]
    pub fn medium_offset_min(self) -> (r: u16)
        ensures
            r == self.medium_offset.0,
    {
        self.medium_offset.0
    }

    /// maximum offset distance for a medium command
    #[must_use]
    pub fn medium_offset_max(self) -> (r: u16)
        ensures
            r == self.medium_offset.1,
    {
        self.medium_offset.1
    }

    /// minimum length for a medium command
    #[must_use]
    pub fn medium_length_min(self) -> (r: u8)
        ensures
            r == self.medium_length.0,
    {
        self.medium_length.0
    }

    /// maximum length for a medium command
    #[must_use]
    pub fn medium_length_max(self) -> (r: u8)
        ensures
            r == self.medium_length.1,
    {
        self.medium_length.1
    }

    /// minimum offset distance for a long command
    #[must_use]
    pub fn long_offset_min(self) -> (r: u32)
        ensures
            r == self.long_offset.0,
    {
        self.long_offset.0
    }

    /// maximum offset distance for a long command
    #[must_use]
    pub fn long_offset_max(self) -> (r: u32)
        ensures
            r == self.long_offset.1,
    {
        self.long_offset.1
    }

    /// minimum length for a long command
    #[must_use]
    pub fn long_length_min(self) -> (r: u16)
        ensures
            r == self.long_length.0,
    {
        self.long_length.0
    }

    /// maximum length for a long command
    #[must_use]
    pub fn long_length_max(self) -> (r: u16)
        ensures
            r == self.long_length.1,
    {
        self.long_length.1
    }

    /// "Real" minimum of the literal value in a literal command once encoded:
    /// literal commands store their length less 4 and divided by 4
    #[must_use]
    pub fn literal_effective_min(self) -> (r: u8)
        requires
            self.literal.0 >= 4,
        ensures
            r == (self.literal.0 - 4) / 4,
    {
        (self.literal.0 - 4) / 4
    }

    /// "Real" maximum of the literal value in a literal command once encoded:
    /// literal commands store their length less 4 and divided by 4
    #[must_use]
    pub fn literal_effective_max(self) -> (r: u8)
        requires
            self.literal.1 >= 4,
        ensures
            r == (self.literal.1 - 4) / 4,
    {
        (self.literal.1 - 4) / 4
    }
}

/// An encoding and decoding of commands.
///
/// Implementations are unconstructable types that are only referenced via
/// generic arguments. `read` and `write` are symmetrical: a command read and
/// written back gives the bytes it was read from.
///
/// Layouts are described with `0` or `1` for fixed bits, `P` for position
/// bits, `L` for length bits, `B` for literal count bits, `-` between nibbles
/// and `:` between bytes.
pub trait Mode {
    /// The limits of the values of the commands
    spec fn spec_sizes() -> Sizes;

    /// The command at the start of `input` with its size in bytes, `None` if
    /// `input` ends before it does
    spec fn spec_read(input: Seq<u8>) -> Option<(Command, nat)>;

    /// Bytes of the encoded command
    spec fn spec_write(command: Command) -> Seq<u8>;

    /// Commands that can be encoded at all
    spec fn writable(command: Command) -> bool;

    /// The limits of the values of the commands
    fn sizes() -> (s: Sizes)
        ensures
            s == Self::spec_sizes(),
    ;

    /// Reads and decodes a command
    ///
    /// # Errors
    /// - [Error::Io]: the reader ends before the command does
    fn read(reader: &mut SliceReader) -> (r: RefPackResult<Command>)
        ensures
            final(reader).bytes() == old(reader).bytes(),
            match Self::spec_read(old(reader).rest()) {
                Some((c, n)) => r == Ok::<Command, Error>(c) && final(reader).pos() == old(
                    reader,
                ).pos() + n,
                None => r == Err::<Command, Error>(Error::Io(IoErrorKind::UnexpectedEof)),
            },
    ;

    /// Encodes and writes a command
    fn write(command: Command, writer: &mut Vec<u8>) -> (r: RefPackResult<()>)
        requires
            Self::writable(command),
        ensures
            r is Ok,
            final(writer)@ == old(writer)@ + Self::spec_write(command),
    ;

    /// Law: a command read from some bytes can be written, and writing it
    /// gives back exactly the bytes it was read from
    proof fn lemma_symmetric(input: Seq<u8>)
        requires
            Self::spec_read(input) is Some,
        ensures
            Self::writable(Self::spec_read(input)->Some_0.0),
            Self::spec_write(Self::spec_read(input)->Some_0.0) == input.take(
                Self::spec_read(input)->Some_0.1 as int,
            ),
    ;
}

} // verus!
