//! Errors returned by compression and decompression.
use vstd::prelude::*;

use crate::data::{decimal, push_str, usize_to_string, DecodeError};

verus! {

/// Kind of failure met while reading a byte stream.
#[derive(Debug, Clone, Copy, PartialEq, Eq, Structural)]
pub enum IoErrorKind {
    /// The stream ended before all the bytes that were asked for could be read.
    UnexpectedEof,
}

/// Possible errors returned by compression and decompression functions
#[derive(Debug, Clone, Copy, PartialEq, Eq, Structural)]
pub enum Error {
    /// No input was given to a compressor function
    EmptyInput,
    /// A flag was set in the header flags that is not supported; holds what
    /// was read in place of the expected flags
    BadFlags(u8),
    /// The header did not hold the magic number where it was expected; holds
    /// what was read in its place
    BadMagic(u8),
    /// An invalid operation was asked for while decoding a control; this
    /// normally means corrupted or malformed data
    ControlError { error: DecodeError, position: usize },
    /// Reading the compressed or uncompressed stream failed
    Io(IoErrorKind),
}

/// Character of the binary digit `b`
pub open spec fn bit_char(b: bool) -> char {
    if b {
        '1'
    } else {
        '0'
    }
}

/// The 8 binary digits of `n`, most significant first
pub open spec fn binary8(n: u8) -> Seq<char> {
    Seq::new(8, |i: int| bit_char((n as int / vstd::arithmetic::power2::pow2((7 - i) as nat) as int) % 2 == 1))
}

/// Character of the hexadecimal digit `d`, in upper case
pub open spec fn hex_char(d: nat) -> char {
    if d < 10 {
        ('0' as nat + d) as char
    } else {
        ('A' as nat + (d - 10)) as char
    }
}

/// `n` in hexadecimal with a `0x` prefix and two upper case digits
pub open spec fn hex2(n: u8) -> Seq<char> {
    seq!['0', 'x', hex_char(n as nat / 16), hex_char(n as nat % 16)]
}

/// Formats `n` with `{:08b}`: its 8 binary digits
#[verifier::external_body]
fn u8_to_binary(n: u8) -> (s: String)
    ensures
        s@ == binary8(n),
{
    format!("{n:08b}")
}

/// Formats `n` with `{:#04X}`: `0x` then its two hexadecimal digits in upper
/// case
#[verifier::external_body]
fn u8_to_hex(n: u8) -> (s: String)
    ensures
        s@ == hex2(n),
{
    format!("{n:#04X}")
}

impl Error {
    /// The message that describes the error
    pub open spec fn message(self) -> Seq<char> {
        match self {
            Error::EmptyInput => "No input provided to compression"@,
            Error::BadFlags(flags) => "Unknown flag was set in compression header `"@ + binary8(flags)
                + "`"@,
            Error::BadMagic(magic) => "Invalid magic number at compression header `"@ + hex2(magic)
                + "`"@,
            Error::ControlError { error, position } => "Error occured while decoding control block at position `"@
                + decimal(position as nat) + "`:\n"@ + error.message(),
            Error::Io(IoErrorKind::UnexpectedEof) => "IO Error: failed to fill whole buffer"@,
        }
    }

    /// The message that describes the error
    pub fn to_string(&self) -> (s: String)
        ensures
            s@ == self.message(),
    {
        match self {
            Error::EmptyInput => "No input provided to compression".to_owned(),
            Error::BadFlags(flags) => {
                let mut s = "Unknown flag was set in compression header `".to_owned();
                push_str(&mut s, u8_to_binary(*flags).as_str());
                push_str(&mut s, "`");
                s
            },
            Error::BadMagic(magic) => {
                let mut s = "Invalid magic number at compression header `".to_owned();
                push_str(&mut s, u8_to_hex(*magic).as_str());
                push_str(&mut s, "`");
                s
            },
            Error::ControlError { error, position } => {
                let mut s = "Error occured while decoding control block at position `".to_owned();
                push_str(&mut s, usize_to_string(*position).as_str());
                push_str(&mut s, "`:\n");
                push_str(&mut s, error.to_string().as_str());
                s
            },
            Error::Io(IoErrorKind::UnexpectedEof) => "IO Error: failed to fill whole buffer".to_owned(),
        }
    }
}

/// Result whose error is a [`Error`]
pub type RefPackResult<T> = core::result::Result<T, Error>;

} // verus!
