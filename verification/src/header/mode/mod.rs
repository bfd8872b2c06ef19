//! Layouts of the header
use vstd::prelude::*;

use byteorder::{BigEndian, ByteOrder, LittleEndian};

use crate::data::SliceReader;
use crate::error::RefPackResult;
use crate::header::Header;

mod maxis;
mod maxis2;
mod reference;
mod sim_ea;

pub use maxis::Maxis;
pub use maxis2::Maxis2;
pub use reference::Reference;
pub use sim_ea::{Flags, SimEA};

verus! {

/// A layout of the header.
///
/// Implementations are unconstructable types that are only referenced via
/// generic arguments. `read` and `write` are symmetrical: a header written
/// by `write` reads back as [`Mode::spec_stored`] of it.
pub trait Mode {
    /// Number of bytes of the header written for `decompressed_size` bytes
    spec fn spec_length(decompressed_size: nat) -> nat;

    /// The header at the start of `input` with its size in bytes, or the
    /// error met while reading it
    spec fn spec_read(input: Seq<u8>) -> RefPackResult<(Header, nat)>;

    /// Bytes of the header as written
    spec fn spec_write(header: Header) -> Seq<u8>;

    /// Decompressed sizes that the header holds without loss
    spec fn spec_fits(decompressed_size: nat) -> bool;

    /// What reading back a written header gives
    spec fn spec_stored(header: Header) -> Header;

    /// Length of the header written for `decompressed_size` bytes of data
    fn length(decompressed_size: usize) -> (n: usize)
        ensures
            n == Self::spec_length(decompressed_size as nat),
    ;

    /// Reads a header
    fn read(reader: &mut SliceReader) -> (r: RefPackResult<Header>)
        ensures
            final(reader).bytes() == old(reader).bytes(),
            match Self::spec_read(old(reader).rest()) {
                Ok((h, n)) => r == Ok::<Header, crate::error::Error>(h) && final(reader).pos()
                    == old(reader).pos() + n,
                Err(e) => r == Err::<Header, crate::error::Error>(e),
            },
    ;

    /// Writes a header
    fn write(header: Header, writer: &mut Vec<u8>)
        ensures
            final(writer)@ == old(writer)@ + Self::spec_write(header),
    ;

    /// Law: reading a header takes no more bytes than there are, and fails
    /// only on a bad magic number, bad flags, or input that ends too soon
    proof fn lemma_read_errors(input: Seq<u8>)
        ensures
            match Self::spec_read(input) {
                Ok((_, n)) => n <= input.len(),
                Err(e) => e is BadMagic || e is BadFlags || e is Io,
            },
    ;

    /// Law: a written header reads back as its stored form whatever follows
    /// it, keeps its decompressed length when it fits, and takes as many bytes
    /// as `length` says
    proof fn lemma_roundtrip(header: Header, rest: Seq<u8>)
        ensures
            Self::spec_read(Self::spec_write(header) + rest) == Ok::<
                (Header, nat),
                crate::error::Error,
            >((Self::spec_stored(header), Self::spec_write(header).len())),
            Self::spec_write(header).len() == Self::spec_length(
                header.decompressed_length as nat,
            ),
            Self::spec_fits(header.decompressed_length as nat) ==> Self::spec_stored(
                header,
            ).decompressed_length
                == header.decompressed_length,
    ;
}

/// Little endian bytes of a `u32`
pub open spec fn le_u32_bytes(n: u32) -> Seq<u8> {
    seq![(n & 0xFF) as u8, ((n >> 8u32) & 0xFF) as u8, ((n >> 16u32) & 0xFF) as u8, ((n >> 24u32) & 0xFF) as u8]
}

/// Big endian bytes of a `u32`
pub open spec fn be_u32_bytes(n: u32) -> Seq<u8> {
    seq![((n >> 24u32) & 0xFF) as u8, ((n >> 16u32) & 0xFF) as u8, ((n >> 8u32) & 0xFF) as u8, (n & 0xFF) as u8]
}

/// Big endian bytes of a 24 bit number
pub open spec fn be_u24_bytes(n: u32) -> Seq<u8> {
    seq![((n >> 16u32) & 0xFF) as u8, ((n >> 8u32) & 0xFF) as u8, (n & 0xFF) as u8]
}

/// `u32` from its little endian bytes
pub open spec fn le_u32_value(b: Seq<u8>) -> u32 {
    (b[0] as u32) | ((b[1] as u32) << 8u32) | ((b[2] as u32) << 16u32) | ((b[3] as u32) << 24u32)
}

/// `u32` from its big endian bytes
pub open spec fn be_u32_value(b: Seq<u8>) -> u32 {
    ((b[0] as u32) << 24u32) | ((b[1] as u32) << 16u32) | ((b[2] as u32) << 8u32) | (b[3] as u32)
}

/// 24 bit number from its big endian bytes
pub open spec fn be_u24_value(b: Seq<u8>) -> u32 {
    ((b[0] as u32) << 16u32) | ((b[1] as u32) << 8u32) | (b[2] as u32)
}

/// Reads a little endian `u32` from the first four bytes of `buf` with
/// `byteorder`'s `LittleEndian::read_u32`, which returns the number whose
/// little endian bytes those are.
#[verifier::external_body]
pub(crate) fn read_u32_le(buf: &[u8]) -> (n: u32)
    requires
        buf@.len() >= 4,
    ensures
        n == le_u32_value(buf@),
{
    LittleEndian::read_u32(buf)
}

/// Reads a big endian `u32` from the first four bytes of `buf` with
/// `byteorder`'s `BigEndian::read_u32`, which returns the number whose big
/// endian bytes those are.
#[verifier::external_body]
pub(crate) fn read_u32_be(buf: &[u8]) -> (n: u32)
    requires
        buf@.len() >= 4,
    ensures
        n == be_u32_value(buf@),
{
    BigEndian::read_u32(buf)
}

/// Reads a big endian 24 bit number from the first three bytes of `buf` with
/// `byteorder`'s `BigEndian::read_u24`, which returns the number whose big
/// endian bytes those are.
#[verifier::external_body]
pub(crate) fn read_u24_be(buf: &[u8]) -> (n: u32)
    requires
        buf@.len() >= 3,
    ensures
        n == be_u24_value(buf@),
{
    BigEndian::read_u24(buf)
}

/// Little endian bytes of `n`, written by `byteorder`'s
/// `LittleEndian::write_u32`.
#[verifier::external_body]
pub(crate) fn write_u32_le(n: u32) -> (b: [u8; 4])
    ensures
        b@ == le_u32_bytes(n),
{
    let mut buf = [0u8; 4];
    LittleEndian::write_u32(&mut buf, n);
    buf
}

/// Big endian bytes of `n`, written by `byteorder`'s `BigEndian::write_u32`.
#[verifier::external_body]
pub(crate) fn write_u32_be(n: u32) -> (b: [u8; 4])
    ensures
        b@ == be_u32_bytes(n),
{
    let mut buf = [0u8; 4];
    BigEndian::write_u32(&mut buf, n);
    buf
}

/// Big endian bytes of the 24 bit number `n`, written by `byteorder`'s
/// `BigEndian::write_u24`, which panics on numbers of more than 24 bits.
#[verifier::external_body]
pub(crate) fn write_u24_be(n: u32) -> (b: [u8; 3])
    requires
        n <= 0xFF_FFFF,
    ensures
        b@ == be_u24_bytes(n),
{
    let mut buf = [0u8; 3];
    BigEndian::write_u24(&mut buf, n);
    buf
}

/// Appends all of `bytes` to `writer`
pub(crate) fn push_all(writer: &mut Vec<u8>, bytes: &[u8])
    ensures
        final(writer)@ == old(writer)@ + bytes@,
{
    let mut i: usize = 0;
    while i < bytes.len()
        invariant
            i <= bytes@.len(),
            writer@ == old(writer)@ + bytes@.take(i as int),
        decreases bytes@.len() - i,
    {
        writer.push(bytes[i]);
        i += 1;
        assert(writer@ =~= old(writer)@ + bytes@.take(i as int));
    }
    assert(bytes@.take(i as int) =~= bytes@);
}

/// The third byte of a `u32`, as a number
proof fn lemma_third_byte(n: u32)
    by (bit_vector)
    ensures
        ((n >> 16u32) & 0xFF) as u8 == ((n / 65536) % 256) as u8,
{
}

/// The fourth byte of a `u32`, as a number
proof fn lemma_fourth_byte(n: u32)
    by (bit_vector)
    ensures
        ((n >> 24u32) & 0xFF) as u8 == (n / 16777216) as u8,
{
}

/// A `u32` from its bytes, as a number
proof fn lemma_u32_value_bits(b0: u8, b1: u8, b2: u8, b3: u8)
    by (bit_vector)
    ensures
        (b0 as u32) | ((b1 as u32) << 8u32) | ((b2 as u32) << 16u32) | ((b3 as u32) << 24u32) == (
        b0 as u32 + (b1 as u32) * 256 + (b2 as u32) * 65536 + (b3 as u32) * 16777216) as u32,
        ((b0 as u32) << 24u32) | ((b1 as u32) << 16u32) | ((b2 as u32) << 8u32) | (b3 as u32) == (
        (b0 as u32) * 16777216 + (b1 as u32) * 65536 + (b2 as u32) * 256 + b3 as u32) as u32,
        ((b0 as u32) << 16u32) | ((b1 as u32) << 8u32) | (b2 as u32) == ((b0 as u32) * 65536 + (
        b1 as u32) * 256 + b2 as u32) as u32,
{
}

/// Law: the byte orders of header fields: little endian puts the least
/// significant byte of a number first, big endian the most significant, in
/// four bytes or, for numbers below 2^24, in three
pub proof fn lemma_byte_order_layout(n: u32, b: Seq<u8>)
    requires
        b.len() >= 4,
    ensures
        le_u32_bytes(n) == seq![
            (n % 256) as u8,
            ((n / 256) % 256) as u8,
            ((n / 65536) % 256) as u8,
            (n / 16777216) as u8,
        ],
        be_u32_bytes(n) == seq![
            (n / 16777216) as u8,
            ((n / 65536) % 256) as u8,
            ((n / 256) % 256) as u8,
            (n % 256) as u8,
        ],
        be_u24_bytes(n) == seq![((n / 65536) % 256) as u8, ((n / 256) % 256) as u8, (n % 256) as u8],
        le_u32_value(b) == b[0] + b[1] * 256 + b[2] * 65536 + b[3] * 16777216,
        be_u32_value(b) == b[0] * 16777216 + b[1] * 65536 + b[2] * 256 + b[3],
        be_u24_value(b) == b[0] * 65536 + b[1] * 256 + b[2],
{
    crate::data::control::lemma_low_byte(n);
    crate::data::control::lemma_second_byte(n);
    lemma_third_byte(n);
    lemma_fourth_byte(n);
    lemma_u32_value_bits(b[0], b[1], b[2], b[3]);
}

/// Law: a `u32` written little endian reads back as itself
pub proof fn lemma_le_u32(n: u32, rest: Seq<u8>)
    ensures
        le_u32_value(le_u32_bytes(n) + rest) == n,
{
    let b = le_u32_bytes(n) + rest;
    let (b0, b1, b2, b3) = (b[0], b[1], b[2], b[3]);
    assert((b0 as u32) | ((b1 as u32) << 8u32) | ((b2 as u32) << 16u32) | ((b3 as u32) << 24u32)
        == n) by (bit_vector)
        requires
            b0 == (n & 0xFF) as u8,
            b1 == ((n >> 8u32) & 0xFF) as u8,
            b2 == ((n >> 16u32) & 0xFF) as u8,
            b3 == ((n >> 24u32) & 0xFF) as u8,
    ;
}

/// Law: a `u32` written big endian reads back as itself
pub proof fn lemma_be_u32(n: u32, rest: Seq<u8>)
    ensures
        be_u32_value(be_u32_bytes(n) + rest) == n,
{
    let b = be_u32_bytes(n) + rest;
    let (b0, b1, b2, b3) = (b[0], b[1], b[2], b[3]);
    assert(((b0 as u32) << 24u32) | ((b1 as u32) << 16u32) | ((b2 as u32) << 8u32) | (b3 as u32)
        == n) by (bit_vector)
        requires
            b0 == ((n >> 24u32) & 0xFF) as u8,
            b1 == ((n >> 16u32) & 0xFF) as u8,
            b2 == ((n >> 8u32) & 0xFF) as u8,
            b3 == (n & 0xFF) as u8,
    ;
}

/// Law: a 24 bit number written big endian reads back as itself
pub proof fn lemma_be_u24(n: u32, rest: Seq<u8>)
    requires
        n <= 0xFF_FFFF,
    ensures
        be_u24_value(be_u24_bytes(n) + rest) == n,
{
    let b = be_u24_bytes(n) + rest;
    let (b0, b1, b2) = (b[0], b[1], b[2]);
    assert(((b0 as u32) << 16u32) | ((b1 as u32) << 8u32) | (b2 as u32) == n) by (bit_vector)
        requires
            b0 == ((n >> 16u32) & 0xFF) as u8,
            b1 == ((n >> 8u32) & 0xFF) as u8,
            b2 == (n & 0xFF) as u8,
            n <= 0xFF_FFFF,
    ;
}

} // verus!
