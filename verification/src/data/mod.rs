//! The compressed data block: everything past the header, the compression
//! algorithms themselves, and the control codes.
use vstd::prelude::*;

use crate::error::{Error, IoErrorKind, RefPackResult};

pub mod compression;
pub mod control;
pub mod decompression;
pub mod roundtrip;

verus! {

/// Errors that can occur while carrying out a decoded control
#[derive(Debug, Clone, Copy, PartialEq, Eq, Structural)]
pub enum DecodeError {
    /// The offset of a copy was 0, which has no meaning and indicates
    /// corrupted or malformed data.
    BadOffset,
    /// The copy offset would reach past the start of the buffer.
    ///
    /// ### Fields
    /// - usize: buffer length (the write position)
    /// - usize: offset requested
    NegativePosition(usize, usize),
    /// The copy would write past the end of the decompression buffer; holds
    /// the number of bytes by which it would overrun.
    ///
    /// This exists so that maliciously constructed data cannot use an
    /// unbounded amount of memory.
    BadLength(usize),
}

/// Character of the decimal digit `d`
pub open spec fn digit_char(d: nat) -> char {
    ('0' as nat + d) as char
}

/// Decimal digits of `n`, most significant first
pub open spec fn decimal(n: nat) -> Seq<char>
    decreases n,
{
    if n < 10 {
        seq![digit_char(n)]
    } else {
        decimal(n / 10).push(digit_char(n % 10))
    }
}

/// Decimal form of `n` by its `ToString` implementation, which std documents
/// as its `Display` form: the decimal digits, most significant first
#[verifier::external_body]
pub(crate) fn usize_to_string(n: usize) -> (s: String)
    ensures
        s@ == decimal(n as nat),
{
    n.to_string()
}

/// Appends `other` to `s` with `String::push_str`
#[verifier::external_body]
pub(crate) fn push_str(s: &mut String, other: &str)
    ensures
        final(s)@ == old(s)@ + other@,
{
    s.push_str(other)
}

impl DecodeError {
    /// The message that describes the error
    pub open spec fn message(self) -> Seq<char> {
        match self {
            DecodeError::BadOffset => "Offset is 0 in compressed data control command"@,
            DecodeError::NegativePosition(length, offset) => "Offset went past start of buffer: buffer length `"@
                + decimal(length as nat) + "`, offset `"@ + decimal(offset as nat) + "`"@,
            DecodeError::BadLength(over) => "Decompressed data overran decompressed size in header by `"@
                + decimal(over as nat) + "` bytes"@,
        }
    }

    /// The message that describes the error
    pub fn to_string(&self) -> (s: String)
        ensures
            s@ == self.message(),
    {
        match self {
            DecodeError::BadOffset => "Offset is 0 in compressed data control command".to_owned(),
            DecodeError::NegativePosition(length, offset) => {
                let mut s = "Offset went past start of buffer: buffer length `".to_owned();
                push_str(&mut s, usize_to_string(*length).as_str());
                push_str(&mut s, "`, offset `");
                push_str(&mut s, usize_to_string(*offset).as_str());
                push_str(&mut s, "`");
                s
            },
            DecodeError::BadLength(over) => {
                let mut s = "Decompressed data overran decompressed size in header by `".to_owned();
                push_str(&mut s, usize_to_string(*over).as_str());
                push_str(&mut s, "` bytes");
                s
            },
        }
    }
}

/// A reader over a slice of bytes that keeps track of how far it has read.
pub struct SliceReader<'a> {
    data: &'a [u8],
    position: usize,
}

impl<'a> SliceReader<'a> {
    #[verifier::type_invariant]
    spec fn inv(self) -> bool {
        self.position <= self.data@.len()
    }

    /// The whole slice being read
    pub closed spec fn bytes(self) -> Seq<u8> {
        self.data@
    }

    /// The number of bytes read so far
    pub closed spec fn pos(self) -> nat {
        self.position as nat
    }

    /// The bytes that are still to be read
    pub open spec fn rest(self) -> Seq<u8> {
        self.bytes().skip(self.pos() as int)
    }

    /// Creates a reader positioned at the start of `data`
    pub fn new(data: &'a [u8]) -> (r: Self)
        ensures
            r.bytes() == data@,
            r.pos() == 0,
    {
        SliceReader { data, position: 0 }
    }

    /// Number of bytes read so far
    pub fn position(&self) -> (p: usize)
        ensures
            p == self.pos(),
            p <= self.bytes().len(),
    {
        proof {
            use_type_invariant(self);
        }
        self.position
    }

    /// Number of bytes that are left to read
    pub fn remaining(&self) -> (n: usize)
        ensures
            n == self.bytes().len() - self.pos(),
    {
        proof {
            use_type_invariant(self);
        }
        self.data.len() - self.position
    }

    /// Reads one byte
    ///
    /// # Errors
    /// - [Error::Io]: no byte is left
    pub fn read_u8(&mut self) -> (r: RefPackResult<u8>)
        ensures
            final(self).bytes() == old(self).bytes(),
            old(self).pos() <= old(self).bytes().len(),
            final(self).pos() <= final(self).bytes().len(),
            old(self).pos() < old(self).bytes().len() ==> r == Ok::<u8, Error>(
                old(self).bytes()[old(self).pos() as int],
            ) && final(self).pos() == old(self).pos() + 1,
            old(self).pos() >= old(self).bytes().len() ==> r == Err::<u8, Error>(
                Error::Io(IoErrorKind::UnexpectedEof),
            ),
    {
        proof {
            use_type_invariant(&*self);
        }
        if self.position < self.data.len() {
            let b = self.data[self.position];
            self.position = self.position + 1;
            Ok(b)
        } else {
            Err(Error::Io(IoErrorKind::UnexpectedEof))
        }
    }

    /// Reads exactly `length` bytes
    ///
    /// # Errors
    /// - [Error::Io]: fewer than `length` bytes are left
    pub fn read_exact(&mut self, length: usize) -> (r: RefPackResult<&'a [u8]>)
        ensures
            final(self).bytes() == old(self).bytes(),
            old(self).pos() <= old(self).bytes().len(),
            final(self).pos() <= final(self).bytes().len(),
            old(self).pos() + length <= old(self).bytes().len() ==> r is Ok && r->Ok_0@
                == old(self).bytes().subrange(
                old(self).pos() as int,
                old(self).pos() + length,
            ) && final(self).pos() == old(self).pos() + length,
            old(self).pos() + length > old(self).bytes().len() ==> r == Err::<&'a [u8], Error>(
                Error::Io(IoErrorKind::UnexpectedEof),
            ),
    {
        proof {
            use_type_invariant(&*self);
        }
        if length <= self.data.len() - self.position {
            let start = self.position;
            let out = &self.data[start..start + length];
            self.position = start + length;
            Ok(out)
        } else {
            Err(Error::Io(IoErrorKind::UnexpectedEof))
        }
    }
}

/// The buffer after an overlapping back-reference copy: `length` items are
/// written at `position`, item `k` being the one `offset` items before it,
/// which repeats the last `offset` items before `position` as often as needed.
pub open spec fn rle_copied<T>(buffer: Seq<T>, position: int, offset: int, length: int) -> Seq<T> {
    buffer.take(position) + Seq::new(length as nat, |k: int| buffer[position - offset + k % offset])
        + buffer.skip(position + length)
}

/// Copies `n` items from `src` to `dst` within one buffer, where the source
/// range ends before the destination range starts
fn copy_forward<T: Copy>(buffer: &mut Vec<T>, src: usize, n: usize, dst: usize)
    requires
        src + n <= dst,
        dst + n <= old(buffer)@.len(),
    ensures
        final(buffer)@ == old(buffer)@.take(dst as int) + old(buffer)@.subrange(
            src as int,
            src + n,
        ) + old(buffer)@.skip(dst + n),
{
    let ghost orig = buffer@;
    let total = buffer.len();
    let mut j: usize = 0;
    while j < n
        invariant
            j <= n,
            total == orig.len(),
            src + n <= dst,
            dst + n <= orig.len(),
            buffer@.len() == orig.len(),
            forall|i: int| 0 <= i < dst ==> buffer@[i] == orig[i],
            forall|i: int| dst + n <= i < orig.len() ==> buffer@[i] == orig[i],
            forall|i: int| dst <= i < dst + j ==> buffer@[i] == orig[src + (i - dst)],
        decreases n - j,
    {
        let v = buffer[src + j];
        buffer.set(dst + j, v);
        j += 1;
    }
    assert(buffer@ =~= orig.take(dst as int) + orig.subrange(src as int, src + n) + orig.skip(
        dst + n,
    ));
}

/// Adding a multiple of `d` does not change a remainder modulo `d`
pub(crate) proof fn lemma_mod_shift(m: int, a: int, d: int)
    requires
        d > 0,
        m >= 0,
        a >= 0,
        m % d == 0,
    ensures
        (m + a) % d == a % d,
        (m + m) % d == 0,
{
    vstd::arithmetic::div_mod::lemma_fundamental_div_mod(m, d);
    vstd::arithmetic::div_mod::lemma_mod_multiples_vanish(m / d, a, d);
    vstd::arithmetic::div_mod::lemma_mod_multiples_vanish(m / d, m, d);
}

/// After copying the periodic region `[start, start + n)` onto `[dst, dst + n)`
/// with `dst - start` a multiple of the period, the region up to `dst + n` is
/// periodic too
proof fn lemma_periodic_extend<T>(
    before: Seq<T>,
    after: Seq<T>,
    orig: Seq<T>,
    start: int,
    dst: int,
    n: int,
    d: int,
)
    requires
        d > 0,
        0 <= start <= dst,
        (dst - start) % d == 0,
        n >= 0,
        dst + n <= before.len(),
        after.len() == before.len(),
        start + d <= orig.len(),
        forall|i: int| start <= i < dst ==> #[trigger] before[i] == orig[start + (i - start) % d],
        forall|i: int| start <= i < dst ==> after[i] == before[i],
        forall|i: int| dst <= i < dst + n ==> after[i] == before[start + (i - dst)],
        n <= dst - start,
    ensures
        forall|i: int| start <= i < dst + n ==> #[trigger] after[i] == orig[start + (i - start) % d],
{
    assert forall|i: int| start <= i < dst + n implies #[trigger] after[i] == orig[start + (i
        - start) % d] by {
        if i >= dst {
            let j = i - dst;
            assert(after[i] == before[start + j]);
            lemma_mod_shift(dst - start, j, d);
            assert(i - start == (dst - start) + j);
        }
    }
}

/// A buffer that is periodic with period `offset` from `position - offset` up to
/// `position + length`, and otherwise unchanged, is the result of the copy
proof fn lemma_rle_result<T>(orig: Seq<T>, buf: Seq<T>, position: int, offset: int, length: int)
    requires
        0 < offset <= position,
        length >= 0,
        position + length <= orig.len(),
        buf.len() == orig.len(),
        forall|i: int| 0 <= i < position ==> buf[i] == orig[i],
        forall|i: int| position + length <= i < orig.len() ==> buf[i] == orig[i],
        forall|i: int|
            position - offset <= i < position + length ==> #[trigger] buf[i] == orig[(
            position - offset) + (i - (position - offset)) % offset],
    ensures
        buf == rle_copied(orig, position, offset, length),
{
    assert forall|i: int| 0 <= i < orig.len() implies buf[i] == rle_copied(
        orig,
        position,
        offset,
        length,
    )[i] by {
        if position <= i < position + length {
            assert(buf[i] == orig[(position - offset) + (i - (position - offset)) % offset]);
            lemma_mod_shift(offset, i - position, offset);
            assert(i - (position - offset) == offset + (i - position));
        }
    }
    assert(buf =~= rle_copied(orig, position, offset, length));
}

/// Each of `length` items from `at` on equals the one `offset` before it, so
/// it equals the item of the last `offset` ones before `at` that the copy of
/// [rle_copied] reads for it
proof fn lemma_periodic_item<T>(data: Seq<T>, at: int, offset: int, length: int, j: int)
    requires
        1 <= offset <= at,
        0 <= j < length,
        at + length <= data.len(),
        forall|i: int| at <= i < at + length ==> #[trigger] data[i] == data[i - offset],
    ensures
        data[at + j] == data[at - offset + j % offset],
    decreases j,
{
    if j < offset {
        vstd::arithmetic::div_mod::lemma_small_mod(j as nat, offset as nat);
        assert(data[at + j] == data[at + j - offset]);
    } else {
        lemma_periodic_item(data, at, offset, length, j - offset);
        assert(data[at + j] == data[at + j - offset]);
        lemma_mod_shift(offset, j - offset, offset);
        assert(offset + (j - offset) == j);
    }
}

/// Law: when each of the `length` items of `data` from `at` on equals the one
/// `offset` before it, the copy of [rle_copied] into a buffer that holds
/// `data` up to `at` makes it hold `data` up to `at + length`
pub proof fn lemma_copy_reproduces<T>(
    data: Seq<T>,
    buffer: Seq<T>,
    at: int,
    offset: int,
    length: int,
)
    requires
        1 <= offset <= at,
        length >= 0,
        at + length <= data.len(),
        forall|i: int| at <= i < at + length ==> #[trigger] data[i] == data[i - offset],
        buffer.len() == data.len(),
        forall|i: int| 0 <= i < at ==> buffer[i] == data[i],
    ensures
        rle_copied(buffer, at, offset, length).len() == data.len(),
        forall|i: int|
            0 <= i < at + length ==> #[trigger] rle_copied(buffer, at, offset, length)[i]
                == data[i],
{
    let r = rle_copied(buffer, at, offset, length);
    assert forall|i: int| 0 <= i < at + length implies #[trigger] r[i] == data[i] by {
        if i >= at {
            let j = i - at;
            lemma_periodic_item(data, at, offset, length, j);
            vstd::arithmetic::div_mod::lemma_mod_bound(j, offset);
            assert(r[i] == buffer[at - offset + j % offset]);
        }
    }
}

/// Fast decoding of run length encoded data
///
/// Takes the last `offset` items before `position` and repeatedly copies them
/// to `position` until `length` items have been written. If this function
/// errors, nothing will have been copied.
///
/// # Errors
/// - [DecodeError::BadOffset]: `offset` is 0
/// - [DecodeError::NegativePosition]: `offset` > `position`
/// - [DecodeError::BadLength]: `position + length` > `buffer.len()`
///
/// # Returns
/// the new position in the buffer after the copy
#[verifier::spinoff_prover]
#[verifier::rlimit(40)]
pub fn rle_decode_fixed<T: Copy>(
    buffer: &mut Vec<T>,
    position: usize,
    offset: usize,
    length: usize,
) -> (r: Result<usize, DecodeError>)
    requires
        position <= old(buffer)@.len() || position + length <= usize::MAX,
    ensures
        offset == 0 ==> r == Err::<usize, DecodeError>(DecodeError::BadOffset),
        offset != 0 && offset > position ==> r == Err::<usize, DecodeError>(
            DecodeError::NegativePosition(position, offset),
        ),
        offset != 0 && offset <= position && position + length > old(buffer)@.len() ==> r == Err::<
            usize,
            DecodeError,
        >(DecodeError::BadLength((position + length - old(buffer)@.len()) as usize)),
        r is Err ==> final(buffer)@ == old(buffer)@,
        offset != 0 && offset <= position && position + length <= old(buffer)@.len() ==> r is Ok,
        r is Ok ==> offset != 0 && offset <= position && position + length <= old(buffer)@.len()
            && r->Ok_0 == position + length && final(buffer)@ == rle_copied(
            old(buffer)@,
            position as int,
            offset as int,
            length as int,
        ),
{
    if offset == 0 {
        return Err(DecodeError::BadOffset);
    }
    if offset > position {
        return Err(DecodeError::NegativePosition(position, offset));
    }
    if position > buffer.len() {
        return Err(DecodeError::BadLength(position + length - buffer.len()));
    }
    if length > buffer.len() - position {
        return Err(DecodeError::BadLength(length - (buffer.len() - position)));
    }
    let ghost orig = buffer@;
    let ghost pos0 = position as int;
    let ghost off0 = offset as int;
    let ghost len0 = length as int;
    let ghost end = pos0 + len0;
    let mut position = position;
    let mut offset = offset;
    let mut length = length;

    let copy_fragment_start = position - offset;
    let total = buffer.len();
    assert forall|i: int| copy_fragment_start <= i < position implies #[trigger] buffer@[i]
        == orig[copy_fragment_start + (i - copy_fragment_start) % off0] by {
        vstd::arithmetic::div_mod::lemma_small_mod((i - copy_fragment_start) as nat, off0 as nat);
    }

    while length > offset
        invariant
            copy_fragment_start == pos0 - off0,
            total == orig.len(),
            off0 > 0,
            end <= orig.len(),
            pos0 <= position,
            position - copy_fragment_start == offset,
            (offset as int) % off0 == 0,
            offset > 0,
            position + length == end,
            buffer@.len() == orig.len(),
            forall|i: int| 0 <= i < pos0 ==> buffer@[i] == orig[i],
            forall|i: int| end <= i < orig.len() ==> buffer@[i] == orig[i],
            forall|i: int|
                copy_fragment_start <= i < position ==> #[trigger] buffer@[i]
                    == orig[copy_fragment_start + (i - copy_fragment_start) % off0],
        decreases length,
    {
        let ghost before = buffer@;
        copy_forward(buffer, copy_fragment_start, offset, position);
        proof {
            lemma_periodic_extend(
                before,
                buffer@,
                orig,
                copy_fragment_start as int,
                position as int,
                offset as int,
                off0,
            );
            lemma_mod_shift(offset as int, 0, off0);
        }
        length -= offset;
        position += offset;
        offset *= 2;
    }
    let ghost before = buffer@;
    copy_forward(buffer, copy_fragment_start, length, position);
    proof {
        lemma_periodic_extend(
            before,
            buffer@,
            orig,
            copy_fragment_start as int,
            position as int,
            length as int,
            off0,
        );
    }
    position += length;
    proof {
        lemma_rle_result(orig, buffer@, pos0, off0, len0);
    }
    Ok(position)
}

/// Copies `length` bytes from the reader into `buffer` at `position`
///
/// # Returns
/// the new position in the buffer after the copy
///
/// # Errors
/// - [Error::Io]: the reader holds fewer than `length` bytes
pub fn copy_from_reader(
    buffer: &mut Vec<u8>,
    reader: &mut SliceReader,
    position: usize,
    length: usize,
) -> (r: RefPackResult<usize>)
    requires
        position + length <= old(buffer)@.len(),
    ensures
        final(reader).bytes() == old(reader).bytes(),
        old(reader).pos() + length > old(reader).bytes().len() ==> r == Err::<usize, Error>(
            Error::Io(IoErrorKind::UnexpectedEof),
        ),
        old(reader).pos() + length <= old(reader).bytes().len() ==> r == Ok::<usize, Error>(
            (position + length) as usize,
        ) && final(reader).pos() == old(reader).pos() + length && final(buffer)@ == old(
            buffer,
        )@.take(position as int) + old(reader).rest().take(length as int) + old(buffer)@.skip(
            position + length,
        ),
{
    let bytes = reader.read_exact(length)?;
    let ghost orig = buffer@;
    let total = buffer.len();
    let mut j: usize = 0;
    while j < length
        invariant
            j <= length,
            total == orig.len(),
            bytes@.len() == length,
            position + length <= orig.len(),
            buffer@.len() == orig.len(),
            forall|i: int| 0 <= i < position ==> buffer@[i] == orig[i],
            forall|i: int| position + length <= i < orig.len() ==> buffer@[i] == orig[i],
            forall|i: int| position <= i < position + j ==> buffer@[i] == bytes@[i - position],
        decreases length - j,
    {
        buffer.set(position + j, bytes[j]);
        j += 1;
    }
    proof {
        assert(bytes@ =~= old(reader).rest().take(length as int));
        assert(buffer@ =~= orig.take(position as int) + bytes@ + orig.skip(position + length));
    }
    Ok(position + length)
}

} // verus!
