//! Decompression: parse the header to learn the decompressed length, then
//! carry out the stream of control blocks until a stop command.
//!
//! Each control block writes its literal bytes first, then performs its copy
//! command. Copies are "run length encoded": the copy length may be longer
//! than the offset, in which case the bytes copied so far repeat. For example,
//! with `DEADBEEF` written so far, a copy with offset 4 and length 16 gives
//! `DEADBEEFBEEFBEEFBEEFBEEF`.
use vstd::prelude::*;

use crate::data::control::{parse_command, Command, CommandKind};
use crate::data::{copy_from_reader, rle_copied, rle_decode_fixed, DecodeError, SliceReader};
use crate::error::{Error, IoErrorKind, RefPackResult};
use crate::format::Format;
use crate::header::mode::Mode;
use crate::header::Header;

verus! {

/// `buffer` with `bytes` written at `position`
pub open spec fn written(buffer: Seq<u8>, position: int, bytes: Seq<u8>) -> Seq<u8> {
    buffer.take(position) + bytes + buffer.skip(position + bytes.len())
}

/// Outcome of a copy of `length` bytes at `offset` into `buffer` at write
/// position `wpos`: the buffer and write position after it
pub open spec fn decode_copy(
    buffer: Seq<u8>,
    wpos: nat,
    offset: nat,
    length: nat,
) -> RefPackResult<(Seq<u8>, nat)> {
    if offset == 0 {
        Err(Error::ControlError { error: DecodeError::BadOffset, position: wpos as usize })
    } else if offset > wpos {
        Err(
            Error::ControlError {
                error: DecodeError::NegativePosition(wpos as usize, offset as usize),
                position: wpos as usize,
            },
        )
    } else if wpos + length > buffer.len() {
        Err(
            Error::ControlError {
                error: DecodeError::BadLength((wpos + length - buffer.len()) as usize),
                position: wpos as usize,
            },
        )
    } else {
        Ok((rle_copied(buffer, wpos as int, offset as int, length as int), wpos + length))
    }
}

/// Outcome of carrying out the control blocks of `input` from index `pos`,
/// writing into `buffer` at write position `wpos`, up to and including the
/// stop command: the final buffer or the error met. Literal bytes that would
/// be written past the end of the buffer are an overrun, as a copy there
/// is.
#[verifier::opaque]
pub open spec fn decode_controls(input: Seq<u8>, pos: nat, buffer: Seq<u8>, wpos: nat) -> RefPackResult<
    Seq<u8>,
>
    decreases input.len() - pos,
    when pos <= input.len()
{
    match parse_command(input.skip(pos as int)) {
        None => Err(Error::Io(IoErrorKind::UnexpectedEof)),
        Some((c, n)) => {
            let lit = c.literal as nat;
            let p1 = pos + n;
            if c.is_copy() && lit == 0 {
                match decode_copy(buffer, wpos, c.offset as nat, c.length as nat) {
                    Err(e) => Err(e),
                    Ok((b2, w2)) => decode_controls(input, p1, b2, w2),
                }
            } else if wpos + lit > buffer.len() {
                Err(
                    Error::ControlError {
                        error: DecodeError::BadLength((wpos + lit - buffer.len()) as usize),
                        position: wpos as usize,
                    },
                )
            } else if p1 + lit > input.len() {
                Err(Error::Io(IoErrorKind::UnexpectedEof))
            } else {
                let b1 = written(buffer, wpos as int, input.subrange(p1 as int, (p1 + lit) as int));
                let w1 = wpos + lit;
                let p2 = p1 + lit;
                if c.kind == CommandKind::Stop {
                    Ok(b1)
                } else if c.kind == CommandKind::Literal {
                    decode_controls(input, p2, b1, w1)
                } else {
                    match decode_copy(b1, w1, c.offset as nat, c.length as nat) {
                        Err(e) => Err(e),
                        Ok((b2, w2)) => decode_controls(input, p2, b2, w2),
                    }
                }
            }
        },
    }
}

/// The errors that decompression can give: a bad magic number, bad flags, a
/// control block that cannot be carried out, or input that ends too soon
pub open spec fn is_decompress_error(e: Error) -> bool {
    e is BadMagic || e is BadFlags || e is ControlError || e is Io
}

/// Law: carrying out control blocks fails only on a control block that
/// cannot be carried out or on input that ends too soon
pub proof fn lemma_decode_controls_errors(input: Seq<u8>, pos: nat, buffer: Seq<u8>, wpos: nat)
    requires
        pos <= input.len(),
    ensures
        decode_controls(input, pos, buffer, wpos) matches Err(e) ==> e is ControlError || e is Io,
    decreases input.len() - pos,
{
    reveal_with_fuel(decode_controls, 2);
    match parse_command(input.skip(pos as int)) {
        None => {},
        Some((c, n)) => {
            let lit = c.literal as nat;
            let p1 = pos + n;
            assert(1 <= n <= input.len() - pos);
            if c.is_copy() && lit == 0 {
                match decode_copy(buffer, wpos, c.offset as nat, c.length as nat) {
                    Err(e) => {},
                    Ok((b2, w2)) => lemma_decode_controls_errors(input, p1, b2, w2),
                }
            } else if wpos + lit > buffer.len() {
            } else if p1 + lit > input.len() {
            } else {
                let b1 = written(buffer, wpos as int, input.subrange(p1 as int, (p1 + lit) as int));
                let w1 = wpos + lit;
                let p2 = p1 + lit;
                if c.kind == CommandKind::Stop {
                } else if c.kind == CommandKind::Literal {
                    lemma_decode_controls_errors(input, p2, b1, w1);
                } else {
                    match decode_copy(b1, w1, c.offset as nat, c.length as nat) {
                        Err(e) => {},
                        Ok((b2, w2)) => lemma_decode_controls_errors(input, p2, b2, w2),
                    }
                }
            }
        },
    }
}

/// Law: decompression in any format gives the data or one of the errors of
/// [is_decompress_error], never another
pub proof fn lemma_decompress_errors<F: Format>(input: Seq<u8>)
    ensures
        spec_decompress::<F>(input) matches Err(e) ==> is_decompress_error(e),
{
    F::HeaderMode::lemma_read_errors(input);
    match F::HeaderMode::spec_read(input) {
        Err(e) => {},
        Ok((h, n)) => {
            lemma_decode_controls_errors(
                input,
                n,
                Seq::new(h.decompressed_length as nat, |i: int| 0u8),
                0,
            );
        },
    }
}

/// Index of `input` just past the stop command that carrying out its
/// control blocks from index `pos` reaches, when it succeeds
#[verifier::opaque]
pub open spec fn decode_end(input: Seq<u8>, pos: nat, buffer: Seq<u8>, wpos: nat) -> nat
    decreases input.len() - pos,
    when pos <= input.len()
{
    match parse_command(input.skip(pos as int)) {
        None => pos,
        Some((c, n)) => {
            let lit = c.literal as nat;
            let p1 = pos + n;
            if c.is_copy() && lit == 0 {
                match decode_copy(buffer, wpos, c.offset as nat, c.length as nat) {
                    Err(_) => p1,
                    Ok((b2, w2)) => decode_end(input, p1, b2, w2),
                }
            } else if wpos + lit > buffer.len() || p1 + lit > input.len() {
                p1
            } else {
                let b1 = written(buffer, wpos as int, input.subrange(p1 as int, (p1 + lit) as int));
                let w1 = wpos + lit;
                let p2 = p1 + lit;
                if c.kind == CommandKind::Stop {
                    p2
                } else if c.kind == CommandKind::Literal {
                    decode_end(input, p2, b1, w1)
                } else {
                    match decode_copy(b1, w1, c.offset as nat, c.length as nat) {
                        Err(_) => p2,
                        Ok((b2, w2)) => decode_end(input, p2, b2, w2),
                    }
                }
            }
        },
    }
}

/// Outcome of decompressing `input` in format `F`: the header is read, a
/// buffer of the decompressed length is filled with zeros, and the control
/// blocks that follow the header are carried out into it
pub open spec fn spec_decompress<F: Format>(input: Seq<u8>) -> RefPackResult<Seq<u8>> {
    match F::HeaderMode::spec_read(input) {
        Err(e) => Err(e),
        Ok((h, n)) => decode_controls(
            input,
            n,
            Seq::new(h.decompressed_length as nat, |i: int| 0u8),
            0,
        ),
    }
}

/// Number of bytes of `input` that a successful decompression in format
/// `F` reads: the header and the control blocks up to and including the
/// stop command
pub open spec fn spec_decompress_end<F: Format>(input: Seq<u8>) -> nat {
    match F::HeaderMode::spec_read(input) {
        Err(_) => 0,
        Ok((h, n)) => decode_end(input, n, Seq::new(h.decompressed_length as nat, |i: int| 0u8), 0),
    }
}

/// Ties an exec result to a spec outcome
pub open spec fn result_matches(r: RefPackResult<Vec<u8>>, outcome: RefPackResult<Seq<u8>>) -> bool {
    match r {
        Ok(v) => outcome == Ok::<Seq<u8>, Error>(v@),
        Err(e) => outcome == Err::<Seq<u8>, Error>(e),
    }
}

/// Performs the copy command of a control block into `buffer` at `position`
fn copy_command(buffer: &mut Vec<u8>, position: usize, command: Command) -> (r: RefPackResult<usize>)
    requires
        position <= old(buffer)@.len(),
    ensures
        match decode_copy(
            old(buffer)@,
            position as nat,
            command.offset as nat,
            command.length as nat,
        ) {
            Ok((b, w)) => r == Ok::<usize, Error>(w as usize) && final(buffer)@ == b,
            Err(e) => r == Err::<usize, Error>(e),
        },
{
    match rle_decode_fixed(buffer, position, command.offset as usize, command.length as usize) {
        Ok(p) => Ok(p),
        Err(error) => Err(Error::ControlError { error, position }),
    }
}

/// Decompresses the data in format `F` that the reader holds, up to and
/// including the stop command, and returns the decompressed bytes.
#[verifier::spinoff_prover]
#[verifier::rlimit(100)]
pub fn decompress_internal<F: Format>(reader: &mut SliceReader) -> (r: RefPackResult<Vec<u8>>)
    ensures
        final(reader).bytes() == old(reader).bytes(),
        result_matches(r, spec_decompress::<F>(old(reader).rest())),
        r is Ok ==> final(reader).pos() == old(reader).pos() + spec_decompress_end::<F>(
            old(reader).rest(),
        ),
        r matches Err(e) ==> is_decompress_error(e),
{
    proof {
        lemma_decompress_errors::<F>(old(reader).rest());
    }
    let ghost input = reader.rest();
    let ghost p0 = reader.pos();
    let header = match Header::read::<F::HeaderMode>(reader) {
        Ok(h) => h,
        Err(e) => return Err(e),
    };
    let ghost hn = F::HeaderMode::spec_read(input)->Ok_0.1;
    let mut decompression_buffer = vec![0u8; header.decompressed_length as usize];
    assert(decompression_buffer@ =~= Seq::new(header.decompressed_length as nat, |i: int| 0u8));
    let mut position: usize = 0;
    let ghost outcome = spec_decompress::<F>(input);
    let ghost end = spec_decompress_end::<F>(input);
    let _ = reader.position();

    loop
        invariant_except_break
            reader.bytes() == old(reader).bytes(),
            p0 == old(reader).pos(),
            input == old(reader).rest(),
            input == old(reader).bytes().skip(p0 as int),
            p0 <= reader.pos() <= reader.bytes().len(),
            reader.rest() == input.skip(reader.pos() - p0),
            position <= decompression_buffer@.len(),
            outcome == spec_decompress::<F>(input),
            outcome == decode_controls(
                input,
                (reader.pos() - p0) as nat,
                decompression_buffer@,
                position as nat,
            ),
            end == spec_decompress_end::<F>(input),
            end == decode_end(
                input,
                (reader.pos() - p0) as nat,
                decompression_buffer@,
                position as nat,
            ),
        ensures
            outcome == Ok::<Seq<u8>, Error>(decompression_buffer@),
            reader.pos() == p0 + end,
            outcome == spec_decompress::<F>(old(reader).rest()),
            reader.bytes() == old(reader).bytes(),
        decreases reader.bytes().len() - reader.pos(),
    {
        let ghost pos = (reader.pos() - p0) as nat;
        let ghost buf = decompression_buffer@;
        let ghost w = position as nat;
        assert(pos <= input.len());
        assert(reader.rest() == input.skip(pos as int));
        let command = match Command::read(reader) {
            Ok(c) => c,
            Err(e) => {
                assert(decode_controls(input, pos, buf, w) == Err::<Seq<u8>, Error>(e)) by {
                    reveal(decode_controls);
                }
                return Err(e);
            },
        };
        let ghost n = parse_command(input.skip(pos as int))->Some_0.1;
        let ghost p1 = pos + n;
        let _ = reader.position();
        assert(reader.rest() =~= input.skip(p1 as int));
        let literal = command.literal as usize;
        let ghost lit = literal as nat;
        if command.kind == CommandKind::Stop || command.kind == CommandKind::Literal
            || literal > 0 {
            if literal > decompression_buffer.len() - position {
                let e = Error::ControlError {
                    error: DecodeError::BadLength(literal - (decompression_buffer.len() - position)),
                    position,
                };
                assert(decode_controls(input, pos, buf, w) == Err::<Seq<u8>, Error>(e)) by {
                    reveal(decode_controls);
                }
                return Err(e);
            }
            position = match copy_from_reader(
                &mut decompression_buffer,
                reader,
                position,
                literal,
            ) {
                Ok(p) => p,
                Err(e) => {
                    assert(decode_controls(input, pos, buf, w) == Err::<Seq<u8>, Error>(e))
                        by {
                        reveal(decode_controls);
                    }
                    return Err(e);
                },
            };
            let _ = reader.position();
            assert(reader.rest() =~= input.skip((p1 + lit) as int));
            assert(input.skip(p1 as int).take(lit as int) =~= input.subrange(
                p1 as int,
                (p1 + lit) as int,
            ));
            let ghost b1 = decompression_buffer@;
            assert(b1 == written(buf, w as int, input.subrange(p1 as int, (p1 + lit) as int)));
            if command.kind == CommandKind::Stop {
                assert(decode_controls(input, pos, buf, w) == Ok::<Seq<u8>, Error>(b1)) by {
                    reveal(decode_controls);
                }
                assert(decode_end(input, pos, buf, w) == p1 + lit) by {
                    reveal(decode_end);
                }
                break;
            }
            if command.kind == CommandKind::Literal {
                assert(decode_controls(input, pos, buf, w) == decode_controls(
                    input,
                    p1 + lit,
                    b1,
                    w + lit,
                )) by {
                    reveal(decode_controls);
                }
                assert(decode_end(input, pos, buf, w) == decode_end(input, p1 + lit, b1, w + lit))
                    by {
                    reveal(decode_end);
                }
            } else {
                let ghost b1_ = decompression_buffer@;
                let ghost w1 = position as nat;
                position = match copy_command(&mut decompression_buffer, position, command) {
                    Ok(p) => p,
                    Err(e) => {
                        assert(decode_controls(input, pos, buf, w) == Err::<Seq<u8>, Error>(
                            e,
                        )) by {
                            reveal(decode_controls);
                        }
                        return Err(e);
                    },
                };
                assert(decode_controls(input, pos, buf, w) == decode_controls(
                    input,
                    p1 + lit,
                    decompression_buffer@,
                    position as nat,
                )) by {
                    reveal(decode_controls);
                }
                assert(decode_end(input, pos, buf, w) == decode_end(
                    input,
                    p1 + lit,
                    decompression_buffer@,
                    position as nat,
                )) by {
                    reveal(decode_end);
                }
            }
        } else {
            assert(command.is_copy() && lit == 0);
            let ghost outcome_copy = decode_copy(buf, w, command.offset as nat, command.length as nat);
            let buffer_len = decompression_buffer.len();
            position = match copy_command(&mut decompression_buffer, position, command) {
                Ok(p) => p,
                Err(e) => {
                    assert(decode_controls(input, pos, buf, w) == Err::<Seq<u8>, Error>(e))
                        by {
                        reveal(decode_controls);
                    }
                    return Err(e);
                },
            };
            proof {
                assert(outcome_copy is Ok);
                let w2 = outcome_copy->Ok_0.1;
                assert(w2 <= buf.len());
                assert(buf.len() == buffer_len);
                assert(position as nat == w2);
                assert(outcome_copy == Ok::<(Seq<u8>, nat), Error>((decompression_buffer@, position as nat)));
            }
            assert(decode_controls(input, pos, buf, w) == decode_controls(
                input,
                p1,
                decompression_buffer@,
                position as nat,
            )) by {
                reveal(decode_controls);
            }
            assert(decode_end(input, pos, buf, w) == decode_end(
                input,
                p1,
                decompression_buffer@,
                position as nat,
            )) by {
                reveal(decode_end);
            }
        }
    }
    Ok(decompression_buffer)
}

/// Decompresses data in format `F` from `reader`, up to and including the
/// stop command, and appends the decompressed bytes to `writer`
///
/// # Errors
/// - [Error::BadMagic]: the header's magic number was malformed, likely
///   meaning uncompressed data or data in another format
/// - [Error::BadFlags]: the header's flags were malformed
/// - [Error::ControlError]: a control asked for an invalid operation, which
///   normally means corrupted or invalid data
/// - [Error::Io]: the data ended before the stop command
pub fn decompress<F: Format>(reader: &mut SliceReader, writer: &mut Vec<u8>) -> (r: RefPackResult<
    (),
>)
    ensures
        match spec_decompress::<F>(old(reader).rest()) {
            Ok(data) => r is Ok && final(writer)@ == old(writer)@ + data,
            Err(e) => r == Err::<(), Error>(e),
        },
        final(reader).bytes() == old(reader).bytes(),
        r is Ok ==> final(reader).pos() == old(reader).pos() + spec_decompress_end::<F>(
            old(reader).rest(),
        ),
        r is Err ==> final(writer)@ == old(writer)@,
        r matches Err(e) ==> is_decompress_error(e),
{
    proof {
        lemma_decompress_errors::<F>(old(reader).rest());
    }
    let data = decompress_internal::<F>(reader)?;
    crate::header::mode::push_all(writer, data.as_slice());
    Ok(())
}

/// Decompresses data in format `F` from a slice of bytes, up to and including
/// the stop command, and returns the decompressed bytes
///
/// # Errors
/// The same as [decompress]
pub fn easy_decompress<F: Format>(input: &[u8]) -> (r: RefPackResult<Vec<u8>>)
    ensures
        result_matches(r, spec_decompress::<F>(input@)),
        r matches Err(e) ==> is_decompress_error(e),
{
    proof {
        lemma_decompress_errors::<F>(input@);
    }
    let mut reader = SliceReader::new(input);
    assert(reader.rest() =~= input@);
    decompress_internal::<F>(&mut reader)
}

} // verus!
