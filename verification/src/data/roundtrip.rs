//! Why compression and decompression are inverse: the encoding of control
//! blocks that reproduce some data decompresses to that data.
use vstd::prelude::*;

use crate::data::compression::{
    compressed_header, control_span, encodes, is_compression_of, produces, stop_matches,
};
use crate::data::control::{
    encode_controls, lemma_command_roundtrip, parse_command, CommandKind, Control,
};
use crate::data::decompression::{
    decode_controls, decode_end, spec_decompress, spec_decompress_end, written,
};
use crate::data::{lemma_copy_reproduces, rle_copied};
use crate::error::Error;
use crate::format::Format;
use crate::header::mode::Mode;

verus! {

/// Law: carrying out the encoding of literal and copy blocks that produce
/// `data` from position `a` on, then of a stop block with the rest of it,
/// leaves `data` in a buffer that holds `data` up to `a`, whatever the buffer
/// held from `a` on, and stops just past that encoding, whatever follows it
pub proof fn lemma_decode_produced(
    input: Seq<u8>,
    pos: nat,
    cs: Seq<Control>,
    last: Control,
    data: Seq<u8>,
    buffer: Seq<u8>,
    a: nat,
    b: nat,
)
    requires
        produces(cs, data, a, b),
        stop_matches(last, data, b),
        pos + encode_controls(cs.push(last)).len() <= input.len(),
        input.subrange(pos as int, pos + encode_controls(cs.push(last)).len() as int)
            == encode_controls(cs.push(last)),
        buffer.len() == data.len(),
        forall|i: int| 0 <= i < a ==> buffer[i] == data[i],
    ensures
        decode_controls(input, pos, buffer, a) == Ok::<Seq<u8>, Error>(data),
        decode_end(input, pos, buffer, a) == pos + encode_controls(cs.push(last)).len(),
    decreases cs.len(),
{
    let all = cs.push(last);
    let e = encode_controls(all);
    let c = all[0];
    let tail = all.drop_first();
    let cmd = c.command.encoded();
    let n = cmd.len();
    let lit = c.command.literal as nat;
    assert(e == c.encoded() + encode_controls(tail));
    assert(c.encoded() == cmd + c.bytes@);
    let after = input.skip((pos + n) as int);
    assert forall|i: int| 0 <= i < n implies input.skip(pos as int)[i] == cmd[i] by {
        assert(input.subrange(pos as int, (pos + e.len()) as int)[i] == e[i]);
    }
    assert(input.skip(pos as int) =~= cmd + after);
    lemma_command_roundtrip(c.command, after);
    assert(parse_command(input.skip(pos as int)) == Some((c.command, n)));
    assert forall|i: int| 0 <= i < lit implies input.subrange((pos + n) as int, (pos + n + lit) as int)[i]
        == c.bytes@[i] by {
        assert(input.subrange(pos as int, (pos + e.len()) as int)[n + i] == e[n + i]);
    }
    assert(input.subrange((pos + n) as int, (pos + n + lit) as int) =~= c.bytes@);
    let p1 = pos + n;
    let p2 = p1 + lit;
    let b1 = written(buffer, a as int, c.bytes@);
    if cs.len() == 0 {
        assert(c == last);
        assert(b1 =~= data);
        assert(tail.len() == 0);
        reveal(decode_controls);
        reveal(decode_end);
    } else {
        assert(c == cs[0]);
        assert(tail =~= cs.drop_first().push(last));
        let e2 = encode_controls(tail);
        assert forall|i: int| 0 <= i < e2.len() implies input.subrange(
            p2 as int,
            (p2 + e2.len()) as int,
        )[i] == e2[i] by {
            assert(input.subrange(pos as int, (pos + e.len()) as int)[n + lit + i] == e[n + lit + i]);
        }
        assert(input.subrange(p2 as int, (p2 + e2.len()) as int) =~= e2);
        let w1 = a + lit;
        assert forall|i: int| 0 <= i < w1 implies b1[i] == data[i] by {
            if i >= a {
                assert(c.bytes@[i - a] == data[i]);
            }
        }
        if c.command.kind == CommandKind::Literal {
            lemma_decode_produced(input, p2, cs.drop_first(), last, data, b1, w1, b);
            reveal(decode_controls);
            reveal(decode_end);
        } else {
            let off = c.command.offset as nat;
            let len = c.command.length as nat;
            lemma_copy_reproduces(data, b1, w1 as int, off as int, len as int);
            let b2 = rle_copied(b1, w1 as int, off as int, len as int);
            lemma_decode_produced(input, p2, cs.drop_first(), last, data, b2, w1 + len, b);
            if lit == 0 {
                assert(b1 =~= buffer);
                assert(p2 == p1);
            }
            reveal(decode_controls);
            reveal(decode_end);
        }
    }
}

/// Law: decompressing a compressed form `out` of `data` in format `F`,
/// followed by any bytes `rest`, gives `data` back and reads exactly `out`,
/// whenever the header of format `F` holds the length of `data`
pub proof fn lemma_compression_stream<F: Format>(out: Seq<u8>, data: Seq<u8>, rest: Seq<u8>)
    requires
        is_compression_of::<F>(out, data),
        data.len() <= u32::MAX,
        F::HeaderMode::spec_fits(data.len()),
    ensures
        spec_decompress::<F>(out + rest) == Ok::<Seq<u8>, Error>(data),
        spec_decompress_end::<F>(out + rest) == out.len(),
{
    let cs = choose|cs: Seq<Control>|
        #![trigger encodes(cs, data)]
        encodes(cs, data) && out == F::HeaderMode::spec_write(
            compressed_header(data.len(), encode_controls(cs).len()),
        ) + encode_controls(cs);
    let e = encode_controls(cs);
    let h = compressed_header(data.len(), e.len());
    let hw = F::HeaderMode::spec_write(h);
    let input = out + rest;
    assert(input =~= hw + (e + rest));
    F::HeaderMode::lemma_roundtrip(h, e + rest);
    let m = choose|m: nat| #[trigger]
        produces(cs.drop_last(), data, 0, m) && stop_matches(cs.last(), data, m);
    assert(cs.drop_last().push(cs.last()) =~= cs);
    let zeros = Seq::new(data.len(), |i: int| 0u8);
    assert(input.subrange(hw.len() as int, (hw.len() + e.len()) as int) =~= e);
    lemma_decode_produced(input, hw.len(), cs.drop_last(), cs.last(), data, zeros, 0, m);
    assert(Seq::new(h.decompressed_length as nat, |i: int| 0u8) =~= zeros);
}

/// Law: decompressing a compressed form of `data` in format `F` gives `data`
/// back, whenever the header of format `F` holds the length of `data`
pub proof fn lemma_compression_roundtrip<F: Format>(out: Seq<u8>, data: Seq<u8>)
    requires
        is_compression_of::<F>(out, data),
        data.len() <= u32::MAX,
        F::HeaderMode::spec_fits(data.len()),
    ensures
        spec_decompress::<F>(out) == Ok::<Seq<u8>, Error>(data),
{
    lemma_compression_stream::<F>(out, data, Seq::empty());
    assert(out + Seq::<u8>::empty() =~= out);
}

} // verus!
