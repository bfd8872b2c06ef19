//! Compression scheme is heavily based on lz77. Exact compression algorithm may
//! be subject to change.
//!
//! Basic concept is to track literal bytes as you encounter them, and have some
//! way of identifying when current bytes match previously encountered
//! sequences.
//!
//! Current tracked literal bytes *must* be written before a back-reference
//! copy command is written
//!
//! Literal blocks have a max length of 112, and if this limit is reached
//! the literal sequence must be split into two (or more) blocks to properly
//! encode the literals
//!
//! Due to the limited precision of literal blocks, special handling is required
//! for writing literal blocks before copy or stop controls. The literal block
//! needs to be "split" to make the literal take an even multiple of 4 bytes.
//!
//! This is done by getting the modulus of the number of bytes modulo 4
//! and then subtracting this remainder from the total length: 117 tracked
//! bytes give a literal block of 116 bytes and 1 byte carried by the next
//! command.
//!
//! Every encoder here returns control blocks that reproduce their input
//! exactly: see [encodes].
use vstd::prelude::*;

use crate::data::control::{
    encode_controls, lemma_encode_controls_push, Command, CommandKind, Control, COPY_LITERAL_MAX, LITERAL_MAX, LONG_LENGTH_MAX, LONG_LENGTH_MIN, LONG_OFFSET_MAX,
    MEDIUM_LENGTH_MAX, MEDIUM_LENGTH_MIN, MEDIUM_OFFSET_MAX, SHORT_LENGTH_MAX, SHORT_OFFSET_MAX,
};

pub mod fast;
pub mod fastest;
pub mod greedy;
mod optimal;
pub mod match_length;
pub mod prefix_search;

use crate::data::compression::prefix_search::hash_chain::HashChainPrefixSearcher;
use crate::data::compression::prefix_search::multi_level_hash_chain::MultiLevelPrefixSearcher;
use crate::data::decompression::spec_decompress;
use crate::data::roundtrip::lemma_compression_roundtrip;
use crate::data::SliceReader;
use crate::error::{Error, RefPackResult};
use crate::format::Format;
use crate::header::mode::Mode;
use crate::header::Header;

verus! {

/// Number of bytes of decompressed data that a control block produces
pub open spec fn control_span(c: Control) -> nat {
    c.command.literal as nat + c.command.copy_length()
}

/// The `length` bytes of `data` at `at` each equal the byte `offset` before
/// it, so that a copy of `length` bytes at `offset` reproduces them
pub open spec fn copy_matches(data: Seq<u8>, at: nat, offset: nat, length: nat) -> bool {
    &&& 1 <= offset <= at
    &&& at + length <= data.len()
    &&& forall|i: int| at <= i < at + length ==> #[trigger] data[i] == data[i - offset]
}

/// The literal or copy block `c`, met at position `k` of `data`, produces the
/// bytes of `data` that follow `k`
pub open spec fn step_matches(c: Control, data: Seq<u8>, k: nat) -> bool {
    let lit = c.command.literal as nat;
    &&& c.valid()
    &&& c.command.kind != CommandKind::Stop
    &&& k + control_span(c) <= data.len()
    &&& c.bytes@ == data.subrange(k as int, (k + lit) as int)
    &&& c.command.is_copy() ==> copy_matches(
        data,
        k + lit,
        c.command.offset as nat,
        c.command.length as nat,
    )
}

/// The stop block `c`, met at position `k` of `data`, carries the rest of it
pub open spec fn stop_matches(c: Control, data: Seq<u8>, k: nat) -> bool {
    &&& c.valid()
    &&& c.command.kind == CommandKind::Stop
    &&& k + c.command.literal == data.len()
    &&& c.bytes@ == data.skip(k as int)
}

/// The literal and copy blocks `cs`, met in turn from position `a` of `data`,
/// produce `data` up to position `b`
pub open spec fn produces(cs: Seq<Control>, data: Seq<u8>, a: nat, b: nat) -> bool
    decreases cs.len(),
{
    if cs.len() == 0 {
        a == b
    } else {
        step_matches(cs[0], data, a) && produces(cs.drop_first(), data, a + control_span(cs[0]), b)
    }
}

/// The control blocks `cs` are a complete encoding of `data`: literal and copy
/// blocks that produce it from its start, then a stop block with the rest
pub open spec fn encodes(cs: Seq<Control>, data: Seq<u8>) -> bool {
    &&& cs.len() > 0
    &&& exists|m: nat| #[trigger]
        produces(cs.drop_last(), data, 0, m) && stop_matches(cs.last(), data, m)
}

/// A block that produces the bytes at `b` extends blocks that end at `b`
pub proof fn lemma_produces_push(cs: Seq<Control>, c: Control, data: Seq<u8>, a: nat, b: nat)
    requires
        produces(cs, data, a, b),
        step_matches(c, data, b),
    ensures
        produces(cs.push(c), data, a, b + control_span(c)),
    decreases cs.len(),
{
    if cs.len() == 0 {
        assert(cs.push(c).drop_first() =~= Seq::<Control>::empty());
        assert(produces(cs.push(c).drop_first(), data, a + control_span(c), b + control_span(c)));
        assert(cs.push(c)[0] == c);
    } else {
        lemma_produces_push(cs.drop_first(), c, data, a + control_span(cs[0]), b);
        assert(cs.push(c).drop_first() =~= cs.drop_first().push(c));
        assert(cs.push(c)[0] == cs[0]);
    }
}

/// Blocks that produce `data` from its start up to `m`, followed by a stop
/// block with the rest, encode it
pub proof fn lemma_encodes_stop(cs: Seq<Control>, c: Control, data: Seq<u8>, m: nat)
    requires
        produces(cs, data, 0, m),
        stop_matches(c, data, m),
    ensures
        encodes(cs.push(c), data),
{
    assert(cs.push(c).drop_last() =~= cs);
    assert(produces(cs.push(c).drop_last(), data, 0, m));
}

/// A control block as a value: its command and its literal bytes
pub open spec fn control_view(c: Control) -> (Command, Seq<u8>) {
    (c.command, c.bytes@)
}

/// The control blocks `cs` as values
pub open spec fn control_views(cs: Seq<Control>) -> Seq<(Command, Seq<u8>)> {
    cs.map_values(|c: Control| control_view(c))
}

/// The bytes of the control blocks `vs`, given as values, one after another
pub open spec fn encode_views(vs: Seq<(Command, Seq<u8>)>) -> Seq<u8>
    decreases vs.len(),
{
    if vs.len() == 0 {
        Seq::empty()
    } else {
        vs[0].0.encoded() + vs[0].1 + encode_views(vs.drop_first())
    }
}

/// The bytes of control blocks only depend on their values
pub proof fn lemma_encode_views(cs: Seq<Control>)
    ensures
        encode_controls(cs) == encode_views(control_views(cs)),
    decreases cs.len(),
{
    if cs.len() > 0 {
        assert(control_views(cs).drop_first() =~= control_views(cs.drop_first()));
        lemma_encode_views(cs.drop_first());
    }
}

/// The literal command of `n` bytes
pub open spec fn literal_command(n: nat) -> Command {
    Command { offset: 0, length: 0, literal: n as u8, kind: CommandKind::Literal }
}

/// The stop command with `n` literal bytes
pub open spec fn stop_command(n: nat) -> Command {
    Command { offset: 0, length: 0, literal: n as u8, kind: CommandKind::Stop }
}

/// The copy command of `length` bytes at `offset` after `n` literal bytes, of
/// the smallest kind that holds it
pub open spec fn copy_command(offset: nat, length: nat, n: nat) -> Command {
    Command {
        offset: offset as u32,
        length: length as u16,
        literal: n as u8,
        kind: Command::copy_kind(offset as u32, length as u16),
    }
}

/// The largest multiple of 4 that is at most `len`
pub open spec fn split_point(len: nat) -> nat {
    (len - len % 4) as nat
}

/// The blocks that carry the pending literal bytes `lit` and then a copy of
/// `length` bytes at `offset`: the copy block alone when it can carry them
/// all, else a literal block with a multiple of 4 of them first
pub open spec fn copy_views(lit: Seq<u8>, offset: nat, length: nat) -> Seq<(Command, Seq<u8>)> {
    if lit.len() > COPY_LITERAL_MAX {
        let sp = split_point(lit.len());
        seq![
            (literal_command(sp), lit.take(sp as int)),
            (copy_command(offset, length, (lit.len() - sp) as nat), lit.skip(sp as int)),
        ]
    } else {
        seq![(copy_command(offset, length, lit.len()), lit)]
    }
}

/// The blocks that end a stream with the pending literal bytes `lit`: the
/// stop block alone when it can carry them all, else a literal block with a
/// multiple of 4 of them first
pub open spec fn final_views(lit: Seq<u8>) -> Seq<(Command, Seq<u8>)> {
    if lit.len() > COPY_LITERAL_MAX {
        let sp = split_point(lit.len());
        seq![
            (literal_command(sp), lit.take(sp as int)),
            (stop_command((lit.len() - sp) as nat), lit.skip(sp as int)),
        ]
    } else {
        seq![(stop_command(lit.len()), lit)]
    }
}

/// Every literal block of `vs` that another literal block follows carries
/// the most literal bytes a block can: a run of literal bytes is only cut
/// into blocks where a block is full
#[verifier::opaque]
pub open spec fn full_before_literal(vs: Seq<(Command, Seq<u8>)>) -> bool {
    forall|k: int, j: int|
        #![trigger vs[k], vs[j]]
        0 <= k && j == k + 1 && j < vs.len() && vs[k].0.kind == CommandKind::Literal
            && vs[j].0.kind == CommandKind::Literal ==> vs[k].1.len() == LITERAL_MAX
}

/// Blocks whose runs of literal blocks are cut where full, joined where the
/// first ends with a full literal block or either side has no literal block
/// at the seam, keep their runs cut where full
pub proof fn lemma_full_concat(a: Seq<(Command, Seq<u8>)>, b: Seq<(Command, Seq<u8>)>)
    requires
        full_before_literal(a),
        full_before_literal(b),
        a.len() > 0 && b.len() > 0 && a.last().0.kind == CommandKind::Literal && b[0].0.kind
            == CommandKind::Literal ==> a.last().1.len() == LITERAL_MAX,
    ensures
        full_before_literal(a + b),
{
    reveal(full_before_literal);
    let c = a + b;
    assert forall|k: int, j: int|
        #![trigger c[k], c[j]]
        0 <= k && j == k + 1 && j < c.len() && c[k].0.kind == CommandKind::Literal
            && c[j].0.kind == CommandKind::Literal implies c[k].1.len() == LITERAL_MAX by {
        if j < a.len() {
            assert(c[k] == a[k] && c[j] == a[j]);
        } else if k == a.len() - 1 {
            assert(c[k] == a.last() && c[j] == b[0]);
        } else {
            assert(c[k] == b[k - a.len()] && c[j] == b[j - a.len()]);
        }
    }
}

/// The blocks of a copy after pending literal bytes end with the copy and cut
/// no run of literal blocks
pub proof fn lemma_copy_views_full(lit: Seq<u8>, offset: nat, length: nat)
    ensures
        copy_views(lit, offset, length).len() > 0,
        copy_views(lit, offset, length).last().0.kind != CommandKind::Literal,
        full_before_literal(copy_views(lit, offset, length)),
{
    reveal(full_before_literal);
}

/// A single block cuts no run of literal blocks
pub proof fn lemma_single_full(v: (Command, Seq<u8>))
    ensures
        full_before_literal(seq![v]),
{
    reveal(full_before_literal);
}

/// The blocks that end a stream end with the stop block and cut no run of
/// literal blocks
pub proof fn lemma_final_views_full(lit: Seq<u8>)
    ensures
        full_before_literal(final_views(lit)),
{
    reveal(full_before_literal);
}

/// Cost and reach of the command that would encode a copy of `length` bytes
/// at `offset`: the number of bytes of the smallest command kind that can
/// hold it (`None` if no kind can), with the longest copy length that this
/// kind allows
pub open spec fn copy_cost(length: nat, offset: nat) -> (Option<usize>, usize) {
    if length >= LONG_LENGTH_MIN {
        if length > MEDIUM_LENGTH_MAX || offset > MEDIUM_OFFSET_MAX {
            (Some(4), LONG_LENGTH_MAX as usize)
        } else if length > SHORT_LENGTH_MAX || offset > SHORT_OFFSET_MAX {
            (Some(3), MEDIUM_LENGTH_MAX as usize)
        } else {
            (Some(2), SHORT_LENGTH_MAX as usize)
        }
    } else if offset <= SHORT_OFFSET_MAX {
        (Some(2), SHORT_LENGTH_MAX as usize)
    } else if offset <= MEDIUM_OFFSET_MAX {
        if length >= MEDIUM_LENGTH_MIN {
            (Some(3), MEDIUM_LENGTH_MAX as usize)
        } else {
            (None, (MEDIUM_LENGTH_MIN - 1) as usize)
        }
    } else {
        (None, (LONG_LENGTH_MIN - 1) as usize)
    }
}

/// Number of bytes needed to encode a copy of `length` bytes at `offset`, and
/// the longest copy the same command kind could make at that offset; `None`
/// if the offset is out of reach of every command
pub(crate) fn bytes_for_match(length: usize, offset: usize) -> (r: Option<(Option<usize>, usize)>)
    ensures
        offset > LONG_OFFSET_MAX ==> r is None,
        offset <= LONG_OFFSET_MAX ==> r == Some(copy_cost(length as nat, offset as nat)),
{
    if offset > LONG_OFFSET_MAX as usize {
        return None;
    }
    if length >= LONG_LENGTH_MIN as usize {
        if length > MEDIUM_LENGTH_MAX as usize || offset > MEDIUM_OFFSET_MAX as usize {
            Some((Some(4), LONG_LENGTH_MAX as usize))
        } else if length > SHORT_LENGTH_MAX as usize || offset > SHORT_OFFSET_MAX as usize {
            Some((Some(3), MEDIUM_LENGTH_MAX as usize))
        } else {
            Some((Some(2), SHORT_LENGTH_MAX as usize))
        }
    } else if offset <= SHORT_OFFSET_MAX as usize {
        Some((Some(2), SHORT_LENGTH_MAX as usize))
    } else if offset <= MEDIUM_OFFSET_MAX as usize {
        if length >= MEDIUM_LENGTH_MIN as usize {
            Some((Some(3), MEDIUM_LENGTH_MAX as usize))
        } else {
            Some((None, MEDIUM_LENGTH_MIN as usize - 1))
        }
    } else {
        Some((None, LONG_LENGTH_MIN as usize - 1))
    }
}

/// Law: when some command can hold a copy, [Command::new] accepts it and
/// makes a valid command of exactly the cost that [copy_cost] gives, and no
/// copy is longer than the reach
pub proof fn lemma_copy_cost_command(length: nat, offset: nat, literal: u8)
    requires
        1 <= offset <= LONG_OFFSET_MAX,
        3 <= length <= LONG_LENGTH_MAX,
        literal <= 3,
        copy_cost(length, offset).0 is Some,
    ensures
        Command::new_accepts(offset as u32, length as u16, literal),
        ({
            let c = Command {
                offset: offset as u32,
                length: length as u16,
                literal,
                kind: Command::copy_kind(offset as u32, length as u16),
            };
            c.valid() && c.is_copy() && c.encoded().len() == copy_cost(length, offset).0->Some_0
        }),
        length <= copy_cost(length, offset).1,
{
}

/// Law: a copy length can always grow up to the reach of its command kind,
/// and every length up to the reach can be encoded when the first one can
pub proof fn lemma_copy_cost_reach(i: nat, offset: nat, n: nat)
    requires
        3 <= i <= LONG_LENGTH_MAX,
        1 <= offset <= LONG_OFFSET_MAX,
    ensures
        i <= copy_cost(i, offset).1 <= LONG_LENGTH_MAX,
        copy_cost(i, offset).0 is Some && i <= n <= copy_cost(i, offset).1 ==> copy_cost(
            n,
            offset,
        ).0 is Some,
{
}

/// Dropping the remainder modulo 4 leaves a multiple of 4 that is at most 3
/// less
proof fn lemma_split_point(len: int)
    requires
        len >= 0,
    ensures
        (len - len % 4) % 4 == 0,
        len - 3 <= len - len % 4 <= len,
{
    vstd::arithmetic::div_mod::lemma_fundamental_div_mod(len, 4);
    vstd::arithmetic::div_mod::lemma_mod_bound(len, 4);
    vstd::arithmetic::div_mod::lemma_mod_multiples_basic(len / 4, 4);
}

/// The literal bytes pending at the end of the input, at most 114 of them,
/// followed by the end of the stream: a literal block with a multiple of 4 of
/// them if there are more than 3, then a stop block with the rest
pub(crate) fn push_final_literals(
    controls: &mut Vec<Control>,
    literal_block: &Vec<u8>,
    Ghost(data): Ghost<Seq<u8>>,
    Ghost(k): Ghost<nat>,
)
    requires
        produces(old(controls)@, data, 0, k),
        k + literal_block@.len() == data.len(),
        literal_block@ == data.skip(k as int),
        literal_block@.len() <= LITERAL_MAX + COPY_LITERAL_MAX,
    ensures
        encodes(final(controls)@, data),
        control_views(final(controls)@) == control_views(old(controls)@) + final_views(
            literal_block@,
        ),
{
    if literal_block.len() > 3 {
        let split_point: usize = literal_block.len() - (literal_block.len() % 4);
        proof {
            lemma_split_point(literal_block@.len() as int);
        }
        let first = Control::new_literal_block(&literal_block.as_slice()[0..split_point]);
        assert(first.bytes@ =~= data.subrange(k as int, k + split_point));
        assert(step_matches(first, data, k));
        proof {
            lemma_produces_push(controls@, first, data, 0, k);
        }
        controls.push(first);
        let last = Control::new_stop(&literal_block.as_slice()[split_point..literal_block.len()]);
        assert(last.bytes@ =~= data.skip(k + split_point));
        assert(stop_matches(last, data, k + split_point as nat));
        proof {
            lemma_encodes_stop(controls@, last, data, k + split_point as nat);
        }
        controls.push(last);
        assert(first.bytes@ =~= literal_block@.take(split_point as int));
        assert(last.bytes@ =~= literal_block@.skip(split_point as int));
    } else {
        let last = Control::new_stop(literal_block.as_slice());
        assert(stop_matches(last, data, k));
        proof {
            lemma_encodes_stop(controls@, last, data, k);
        }
        controls.push(last);
    }
    assert(control_views(controls@) =~= control_views(old(controls)@) + final_views(
        literal_block@,
    ));
}

/// The pending literal bytes, more than 3 of them and at most 111, followed
/// by a copy of `length` bytes at `distance`: a literal block with a multiple
/// of 4 of them, then the copy block with the rest; or the copy block alone
/// with all of them if there are at most 3
pub(crate) fn push_copy(
    controls: &mut Vec<Control>,
    literal_block: &Vec<u8>,
    distance: usize,
    length: usize,
    Ghost(data): Ghost<Seq<u8>>,
    Ghost(k): Ghost<nat>,
)
    requires
        produces(old(controls)@, data, 0, k),
        literal_block@ == data.subrange(k as int, (k + literal_block@.len()) as int),
        literal_block@.len() < LITERAL_MAX,
        1 <= distance <= LONG_OFFSET_MAX,
        3 <= length <= LONG_LENGTH_MAX,
        copy_cost(length as nat, distance as nat).0 is Some,
        distance <= k + literal_block@.len(),
        k + literal_block@.len() + length <= data.len(),
        forall|t: int|
            k + literal_block@.len() <= t < k + literal_block@.len() + length ==> #[trigger] data[t]
                == data[t - distance],
    ensures
        produces(final(controls)@, data, 0, (k + literal_block@.len() + length) as nat),
        control_views(final(controls)@) == control_views(old(controls)@) + copy_views(
            literal_block@,
            distance as nat,
            length as nat,
        ),
{
    let ghost i = k + literal_block@.len();
    if literal_block.len() > COPY_LITERAL_MAX as usize {
        let split_point: usize = literal_block.len() - (literal_block.len() % 4);
        proof {
            lemma_split_point(literal_block@.len() as int);
        }
        let first = Control::new_literal_block(&literal_block.as_slice()[0..split_point]);
        assert(first.bytes@ =~= data.subrange(k as int, k + split_point));
        assert(step_matches(first, data, k));
        proof {
            lemma_produces_push(controls@, first, data, 0, k);
        }
        controls.push(first);
        let second_block = &literal_block.as_slice()[split_point..literal_block.len()];
        let literal = second_block.len() as u8;
        proof {
            lemma_copy_cost_command(length as nat, distance as nat, literal);
        }
        let command = Command::new(distance as u32, length as u16, literal);
        let copy = Control::new(command, vstd::slice::slice_to_vec(second_block));
        assert(copy.bytes@ =~= data.subrange(k + split_point, i as int));
        assert(step_matches(copy, data, k + split_point as nat));
        proof {
            lemma_produces_push(controls@, copy, data, 0, k + split_point as nat);
        }
        controls.push(copy);
        assert(first.bytes@ =~= literal_block@.take(split_point as int));
        assert(copy.bytes@ =~= literal_block@.skip(split_point as int));
    } else {
        let literal = literal_block.len() as u8;
        proof {
            lemma_copy_cost_command(length as nat, distance as nat, literal);
        }
        let command = Command::new(distance as u32, length as u16, literal);
        let bytes = literal_block.clone();
        assert(bytes@ =~= literal_block@);
        let copy = Control::new(command, bytes);
        assert(step_matches(copy, data, k));
        proof {
            lemma_produces_push(controls@, copy, data, 0, k);
        }
        controls.push(copy);
    }
    assert(control_views(controls@) =~= control_views(old(controls)@) + copy_views(
        literal_block@,
        distance as nat,
        length as nat,
    ));
}

/// Every block of blocks that produce data is valid
pub proof fn lemma_produces_valid(cs: Seq<Control>, data: Seq<u8>, a: nat, b: nat)
    requires
        produces(cs, data, a, b),
    ensures
        forall|i: int| 0 <= i < cs.len() ==> (#[trigger] cs[i]).valid(),
    decreases cs.len(),
{
    if cs.len() > 0 {
        lemma_produces_valid(cs.drop_first(), data, a + control_span(cs[0]), b);
        assert forall|i: int| 0 <= i < cs.len() implies (#[trigger] cs[i]).valid() by {
            if i > 0 {
                assert(cs[i] == cs.drop_first()[i - 1]);
            }
        }
    }
}

/// Every block of an encoding is valid
pub proof fn lemma_encodes_valid(cs: Seq<Control>, data: Seq<u8>)
    requires
        encodes(cs, data),
    ensures
        forall|i: int| 0 <= i < cs.len() ==> (#[trigger] cs[i]).valid(),
{
    let m = choose|m: nat| #[trigger]
        produces(cs.drop_last(), data, 0, m) && stop_matches(cs.last(), data, m);
    lemma_produces_valid(cs.drop_last(), data, 0, m);
    assert forall|i: int| 0 <= i < cs.len() implies (#[trigger] cs[i]).valid() by {
        if i < cs.len() - 1 {
            assert(cs[i] == cs.drop_last()[i]);
        }
    }
}

/// Header of the compressed form of `length` bytes whose control blocks take
/// `compressed` bytes
pub open spec fn compressed_header(length: nat, compressed: nat) -> Header {
    Header { decompressed_length: length as u32, compressed_length: Some(compressed as u32) }
}

/// `out` is a compressed form of `data` in format `F`: the header of format
/// `F`, then the encoding of control blocks that encode `data`
pub open spec fn is_compression_of<F: Format>(out: Seq<u8>, data: Seq<u8>) -> bool {
    exists|cs: Seq<Control>|
        #![trigger encodes(cs, data)]
        encodes(cs, data) && out == F::HeaderMode::spec_write(
            compressed_header(data.len(), encode_controls(cs).len()),
        ) + encode_controls(cs)
}

/// The compressed form in format `F` of `data` whose control blocks are `vs`:
/// the header, then the bytes of the blocks
pub open spec fn compressed_with<F: Format>(vs: Seq<(Command, Seq<u8>)>, data: Seq<u8>) -> Seq<u8> {
    let body = encode_views(vs);
    F::HeaderMode::spec_write(compressed_header(data.len(), body.len())) + body
}

/// The control blocks, as values, that the encoder picked by `options` gives
/// for `data`, where it is stated here: for the fastest and the fast encoder
pub open spec fn encoder_views(options: CompressionOptions, data: Seq<u8>) -> Option<
    Seq<(Command, Seq<u8>)>,
> {
    match options {
        CompressionOptions::Fastest => Some(fastest::spec_fastest(data)),
        CompressionOptions::Fast => Some(fast::spec_fast(data)),
        _ => None,
    }
}

/// Which encoder compression uses
#[derive(Copy, Clone, Eq, PartialEq, Hash, Debug, Default, Structural)]
#[non_exhaustive]
pub enum CompressionOptions {
    /// A single candidate match per position
    Fastest,
    /// Several candidate matches per position, the one with the best ratio of
    /// copied bytes to command bytes kept
    #[default]
    Fast,
    /// The sequence of commands of fewest bytes overall
    Optimal,
    /// The same sequence as `Optimal`, found with a plain hash chain instead
    /// of a multi-level one: slower, and the reference that `Optimal` is held
    /// to
    OptimalReference,
}

/// `options` picks one of the optimal encoders, which count costs in `u32`
/// and so bound the length of their input
pub open spec fn is_optimal(options: CompressionOptions) -> bool {
    options == CompressionOptions::Optimal || options == CompressionOptions::OptimalReference
}

/// Control blocks that encode `input`, made by the encoder that `options`
/// picks
fn encode_with(input: &[u8], options: CompressionOptions) -> (controls: Vec<Control>)
    requires
        input@.len() <= u32::MAX,
        is_optimal(options) ==> input@.len() <= 0x7FFF_FFF0,
    ensures
        encodes(controls@, input@),
        encoder_views(options, input@) matches Some(vs) ==> control_views(controls@) == vs,
{
    match options {
        CompressionOptions::Fastest => fastest::encode(input),
        CompressionOptions::Fast => fast::encode(input),
        CompressionOptions::Optimal => optimal::encode_slice_hc::<MultiLevelPrefixSearcher>(input),
        CompressionOptions::OptimalReference => optimal::encode_slice_hc::<HashChainPrefixSearcher>(
            input,
        ),
    }
}

/// Writes the control blocks one after another
fn write_controls(controls: &Vec<Control>, writer: &mut Vec<u8>)
    requires
        forall|i: int| 0 <= i < controls@.len() ==> (#[trigger] controls@[i]).valid(),
    ensures
        final(writer)@ == old(writer)@ + encode_controls(controls@),
{
    let mut i: usize = 0;
    while i < controls.len()
        invariant
            i <= controls@.len(),
            forall|j: int| 0 <= j < controls@.len() ==> (#[trigger] controls@[j]).valid(),
            writer@ == old(writer)@ + encode_controls(controls@.take(i as int)),
        decreases controls@.len() - i,
    {
        assert(controls@[i as int].valid());
        controls[i].write(writer);
        proof {
            lemma_encode_controls_push(controls@.take(i as int), controls@[i as int]);
            assert(controls@.take(i + 1) =~= controls@.take(i as int).push(controls@[i as int]));
        }
        i += 1;
    }
    assert(controls@.take(i as int) =~= controls@);
}

/// Compresses a slice of bytes into the format `F` and returns the compressed
/// bytes: the header, then the control blocks.
///
/// # Errors
/// - [Error::EmptyInput]: `input` is empty
pub fn easy_compress<F: Format>(input: &[u8], compression_options: CompressionOptions) -> (r:
    RefPackResult<Vec<u8>>)
    requires
        input@.len() <= u32::MAX,
        is_optimal(compression_options) ==> input@.len() <= 0x7FFF_FFF0,
    ensures
        input@.len() == 0 ==> r == Err::<Vec<u8>, Error>(Error::EmptyInput),
        input@.len() > 0 ==> r is Ok && is_compression_of::<F>(r->Ok_0@, input@),
        input@.len() > 0 && F::HeaderMode::spec_fits(input@.len()) ==> spec_decompress::<F>(
            r->Ok_0@,
        ) == Ok::<Seq<u8>, Error>(input@),
        input@.len() > 0 ==> (encoder_views(compression_options, input@) matches Some(vs)
            ==> r->Ok_0@ == compressed_with::<F>(vs, input@)),
{
    let length = input.len();

    if input.len() == 0 {
        return Err(Error::EmptyInput);
    }

    let controls = encode_with(input, compression_options);
    proof {
        lemma_encodes_valid(controls@, input@);
        lemma_encode_views(controls@);
    }
    let mut body: Vec<u8> = Vec::new();
    write_controls(&controls, &mut body);
    assert(body@ =~= encode_controls(controls@));

    let header = Header {
        compressed_length: Some(body.len() as u32),
        decompressed_length: length as u32,
    };
    let mut out: Vec<u8> = Vec::new();
    header.write::<F::HeaderMode>(&mut out);
    let ghost head = out@;
    out.append(&mut body);
    assert(out@ =~= F::HeaderMode::spec_write(
        compressed_header(input@.len(), encode_controls(controls@).len()),
    ) + encode_controls(controls@));
    proof {
        if F::HeaderMode::spec_fits(input@.len()) {
            lemma_compression_roundtrip::<F>(out@, input@);
        }
    }
    Ok(out)
}

/// Compresses `length` bytes from the reader into the format `F`, and appends
/// the compressed bytes to `writer`.
///
/// # Errors
/// - [Error::EmptyInput]: `length` is 0
/// - [Error::Io]: the reader holds fewer than `length` bytes
pub fn compress<F: Format>(
    length: usize,
    reader: &mut SliceReader,
    writer: &mut Vec<u8>,
    compression_options: CompressionOptions,
) -> (r: RefPackResult<()>)
    requires
        length <= u32::MAX,
        is_optimal(compression_options) ==> length <= 0x7FFF_FFF0,
    ensures
        final(reader).bytes() == old(reader).bytes(),
        old(reader).rest().len() < length ==> r == Err::<(), Error>(
            Error::Io(crate::error::IoErrorKind::UnexpectedEof),
        ) && final(writer)@ == old(writer)@,
        old(reader).rest().len() >= length && length == 0 ==> r == Err::<(), Error>(
            Error::EmptyInput,
        ) && final(writer)@ == old(writer)@,
        old(reader).rest().len() >= length && length > 0 ==> r is Ok && final(reader).pos()
            == old(reader).pos() + length && exists|out: Seq<u8>|
            #![trigger is_compression_of::<F>(out, old(reader).rest().take(length as int))]
            is_compression_of::<F>(out, old(reader).rest().take(length as int))
                && final(writer)@ == old(writer)@ + out,
        old(reader).rest().len() >= length && length > 0 ==> (encoder_views(
            compression_options,
            old(reader).rest().take(length as int),
        ) matches Some(vs) ==> final(writer)@ == old(writer)@ + compressed_with::<F>(
            vs,
            old(reader).rest().take(length as int),
        )),
{
    let buf = reader.read_exact(length)?;
    assert(buf@ =~= old(reader).rest().take(length as int));
    let out = easy_compress::<F>(buf, compression_options)?;
    crate::header::mode::push_all(writer, out.as_slice());
    Ok(())
}

} // verus!
