//! Reading control blocks one after another, up to and including the stop
//! command
use vstd::prelude::*;

use crate::data::control::{
    encode_controls, lemma_control_roundtrip, parse_control, Command, CommandKind, Control,
};
use crate::data::SliceReader;

verus! {

/// Reads control blocks one after another from a reader
pub struct Iter<'a, 'b> {
    reader: &'a mut SliceReader<'b>,
    reached_stop: bool,
}

impl<'a, 'b> Iter<'a, 'b> {
    /// The reader the blocks are read from
    pub closed spec fn reader(&self) -> SliceReader<'b> {
        *self.reader
    }

    /// Has the stop command been read
    pub closed spec fn done(&self) -> bool {
        self.reached_stop
    }

    /// Starts reading blocks from `reader`
    pub fn new(reader: &'a mut SliceReader<'b>) -> (it: Self)
        ensures
            it.reader() == *old(reader),
            !it.done(),
    {
        Iter { reader, reached_stop: false }
    }

    /// The next control block; `None` once the stop command was read or when
    /// the reader ends before the next block does
    pub fn next(&mut self) -> (r: Option<Control>)
        ensures
            final(self).reader().bytes() == old(self).reader().bytes(),
            old(self).done() ==> r is None && final(self).done(),
            !old(self).done() ==> match parse_control(old(self).reader().rest()) {
                Some((c, b, n)) => r is Some && r->Some_0.command == c && r->Some_0.bytes@ == b
                    && final(self).reader().pos() == old(self).reader().pos() + n && final(self).done() == (c.kind == CommandKind::Stop),
                None => r is None,
            },
    {
        if self.reached_stop {
            None
        } else {
            match Control::read(self.reader) {
                Ok(control) => {
                    if control.command.is_stop() {
                        self.reached_stop = true;
                    }
                    Some(control)
                },
                Err(_) => None,
            }
        }
    }
}

/// The blocks, as command and literal bytes, that reading `input` block
/// after block gives: up to and including the stop block, or up to the
/// first block that the input does not hold whole
pub open spec fn stream_blocks(input: Seq<u8>) -> Seq<(Command, Seq<u8>)>
    decreases input.len(),
{
    match parse_control(input) {
        None => Seq::empty(),
        Some((c, b, n)) => if c.kind == CommandKind::Stop || n == 0 || n > input.len() {
            seq![(c, b)]
        } else {
            seq![(c, b)] + stream_blocks(input.skip(n as int))
        },
    }
}

/// `cs` is a stream of control blocks: each valid, the last one and only the
/// last one a stop block
pub open spec fn is_stream(cs: Seq<Control>) -> bool {
    &&& cs.len() > 0
    &&& forall|i: int| 0 <= i < cs.len() ==> (#[trigger] cs[i]).valid()
    &&& cs.last().command.kind == CommandKind::Stop
    &&& forall|i: int| 0 <= i < cs.len() - 1 ==> (#[trigger] cs[i]).command.kind != CommandKind::Stop
}

/// Law: reading the encoding of a stream of control blocks block after
/// block, whatever follows it, gives exactly its blocks, the stop block last
pub proof fn lemma_stream_roundtrip(cs: Seq<Control>, rest: Seq<u8>)
    requires
        is_stream(cs),
    ensures
        stream_blocks(encode_controls(cs) + rest) == cs.map_values(
            |c: Control| (c.command, c.bytes@),
        ),
    decreases cs.len(),
{
    let c = cs[0];
    let tail = cs.drop_first();
    let input = encode_controls(cs) + rest;
    assert(input =~= c.encoded() + (encode_controls(tail) + rest));
    lemma_control_roundtrip(c, encode_controls(tail) + rest);
    let n = c.encoded().len();
    assert(n > 0) by {
        assert(c.command.encoded().len() > 0);
    }
    if cs.len() == 1 {
        assert(cs.map_values(|c: Control| (c.command, c.bytes@)) =~= seq![(c.command, c.bytes@)]);
    } else {
        assert(c.command.kind != CommandKind::Stop);
        assert(is_stream(tail)) by {
            assert forall|i: int| 0 <= i < tail.len() implies (#[trigger] tail[i]).valid() by {
                assert(tail[i] == cs[i + 1]);
            }
            assert forall|i: int| 0 <= i < tail.len() - 1 implies (#[trigger] tail[i]).command.kind
                != CommandKind::Stop by {
                assert(tail[i] == cs[i + 1]);
            }
        }
        lemma_stream_roundtrip(tail, rest);
        assert(input.skip(n as int) =~= encode_controls(tail) + rest);
        assert(cs.map_values(|c: Control| (c.command, c.bytes@)) =~= seq![(c.command, c.bytes@)]
            + tail.map_values(|c: Control| (c.command, c.bytes@)));
    }
}

} // verus!
