//! The optimal encoder: the sequence of control blocks with the fewest bytes
//! overall, found by a shortest path search over the positions of the input.
use vstd::prelude::*;

use crate::data::compression::prefix_search::{found_match, PrefixSearcher};
use crate::data::compression::{
    bytes_for_match, copy_cost, encodes, lemma_copy_cost_command, lemma_copy_cost_reach,
    lemma_encodes_stop, produces, step_matches, stop_matches,
};
use crate::data::control::{
    Command, CommandKind, Control, COPY_LITERAL_MAX, LITERAL_MAX, LONG_LENGTH_MAX, LONG_OFFSET_MAX,
};

verus! {

/// Number of levels of the multi level hash chain used by the optimal encoder
pub const HASH_CHAINING_LEVELS: usize = 4;

/// The state packs a literal run when bit 31 is set
pub open spec fn is_lit(s: u32) -> bool {
    s >= 0x8000_0000
}

/// Number of literals of a literal state (bits 0 to 7)
pub open spec fn lit_count(s: u32) -> int {
    s - 0x8000_0000
}

/// Offset of a copy state (bits 13 to 30)
pub open spec fn copy_offset(s: u32) -> int {
    s as int / 8192
}

/// Number of literals carried by a copy state (bits 11 and 12)
pub open spec fn copy_literals(s: u32) -> int {
    (s as int % 8192) / 2048
}

/// Copy length of a copy state (bits 0 to 10)
pub open spec fn copy_length(s: u32) -> int {
    s as int % 2048
}

/// Number of pending literals of a state
pub open spec fn state_literals(s: u32) -> int {
    if is_lit(s) {
        lit_count(s)
    } else {
        0
    }
}

/// Packed copy state
pub open spec fn copy_state(offset: int, literal: int, length: int) -> int {
    offset * 8192 + literal * 2048 + length
}

/// The fields of a packed copy state read back as packed
proof fn lemma_copy_state(offset: int, literal: int, length: int)
    requires
        0 <= offset < 262_144,
        0 <= literal < 4,
        0 <= length < 2048,
    ensures
        0 <= copy_state(offset, literal, length) < 0x8000_0000,
        ({
            let s = copy_state(offset, literal, length) as u32;
            &&& !is_lit(s)
            &&& copy_offset(s) == offset
            &&& copy_literals(s) == literal
            &&& copy_length(s) == length
        }),
{
    let s = copy_state(offset, literal, length);
    vstd::arithmetic::div_mod::lemma_fundamental_div_mod_converse(
        s,
        8192,
        offset,
        literal * 2048 + length,
    );
    vstd::arithmetic::div_mod::lemma_fundamental_div_mod_converse(
        literal * 2048 + length,
        2048,
        literal,
        length,
    );
    vstd::arithmetic::div_mod::lemma_fundamental_div_mod_converse(s, 2048, offset * 4 + literal, length);
}

/// Last command to encode the input up to some position, packed into 32 bits
///
/// - bit 31 set: a run of literals, whose count is in bits 0 to 7
/// - bit 31 clear: a copy command, with its offset in bits 13 to 30, the
///   number of literals it carries in bits 11 and 12, and its copy length in
///   bits 0 to 10
#[derive(Copy, Clone)]
struct CommandState(u32);

impl CommandState {
    /// A run of `literal` literals
    fn literal(literal: u8) -> (s: Self)
        ensures
            s.0 == 0x8000_0000 + literal,
            is_lit(s.0),
            lit_count(s.0) == literal,
    {
        let l = literal as u32;
        proof {
            assert((1u32 << 31u32) | l == 0x8000_0000 + l) by (bit_vector)
                requires
                    l < 256,
            ;
        }
        Self((1 << 31) | literal as u32)
    }

    /// A copy command of `length` bytes at `offset` that carries `literal`
    /// literals
    fn command(offset: u32, literal: u8, length: u16) -> (s: Self)
        requires
            offset < 262_144,
            literal < 4,
            length < 2048,
        ensures
            s.0 == copy_state(offset as int, literal as int, length as int),
    {
        let l = literal as u32;
        let n = length as u32;
        proof {
            assert((offset << 13u32) | (l << 11u32) | n == offset * 8192 + l * 2048 + n)
                by (bit_vector)
                requires
                    offset < 262_144,
                    l < 4,
                    n < 2048,
            ;
        }
        Self((offset << 13) | ((literal as u32) << 11) | (length as u32))
    }

    /// Is the state a run of literals
    fn is_literal(self) -> (b: bool)
        ensures
            b == is_lit(self.0),
    {
        let s = self.0;
        proof {
            assert((s & (1u32 << 31u32)) != 0 <==> s >= 0x8000_0000) by (bit_vector);
        }
        (self.0 & (1 << 31)) != 0
    }

    /// Number of pending literals: those of a run of literals, none for a
    /// copy command
    fn num_literals(self) -> (n: u8)
        ensures
            is_lit(self.0) && lit_count(self.0) < 256 ==> n == lit_count(self.0),
            !is_lit(self.0) ==> n == 0,
    {
        if self.is_literal() {
            let s = self.0;
            proof {
                assert(s - 0x8000_0000 < 256 ==> s as u8 == s - 0x8000_0000) by (bit_vector)
                    requires
                        s >= 0x8000_0000,
                ;
            }
            self.0 as u8
        } else {
            0
        }
    }

    /// The command of the state
    fn to_command(self) -> (c: Command)
        requires
            is_lit(self.0) ==> 4 <= lit_count(self.0) <= LITERAL_MAX && lit_count(self.0) % 4 == 0,
            !is_lit(self.0) ==> Command::new_accepts(
                copy_offset(self.0) as u32,
                copy_length(self.0) as u16,
                copy_literals(self.0) as u8,
            ) && copy_offset(self.0) <= LONG_OFFSET_MAX,
        ensures
            is_lit(self.0) ==> c == (Command {
                offset: 0,
                length: 0,
                literal: lit_count(self.0) as u8,
                kind: CommandKind::Literal,
            }),
            !is_lit(self.0) ==> c == (Command {
                offset: copy_offset(self.0) as u32,
                length: copy_length(self.0) as u16,
                literal: copy_literals(self.0) as u8,
                kind: Command::copy_kind(copy_offset(self.0) as u32, copy_length(self.0) as u16),
            }),
    {
        let s = self.0;
        if self.is_literal() {
            proof {
                assert(s - 0x8000_0000 <= 112 ==> (s & 0xFF) == s - 0x8000_0000) by (bit_vector)
                    requires
                        s >= 0x8000_0000,
                ;
            }
            Command::new_literal((self.0 & 0xFF) as u8)
        } else {
            proof {
                assert(((s >> 13u32) & 0x3FFFF) == s / 8192 && (s & 0x7FF) == s % 2048 && ((s
                    >> 11u32) & 3) == (s % 8192) / 2048) by (bit_vector)
                    requires
                        s < 0x8000_0000,
                ;
            }
            Command::new(
                (self.0 >> 13) & 0x3FFFF,
                (self.0 & 0x7FF) as u16,
                ((self.0 >> 11) & 3) as u8,
            )
        }
    }
}

/// The state at position `p` is one that the search may have stored: a run
/// of 1 to 115 literals that continues the run at `p - 1` (a run of 115
/// starts again at 4), or a copy command whose copy ends at `p`, carries the
/// literals left over from the state where it starts, and reproduces `data`
pub open spec fn valid_state(data: Seq<u8>, states: Seq<u32>, p: int) -> bool {
    let s = states[p];
    if is_lit(s) {
        let k = lit_count(s);
        &&& 1 <= k <= LITERAL_MAX + COPY_LITERAL_MAX
        &&& k == 1 ==> p == 0 || !is_lit(states[p - 1])
        &&& k != 1 && k != 4 ==> p >= 1 && is_lit(states[p - 1]) && lit_count(states[p - 1]) == k
            - 1
        &&& k == 4 ==> p >= 1 && is_lit(states[p - 1]) && (lit_count(states[p - 1]) == 3
            || lit_count(states[p - 1]) == LITERAL_MAX + COPY_LITERAL_MAX)
    } else {
        let o = copy_offset(s);
        let l = copy_literals(s);
        let n = copy_length(s);
        let q = p - n;
        &&& 3 <= n <= LONG_LENGTH_MAX
        &&& 1 <= o <= LONG_OFFSET_MAX
        &&& 0 <= q
        &&& o <= q + 1
        &&& copy_cost(n as nat, o as nat).0 is Some
        &&& l == state_literals(states[q]) % 4
        &&& forall|t: int| q + 1 <= t <= p ==> #[trigger] data[t] == data[t - o]
    }
}

/// Every state of the input is valid
pub open spec fn all_valid(data: Seq<u8>, states: Seq<u32>) -> bool {
    &&& states.len() == data.len()
    &&& forall|p: int| 0 <= p < data.len() ==> #[trigger] valid_state(data, states, p)
}

/// The state at `p` only depends on states at `pos` or before
pub open spec fn refs_before(states: Seq<u32>, p: int, pos: int) -> bool {
    if is_lit(states[p]) {
        p - 1 <= pos
    } else {
        p - copy_length(states[p]) <= pos
    }
}

/// The search has settled every position up to `pos`: every state reached so
/// far is valid and costs at most 2 bytes per byte, the positions up to
/// `pos` are reached, and states past `pos` only depend on settled ones
pub open spec fn frontier_ok(data: Seq<u8>, costs: Seq<u32>, states: Seq<u32>, pos: int) -> bool {
    &&& costs.len() == data.len()
    &&& states.len() == data.len()
    &&& 0 <= pos < data.len()
    &&& forall|p: int|
        0 <= p < data.len() && costs[p] != u32::MAX ==> #[trigger] valid_state(data, states, p)
            && costs[p] <= 2 * p + 2
    &&& forall|p: int| 0 <= p <= pos ==> #[trigger] costs[p] != u32::MAX
    &&& forall|p: int|
        pos < p < data.len() && costs[p] != u32::MAX ==> #[trigger] refs_before(states, p, pos)
}

/// A state only depends on the states it refers to
proof fn lemma_valid_state_frame(data: Seq<u8>, s1: Seq<u32>, s2: Seq<u32>, p: int, pos: int)
    requires
        0 <= p < s1.len(),
        s1.len() == s2.len(),
        s1[p] == s2[p],
        forall|r: int| 0 <= r <= pos ==> s1[r] == s2[r],
        valid_state(data, s1, p),
        p <= pos + 1 || refs_before(s1, p, pos),
    ensures
        valid_state(data, s2, p),
{
    if !is_lit(s1[p]) {
        let q = p - copy_length(s1[p]);
        assert(s1[q] == s2[q]);
    } else if p >= 1 {
        assert(s1[p - 1] == s2[p - 1]);
    }
}

/// Walking back `j` steps in a run of literals that does not start again at
/// 4 on the way
proof fn lemma_run_back(data: Seq<u8>, states: Seq<u32>, p: int, j: int)
    requires
        all_valid(data, states),
        0 <= p < data.len(),
        is_lit(states[p]),
        0 <= j,
        (lit_count(states[p]) <= 3 && j < lit_count(states[p])) || (lit_count(states[p]) >= 4 && j
            <= lit_count(states[p]) - 4),
    ensures
        p - j >= 0,
        is_lit(states[p - j]),
        lit_count(states[p - j]) == lit_count(states[p]) - j,
    decreases j,
{
    if j > 0 {
        lemma_run_back(data, states, p, j - 1);
        assert(valid_state(data, states, p - (j - 1)));
    }
}

/// A state from which the backward walk may emit a control block: a copy
/// command or a run of a multiple of 4 literals
pub open spec fn clean(states: Seq<u32>, p: int) -> bool {
    &&& 0 <= p < states.len()
    &&& is_lit(states[p]) ==> lit_count(states[p]) % 4 == 0
}

/// Number of input bytes that the command of a state encodes
pub open spec fn state_total(s: u32) -> int {
    if is_lit(s) {
        lit_count(s)
    } else {
        copy_literals(s) + copy_length(s)
    }
}

/// Walking back past a run of literals that ends with 4 at `x`
proof fn lemma_four_back(data: Seq<u8>, states: Seq<u32>, x: int)
    requires
        all_valid(data, states),
        0 <= x < data.len(),
        is_lit(states[x]),
        lit_count(states[x]) == 4,
    ensures
        x >= 3,
        x == 3 || clean(states, x - 4),
{
    assert(valid_state(data, states, x));
    if lit_count(states[x - 1]) == 3 {
        lemma_run_back(data, states, x - 1, 2);
        assert(valid_state(data, states, x - 3));
    } else {
        lemma_run_back(data, states, x - 1, 3);
    }
}

/// Walking back past the bytes that the command of a clean state encodes
/// lands at the start of the input or on a clean state
proof fn lemma_walk_back(data: Seq<u8>, states: Seq<u32>, p: int)
    requires
        all_valid(data, states),
        clean(states, p),
    ensures
        1 <= state_total(states[p]) <= p + 1,
        state_total(states[p]) == p + 1 || clean(states, p - state_total(states[p])),
{
    let s = states[p];
    assert(valid_state(data, states, p));
    if is_lit(s) {
        let k = lit_count(s);
        lemma_run_back(data, states, p, k - 4);
        lemma_four_back(data, states, p - (k - 4));
    } else {
        let n = copy_length(s);
        let q = p - n;
        assert(valid_state(data, states, q));
        if is_lit(states[q]) {
            let k = lit_count(states[q]);
            if k >= 4 {
                lemma_run_back(data, states, q, k % 4);
            } else {
                lemma_run_back(data, states, q, k - 1);
                assert(valid_state(data, states, q - (k - 1)));
            }
        }
    }
}

/// The control block that the backward walk emits for the clean state at `p`
pub open spec fn state_control(data: Seq<u8>, s: u32, p: int, c: Control) -> bool {
    let start = p + 1 - state_total(s);
    let lit = if is_lit(s) {
        lit_count(s)
    } else {
        copy_literals(s)
    };
    &&& is_lit(s) ==> c.command == (Command {
        offset: 0,
        length: 0,
        literal: lit_count(s) as u8,
        kind: CommandKind::Literal,
    })
    &&& !is_lit(s) ==> c.command == (Command {
        offset: copy_offset(s) as u32,
        length: copy_length(s) as u16,
        literal: copy_literals(s) as u8,
        kind: Command::copy_kind(copy_offset(s) as u32, copy_length(s) as u16),
    })
    &&& c.bytes@ == data.subrange(start, start + lit)
}

/// The control block emitted for a clean state produces its bytes
proof fn lemma_state_step(data: Seq<u8>, states: Seq<u32>, p: int, c: Control)
    requires
        all_valid(data, states),
        clean(states, p),
        state_control(data, states[p], p, c),
    ensures
        step_matches(c, data, (p + 1 - state_total(states[p])) as nat),
        crate::data::compression::control_span(c) == state_total(states[p]),
{
    let s = states[p];
    lemma_walk_back(data, states, p);
    assert(valid_state(data, states, p));
    if !is_lit(s) {
        let q = p - copy_length(s);
        assert(valid_state(data, states, q));
        lemma_copy_cost_command(
            copy_length(s) as nat,
            copy_offset(s) as nat,
            copy_literals(s) as u8,
        );
        assert forall|t: int|
            q + 1 <= t < q + 1 + copy_length(s) implies #[trigger] data[t] == data[t
            - copy_offset(s)] by {}
    }
}

/// Builds the control blocks from the states: walking back from the end of
/// the input, each state gives the command that ends there
fn controls_from_state_slice(state: &[u32], input: &[u8]) -> (controls: Vec<Control>)
    requires
        state@.len() == input@.len(),
        input@.len() >= 4,
        all_valid(input@, state@),
    ensures
        encodes(controls@, input@),
{
    let ghost data = input@;
    let ghost states = state@;
    let len = state.len();
    let mut cur_pos = len - 1;
    // add the output controls in reverse order in this list
    let mut controls: Vec<Control> = Vec::new();

    // special handling of the last literals: the last command must be a stop command
    // so we can take the number of literals at the end of the input and put them into the stop command
    assert(valid_state(data, states, cur_pos as int));
    let num_stop_literals = CommandState(state[cur_pos]).num_literals() % 4;

    // the current position includes the last byte of this literal, so subtract one
    let stop_pos = cur_pos + 1 - num_stop_literals as usize;
    let stop = Control {
        command: Command::new_stop(num_stop_literals as usize),
        bytes: vstd::slice::slice_to_vec(
            &input[stop_pos..stop_pos + num_stop_literals as usize],
        ),
    };
    assert(stop.bytes@ =~= data.skip(stop_pos as int));
    assert(stop_matches(stop, data, stop_pos as nat));
    controls.push(stop);

    proof {
        let s = states[cur_pos as int];
        if is_lit(s) {
            let k = lit_count(s);
            if k >= 4 {
                lemma_run_back(data, states, cur_pos as int, k % 4);
            } else {
                lemma_run_back(data, states, cur_pos as int, k - 1);
                assert(valid_state(data, states, cur_pos - (k - 1)));
            }
        }
    }
    cur_pos -= num_stop_literals as usize;
    let ghost mut stream: Seq<Control> = Seq::empty();

    loop
        invariant_except_break
            data == input@,
            states == state@,
            all_valid(data, states),
            clean(states, cur_pos as int),
            produces(stream, data, (cur_pos + 1) as nat, stop_pos as nat),
            stop_matches(stop, data, stop_pos as nat),
            controls@.len() == stream.len() + 1,
            forall|j: int|
                0 <= j < controls@.len() ==> #[trigger] controls@[j] == (stream.push(stop))[
                    controls@.len() - 1 - j],
        ensures
            produces(stream, data, 0, stop_pos as nat),
            stop_matches(stop, data, stop_pos as nat),
            controls@.len() == stream.len() + 1,
            forall|j: int|
                0 <= j < controls@.len() ==> #[trigger] controls@[j] == (stream.push(stop))[
                    controls@.len() - 1 - j],
        decreases cur_pos,
    {
        proof {
            lemma_walk_back(data, states, cur_pos as int);
            assert(valid_state(data, states, cur_pos as int));
            let s = states[cur_pos as int];
            if !is_lit(s) {
                lemma_copy_cost_command(
                    copy_length(s) as nat,
                    copy_offset(s) as nat,
                    copy_literals(s) as u8,
                );
            }
        }
        // the bytes of the next command end at the current position
        let cur_command = CommandState(state[cur_pos]).to_command();

        let num_literal = match cur_command.num_of_literal() {
            Some(n) => n,
            None => 0,
        };
        let num_copy = match cur_command.offset_copy() {
            Some((_, n)) => n,
            None => 0,
        };

        // total number of bytes in the input that the current command encodes
        let command_decompressed_bytes = num_literal + num_copy;
        assert(command_decompressed_bytes == state_total(states[cur_pos as int]));

        // same as with the stop command
        let literal_pos = cur_pos + 1 - command_decompressed_bytes;
        let control = Control {
            command: cur_command,
            bytes: vstd::slice::slice_to_vec(&input[literal_pos..literal_pos + num_literal]),
        };
        proof {
            lemma_state_step(data, states, cur_pos as int, control);
            let old_stream = stream;
            stream = seq![control] + stream;
            assert(stream.drop_first() =~= old_stream);
            assert(stream.push(stop) =~= seq![control] + old_stream.push(stop));
        }
        controls.push(control);

        if command_decompressed_bytes > cur_pos {
            // the encoding ends at position -1, which unsigned integers cannot represent
            break;
        }
        cur_pos -= command_decompressed_bytes;
    }

    // we built the controls in reverse order, so reverse the vec
    let ghost full = stream.push(stop);
    let ghost total = controls@.len();
    let mut ordered: Vec<Control> = Vec::new();
    while controls.len() > 0
        invariant
            controls@.len() + ordered@.len() == total,
            full.len() == total,
            ordered@ == full.take(ordered@.len() as int),
            forall|j: int|
                0 <= j < controls@.len() ==> #[trigger] controls@[j] == full[total - 1 - j],
        decreases controls@.len(),
    {
        let c = controls.pop().unwrap();
        ordered.push(c);
        assert(ordered@ =~= full.take(ordered@.len() as int));
    }
    assert(ordered@ =~= full);
    proof {
        lemma_encodes_stop(stream, stop, data, stop_pos as nat);
    }
    ordered
}

/// Storing a valid state past `pos` keeps the search settled up to `pos`
proof fn lemma_frontier_update(
    data: Seq<u8>,
    costs: Seq<u32>,
    states: Seq<u32>,
    pos: int,
    x: int,
    new_cost: u32,
    new_state: u32,
)
    requires
        frontier_ok(data, costs, states, pos),
        pos < x < data.len(),
        new_cost != u32::MAX,
        new_cost <= 2 * x + 2,
        valid_state(data, states.update(x, new_state), x),
        refs_before(states.update(x, new_state), x, pos),
    ensures
        frontier_ok(data, costs.update(x, new_cost), states.update(x, new_state), pos),
{
    let c2 = costs.update(x, new_cost);
    let s2 = states.update(x, new_state);
    assert forall|p: int| 0 <= p < data.len() && c2[p] != u32::MAX implies #[trigger] valid_state(
        data,
        s2,
        p,
    ) && c2[p] <= 2 * p + 2 by {
        if p != x {
            assert(valid_state(data, states, p));
            if p > pos + 1 {
                assert(refs_before(states, p, pos));
            }
            lemma_valid_state_frame(data, states, s2, p, pos);
        }
    }
    assert forall|p: int| pos < p < data.len() && c2[p] != u32::MAX implies #[trigger] refs_before(
        s2,
        p,
        pos,
    ) by {
        if p != x {
            assert(refs_before(states, p, pos));
        }
    }
    assert forall|p: int| 0 <= p <= pos implies #[trigger] c2[p] != u32::MAX by {
        assert(costs[p] != u32::MAX);
    }
}

/// Once the next position is reached, the search is settled up to it
proof fn lemma_frontier_advance(data: Seq<u8>, costs: Seq<u32>, states: Seq<u32>, pos: int)
    requires
        frontier_ok(data, costs, states, pos),
        pos + 1 < data.len(),
        costs[pos + 1] != u32::MAX,
    ensures
        frontier_ok(data, costs, states, pos + 1),
{
    assert forall|p: int| 0 <= p <= pos + 1 implies #[trigger] costs[p] != u32::MAX by {
        if p <= pos {
            assert(costs[p] != u32::MAX);
        }
    }
    assert forall|p: int|
        pos + 1 < p < data.len() && costs[p] != u32::MAX implies #[trigger] refs_before(
        states,
        p,
        pos + 1,
    ) by {
        assert(refs_before(states, p, pos));
    }
}

/// The costs after lowering, from `start` up to `end`, every cost above
/// `new_cost` to it
pub open spec fn lowered_costs(costs: Seq<u32>, new_cost: u32, start: int, end: int) -> Seq<u32> {
    Seq::new(
        costs.len(),
        |x: int|
            if start <= x < end && costs[x] > new_cost {
                new_cost
            } else {
                costs[x]
            },
    )
}

/// The states after lowering, from `start` up to `end`, every cost above
/// `new_cost`: each such position takes the state `base + (x - start)`
pub open spec fn lowered_states(
    costs: Seq<u32>,
    states: Seq<u32>,
    new_cost: u32,
    start: int,
    end: int,
    base: int,
) -> Seq<u32> {
    Seq::new(
        states.len(),
        |x: int|
            if start <= x < end && costs[x] > new_cost {
                (base + (x - start)) as u32
            } else {
                states[x]
            },
    )
}

/// Sets, for every position from `start` up to `end` where it is cheaper, the
/// cost to `new_cost` and the state to `command_base` plus the distance from
/// `start`; every other position is left as it is
fn update_state_simd(
    cost_state: &mut Vec<u32>,
    command_state: &mut Vec<u32>,
    new_cost: u32,
    start: usize,
    end: usize,
    command_base: CommandState,
)
    requires
        start <= end,
        end <= old(cost_state)@.len(),
        end <= old(command_state)@.len(),
        command_base.0 + (end - start) <= u32::MAX + 1,
    ensures
        final(cost_state)@.len() == old(cost_state)@.len(),
        final(command_state)@.len() == old(command_state)@.len(),
        forall|x: int|
            start <= x < end ==> #[trigger] final(cost_state)@[x] == if old(cost_state)@[x]
                > new_cost {
                new_cost
            } else {
                old(cost_state)@[x]
            },
        forall|x: int|
            start <= x < end ==> #[trigger] final(command_state)@[x] == if old(cost_state)@[x]
                > new_cost {
                (command_base.0 + (x - start)) as u32
            } else {
                old(command_state)@[x]
            },
        forall|x: int|
            0 <= x < old(cost_state)@.len() && !(start <= x < end) ==> #[trigger] final(cost_state)@[x]
                == old(cost_state)@[x],
        forall|x: int|
            0 <= x < old(command_state)@.len() && !(start <= x < end)
                ==> #[trigger] final(command_state)@[x] == old(command_state)@[x],
{
    let ghost old_costs = cost_state@;
    let ghost old_states = command_state@;
    let mut x: usize = start;
    while x < end
        invariant
            start <= x <= end,
            end <= old_costs.len(),
            end <= old_states.len(),
            command_base.0 + (end - start) <= u32::MAX + 1,
            cost_state@.len() == old_costs.len(),
            command_state@.len() == old_states.len(),
            forall|y: int|
                start <= y < x ==> #[trigger] cost_state@[y] == if old_costs[y] > new_cost {
                    new_cost
                } else {
                    old_costs[y]
                },
            forall|y: int|
                start <= y < x ==> #[trigger] command_state@[y] == if old_costs[y] > new_cost {
                    (command_base.0 + (y - start)) as u32
                } else {
                    old_states[y]
                },
            forall|y: int|
                0 <= y < old_costs.len() && !(start <= y < x) ==> #[trigger] cost_state@[y]
                    == old_costs[y],
            forall|y: int|
                0 <= y < old_states.len() && !(start <= y < x) ==> #[trigger] command_state@[y]
                    == old_states[y],
        decreases end - x,
    {
        let ghost costs0 = cost_state@;
        let ghost states0 = command_state@;
        if cost_state[x] > new_cost {
            let new_command = command_base.0 + (x - start) as u32;
            cost_state.set(x, new_cost);
            command_state.set(x, new_command);
        }
        assert forall|y: int| start <= y < x + 1 implies #[trigger] cost_state@[y] == if old_costs[y]
            > new_cost {
            new_cost
        } else {
            old_costs[y]
        } by {
            if y < x {
                assert(cost_state@[y] == costs0[y]);
            }
        }
        assert forall|y: int| start <= y < x + 1 implies #[trigger] command_state@[y] == if old_costs[
            y] > new_cost {
            (command_base.0 + (y - start)) as u32
        } else {
            old_states[y]
        } by {
            if y < x {
                assert(command_state@[y] == states0[y]);
                assert(cost_state@[y] == costs0[y]);
            } else {
                assert(costs0[y] == old_costs[y]);
                assert(states0[y] == old_states[y]);
            }
        }
        assert forall|y: int| 0 <= y < old_costs.len() && !(start <= y < x + 1) implies #[trigger] cost_state@[y]
            == old_costs[y] by {
            assert(cost_state@[y] == costs0[y]);
        }
        assert forall|y: int| 0 <= y < old_states.len() && !(start <= y < x + 1) implies #[trigger] command_state@[y]
            == old_states[y] by {
            assert(command_state@[y] == states0[y]);
        }
        x += 1;
    }
}

/// Lowering the costs from `start` up to `end` to the cost of a copy at
/// `offset` after the state at `pos`, with the states of that copy, keeps the
/// frontier at `pos`
proof fn lemma_frontier_lowered(
    data: Seq<u8>,
    costs: Seq<u32>,
    states: Seq<u32>,
    pos: int,
    start: int,
    end: int,
    new_cost: u32,
    offset: int,
    literal: int,
)
    requires
        frontier_ok(data, costs, states, pos),
        pos + 3 <= start <= end <= data.len(),
        end - pos - 1 <= LONG_LENGTH_MAX,
        1 <= offset <= LONG_OFFSET_MAX,
        offset <= pos + 1,
        0 <= literal < 4,
        literal == state_literals(states[pos]) % 4,
        forall|n: int|
            start - pos <= n < end - pos ==> #[trigger] copy_cost(n as nat, offset as nat).0 is Some,
        forall|t: int| pos + 1 <= t < end ==> #[trigger] data[t] == data[t - offset],
        new_cost <= 2 * start + 2,
        new_cost != u32::MAX,
    ensures
        frontier_ok(
            data,
            lowered_costs(costs, new_cost, start, end),
            lowered_states(costs, states, new_cost, start, end, copy_state(offset, literal, start - pos)),
            pos,
        ),
    decreases end - start,
{
    let base = copy_state(offset, literal, start - pos);
    if end == start {
        assert(lowered_costs(costs, new_cost, start, end) =~= costs);
        assert(lowered_states(costs, states, new_cost, start, end, base) =~= states);
    } else {
        let x = end - 1;
        lemma_frontier_lowered(data, costs, states, pos, start, x, new_cost, offset, literal);
        let c1 = lowered_costs(costs, new_cost, start, x);
        let s1 = lowered_states(costs, states, new_cost, start, x, base);
        let c2 = lowered_costs(costs, new_cost, start, end);
        let s2 = lowered_states(costs, states, new_cost, start, end, base);
        if costs[x] > new_cost {
            lemma_copy_state(offset, literal, x - pos);
            let new_state = (base + (x - start)) as u32;
            assert(new_state == copy_state(offset, literal, x - pos));
            let s3 = s1.update(x, new_state);
            assert(s3[pos] == states[pos]);
            assert forall|t: int| pos + 1 <= t <= x implies #[trigger] data[t] == data[t
                - offset] by {}
            assert(copy_cost((x - pos) as nat, offset as nat).0 is Some);
            assert(valid_state(data, s3, x));
            lemma_frontier_update(data, c1, s1, pos, x, new_cost, new_state);
            assert(c1.update(x, new_cost) =~= c2);
            assert(s3 =~= s2);
        } else {
            assert(c1 =~= c2);
            assert(s1 =~= s2);
        }
    }
}

/// Every length from `i` up to the interval limit that [copy_cost] gives for
/// `i` has the same command cost as `i`
proof fn lemma_copy_cost_interval(i: nat, offset: nat, n: nat)
    requires
        3 <= i <= n <= copy_cost(i, offset).1,
        1 <= offset <= LONG_OFFSET_MAX,
    ensures
        copy_cost(n, offset).0 == copy_cost(i, offset).0,
{
}

/// The cost at which a copy of `n` bytes at `offset`, after a state of cost
/// `cur_cost`, reaches its end; `None` when no command can make that copy
spec fn copy_offer(cur_cost: int, n: int, offset: int) -> Option<int> {
    if offset > LONG_OFFSET_MAX {
        None
    } else {
        match copy_cost(n as nat, offset as nat).0 {
            Some(b) => Some(cur_cost + b),
            None => None,
        }
    }
}

/// Position `k`, reached by a copy of `n` bytes at `offset` after the state
/// at `pos`, holds the cheaper of what it held and what that copy offers
spec fn offer_applied(
    old_costs: Seq<u32>,
    old_states: Seq<u32>,
    costs: Seq<u32>,
    states: Seq<u32>,
    k: int,
    cur_cost: int,
    n: int,
    offset: int,
    literal: int,
) -> bool {
    match copy_offer(cur_cost, n, offset) {
        Some(c) => {
            &&& costs[k] == if old_costs[k] > c {
                c
            } else {
                old_costs[k] as int
            }
            &&& states[k] as int == if old_costs[k] > c {
                copy_state(offset, literal, n)
            } else {
                old_states[k] as int
            }
        },
        None => costs[k] == old_costs[k] && states[k] == old_states[k],
    }
}

/// The lengths from `ms` up to `upto` (and below `me`) of a match at
/// `offset` after the state at `pos` have been offered: each position they
/// reach holds the cheaper of what it held and the offer, and every other
/// position holds what it held
#[verifier::opaque]
spec fn match_applied(
    old_costs: Seq<u32>,
    old_states: Seq<u32>,
    costs: Seq<u32>,
    states: Seq<u32>,
    pos: int,
    ms: int,
    me: int,
    upto: int,
    cur_cost: int,
    offset: int,
    literal: int,
) -> bool {
    &&& costs.len() == old_costs.len()
    &&& states.len() == old_states.len()
    &&& forall|n: int|
        ms <= n < upto && n < me ==> #[trigger] offer_applied(
            old_costs,
            old_states,
            costs,
            states,
            pos + n,
            cur_cost,
            n,
            offset,
            literal,
        )
    &&& forall|k: int|
        0 <= k < old_costs.len() && !(pos + ms <= k < pos + upto && k < pos + me) ==> #[trigger] costs[k]
            == old_costs[k]
    &&& forall|k: int|
        0 <= k < old_costs.len() && !(pos + ms <= k < pos + upto && k < pos + me) ==> #[trigger] states[k]
            == old_states[k]
}

/// Offering the lengths of an interval of equal cost `b` extends what has
/// been offered
#[verifier::spinoff_prover]
proof fn lemma_offer_interval(
    old_costs: Seq<u32>,
    old_states: Seq<u32>,
    c0: Seq<u32>,
    s0: Seq<u32>,
    c1: Seq<u32>,
    s1: Seq<u32>,
    pos: int,
    ms: int,
    me: int,
    i0: int,
    limit: int,
    e: int,
    cur_cost: int,
    b: int,
    nc: u32,
    offset: int,
    literal: int,
)
    requires
        match_applied(old_costs, old_states, c0, s0, pos, ms, me, i0, cur_cost, offset, literal),
        old_states.len() == old_costs.len(),
        0 <= b <= 4,
        nc == cur_cost + b,
        0 <= pos,
        3 <= ms <= i0 <= limit,
        e == if limit + 1 < me { limit + 1 } else { me },
        pos + me <= old_costs.len(),
        1 <= offset <= LONG_OFFSET_MAX,
        3 <= i0,
        forall|n: int| i0 <= n <= limit ==> #[trigger] copy_cost(n as nat, offset as nat).0 == Some(b as usize),
        c1.len() == c0.len(),
        s1.len() == s0.len(),
        forall|x: int|
            pos + i0 <= x < pos + e ==> {
                &&& #[trigger] c1[x] == if c0[x] > nc {
                    nc
                } else {
                    c0[x]
                }
                &&& s1[x] as int == if c0[x] > nc {
                    copy_state(offset, literal, x - pos)
                } else {
                    s0[x] as int
                }
            },
        forall|x: int|
            0 <= x < c0.len() && !(pos + i0 <= x < pos + e) ==> #[trigger] c1[x] == c0[x],
        forall|x: int| 0 <= x < c0.len() && !(pos + i0 <= x < pos + e) ==> #[trigger] s1[x] == s0[x],
    ensures
        match_applied(old_costs, old_states, c1, s1, pos, ms, me, limit + 1, cur_cost, offset, literal),
{
    reveal(match_applied);
    assert(forall|k: int|
        0 <= k < old_costs.len() && !(pos + ms <= k < pos + i0 && k < pos + me) ==> c0[k]
            == old_costs[k]);
    assert(forall|k: int|
        0 <= k < old_costs.len() && !(pos + ms <= k < pos + i0 && k < pos + me) ==> s0[k]
            == old_states[k]);
    assert forall|n: int| ms <= n < limit + 1 && n < me implies #[trigger] offer_applied(
        old_costs,
        old_states,
        c1,
        s1,
        pos + n,
        cur_cost,
        n,
        offset,
        literal,
    ) by {
        let k = pos + n;
        assert(0 <= k < c0.len());
        if n < i0 {
            assert(offer_applied(old_costs, old_states, c0, s0, k, cur_cost, n, offset, literal));
            assert(!(pos + i0 <= k < pos + e));
            assert(c1[k] == c0[k]);
            assert(s1[k] == s0[k]);
        } else {
            assert(c0[k] == old_costs[k]);
            assert(s0[k] == old_states[k]);
            assert(copy_cost(n as nat, offset as nat).0 == Some(b as usize));
            assert(c1[k] == if c0[k] > nc {
                nc
            } else {
                c0[k]
            });
        }
    }
    assert forall|k: int|
        0 <= k < old_costs.len() && !(pos + ms <= k < pos + limit + 1 && k < pos + me) implies #[trigger] c1[k]
        == old_costs[k] by {
        assert(c1[k] == c0[k]);
        assert(c0[k] == old_costs[k]);
    }
    assert forall|k: int|
        0 <= k < old_costs.len() && !(pos + ms <= k < pos + limit + 1 && k < pos + me) implies #[trigger] s1[k]
        == old_states[k] by {
        assert(s1[k] == s0[k]);
        assert(s0[k] == old_states[k]);
    }
}

/// Lengths that no command can copy at `offset` are offered without a change
#[verifier::spinoff_prover]
proof fn lemma_offer_none(
    old_costs: Seq<u32>,
    old_states: Seq<u32>,
    c0: Seq<u32>,
    s0: Seq<u32>,
    pos: int,
    ms: int,
    me: int,
    i0: int,
    limit: int,
    cur_cost: int,
    offset: int,
    literal: int,
)
    requires
        match_applied(old_costs, old_states, c0, s0, pos, ms, me, i0, cur_cost, offset, literal),
        old_states.len() == old_costs.len(),
        0 <= pos,
        3 <= ms <= i0 <= limit,
        pos + me <= old_costs.len(),
        offset <= LONG_OFFSET_MAX,
        forall|n: int| i0 <= n <= limit ==> #[trigger] copy_cost(n as nat, offset as nat).0 is None,
    ensures
        match_applied(old_costs, old_states, c0, s0, pos, ms, me, limit + 1, cur_cost, offset, literal),
{
    reveal(match_applied);
    assert(forall|k: int|
        0 <= k < old_costs.len() && !(pos + ms <= k < pos + i0 && k < pos + me) ==> c0[k]
            == old_costs[k]);
    assert(forall|k: int|
        0 <= k < old_costs.len() && !(pos + ms <= k < pos + i0 && k < pos + me) ==> s0[k]
            == old_states[k]);
    assert forall|n: int| ms <= n < limit + 1 && n < me implies #[trigger] offer_applied(
        old_costs,
        old_states,
        c0,
        s0,
        pos + n,
        cur_cost,
        n,
        offset,
        literal,
    ) by {
        if n >= i0 {
            assert(copy_cost(n as nat, offset as nat).0 is None);
            assert(0 <= pos + n < old_costs.len());
            assert(!(pos + ms <= pos + n < pos + i0 && pos + n < pos + me));
            assert(c0[pos + n] == old_costs[pos + n]);
            assert(s0[pos + n] == old_states[pos + n]);
        }
    }
}

/// Once every length of the match has been offered, or none can be, the
/// offer is complete
#[verifier::spinoff_prover]
proof fn lemma_offer_done(
    old_costs: Seq<u32>,
    old_states: Seq<u32>,
    c: Seq<u32>,
    s: Seq<u32>,
    pos: int,
    ms: int,
    me: int,
    upto: int,
    cur_cost: int,
    offset: int,
    literal: int,
)
    requires
        match_applied(old_costs, old_states, c, s, pos, ms, me, upto, cur_cost, offset, literal),
        old_states.len() == old_costs.len(),
        0 <= pos,
        0 <= ms,
        pos + me <= old_costs.len(),
        upto >= me || (offset > LONG_OFFSET_MAX && upto == ms),
    ensures
        c.len() == old_costs.len(),
        s.len() == old_states.len(),
        forall|n: int|
            ms <= n < me ==> #[trigger] offer_applied(
                old_costs,
                old_states,
                c,
                s,
                pos + n,
                cur_cost,
                n,
                offset,
                literal,
            ),
        forall|k: int|
            0 <= k < old_costs.len() && !(pos + ms <= k < pos + me) ==> #[trigger] c[k]
                == old_costs[k] && s[k] == old_states[k],
{
    reveal(match_applied);
    assert(forall|k: int|
        0 <= k < old_costs.len() && !(pos + ms <= k < pos + upto && k < pos + me) ==> c[k]
            == old_costs[k] && s[k] == old_states[k]);
    assert(upto < me ==> upto == ms);

    assert forall|n: int| ms <= n < me implies #[trigger] offer_applied(
        old_costs,
        old_states,
        c,
        s,
        pos + n,
        cur_cost,
        n,
        offset,
        literal,
    ) by {
        if upto < me {
            assert(c[pos + n] == old_costs[pos + n]);
            assert(s[pos + n] == old_states[pos + n]);
        }
    }
    assert forall|k: int|
        0 <= k < old_costs.len() && !(pos + ms <= k < pos + me) implies #[trigger] c[k]
        == old_costs[k] && s[k] == old_states[k] by {
        assert(!(pos + ms <= k < pos + upto && k < pos + me));
    }
}

/// Offers, for the positions that the match found at `pos + 1` reaches, the
/// copies of every length it allows, from the state at `pos`
fn process_match(
    cost_state: &mut Vec<u32>,
    command_state: &mut Vec<u32>,
    pos: usize,
    cur_cost: u32,
    cur_literals: u8,
    found: (usize, usize, usize),
    Ghost(data): Ghost<Seq<u8>>,
)
    requires
        frontier_ok(data, old(cost_state)@, old(command_state)@, pos as int),
        data.len() <= 0x7FFF_FFF0,
        pos + 4 <= data.len(),
        found_match(data, (pos + 1) as nat, found),
        cur_cost == old(cost_state)@[pos as int],
        cur_literals == state_literals(old(command_state)@[pos as int]),
    ensures
        frontier_ok(data, final(cost_state)@, final(command_state)@, pos as int),
        forall|r: int|
            0 <= r <= pos ==> final(command_state)@[r] == old(command_state)@[r] && final(cost_state)@[r] == old(cost_state)@[r],
        final(cost_state)@.len() == old(cost_state)@.len(),
        final(command_state)@.len() == old(command_state)@.len(),
        forall|n: int|
            found.1 <= n < found.2 ==> #[trigger] offer_applied(
                old(cost_state)@,
                old(command_state)@,
                final(cost_state)@,
                final(command_state)@,
                pos + n,
                cur_cost as int,
                n,
                pos + 1 - found.0,
                (cur_literals % 4) as int,
            ),
        forall|k: int|
            0 <= k < old(cost_state)@.len() && !(pos + found.1 <= k < pos + found.2) ==> #[trigger] final(cost_state)@[k]
                == old(cost_state)@[k] && final(command_state)@[k] == old(command_state)@[k],
{
    let ghost old_costs = cost_state@;
    let ghost old_states = command_state@;
    let (match_pos, match_start, match_end) = found;
    let match_start_pos = pos + 1;
    let offset = match_start_pos - match_pos;
    let ghost literal = (cur_literals % 4) as int;
    assert(valid_state(data, command_state@, pos as int));
    assert(pos + match_end <= data.len());
    proof {
        reveal(match_applied);
    }
    assert(match_applied(
        old_costs,
        old_states,
        cost_state@,
        command_state@,
        pos as int,
        match_start as int,
        match_end as int,
        match_start as int,
        cur_cost as int,
        offset as int,
        literal,
    ));
    // loop through all ranges in the match that have an equal cost
    let mut i = match_start;
    while i < match_end
        invariant
            frontier_ok(data, cost_state@, command_state@, pos as int),
            data.len() <= 0x7FFF_FFF0,
            pos + 4 <= data.len(),
            found_match(data, (pos + 1) as nat, found),
            found == (match_pos, match_start, match_end),
            offset == pos + 1 - match_pos,
            match_start <= i <= LONG_LENGTH_MAX + 1,
            cur_cost == cost_state@[pos as int],
            cur_literals == state_literals(command_state@[pos as int]),
            literal == (cur_literals % 4) as int,
            forall|r: int|
                0 <= r <= pos ==> command_state@[r] == old(command_state)@[r] && cost_state@[r]
                    == old(cost_state)@[r],
            old_costs == old(cost_state)@,
            old_states == old(command_state)@,
            old_costs.len() == data.len(),
            old_states.len() == data.len(),
            3 <= match_start,
            pos + match_end <= data.len(),
            offset > LONG_OFFSET_MAX ==> i == match_start,
            match_applied(
                old_costs,
                old_states,
                cost_state@,
                command_state@,
                pos as int,
                match_start as int,
                match_end as int,
                i as int,
                cur_cost as int,
                offset as int,
                literal,
            ),
        ensures
            i >= match_end || offset > LONG_OFFSET_MAX,
            frontier_ok(data, cost_state@, command_state@, pos as int),
            forall|r: int|
                0 <= r <= pos ==> command_state@[r] == old(command_state)@[r] && cost_state@[r]
                    == old(cost_state)@[r],
            offset > LONG_OFFSET_MAX ==> i == match_start,
            match_applied(
                old_costs,
                old_states,
                cost_state@,
                command_state@,
                pos as int,
                match_start as int,
                match_end as int,
                i as int,
                cur_cost as int,
                offset as int,
                literal,
            ),
        decreases LONG_LENGTH_MAX + 1 - i,
    {
        let ghost c0 = cost_state@;
        let ghost s0 = command_state@;
        proof {
            assert(cost_state@[pos as int] != u32::MAX);
            assert(valid_state(data, command_state@, pos as int));
        }
        match bytes_for_match(i, offset) {
            Some((command_bytes, interval_limit)) => {
                assert(3 <= i <= LONG_LENGTH_MAX && 1 <= offset <= LONG_OFFSET_MAX);
                proof {
                    lemma_copy_cost_reach(i as nat, offset as nat, i as nat);
                }
                assert((command_bytes, interval_limit) == copy_cost(i as nat, offset as nat));
                assert(i <= interval_limit);
                assert forall|n: int| i <= n <= interval_limit implies #[trigger] copy_cost(
                    n as nat,
                    offset as nat,
                ).0 == command_bytes by {
                    lemma_copy_cost_interval(i as nat, offset as nat, n as nat);
                }
                // get the cost to encode the current command (command_bytes)
                if let Some(command_bytes) = command_bytes {
                    let match_length_start = i;
                    let match_length_end = if interval_limit + 1 < match_end {
                        interval_limit + 1
                    } else {
                        match_end
                    };
                    // the cost for all encoded commands in this range
                    let new_cost = cur_cost + command_bytes as u32;
                    let literal_bytes = cur_literals % 4;
                    proof {
                        assert forall|n: int|
                            match_length_start <= n < match_length_end implies #[trigger] copy_cost(
                            n as nat,
                            offset as nat,
                        ).0 is Some by {
                            lemma_copy_cost_reach(i as nat, offset as nat, n as nat);
                        }
                        assert forall|t: int|
                            pos + 1 <= t < pos + match_length_end implies #[trigger] data[t]
                            == data[t - offset] by {
                            assert(data[pos + 1 + (t - pos - 1)] == data[match_pos + (t - pos
                                - 1)]);
                        }
                    }
                    let command_base = CommandState::command(
                        offset as u32,
                        literal_bytes,
                        match_length_start as u16,
                    );
                    // now update the cost and command state in this range with the new cost
                    update_state_simd(
                        cost_state,
                        command_state,
                        new_cost,
                        pos + match_length_start,
                        pos + match_length_end,
                        command_base,
                    );
                    proof {
                        assert(cost_state@ =~= lowered_costs(
                            c0,
                            new_cost,
                            pos + match_length_start,
                            pos + match_length_end,
                        ));
                        assert(command_state@ =~= lowered_states(
                            c0,
                            s0,
                            new_cost,
                            pos + match_length_start,
                            pos + match_length_end,
                            command_base.0 as int,
                        ));
                        lemma_frontier_lowered(
                            data,
                            c0,
                            s0,
                            pos as int,
                            pos + match_length_start,
                            pos + match_length_end,
                            new_cost,
                            offset as int,
                            literal_bytes as int,
                        );
                    }
                    assert forall|x: int|
                        0 <= x < c0.len() && !(pos + match_length_start <= x < pos + match_length_end)
                        implies #[trigger] command_state@[x] == s0[x] by {
                        assert(cost_state@[x] == c0[x]);
                    }
                    proof {
                        lemma_offer_interval(
                            old_costs,
                            old_states,
                            c0,
                            s0,
                            cost_state@,
                            command_state@,
                            pos as int,
                            match_start as int,
                            match_end as int,
                            i as int,
                            interval_limit as int,
                            match_length_end as int,
                            cur_cost as int,
                            command_bytes as int,
                            new_cost,
                            offset as int,
                            literal,
                        );
                    }
                } else {
                    proof {
                        lemma_offer_none(
                            old_costs,
                            old_states,
                            c0,
                            s0,
                            pos as int,
                            match_start as int,
                            match_end as int,
                            i as int,
                            interval_limit as int,
                            cur_cost as int,
                            offset as int,
                            literal,
                        );
                    }
                }
                i = interval_limit + 1;
            },
            None => break,
        }
    }
    proof {
        lemma_offer_done(
            old_costs,
            old_states,
            cost_state@,
            command_state@,
            pos as int,
            match_start as int,
            match_end as int,
            i as int,
            cur_cost as int,
            offset as int,
            literal,
        );
    }
}

/// Search for the set of controls that encodes the input slice in the lowest
/// number of output bytes.
///
/// This is a shortest path search over the positions of the input: positions
/// are settled in order, since every command moves forward. For each settled
/// position, a literal takes the next position one byte further at a cost of
/// one byte (plus the literal command byte when a new literal command is
/// needed), and every copy that the prefix searcher finds takes later
/// positions further at the cost of the copy command. Once every position is
/// settled, walking back from the end of the input through the stored
/// commands gives the controls.
pub(crate) fn encode_slice_hc<'a, PS: PrefixSearcher<'a>>(input: &'a [u8]) -> (controls: Vec<
    Control,
>)
    requires
        input@.len() <= 0x7FFF_FFF0,
    ensures
        encodes(controls@, input@),
{
    let ghost data = input@;
    let input_length = input.len();

    // if the input is 3 bytes or fewer it is impossible to encode any copy commands
    // just return the stop commands with the input as literal bytes
    if input_length <= 3 {
        let stop = Control {
            command: Command::new_stop(input_length),
            bytes: vstd::slice::slice_to_vec(input),
        };
        assert(stop.bytes@ =~= data.skip(0));
        proof {
            lemma_encodes_stop(Seq::empty(), stop, data, 0);
            assert(Seq::<Control>::empty().push(stop) =~= seq![stop]);
        }
        let mut controls: Vec<Control> = Vec::new();
        controls.push(stop);
        assert(controls@ =~= seq![stop]);
        return controls;
    }

    // build the prefix searcher
    // it will give us all previous occurrences of the current position along with their match length
    let mut prev = PS::build(input);

    // tracks the last command to encode all bytes in the input up to a certain point
    let mut command_state: Vec<u32> = vec![0u32; input_length];
    // tracks the lowest cost to encode all bytes in the input up to a certain position
    let mut cost_state: Vec<u32> = vec![u32::MAX; input_length];

    // we know the first byte must be encoded as a literal, thus the cost is 1
    cost_state.set(0, 1);
    command_state.set(0, CommandState::literal(1).0);
    assert(valid_state(data, command_state@, 0));
    assert(frontier_ok(data, cost_state@, command_state@, 0));

    // go through all the byte positions in the input
    let mut pos: usize = 0;
    while pos < input_length - 1
        invariant
            data == input@,
            input_length == data.len(),
            4 <= data.len() <= 0x7FFF_FFF0,
            pos < input_length,
            frontier_ok(data, cost_state@, command_state@, pos as int),
            prev.wf(),
            prev.data() == data,
            pos + 3 < input_length ==> prev.next_position() == pos + 1,
        decreases input_length - pos,
    {
        // since this position has no unexplored predecessors
        // we know the cost to reach this byte is equivalent to the stored cost state
        let cur_cost = cost_state[pos];
        // and the command to reach that state is the stored command
        let cur_command = command_state[pos];
        assert(valid_state(data, command_state@, pos as int));
        // get the number of literals that are passed on into the next command
        // for copy commands this is always 0
        let cur_literals = CommandState(cur_command).num_literals();

        // there can't be any matches on the last 3 bytes since matches must always be at least 3 bytes
        if pos < input_length - 3 {
            // we want to try encoding bytes for the next byte onward since the current position is already known
            // so the search position is the current position + 1
            let match_start_pos = pos + 1;

            // search for all matches with the search position
            let found = prev.search(match_start_pos);
            let mut j: usize = 0;
            while j < found.len()
                invariant
                    data.len() <= 0x7FFF_FFF0,
                    pos + 4 <= data.len(),
                    frontier_ok(data, cost_state@, command_state@, pos as int),
                    cur_cost == cost_state@[pos as int],
                    cur_literals == state_literals(command_state@[pos as int]),
                    forall|k: int|
                        0 <= k < found@.len() ==> #[trigger] found_match(
                            data,
                            (pos + 1) as nat,
                            found@[k],
                        ),
                decreases found@.len() - j,
            {
                process_match(
                    &mut cost_state,
                    &mut command_state,
                    pos,
                    cur_cost,
                    cur_literals,
                    found[j],
                    Ghost(data),
                );
                j += 1;
            }
        }

        // update for the next literal
        let mut literal_cost = cur_cost;
        literal_cost += 1;
        let mut new_state_literal = cur_literals + 1;
        if new_state_literal > (LITERAL_MAX + COPY_LITERAL_MAX) {
            // literal + copy command cannot represent this amount, wrap back around to a new literal command
            new_state_literal = 4;
        }
        if new_state_literal == 4 {
            // a copy command cannot represent this, so we needed to add a new byte for the literal command
            literal_cost += 1;
        }

        if cost_state[pos + 1] > literal_cost {
            let ghost costs = cost_state@;
            let ghost states = command_state@;
            let new_command = CommandState::literal(new_state_literal).0;
            cost_state.set(pos + 1, literal_cost);
            command_state.set(pos + 1, new_command);
            proof {
                let s2 = states.update(pos + 1, new_command);
                assert(costs[pos as int] != u32::MAX);
                assert(valid_state(data, states, pos as int));
                assert(s2[pos as int] == states[pos as int]);
                assert(valid_state(data, s2, pos + 1));
                lemma_frontier_update(
                    data,
                    costs,
                    states,
                    pos as int,
                    pos + 1,
                    literal_cost,
                    new_command,
                );
            }
        }
        proof {
            lemma_frontier_advance(data, cost_state@, command_state@, pos as int);
        }
        pos += 1;
    }

    // trace backwards through the command state to extract the output command list
    proof {
        assert forall|p: int| 0 <= p < data.len() implies #[trigger] valid_state(
            data,
            command_state@,
            p,
        ) by {
            assert(cost_state@[p] != u32::MAX);
        }
    }
    controls_from_state_slice(command_state.as_slice(), input)
}

} // verus!
