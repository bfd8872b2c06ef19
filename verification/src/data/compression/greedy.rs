//! The first, greedy encoder: at each position the last earlier position
//! with the same three bytes is tried, and a match is refused when it is too
//! short for its distance. The positions inside a copy are remembered too.
use vstd::prelude::*;

use crate::data::compression::match_length::{lemma_is_match_length_run, match_length, spec_match_length};
use crate::data::compression::prefix_search::hash_table::PrefixTable;
use crate::data::compression::prefix_search::{
    key_at, lemma_prefix_key_injective, prefix, prefix_key,
};
use crate::data::compression::{
    control_views, copy_views, encodes, full_before_literal, lemma_copy_views_full,
    lemma_final_views_full, lemma_full_concat, lemma_single_full, final_views, lemma_produces_push, literal_command, produces,
    push_copy, push_final_literals, step_matches,
};
use crate::data::control::{
    Command, Control, LITERAL_MAX, LONG_LENGTH_MAX, LONG_LENGTH_MIN, LONG_OFFSET_MAX, MEDIUM_LENGTH_MIN,
    MEDIUM_OFFSET_MAX, SHORT_OFFSET_MAX, SHORT_OFFSET_MIN,
};

verus! {

/// The table maps each key to a position before `i` of `data` that starts
/// with the three bytes of the key
spec fn table_ok(table: &PrefixTable, data: Seq<u8>, i: int) -> bool {
    &&& table.wf()
    &&& forall|key: u32| #[trigger]
        table.view().contains_key(key) ==> {
            let p = table.view()[key];
            p < i && p + 3 <= data.len() && key_at(data, p as int) == key
        }
}

/// The table after the positions from `from` up to `to` of `data` are added
/// to `table` in turn
pub open spec fn insert_positions(table: Map<u32, u32>, data: Seq<u8>, from: int, to: int) -> Map<
    u32,
    u32,
>
    decreases to - from,
{
    if from < to {
        insert_positions(table, data, from, to - 1).insert(key_at(data, to - 1), (to - 1) as u32)
    } else {
        table
    }
}

/// Position where the greedy encoder stops looking for copies: three bytes
/// before the end of `data`
pub open spec fn greedy_end(data: Seq<u8>) -> int {
    if data.len() > 3 {
        data.len() - 3
    } else {
        0
    }
}

/// The copy that the greedy encoder makes at position `i` of `data`, as
/// `(distance, length)`, given the last earlier position of every prefix in
/// `table`: from the last position with the same three bytes, when it is in
/// reach and the match is not too short for its distance
pub open spec fn greedy_match(data: Seq<u8>, i: int, table: Map<u32, u32>) -> Option<(nat, nat)> {
    let key = key_at(data, i);
    if table.contains_key(key) {
        let found = table[key] as int;
        let distance = i - found;
        let length = spec_match_length(data, i, found, LONG_LENGTH_MAX - 3, 3);
        if SHORT_OFFSET_MIN <= distance <= LONG_OFFSET_MAX && !((length <= MEDIUM_LENGTH_MIN
            && distance > SHORT_OFFSET_MAX) || (length <= LONG_LENGTH_MIN && distance
            > MEDIUM_OFFSET_MAX)) {
            Some((distance as nat, length as nat))
        } else {
            None
        }
    } else {
        None
    }
}

/// The control blocks, as values, that the greedy encoder gives for `data`
/// from position `i` on, with `table` the last earlier position of every
/// prefix and `lit` the literal bytes not yet written
pub open spec fn greedy_from(data: Seq<u8>, i: int, table: Map<u32, u32>, lit: Seq<u8>) -> Seq<
    (Command, Seq<u8>),
>
    decreases data.len() - i,
{
    if 0 <= i < greedy_end(data) {
        let next_table = table.insert(key_at(data, i), i as u32);
        let m = greedy_match(data, i, table);
        if m is Some && 0 < m->Some_0.1 && i + m->Some_0.1 <= data.len() {
            let length = m->Some_0.1 as int;
            let last = if i + length < greedy_end(data) {
                i + length
            } else {
                greedy_end(data)
            };
            copy_views(lit, m->Some_0.0, m->Some_0.1) + greedy_from(
                data,
                i + length,
                insert_positions(next_table, data, i + 1, last),
                Seq::empty(),
            )
        } else {
            let block = lit.push(data[i]);
            if block.len() >= LITERAL_MAX {
                seq![(literal_command(block.len()), block)] + greedy_from(
                    data,
                    i + 1,
                    next_table,
                    Seq::empty(),
                )
            } else {
                greedy_from(data, i + 1, next_table, block)
            }
        }
    } else {
        final_views(lit + data.skip(i))
    }
}

/// The control blocks, as values, that the greedy encoder gives for `data`
pub open spec fn spec_greedy(data: Seq<u8>) -> Seq<(Command, Seq<u8>)> {
    greedy_from(data, 0, Map::empty(), Seq::empty())
}

/// Law: the greedy encoder cuts a run of literal bytes into literal blocks
/// only where a block is full, from any point of its work on
pub proof fn lemma_greedy_from_full(data: Seq<u8>, i: int, table: Map<u32, u32>, lit: Seq<u8>)
    requires
        lit.len() < LITERAL_MAX,
    ensures
        full_before_literal(greedy_from(data, i, table, lit)),
    decreases data.len() - i,
{
    if 0 <= i < greedy_end(data) {
        let next_table = table.insert(key_at(data, i), i as u32);
        let m = greedy_match(data, i, table);
        if m is Some && 0 < m->Some_0.1 && i + m->Some_0.1 <= data.len() {
            let length = m->Some_0.1 as int;
            let last = if i + length < greedy_end(data) {
                i + length
            } else {
                greedy_end(data)
            };
            let t = insert_positions(next_table, data, i + 1, last);
            lemma_greedy_from_full(data, i + length, t, Seq::empty());
            lemma_copy_views_full(lit, m->Some_0.0, m->Some_0.1);
            lemma_full_concat(
                copy_views(lit, m->Some_0.0, m->Some_0.1),
                greedy_from(data, i + length, t, Seq::empty()),
            );
        } else {
            let block = lit.push(data[i]);
            if block.len() >= LITERAL_MAX {
                let head = seq![(literal_command(block.len()), block)];
                lemma_greedy_from_full(data, i + 1, next_table, Seq::empty());
                lemma_single_full((literal_command(block.len()), block));
                assert(head.last().1.len() == LITERAL_MAX);
                lemma_full_concat(head, greedy_from(data, i + 1, next_table, Seq::empty()));
            } else {
                lemma_greedy_from_full(data, i + 1, next_table, block);
            }
        }
    } else {
        lemma_final_views_full(lit + data.skip(i));
    }
}

/// Law: the greedy encoder cuts a run of literal bytes into literal blocks
/// only where a block is full: every literal block that another literal
/// block follows carries 112 bytes
pub proof fn lemma_greedy_full(data: Seq<u8>)
    ensures
        full_before_literal(spec_greedy(data)),
{
    lemma_greedy_from_full(data, 0, Map::empty(), Seq::empty());
}

/// Adds position `k` of `data`, whose three bytes are in the buffer, to the
/// table
fn insert_position(table: &mut PrefixTable, input: &[u8], k: usize) -> (r: Option<u32>)
    requires
        table_ok(old(table), input@, k as int),
        k + 3 <= input@.len() <= u32::MAX,
    ensures
        table_ok(final(table), input@, k + 1),
        final(table).view() == old(table).view().insert(key_at(input@, k as int), k as u32),
        r == (if old(table).view().contains_key(key_at(input@, k as int)) {
            Some(old(table).view()[key_at(input@, k as int)])
        } else {
            None::<u32>
        }),
        r matches Some(found) ==> found < k && key_at(input@, found as int) == key_at(input@, k as int),
{
    let ghost data = input@;
    let key = prefix(&input[k..input.len()]);
    assert(key@ =~= data.subrange(k as int, k + 3));
    assert(prefix_key(key@[0], key@[1], key@[2]) == key_at(data, k as int));
    table.insert(key, k as u32)
}

/// Encodes `in_buffer` into control blocks, greedily: at each position the
/// last earlier position with the same first three bytes is copied from,
/// unless it is out of reach, or the match is at most 4 bytes long and more
/// than 1024 bytes away, or at most 5 bytes long and more than 16384 bytes
/// away.
#[verifier::rlimit(60)]
#[verifier::spinoff_prover]
pub fn encode_stream(in_buffer: &[u8]) -> (controls: Vec<Control>)
    requires
        in_buffer@.len() <= u32::MAX,
    ensures
        encodes(controls@, in_buffer@),
        control_views(controls@) == spec_greedy(in_buffer@),
{
    let ghost data = in_buffer@;
    let mut controls: Vec<Control> = Vec::new();
    let mut prefix_table = PrefixTable::new(in_buffer.len());

    let mut i: usize = 0;
    let end: usize = if in_buffer.len() > 3 {
        in_buffer.len() - 3
    } else {
        0
    };
    let mut literal_block: Vec<u8> = Vec::with_capacity(LITERAL_MAX as usize);
    assert(control_views(controls@) + greedy_from(data, 0, prefix_table.view(), literal_block@)
        =~= spec_greedy(data));
    while i < end
        invariant
            data == in_buffer@,
            data.len() <= u32::MAX,
            end == (if data.len() > 3 {
                data.len() - 3
            } else {
                0
            }),
            i <= data.len(),
            literal_block@.len() <= i,
            literal_block@.len() < LITERAL_MAX,
            literal_block@ == data.subrange(i - literal_block@.len(), i as int),
            produces(controls@, data, 0, (i - literal_block@.len()) as nat),
            table_ok(&prefix_table, data, i as int),
            spec_greedy(data) == control_views(controls@) + greedy_from(
                data,
                i as int,
                prefix_table.view(),
                literal_block@,
            ),
        decreases data.len() - i,
    {
        let ghost k = (i - literal_block@.len()) as nat;
        let ghost views0 = control_views(controls@);
        let ghost lit0 = literal_block@;
        let ghost i0 = i as int;
        let ghost table = prefix_table.view();

        // the last position of the prefix, if any
        let matched = insert_position(&mut prefix_table, in_buffer, i);

        let pair: Option<(usize, usize)> = match matched {
            Some(found) => {
                let found = found as usize;
                proof {
                    lemma_prefix_key_injective(
                        data[found as int],
                        data[found + 1],
                        data[found + 2],
                        data[i as int],
                        data[i + 1],
                        data[i + 2],
                    );
                }
                let distance = i - found;
                if distance > LONG_OFFSET_MAX as usize || distance < SHORT_OFFSET_MIN as usize {
                    None
                } else {
                    // the longest common prefix, of the first three bytes
                    // at least, and at most 1025 bytes long
                    let max_copy_len = LONG_LENGTH_MAX as usize;
                    let match_length = match_length(in_buffer, i, found, max_copy_len - 3, 3);
                    proof {
                        lemma_is_match_length_run(
                            data,
                            i + 3,
                            found + 3,
                            LONG_LENGTH_MAX - 6,
                            match_length - 3,
                        );
                    }
                    // too short for its distance
                    if (match_length <= MEDIUM_LENGTH_MIN as usize && distance
                        > SHORT_OFFSET_MAX as usize) || (match_length <= LONG_LENGTH_MIN as usize
                        && distance > MEDIUM_OFFSET_MAX as usize) {
                        None
                    } else {
                        Some((found, match_length))
                    }
                }
            },
            None => None,
        };
        let ghost next_table = table.insert(key_at(data, i0), i as u32);
        assert(greedy_match(data, i0, table) == match pair {
            Some((f, ml)) => Some(((i - f) as nat, ml as nat)),
            None => None::<(nat, nat)>,
        });

        if let Some((found, match_length)) = pair {
            let distance = i - found;
            assert forall|t: int| i <= t < i + match_length implies #[trigger] data[t] == data[t
                - distance] by {
                assert(data[i + (t - i)] == data[found + (t - i)]);
            }
            push_copy(
                &mut controls,
                &literal_block,
                distance,
                match_length,
                Ghost(data),
                Ghost(k),
            );
            literal_block.clear();

            // the positions inside the copy are remembered as well
            let mut j: usize = i + 1;
            while j < i + match_length && j < end
                invariant
                    data == in_buffer@,
                    data.len() <= u32::MAX,
                    end + 3 <= data.len() || end == 0,
                    i < j <= i + match_length,
                    i + match_length <= data.len(),
                    table_ok(&prefix_table, data, j as int),
                    j <= end || j == i + 1,
                    prefix_table.view() == insert_positions(next_table, data, i + 1, j as int),
                decreases data.len() - j,
            {
                let _ = insert_position(&mut prefix_table, in_buffer, j);
                j += 1;
            }
            let ghost last = if i + match_length < end {
                i + match_length
            } else {
                end as int
            };
            assert(j == last);
            i += match_length;
            assert(greedy_from(data, i0, table, lit0) == copy_views(
                lit0,
                distance as nat,
                match_length as nat,
            ) + greedy_from(
                data,
                i as int,
                insert_positions(next_table, data, i0 + 1, last),
                Seq::empty(),
            ));
            assert(control_views(controls@) + greedy_from(
                data,
                i as int,
                prefix_table.view(),
                literal_block@,
            ) =~= views0 + greedy_from(data, i0, table, lit0));
        } else {
            literal_block.push(in_buffer[i]);
            i += 1;
            assert(literal_block@ =~= data.subrange(k as int, i as int));
            // a full literal block is pushed at once
            if literal_block.len() >= (LITERAL_MAX as usize) {
                let block = Control::new_literal_block(literal_block.as_slice());
                assert(step_matches(block, data, k));
                proof {
                    lemma_produces_push(controls@, block, data, 0, k);
                }
                controls.push(block);
                literal_block.clear();
                assert(control_views(controls@) =~= views0.push(
                    (literal_command(block.bytes@.len()), block.bytes@),
                ));
                assert(greedy_from(data, i0, table, lit0) == seq![
                    (literal_command(block.bytes@.len()), block.bytes@),
                ] + greedy_from(data, i as int, next_table, Seq::empty()));
                assert(control_views(controls@) + greedy_from(
                    data,
                    i as int,
                    prefix_table.view(),
                    literal_block@,
                ) =~= views0 + greedy_from(data, i0, table, lit0));
            } else {
                assert(greedy_from(data, i0, table, lit0) == greedy_from(
                    data,
                    i as int,
                    next_table,
                    literal_block@,
                ));
            }
        }
        assert(literal_block@ =~= data.subrange(i - literal_block@.len(), i as int));
    }
    let ghost k = (i - literal_block@.len()) as nat;
    // the remaining bytes are literals
    let mut j: usize = i;
    while j < in_buffer.len()
        invariant
            data == in_buffer@,
            k <= i <= j <= data.len(),
            literal_block@ == data.subrange(k as int, j as int),
        decreases data.len() - j,
    {
        literal_block.push(in_buffer[j]);
        j += 1;
        assert(literal_block@ =~= data.subrange(k as int, j as int));
    }
    assert(literal_block@ =~= data.skip(k as int));
    assert(greedy_from(data, i as int, prefix_table.view(), data.subrange(k as int, i as int))
        == final_views(literal_block@)) by {
        assert(data.subrange(k as int, i as int) + data.skip(i as int) =~= literal_block@);
    }
    push_final_literals(&mut controls, &literal_block, Ghost(data), Ghost(k));
    assert(spec_greedy(data) =~= control_views(controls@));
    controls
}

} // verus!
