//! The fastest encoder: at each position, only the last earlier position with
//! the same three bytes is tried as a match.
use vstd::prelude::*;

use crate::data::compression::match_length::{lemma_is_match_length_run, match_length, spec_match_length};
use crate::data::compression::prefix_search::hash_table::PrefixTable;
use crate::data::compression::prefix_search::{
    key_at, lemma_prefix_key_injective, prefix, prefix_key,
};
use crate::data::compression::{
    bytes_for_match, control_view, control_views, full_before_literal, lemma_copy_views_full,
    lemma_final_views_full, lemma_full_concat, lemma_single_full, copy_cost, copy_views, encodes, final_views,
    lemma_produces_push, literal_command, produces, push_copy, push_final_literals, step_matches,
};
use crate::data::control::{
    Command, Control, LITERAL_MAX, LONG_LENGTH_MAX, LONG_OFFSET_MAX, SHORT_OFFSET_MIN,
};

verus! {

/// Position where the fastest encoder stops looking for copies: three bytes
/// before the end of `data`
pub open spec fn fastest_end(data: Seq<u8>) -> int {
    if data.len() > 3 {
        data.len() - 3
    } else {
        0
    }
}

/// The copy that the fastest encoder makes at position `i` of `data`, as
/// `(distance, length)`, given the last earlier position of every prefix in
/// `table`: from the last position with the same three bytes, when it is in
/// reach and some command holds the copy
pub open spec fn fastest_match(data: Seq<u8>, i: int, table: Map<u32, u32>) -> Option<(nat, nat)> {
    let key = key_at(data, i);
    if table.contains_key(key) {
        let found = table[key] as int;
        let distance = i - found;
        let length = spec_match_length(data, i, found, LONG_LENGTH_MAX as int, 3);
        if SHORT_OFFSET_MIN <= distance <= LONG_OFFSET_MAX && copy_cost(
            length as nat,
            distance as nat,
        ).0 is Some {
            Some((distance as nat, length as nat))
        } else {
            None
        }
    } else {
        None
    }
}

/// The control blocks, as values, that the fastest encoder gives for `data`
/// from position `i` on, with `table` the last earlier position of every
/// prefix and `lit` the literal bytes not yet written
pub open spec fn fastest_from(data: Seq<u8>, i: int, table: Map<u32, u32>, lit: Seq<u8>) -> Seq<
    (Command, Seq<u8>),
>
    decreases data.len() - i,
{
    if 0 <= i < fastest_end(data) {
        let next_table = table.insert(key_at(data, i), i as u32);
        let m = fastest_match(data, i, table);
        if m is Some && 0 < m->Some_0.1 && i + m->Some_0.1 <= data.len() {
            copy_views(lit, m->Some_0.0, m->Some_0.1) + fastest_from(
                data,
                i + m->Some_0.1,
                next_table,
                Seq::empty(),
            )
        } else {
            let block = lit.push(data[i]);
            if block.len() >= LITERAL_MAX {
                seq![(literal_command(block.len()), block)] + fastest_from(
                    data,
                    i + 1,
                    next_table,
                    Seq::empty(),
                )
            } else {
                fastest_from(data, i + 1, next_table, block)
            }
        }
    } else {
        final_views(lit + data.skip(i))
    }
}

/// The control blocks, as values, that the fastest encoder gives for `data`
pub open spec fn spec_fastest(data: Seq<u8>) -> Seq<(Command, Seq<u8>)> {
    fastest_from(data, 0, Map::empty(), Seq::empty())
}

/// Law: the fastest encoder cuts a run of literal bytes into literal blocks
/// only where a block is full, from any point of its work on
pub proof fn lemma_fastest_from_full(
    data: Seq<u8>,
    i: int,
    table: Map<u32, u32>,
    lit: Seq<u8>,
)
    requires
        lit.len() < LITERAL_MAX,
    ensures
        full_before_literal(fastest_from(data, i, table, lit)),
    decreases data.len() - i,
{
    if 0 <= i < fastest_end(data) {
        let next_table = table.insert(key_at(data, i), i as u32);
        let m = fastest_match(data, i, table);
        if m is Some && 0 < m->Some_0.1 && i + m->Some_0.1 <= data.len() {
            let rest = fastest_from(data, i + m->Some_0.1, next_table, Seq::empty());
            lemma_fastest_from_full(data, i + m->Some_0.1, next_table, Seq::empty());
            lemma_copy_views_full(lit, m->Some_0.0, m->Some_0.1);
            lemma_full_concat(copy_views(lit, m->Some_0.0, m->Some_0.1), rest);
        } else {
            let block = lit.push(data[i]);
            if block.len() >= LITERAL_MAX {
                let head = seq![(literal_command(block.len()), block)];
                let rest = fastest_from(data, i + 1, next_table, Seq::empty());
                lemma_fastest_from_full(data, i + 1, next_table, Seq::empty());
                lemma_single_full((literal_command(block.len()), block));
                assert(head.last().1.len() == LITERAL_MAX);
                lemma_full_concat(head, rest);
            } else {
                lemma_fastest_from_full(data, i + 1, next_table, block);
            }
        }
    } else {
        lemma_final_views_full(lit + data.skip(i));
    }
}

/// Law: the fastest encoder cuts a run of literal bytes into literal blocks
/// only where a block is full: every literal block that another literal
/// block follows carries 112 bytes
pub proof fn lemma_fastest_full(data: Seq<u8>)
    ensures
        full_before_literal(spec_fastest(data)),
{
    lemma_fastest_from_full(data, 0, Map::empty(), Seq::empty());
}

/// Encodes `input` into control blocks, trying at each position the last
/// earlier position that starts with the same three bytes
pub(crate) fn encode(input: &[u8]) -> (controls: Vec<Control>)
    requires
        input@.len() <= u32::MAX,
    ensures
        encodes(controls@, input@),
        control_views(controls@) == spec_fastest(input@),
{
    let ghost data = input@;
    let mut controls: Vec<Control> = Vec::new();
    let mut prefix_table = PrefixTable::new(input.len());

    let mut i: usize = 0;
    let end: usize = if input.len() > 3 {
        input.len() - 3
    } else {
        0
    };
    let mut literal_block: Vec<u8> = Vec::with_capacity(LITERAL_MAX as usize);
    assert(control_views(controls@) + fastest_from(data, 0, prefix_table.view(), literal_block@)
        =~= spec_fastest(data));
    while i < end
        invariant
            data == input@,
            data.len() <= u32::MAX,
            end == (if data.len() > 3 {
                data.len() - 3
            } else {
                0
            }),
            i <= data.len(),
            literal_block@.len() <= i,
            literal_block@.len() < LITERAL_MAX,
            literal_block@ == data.subrange(i - literal_block@.len(), i as int),
            produces(controls@, data, 0, (i - literal_block@.len()) as nat),
            prefix_table.wf(),
            spec_fastest(data) == control_views(controls@) + fastest_from(
                data,
                i as int,
                prefix_table.view(),
                literal_block@,
            ),
            forall|key: u32| #[trigger]
                prefix_table.view().contains_key(key) ==> {
                    let p = prefix_table.view()[key];
                    p < i && p + 3 <= data.len() && key_at(data, p as int) == key
                },
        decreases data.len() - i,
    {
        let ghost k = (i - literal_block@.len()) as nat;
        let ghost views0 = control_views(controls@);
        let ghost lit0 = literal_block@;
        let ghost i0 = i as int;
        let key = prefix(&input[i..input.len()]);
        let ghost table = prefix_table.view();
        let ghost this_key = prefix_key(key@[0], key@[1], key@[2]);
        assert(this_key == key_at(data, i as int));

        // get the position of the prefix in the table (if it exists)
        let matched = prefix_table.insert(key, i as u32);

        let pair: Option<(usize, usize)> = match matched {
            Some(found) => {
                let found = found as usize;
                proof {
                    lemma_prefix_key_injective(
                        data[found as int],
                        data[found + 1],
                        data[found + 2],
                        data[i as int],
                        data[i + 1],
                        data[i + 2],
                    );
                }
                let distance = i - found;
                if distance > LONG_OFFSET_MAX as usize || distance < SHORT_OFFSET_MIN as usize {
                    None
                } else {
                    // find the longest common prefix
                    let max_copy_len = LONG_LENGTH_MAX as usize;
                    let match_length = match_length(input, i, found, max_copy_len, 3);
                    proof {
                        lemma_is_match_length_run(
                            data,
                            i + 3,
                            found + 3,
                            LONG_LENGTH_MAX - 3,
                            match_length - 3,
                        );
                    }
                    match bytes_for_match(match_length, distance) {
                        Some((Some(_), _)) => Some((found, match_length)),
                        _ => None,
                    }
                }
            },
            None => None,
        };
        let ghost next_table = table.insert(this_key, i as u32);
        assert(prefix_table.view() == next_table);
        assert(fastest_match(data, i0, table) == match pair {
            Some((f, ml)) => Some(((i - f) as nat, ml as nat)),
            None => None::<(nat, nat)>,
        });

        if let Some((found, match_length)) = pair {
            let distance = i - found;
            assert forall|t: int| i <= t < i + match_length implies #[trigger] data[t] == data[t
                - distance] by {
                assert(data[i + (t - i)] == data[found + (t - i)]);
            }
            push_copy(
                &mut controls,
                &literal_block,
                distance,
                match_length,
                Ghost(data),
                Ghost(k),
            );
            literal_block.clear();
            i += match_length;
            assert(fastest_from(data, i0, table, lit0) == copy_views(
                lit0,
                distance as nat,
                match_length as nat,
            ) + fastest_from(data, i as int, next_table, Seq::empty()));
            assert(control_views(controls@) + fastest_from(
                data,
                i as int,
                prefix_table.view(),
                literal_block@,
            ) =~= views0 + fastest_from(data, i0, table, lit0));
        } else {
            literal_block.push(input[i]);
            i += 1;
            assert(literal_block@ =~= data.subrange(k as int, i as int));
            // If it's reached the limit, push the block immediately and clear the running
            // block
            if literal_block.len() >= (LITERAL_MAX as usize) {
                let block = Control::new_literal_block(literal_block.as_slice());
                assert(step_matches(block, data, k));
                proof {
                    lemma_produces_push(controls@, block, data, 0, k);
                }
                controls.push(block);
                literal_block.clear();
                assert(control_views(controls@) =~= views0.push(
                    (literal_command(block.bytes@.len()), block.bytes@),
                ));
                assert(fastest_from(data, i0, table, lit0) == seq![
                    (literal_command(block.bytes@.len()), block.bytes@),
                ] + fastest_from(data, i as int, next_table, Seq::empty()));
                assert(control_views(controls@) + fastest_from(
                    data,
                    i as int,
                    prefix_table.view(),
                    literal_block@,
                ) =~= views0 + fastest_from(data, i0, table, lit0));
            } else {
                assert(fastest_from(data, i0, table, lit0) == fastest_from(
                    data,
                    i as int,
                    next_table,
                    literal_block@,
                ));
            }
        }
        assert(literal_block@ =~= data.subrange(i - literal_block@.len(), i as int));
    }
    let ghost k = (i - literal_block@.len()) as nat;
    // Add remaining literals if there are any
    let mut j: usize = i;
    while j < input.len()
        invariant
            data == input@,
            k <= i <= j <= data.len(),
            literal_block@ == data.subrange(k as int, j as int),
        decreases data.len() - j,
    {
        literal_block.push(input[j]);
        j += 1;
        assert(literal_block@ =~= data.subrange(k as int, j as int));
    }
    assert(literal_block@ =~= data.skip(k as int));
    assert(fastest_from(data, i as int, prefix_table.view(), data.subrange(k as int, i as int))
        == final_views(literal_block@)) by {
        assert(data.subrange(k as int, i as int) + data.skip(i as int) =~= literal_block@);
    }
    push_final_literals(&mut controls, &literal_block, Ghost(data), Ghost(k));
    assert(spec_fastest(data) =~= control_views(controls@));
    controls
}

} // verus!
