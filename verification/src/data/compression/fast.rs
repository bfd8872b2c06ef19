//! The fast encoder: at each position, up to 128 earlier positions with the
//! same three bytes are tried, and the match with the best ratio of copied
//! bytes to command bytes is kept.
use vstd::prelude::*;

use crate::data::compression::match_length::{
    lemma_is_match_length_run, match_length, run_length, spec_match_length,
};
use crate::data::compression::prefix_search::hash_table::PrefixTable;
use crate::data::compression::prefix_search::{
    is_link, key_at, lemma_distinct_slots, lemma_prefix_key_injective, prefix, prefix_key,
};
use crate::data::compression::{
    bytes_for_match, control_views, copy_cost, copy_views, encodes, full_before_literal, lemma_copy_views_full,
    lemma_final_views_full, lemma_full_concat, lemma_single_full, final_views, lemma_produces_push,
    literal_command, produces, push_copy, push_final_literals, step_matches,
};
use crate::data::control::{
    Command, Control, LITERAL_MAX, LONG_LENGTH_MAX, LONG_OFFSET_MAX, SHORT_OFFSET_MIN,
};

verus! {

/// Number of links kept by the chain over `len` bytes
pub open spec fn link_count(len: nat) -> nat {
    if len < LONG_OFFSET_MAX {
        len
    } else {
        LONG_OFFSET_MAX as nat
    }
}

/// The link of a position of the input is in the chain
proof fn lemma_link_in_bounds(p: int, len: nat)
    requires
        0 <= p < len,
    ensures
        0 <= p % (LONG_OFFSET_MAX as int) < link_count(len),
{
    let m = LONG_OFFSET_MAX as int;
    vstd::arithmetic::div_mod::lemma_mod_bound(p, m);
    if len < m {
        vstd::arithmetic::div_mod::lemma_small_mod(p as nat, m as nat);
    }
}

/// The earlier position that the chain gives for position `pos` of `data`,
/// given the last position of every prefix in `table`: the last one with the
/// same three bytes, when it is in reach of a copy
pub open spec fn chain_found(table: Map<u32, u32>, data: Seq<u8>, pos: int) -> Option<u32> {
    let key = key_at(data, pos);
    if table.contains_key(key) && pos - table[key] <= LONG_OFFSET_MAX {
        Some(table[key])
    } else {
        None
    }
}

/// The link kept for a position: the earlier position found, or `u32::MAX`
pub open spec fn link_value(found: Option<u32>) -> u32 {
    match found {
        Some(p) => p,
        None => u32::MAX,
    }
}

/// The table and the links of a chain after position `pos` of `data` is
/// inserted into the chain `state`
pub open spec fn chain_insert(state: (Map<u32, u32>, Seq<u32>), data: Seq<u8>, pos: int) -> (
    Map<u32, u32>,
    Seq<u32>,
) {
    (
        state.0.insert(key_at(data, pos), pos as u32),
        state.1.update(pos % (LONG_OFFSET_MAX as int), link_value(chain_found(state.0, data, pos))),
    )
}

/// The chain `state` after the positions from `from` up to `to` of `data` are
/// inserted in turn
pub open spec fn chain_insert_range(
    state: (Map<u32, u32>, Seq<u32>),
    data: Seq<u8>,
    from: int,
    to: int,
) -> (Map<u32, u32>, Seq<u32>)
    decreases to - from,
{
    if from < to {
        chain_insert(chain_insert_range(state, data, from, to - 1), data, to - 1)
    } else {
        state
    }
}

/// One step of a walk down the links `links` of a chain from `orig`: what is
/// given, then the pending and current positions after it
pub open spec fn chain_step(links: Seq<u32>, orig: u32, pending: Option<u32>, cur: Option<u32>) -> (
    Option<u32>,
    Option<u32>,
    Option<u32>,
) {
    match pending {
        Some(v) => (Some(v), None, cur),
        None => match cur {
            None => (None, None, None),
            Some(p) => {
                let next = links[p as int % (LONG_OFFSET_MAX as int)];
                let r = if next == u32::MAX || orig - next > LONG_OFFSET_MAX {
                    None
                } else {
                    Some(next)
                };
                (r, None, r)
            },
        },
    }
}

/// The positions that at most `k` steps of a walk down the links `links`
/// from `orig` give, up to the first step that gives none
pub open spec fn chain_walk(
    links: Seq<u32>,
    orig: u32,
    pending: Option<u32>,
    cur: Option<u32>,
    k: nat,
) -> Seq<u32>
    decreases k,
{
    if k == 0 {
        Seq::empty()
    } else {
        let (r, pending2, cur2) = chain_step(links, orig, pending, cur);
        match r {
            None => Seq::empty(),
            Some(v) => seq![v] + chain_walk(links, orig, pending2, cur2, (k - 1) as nat),
        }
    }
}

/// Position where the fast encoder stops looking for copies: three bytes
/// before the end of `data`
pub open spec fn fast_end(data: Seq<u8>) -> int {
    if data.len() > 3 {
        data.len() - 3
    } else {
        0
    }
}

/// The control blocks, as values, that the fast encoder gives for `data` from
/// position `i` on, with the chain `state` of the positions met so far and
/// `lit` the literal bytes not yet written
pub open spec fn fast_from(
    data: Seq<u8>,
    i: int,
    state: (Map<u32, u32>, Seq<u32>),
    lit: Seq<u8>,
) -> Seq<(Command, Seq<u8>)>
    decreases data.len() - i,
{
    if 0 <= i < fast_end(data) {
        let found = chain_found(state.0, data, i);
        let next = chain_insert(state, data, i);
        let m = best_of(data, i, chain_walk(next.1, i as u32, found, found, 0x80));
        if m is Some && m->Some_0.0 < i && 0 < m->Some_0.1 && i + m->Some_0.1 <= data.len() {
            let length = m->Some_0.1 as int;
            let last = if i + length < fast_end(data) {
                i + length
            } else {
                fast_end(data)
            };
            copy_views(lit, (i - m->Some_0.0) as nat, length as nat) + fast_from(
                data,
                i + length,
                chain_insert_range(next, data, i + 1, last),
                Seq::empty(),
            )
        } else {
            let block = lit.push(data[i]);
            if block.len() >= LITERAL_MAX {
                seq![(literal_command(block.len()), block)] + fast_from(
                    data,
                    i + 1,
                    next,
                    Seq::empty(),
                )
            } else {
                fast_from(data, i + 1, next, block)
            }
        }
    } else {
        final_views(lit + data.skip(i))
    }
}

/// The control blocks, as values, that the fast encoder gives for `data`
pub open spec fn spec_fast(data: Seq<u8>) -> Seq<(Command, Seq<u8>)> {
    fast_from(data, 0, (Map::empty(), Seq::new(link_count(data.len()), |i: int| u32::MAX)), Seq::empty())
}

/// Law: the fast encoder cuts a run of literal bytes into literal blocks only
/// where a block is full, from any point of its work on
pub proof fn lemma_fast_from_full(
    data: Seq<u8>,
    i: int,
    state: (Map<u32, u32>, Seq<u32>),
    lit: Seq<u8>,
)
    requires
        lit.len() < LITERAL_MAX,
    ensures
        full_before_literal(fast_from(data, i, state, lit)),
    decreases data.len() - i,
{
    if 0 <= i < fast_end(data) {
        let found = chain_found(state.0, data, i);
        let next = chain_insert(state, data, i);
        let m = best_of(data, i, chain_walk(next.1, i as u32, found, found, 0x80));
        if m is Some && m->Some_0.0 < i && 0 < m->Some_0.1 && i + m->Some_0.1 <= data.len() {
            let length = m->Some_0.1 as int;
            let last = if i + length < fast_end(data) {
                i + length
            } else {
                fast_end(data)
            };
            let t = chain_insert_range(next, data, i + 1, last);
            lemma_fast_from_full(data, i + length, t, Seq::empty());
            lemma_copy_views_full(lit, (i - m->Some_0.0) as nat, length as nat);
            lemma_full_concat(
                copy_views(lit, (i - m->Some_0.0) as nat, length as nat),
                fast_from(data, i + length, t, Seq::empty()),
            );
        } else {
            let block = lit.push(data[i]);
            if block.len() >= LITERAL_MAX {
                let head = seq![(literal_command(block.len()), block)];
                lemma_fast_from_full(data, i + 1, next, Seq::empty());
                lemma_single_full((literal_command(block.len()), block));
                assert(head.last().1.len() == LITERAL_MAX);
                lemma_full_concat(head, fast_from(data, i + 1, next, Seq::empty()));
            } else {
                lemma_fast_from_full(data, i + 1, next, block);
            }
        }
    } else {
        lemma_final_views_full(lit + data.skip(i));
    }
}

/// Law: the fast encoder cuts a run of literal bytes into literal blocks only
/// where a block is full: every literal block that another literal block
/// follows carries 112 bytes
pub proof fn lemma_fast_full(data: Seq<u8>)
    ensures
        full_before_literal(spec_fast(data)),
{
    lemma_fast_from_full(
        data,
        0,
        (Map::empty(), Seq::new(link_count(data.len()), |i: int| u32::MAX)),
        Seq::empty(),
    );
}

/// The last position of every prefix, and for every one of the last
/// positions the previous one with the same prefix; the link of a position
/// shares its place with the link of the position `LONG_OFFSET_MAX` later
struct HashChain {
    prefix_table: PrefixTable,
    hash_chain: Vec<u32>,
}

impl HashChain {
    /// The table and the links of the chain
    spec fn state(&self) -> (Map<u32, u32>, Seq<u32>) {
        (self.prefix_table.view(), self.hash_chain@)
    }

    /// The positions before `n` of `data` have been inserted in order: the
    /// table maps each key to the last of them with that key, and the link
    /// kept for each of the last positions is a link from it or `u32::MAX`
    closed spec fn wf(&self, data: Seq<u8>, n: nat) -> bool {
        &&& self.prefix_table.wf()
        &&& data.len() <= u32::MAX
        &&& n > 0 ==> n + 2 <= data.len()
        &&& self.hash_chain@.len() == link_count(data.len())
        &&& forall|key: u32| #[trigger]
            self.prefix_table.view().contains_key(key) ==> {
                let p = self.prefix_table.view()[key];
                p < n && p + 3 <= data.len() && key_at(data, p as int) == key
            }
        &&& forall|p: int|
            0 <= p < n && n <= p + LONG_OFFSET_MAX ==> {
                let v = #[trigger] self.hash_chain@[p as int % (LONG_OFFSET_MAX as int)];
                v == u32::MAX || is_link(data, p, v as int)
            }
    }

    /// An empty chain for an input of `bytes` bytes
    fn new(bytes: usize) -> (c: Self)
        requires
            bytes <= u32::MAX,
        ensures
            forall|data: Seq<u8>| data.len() == bytes ==> #[trigger] c.wf(data, 0),
            c.state() == (Map::<u32, u32>::empty(), Seq::new(link_count(bytes as nat), |i: int| u32::MAX)),
    {
        let size = if bytes < LONG_OFFSET_MAX as usize {
            bytes
        } else {
            LONG_OFFSET_MAX as usize
        };
        let c = Self { prefix_table: PrefixTable::new(bytes), hash_chain: vec![u32::MAX; size] };
        assert(c.hash_chain@ =~= Seq::new(link_count(bytes as nat), |i: int| u32::MAX));
        c
    }

    /// Inserts `position`, the next position of `data`, whose first three
    /// bytes are `prefix`, and returns the previous position with the same
    /// prefix if it is in reach of a copy
    fn insert(&mut self, prefix: [u8; 3], position: u32, Ghost(data): Ghost<Seq<u8>>) -> (r: Option<
        u32,
    >)
        requires
            old(self).wf(data, position as nat),
            position + 3 <= data.len(),
            prefix@ == data.subrange(position as int, position + 3),
        ensures
            final(self).wf(data, (position + 1) as nat),
            r matches Some(v) ==> is_link(data, position as int, v as int),
            r == chain_found(old(self).state().0, data, position as int),
            final(self).state() == chain_insert(old(self).state(), data, position as int),
    {
        let ghost n = position as int;
        assert(prefix_key(prefix@[0], prefix@[1], prefix@[2]) == key_at(data, n));
        let found_position = match self.prefix_table.insert(prefix, position) {
            Some(pos) => if position - pos <= LONG_OFFSET_MAX {
                Some(pos)
            } else {
                None
            },
            None => None,
        };
        let index = (position % LONG_OFFSET_MAX) as usize;
        proof {
            lemma_link_in_bounds(n, data.len());
        }
        let link = match found_position {
            Some(p) => p,
            None => u32::MAX,
        };
        let ghost before = self.hash_chain@;
        self.hash_chain.set(index, link);
        proof {
            let m = LONG_OFFSET_MAX as int;
            assert forall|p: int| 0 <= p < n + 1 && n + 1 <= p + m implies {
                let v = #[trigger] self.hash_chain@[p % m];
                v == u32::MAX || is_link(data, p, v as int)
            } by {
                lemma_link_in_bounds(p, data.len());
                if p < n {
                    lemma_distinct_slots(p, n, m);
                    assert(self.hash_chain@[p % m] == before[p % m]);
                }
            }
        }
        found_position
    }

    /// The positions that follow `found`, the position that [HashChain::insert]
    /// returned for `orig_position`, in the chain: first `found`, then the
    /// link of each position that was given before
    fn chain_from(&self, orig_position: u32, found: Option<u32>) -> (it: HashChainIter<'_>)
        ensures
            it.hash_chain == self,
            it.orig_position == orig_position,
            it.pending == found,
            it.cur_position == found,
    {
        HashChainIter { hash_chain: self, orig_position, pending: found, cur_position: found }
    }
}

/// The positions of the chain that start with the same three bytes as
/// `orig_position`, from the latest back
struct HashChainIter<'a> {
    hash_chain: &'a HashChain,
    orig_position: u32,
    pending: Option<u32>,
    cur_position: Option<u32>,
}

impl<'a> HashChainIter<'a> {
    /// The chain holds `orig_position` and what it has not given yet is made
    /// of links from it
    spec fn wf(&self, data: Seq<u8>) -> bool {
        &&& self.hash_chain.wf(data, (self.orig_position + 1) as nat)
        &&& self.pending matches Some(v) ==> is_link(data, self.orig_position as int, v as int)
        &&& self.cur_position matches Some(v) ==> is_link(
            data,
            self.orig_position as int,
            v as int,
        )
    }

    /// What [HashChainIter::next] returns, then the pending and current
    /// positions after it: the pending position if any, else the link of the
    /// current position while it is in reach of a copy
    spec fn step(&self) -> (Option<u32>, Option<u32>, Option<u32>) {
        match self.pending {
            Some(v) => (Some(v), None, self.cur_position),
            None => match self.cur_position {
                None => (None, None, None),
                Some(p) => {
                    let next = self.hash_chain.hash_chain@[p as int % (LONG_OFFSET_MAX as int)];
                    let r = if next == u32::MAX || self.orig_position - next > LONG_OFFSET_MAX {
                        None
                    } else {
                        Some(next)
                    };
                    (r, None, r)
                },
            },
        }
    }

    /// The next position of the chain, `None` once the chain leaves the reach
    /// of a copy or ends
    fn next(&mut self, Ghost(data): Ghost<Seq<u8>>) -> (r: Option<u32>)
        requires
            old(self).wf(data),
        ensures
            final(self).wf(data),
            final(self).orig_position == old(self).orig_position,
            final(self).hash_chain == old(self).hash_chain,
            (r, final(self).pending, final(self).cur_position) == old(self).step(),
            r matches Some(v) ==> is_link(data, old(self).orig_position as int, v as int),
    {
        if let Some(v) = self.pending {
            self.pending = None;
            return Some(v);
        }
        let position = match self.cur_position {
            Some(p) => p,
            None => return None,
        };
        let ghost m = LONG_OFFSET_MAX as int;
        let ghost orig = self.orig_position as int;
        proof {
            lemma_link_in_bounds(position as int, data.len());
            if orig - position == m {
                vstd::arithmetic::div_mod::lemma_mod_add_multiples_vanish(position as int, m);
                assert(orig % m == (position as int) % m);
            }
        }
        let next_pos = self.hash_chain.hash_chain[(position % LONG_OFFSET_MAX) as usize];
        proof {
            if next_pos != u32::MAX {
                if orig - position < m {
                    assert(is_link(data, position as int, next_pos as int));
                } else {
                    lemma_link_in_bounds(orig, data.len());
                    assert(is_link(data, orig, next_pos as int));
                }
            }
        }
        self.cur_position = if next_pos == u32::MAX || self.orig_position - next_pos
            > LONG_OFFSET_MAX {
            None
        } else {
            Some(next_pos)
        };
        self.cur_position
    }
}

/// The positions that at most `k` calls of [HashChainIter::next] give from
/// `it`, up to the first that gives none
spec fn walk<'a>(it: HashChainIter<'a>, k: nat) -> Seq<u32>
    decreases k,
{
    if k == 0 {
        Seq::empty()
    } else {
        let (r, pending, cur_position) = it.step();
        match r {
            None => Seq::empty(),
            Some(v) => seq![v] + walk(
                HashChainIter {
                    hash_chain: it.hash_chain,
                    orig_position: it.orig_position,
                    pending,
                    cur_position,
                },
                (k - 1) as nat,
            ),
        }
    }
}

/// A walk of an iterator goes down the links of its chain
proof fn lemma_walk_links<'a>(it: HashChainIter<'a>, k: nat)
    ensures
        walk(it, k) == chain_walk(
            it.hash_chain.hash_chain@,
            it.orig_position,
            it.pending,
            it.cur_position,
            k,
        ),
    decreases k,
{
    if k > 0 {
        let (r, pending, cur_position) = it.step();
        let next = HashChainIter {
            hash_chain: it.hash_chain,
            orig_position: it.orig_position,
            pending,
            cur_position,
        };
        lemma_walk_links(next, (k - 1) as nat);
    }
}

/// `best` after considering the candidate `m` for position `i`: a candidate
/// in reach of a copy, whose match can be encoded, replaces `best` when its
/// ratio of copied bytes to command bytes is at least as high
pub open spec fn consider(data: Seq<u8>, i: int, best: Option<(usize, usize, usize)>, m: int) -> Option<
    (usize, usize, usize),
> {
    let distance = i - m;
    if 1 <= distance <= LONG_OFFSET_MAX {
        let length = spec_match_length(data, i, m, LONG_LENGTH_MAX as int, 3);
        match copy_cost(length as nat, distance as nat).0 {
            Some(bytes) => match best {
                Some((_, best_length, best_bytes)) => if length * best_bytes >= best_length
                    * bytes {
                    Some((m as usize, length as usize, bytes))
                } else {
                    best
                },
                None => Some((m as usize, length as usize, bytes)),
            },
            None => best,
        }
    } else {
        best
    }
}

/// The best of the candidates `cands` for position `i`, taken in order, as
/// `(position, length, command bytes)`
pub open spec fn best_of(data: Seq<u8>, i: int, cands: Seq<u32>) -> Option<(usize, usize, usize)>
    decreases cands.len(),
{
    if cands.len() == 0 {
        None
    } else {
        consider(data, i, best_of(data, i, cands.drop_last()), cands.last() as int)
    }
}

/// The length and the command cost of the copy that the earlier position `m`
/// gives for position `i` of `data`, `None` when it is out of reach or no
/// command can encode it
pub open spec fn candidate(data: Seq<u8>, i: int, m: int) -> Option<(int, int)> {
    let distance = i - m;
    let length = spec_match_length(data, i, m, LONG_LENGTH_MAX as int, 3);
    if 1 <= distance <= LONG_OFFSET_MAX && copy_cost(length as nat, distance as nat).0 is Some {
        Some((length, copy_cost(length as nat, distance as nat).0->Some_0 as int))
    } else {
        None
    }
}

/// A run length is at most its limit
proof fn lemma_run_length_bounds(buffer: Seq<u8>, a: int, b: int, max_len: int)
    ensures
        0 <= run_length(buffer, a, b, max_len),
        max_len >= 0 ==> run_length(buffer, a, b, max_len) <= max_len,
    decreases max_len,
{
    if max_len > 0 {
        lemma_run_length_bounds(buffer, a + 1, b + 1, max_len - 1);
    }
}

/// Cross-multiplied ratios compare transitively
proof fn lemma_ratio_trans(l: int, b: int, bl: int, bb: int, lk: int, bk: int)
    by (nonlinear_arith)
    requires
        b > 0,
        bb > 0,
        bk > 0,
        l * bb >= bl * b,
        bl * bk >= lk * bb,
    ensures
        l * bk >= lk * b,
{
    assert(l * bb * bk >= bl * b * bk);
    assert(bl * bk * b >= lk * bb * b);
    assert(l * bk * bb >= lk * b * bb);
}

/// Law: the match that the fast encoder keeps among the candidates `cands`
/// is one of them whose copy some command encodes, there is one as soon as
/// any candidate's copy can be encoded, and no candidate has a higher ratio
/// of copied bytes to command bytes: `len / bytes >= l / b` for every
/// candidate of length `l` and cost `b`
pub proof fn lemma_best_of_ratio(data: Seq<u8>, i: int, cands: Seq<u32>)
    ensures
        best_of(data, i, cands) is Some <==> exists|k: int|
            0 <= k < cands.len() && #[trigger] candidate(data, i, cands[k] as int) is Some,
        best_of(data, i, cands) matches Some((p, len, bytes)) ==> exists|k: int|
            0 <= k < cands.len() && cands[k] as int == p as int && #[trigger] candidate(
                data,
                i,
                cands[k] as int,
            ) == Some((len as int, bytes as int)),
        best_of(data, i, cands) matches Some((p, len, bytes)) ==> forall|k: int|
            0 <= k < cands.len() && #[trigger] candidate(data, i, cands[k] as int) is Some ==> len
                * candidate(data, i, cands[k] as int)->Some_0.1 >= candidate(
                data,
                i,
                cands[k] as int,
            )->Some_0.0 * bytes,
    decreases cands.len(),
{
    if cands.len() > 0 {
        let prev_cands = cands.drop_last();
        lemma_best_of_ratio(data, i, prev_cands);
        let m = cands.last() as int;
        let prev = best_of(data, i, prev_cands);
        lemma_run_length_bounds(data, i + 3, m + 3, LONG_LENGTH_MAX - 3);
        let cc = candidate(data, i, m);
        assert(forall|k: int|
            0 <= k < prev_cands.len() ==> #[trigger] prev_cands[k] == cands[k]);
        assert(cands[cands.len() - 1] == cands.last());
        if let Some((l, b)) = cc {
            assert(2 <= b <= 4);
            assert(3 <= l <= LONG_LENGTH_MAX);
            match prev {
                Some((pp, bl, bb)) => {
                    let kp = choose|k: int|
                        0 <= k < prev_cands.len() && prev_cands[k] as int == pp as int
                            && #[trigger] candidate(data, i, prev_cands[k] as int) == Some(
                            (bl as int, bb as int),
                        );
                    assert(2 <= bb <= 4);
                    if l * bb >= bl * b {
                        assert forall|k: int|
                            0 <= k < cands.len() && #[trigger] candidate(data, i, cands[k] as int)
                                is Some implies (l as usize) * candidate(
                            data,
                            i,
                            cands[k] as int,
                        )->Some_0.1 >= candidate(data, i, cands[k] as int)->Some_0.0 * (
                        b as usize) by {
                            if k < cands.len() - 1 {
                                assert(candidate(data, i, prev_cands[k] as int) is Some);
                                let (lk, bk) = candidate(data, i, cands[k] as int)->Some_0;
                                assert(2 <= bk <= 4);
                                lemma_ratio_trans(l, b, bl as int, bb as int, lk, bk);
                            }
                        }
                    } else {
                        assert forall|k: int|
                            0 <= k < cands.len() && #[trigger] candidate(data, i, cands[k] as int)
                                is Some implies bl * candidate(
                            data,
                            i,
                            cands[k] as int,
                        )->Some_0.1 >= candidate(data, i, cands[k] as int)->Some_0.0 * bb by {
                            if k < cands.len() - 1 {
                                assert(candidate(data, i, prev_cands[k] as int) is Some);
                            }
                        }
                        assert(candidate(data, i, cands[kp] as int) == Some((bl as int, bb as int)));
                    }
                },
                None => {
                    assert forall|k: int|
                        0 <= k < cands.len() && #[trigger] candidate(data, i, cands[k] as int)
                            is Some implies k == cands.len() - 1 by {
                        if k < cands.len() - 1 {
                            assert(candidate(data, i, prev_cands[k] as int) is Some);
                        }
                    }
                },
            }
        } else {
            assert forall|k: int|
                0 <= k < cands.len() && #[trigger] candidate(data, i, cands[k] as int)
                    is Some implies k < cands.len() - 1 && candidate(data, i, prev_cands[k] as int)
                is Some by {}
            if let Some((pp, bl, bb)) = prev {
                let kp = choose|k: int|
                    0 <= k < prev_cands.len() && prev_cands[k] as int == pp as int
                        && #[trigger] candidate(data, i, prev_cands[k] as int) == Some(
                        (bl as int, bb as int),
                    );
                assert(candidate(data, i, cands[kp] as int) == Some((bl as int, bb as int)));
            }
        }
    }
}

/// The best match at position `i` among the first 128 positions of the
/// chain: the one with the highest ratio of copied bytes to command bytes,
/// the latest one on ties, as `(position, length)`
fn best_match(
    input: &[u8],
    i: usize,
    chain: &mut HashChainIter,
    Ghost(data): Ghost<Seq<u8>>,
) -> (r: Option<(usize, usize)>)
    requires
        data == input@,
        old(chain).wf(data),
        old(chain).orig_position == i,
        i + 3 <= data.len(),
    ensures
        r matches Some((found, length)) ==> {
            &&& found < i
            &&& 1 <= i - found <= LONG_OFFSET_MAX
            &&& 3 <= length <= LONG_LENGTH_MAX
            &&& crate::data::compression::copy_cost(length as nat, (i - found) as nat).0 is Some
            &&& i + length <= data.len()
            &&& forall|t: int| 0 <= t < length ==> #[trigger] data[i + t] == data[found + t]
        },
        r == match best_of(data, i as int, walk(*old(chain), 0x80)) {
            Some((found, length, _)) => Some((found, length)),
            None => None,
        },
{
    let ghost chain0 = *chain;
    let ghost mut seen: Seq<u32> = Seq::empty();
    let mut best: Option<(usize, usize, usize)> = None;
    let mut count: usize = 0;
    while count < 0x80
        invariant_except_break
            data == input@,
            chain.wf(data),
            chain.orig_position == i,
            i + 3 <= data.len(),
            walk(chain0, 0x80) == seen + walk(*chain, (0x80 - count) as nat),
            count <= 0x80,
            best matches Some((found, length, bytes)) ==> {
                &&& found < i
                &&& 1 <= i - found <= LONG_OFFSET_MAX
                &&& 3 <= length <= LONG_LENGTH_MAX
                &&& crate::data::compression::copy_cost(length as nat, (i - found) as nat).0
                    == Some(bytes)
                &&& i + length <= data.len()
                &&& forall|t: int| 0 <= t < length ==> #[trigger] data[i + t] == data[found + t]
            },
            best == best_of(data, i as int, seen),
        ensures
            best == best_of(data, i as int, seen),
            walk(chain0, 0x80) == seen,
            best matches Some((found, length, bytes)) ==> {
                &&& found < i
                &&& 1 <= i - found <= LONG_OFFSET_MAX
                &&& 3 <= length <= LONG_LENGTH_MAX
                &&& crate::data::compression::copy_cost(length as nat, (i - found) as nat).0
                    == Some(bytes)
                &&& i + length <= data.len()
                &&& forall|t: int| 0 <= t < length ==> #[trigger] data[i + t] == data[found + t]
            },
        decreases 0x80 - count,
    {
        let ghost before = *chain;
        let next = chain.next(Ghost(data));
        let matched = match next {
            Some(m) => m as usize,
            None => {
                assert(seen + Seq::<u32>::empty() =~= seen);
                break;
            },
        };
        proof {
            assert(*chain == HashChainIter {
                hash_chain: before.hash_chain,
                orig_position: before.orig_position,
                pending: chain.pending,
                cur_position: chain.cur_position,
            });
            assert(walk(before, (0x80 - count) as nat) == seq![matched as u32] + walk(
                *chain,
                (0x80 - count - 1) as nat,
            ));
            assert(seen + walk(before, (0x80 - count) as nat) =~= seen.push(matched as u32) + walk(
                *chain,
                (0x80 - count - 1) as nat,
            ));
            assert(seen.push(matched as u32).drop_last() =~= seen);
            seen = seen.push(matched as u32);
        }
        count += 1;
        proof {
            lemma_prefix_key_injective(
                data[matched as int],
                data[matched + 1],
                data[matched + 2],
                data[i as int],
                data[i + 1],
                data[i + 2],
            );
        }
        let distance = i - matched;
        if distance <= LONG_OFFSET_MAX as usize && distance >= SHORT_OFFSET_MIN as usize {
            // find the longest common prefix
            let max_copy_len = LONG_LENGTH_MAX as usize;
            let match_length = match_length(input, i, matched, max_copy_len, 3);
            proof {
                lemma_is_match_length_run(
                    data,
                    i + 3,
                    matched + 3,
                    LONG_LENGTH_MAX - 3,
                    match_length - 3,
                );
            }
            if let Some((Some(num_bytes), _)) = bytes_for_match(match_length, distance) {
                let better = match best {
                    Some((_, best_length, best_bytes)) => {
                        assert(match_length * best_bytes <= 1028 * 4 && best_length * num_bytes
                            <= 1028 * 4) by (nonlinear_arith)
                            requires
                                match_length <= 1028,
                                best_bytes <= 4,
                                best_length <= 1028,
                                num_bytes <= 4,
                        ;
                        match_length * best_bytes >= best_length * num_bytes
                    },
                    None => true,
                };
                if better {
                    best = Some((matched, match_length, num_bytes));
                }
            }
        }
    }
    match best {
        Some((found, length, _)) => Some((found, length)),
        None => None,
    }
}

/// Encodes `input` into control blocks, trying at each position up to 128
/// earlier positions that start with the same three bytes
#[verifier::rlimit(60)]
#[verifier::spinoff_prover]
pub(crate) fn encode(input: &[u8]) -> (controls: Vec<Control>)
    requires
        input@.len() <= u32::MAX,
    ensures
        encodes(controls@, input@),
        control_views(controls@) == spec_fast(input@),
{
    let ghost data = input@;
    let mut controls: Vec<Control> = Vec::new();
    let mut prefix_table = HashChain::new(input.len());
    assert(prefix_table.wf(data, 0));

    let mut i: usize = 0;
    let end: usize = if input.len() > 3 {
        input.len() - 3
    } else {
        0
    };
    let mut literal_block: Vec<u8> = Vec::with_capacity(LITERAL_MAX as usize);
    assert(control_views(controls@) + fast_from(data, 0, prefix_table.state(), literal_block@)
        =~= spec_fast(data));
    while i < end
        invariant
            data == input@,
            data.len() <= u32::MAX,
            end == (if data.len() > 3 {
                data.len() - 3
            } else {
                0
            }),
            i <= data.len(),
            literal_block@.len() <= i,
            literal_block@.len() < LITERAL_MAX,
            literal_block@ == data.subrange(i - literal_block@.len(), i as int),
            produces(controls@, data, 0, (i - literal_block@.len()) as nat),
            prefix_table.wf(
                data,
                (if i < end {
                    i
                } else {
                    end
                }) as nat,
            ),
            spec_fast(data) == control_views(controls@) + fast_from(
                data,
                i as int,
                prefix_table.state(),
                literal_block@,
            ),
        decreases data.len() - i,
    {
        let ghost k = (i - literal_block@.len()) as nat;
        let ghost views0 = control_views(controls@);
        let ghost lit0 = literal_block@;
        let ghost i0 = i as int;
        let ghost state0 = prefix_table.state();
        let key = prefix(&input[i..input.len()]);
        assert(key@ =~= data.subrange(i as int, i + 3));

        // get the position of the prefix in the table (if it exists)
        let matched = prefix_table.insert(key, i as u32, Ghost(data));
        let mut chain = prefix_table.chain_from(i as u32, matched);
        let ghost next = prefix_table.state();
        proof {
            lemma_walk_links(chain, 0x80);
        }
        let pair = best_match(input, i, &mut chain, Ghost(data));
        assert(pair == match best_of(
            data,
            i0,
            chain_walk(next.1, i as u32, matched, matched, 0x80),
        ) {
            Some((found, length, _)) => Some((found, length)),
            None => None::<(usize, usize)>,
        });

        if let Some((found, match_length)) = pair {
            let distance = i - found;
            assert forall|t: int| i <= t < i + match_length implies #[trigger] data[t] == data[t
                - distance] by {
                assert(data[i + (t - i)] == data[found + (t - i)]);
            }
            push_copy(
                &mut controls,
                &literal_block,
                distance,
                match_length,
                Ghost(data),
                Ghost(k),
            );
            literal_block.clear();

            let mut next: usize = i + 1;
            while next < i + match_length && next < end
                invariant
                    data == input@,
                    i < next <= i + match_length,
                    i + match_length <= data.len(),
                    next <= end || next == i + 1,
                    i < end,
                    end + 3 == data.len(),
                    prefix_table.wf(data, next as nat),
                    prefix_table.state() == chain_insert_range(
                        chain_insert(state0, data, i as int),
                        data,
                        i + 1,
                        next as int,
                    ),
                decreases i + match_length - next,
            {
                let key = prefix(&input[next..input.len()]);
                assert(key@ =~= data.subrange(next as int, next + 3));
                let _ = prefix_table.insert(key, next as u32, Ghost(data));
                next += 1;
            }
            let ghost last = if i + match_length < end {
                i + match_length
            } else {
                end as int
            };
            assert(next == last);
            i += match_length;
            assert(fast_from(data, i0, state0, lit0) == copy_views(
                lit0,
                distance as nat,
                match_length as nat,
            ) + fast_from(
                data,
                i as int,
                chain_insert_range(chain_insert(state0, data, i0), data, i0 + 1, last),
                Seq::empty(),
            ));
            assert(control_views(controls@) + fast_from(
                data,
                i as int,
                prefix_table.state(),
                literal_block@,
            ) =~= views0 + fast_from(data, i0, state0, lit0));
        } else {
            literal_block.push(input[i]);
            i += 1;
            assert(literal_block@ =~= data.subrange(k as int, i as int));
            // If it's reached the limit, push the block immediately and clear the running
            // block
            if literal_block.len() >= (LITERAL_MAX as usize) {
                let block = Control::new_literal_block(literal_block.as_slice());
                assert(step_matches(block, data, k));
                proof {
                    lemma_produces_push(controls@, block, data, 0, k);
                }
                controls.push(block);
                literal_block.clear();
                assert(control_views(controls@) =~= views0.push(
                    (literal_command(block.bytes@.len()), block.bytes@),
                ));
                assert(fast_from(data, i0, state0, lit0) == seq![
                    (literal_command(block.bytes@.len()), block.bytes@),
                ] + fast_from(data, i as int, next, Seq::empty()));
                assert(control_views(controls@) + fast_from(
                    data,
                    i as int,
                    prefix_table.state(),
                    literal_block@,
                ) =~= views0 + fast_from(data, i0, state0, lit0));
            } else {
                assert(fast_from(data, i0, state0, lit0) == fast_from(
                    data,
                    i as int,
                    next,
                    literal_block@,
                ));
            }
        }
        assert(literal_block@ =~= data.subrange(i - literal_block@.len(), i as int));
    }
    let ghost k = (i - literal_block@.len()) as nat;
    // Add remaining literals if there are any
    let mut j: usize = i;
    while j < input.len()
        invariant
            data == input@,
            k <= i <= j <= data.len(),
            literal_block@ == data.subrange(k as int, j as int),
        decreases data.len() - j,
    {
        literal_block.push(input[j]);
        j += 1;
        assert(literal_block@ =~= data.subrange(k as int, j as int));
    }
    assert(literal_block@ =~= data.skip(k as int));
    assert(fast_from(data, i as int, prefix_table.state(), data.subrange(k as int, i as int))
        == final_views(literal_block@)) by {
        assert(data.subrange(k as int, i as int) + data.skip(i as int) =~= literal_block@);
    }
    push_final_literals(&mut controls, &literal_block, Ghost(data), Ghost(k));
    assert(spec_fast(data) =~= control_views(controls@));
    controls
}

} // verus!
