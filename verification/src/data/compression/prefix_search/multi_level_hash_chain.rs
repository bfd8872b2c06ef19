//! A hash chain with several levels, similar to a skip list: the levels above
//! the lowest only refer to matches that are longer than what the level below
//! skips over.
use vstd::prelude::*;

use crate::data::compression::match_length::{
    byte_offset_matches, lemma_is_match_length_run, lemma_spec_match_length, match_length,
    match_length_except, match_length_or, matches_for, spec_match_length,
};
use crate::data::compression::optimal::HASH_CHAINING_LEVELS;
use crate::data::compression::prefix_search::hash_table::PrefixTable;
use crate::data::compression::prefix_search::{
    chain_size, found_match, increasing_from, is_latest, key_at, lemma_table_insert, table_latest, lemma_distinct_slots, lemma_prefix_key_injective,
    lemma_slot_in_bounds, prefix, prefix_key, PrefixSearcher, HASH_CHAIN_BUFFER_SIZE,
};
use crate::data::control::{LONG_LENGTH_MAX, LONG_OFFSET_MAX};

verus! {

/// `q`, an earlier position than `p`, starts with the same `len` bytes as `p`
spec fn genuine(data: Seq<u8>, p: int, q: int, len: int) -> bool {
    &&& 0 <= q < p
    &&& 0 <= len <= LONG_LENGTH_MAX
    &&& matches_for(data, p, q, len)
}

/// Matching the first bytes is transitive
proof fn lemma_genuine_trans(data: Seq<u8>, p: int, f: int, q: int, l1: int, l2: int, l: int)
    requires
        genuine(data, p, f, l1),
        genuine(data, f, q, l2),
        0 <= l <= l1,
        l <= l2,
    ensures
        genuine(data, p, q, l),
{
    assert forall|k: int| 0 <= k < l implies #[trigger] data[p + k] == data[q + k] by {
        assert(data[p + k] == data[f + k]);
        assert(data[f + k] == data[q + k]);
    }
}

/// A match between a position and the contained position
///
/// consider the following bytes [0, 0, 0, 0, 1, 0, 0, 0, 0, 0]
/// which will have the following match positions, lengths, and skip lengths:
/// pos: (match, length, skip) where "n" represents none
/// 0: (n, n, n)
/// 1: (0, 3, 3)
/// 2-4: (n, n, n)
/// 5: (1, 3, 4)
/// 6: (5, 4, 4)
/// 7: (6, 3, 3)
#[derive(Copy, Clone, Debug)]
pub struct Match {
    /// the position of the matching sequence of bytes or `u32::MAX`
    pub position: u32,
    /// the next position that has exactly `length` matching bytes with the
    /// current position and does not continue with the same byte as the match
    /// at `position`, or `u32::MAX`
    pub bad_position: u32,
    /// the number of bytes that match between this position and the match
    /// position
    pub length: u16,
    /// when following this chain by repeatedly following `position`, the
    /// longest non-decreasing match length with the current position
    pub skip_length: u16,
}

/// The match of a level that holds none
spec fn no_match() -> Match {
    Match { position: u32::MAX, bad_position: u32::MAX, length: 0, skip_length: 0 }
}

impl Default for Match {
    fn default() -> (m: Self)
        ensures
            m.position == u32::MAX && m.bad_position == u32::MAX && m.length == 0 && m.skip_length
                == 0,
    {
        Self { position: u32::MAX, bad_position: u32::MAX, length: 0, skip_length: 0 }
    }
}

/// What the levels of the links of position `p` may hold: matches that are
/// genuine for the length they record
spec fn link_ok(data: Seq<u8>, p: int, m: Match) -> bool {
    &&& m.length != 0 ==> genuine(data, p, m.position as int, m.length as int)
    &&& m.bad_position != u32::MAX ==> genuine(data, p, m.bad_position as int, m.length as int)
}

/// Ring of the links of the last positions, `HASH_CHAINING_LEVELS` matches per
/// position
struct MultiLevelHashChain {
    data: Vec<Match>,
}

/// Place of level `level` of the links of position `i`
spec fn link_index(i: int, level: int) -> int {
    (i % (HASH_CHAIN_BUFFER_SIZE as int)) * (HASH_CHAINING_LEVELS as int) + level
}

/// The place of a level of a position of the input is in the ring
proof fn lemma_link_index(i: int, level: int, len: nat)
    requires
        0 <= i < len,
        0 <= level < HASH_CHAINING_LEVELS,
    ensures
        0 <= link_index(i, level) < chain_size(len) * HASH_CHAINING_LEVELS,
{
    lemma_slot_in_bounds(i, len);
}

impl MultiLevelHashChain {
    /// Level `level` of the links of position `i`
    spec fn link(&self, i: int, level: int) -> Match {
        self.data@[link_index(i, level)]
    }

    /// The levels of the links of `from` below `level` hold matches, each
    /// shorter than `len` bytes
    spec fn levels_below(&self, from: int, level: int, len: int) -> bool {
        forall|k: int| 0 <= k < level ==> 0 < #[trigger] self.link(from, k).length < len
    }

    /// The ring fits an input of `data`, and every level of the links of the
    /// positions before `n` that it still holds is genuine
    spec fn chain_ok(&self, data: Seq<u8>, n: int) -> bool {
        &&& self.data@.len() == chain_size(data.len()) * HASH_CHAINING_LEVELS
        &&& forall|p: int, level: int|
            0 <= p < n && n <= p + HASH_CHAIN_BUFFER_SIZE && 0 <= level < HASH_CHAINING_LEVELS
                ==> link_ok(data, p, #[trigger] self.data@[link_index(p, level)])
    }

    /// Reads level `level` of the links of position `from`, which is in the
    /// ring and before `n`
    fn read(&self, from: usize, level: usize, Ghost(data): Ghost<Seq<u8>>, Ghost(n): Ghost<int>) -> (m: Match)
        requires
            self.chain_ok(data, n),
            from < n <= from + HASH_CHAIN_BUFFER_SIZE,
            from < data.len(),
            level < HASH_CHAINING_LEVELS,
        ensures
            m == self.link(from as int, level as int),
            link_ok(data, from as int, m),
    {
        proof {
            lemma_link_index(from as int, level as int, data.len());
        }
        self.at(from, level)
    }

    /// A ring with no matches, for an input of `bytes` bytes
    fn new(bytes: usize) -> (c: Self)
        ensures
            c.data@.len() == chain_size(bytes as nat) * HASH_CHAINING_LEVELS,
            forall|k: int| 0 <= k < c.data@.len() ==> #[trigger] c.data@[k] == no_match(),
    {
        let size = if bytes < HASH_CHAIN_BUFFER_SIZE {
            bytes
        } else {
            HASH_CHAIN_BUFFER_SIZE
        };
        let total = size * HASH_CHAINING_LEVELS;
        let mut data: Vec<Match> = Vec::with_capacity(total);
        let mut k: usize = 0;
        while k < total
            invariant
                k <= total,
                data@.len() == k,
                forall|j: int| 0 <= j < k ==> #[trigger] data@[j] == no_match(),
            decreases total - k,
        {
            data.push(Match::default());
            k += 1;
        }
        Self { data }
    }

    /// Level `level` of the links of position `i`
    fn at(&self, i: usize, level: usize) -> (m: Match)
        requires
            link_index(i as int, level as int) < self.data@.len(),
            level < HASH_CHAINING_LEVELS,
        ensures
            m == self.link(i as int, level as int),
    {
        self.data[(i % HASH_CHAIN_BUFFER_SIZE) * HASH_CHAINING_LEVELS + level]
    }

    /// Stores `link` as the links of position `i`
    fn store(&mut self, i: usize, link: &Vec<Match>)
        requires
            link@.len() == HASH_CHAINING_LEVELS,
            link_index(i as int, HASH_CHAINING_LEVELS - 1) < old(self).data@.len(),
        ensures
            final(self).data@.len() == old(self).data@.len(),
            forall|l: int|
                0 <= l < HASH_CHAINING_LEVELS ==> final(self).data@[link_index(i as int, l)]
                    == link@[l],
            forall|k: int|
                0 <= k < old(self).data@.len() && (k < link_index(i as int, 0) || k > link_index(
                    i as int,
                    HASH_CHAINING_LEVELS - 1,
                )) ==> final(self).data@[k] == old(self).data@[k],
    {
        let ghost before = self.data@;
        let mut level: usize = 0;
        while level < HASH_CHAINING_LEVELS
            invariant
                link@.len() == HASH_CHAINING_LEVELS,
                link_index(i as int, HASH_CHAINING_LEVELS - 1) < before.len(),
                self.data@.len() == before.len(),
                level <= HASH_CHAINING_LEVELS,
                forall|l: int| 0 <= l < level ==> self.data@[link_index(i as int, l)] == link@[l],
                forall|k: int|
                    0 <= k < before.len() && (k < link_index(i as int, 0) || k >= link_index(
                        i as int,
                        level as int,
                    )) ==> self.data@[k] == before[k],
            decreases HASH_CHAINING_LEVELS - level,
        {
            self.at_mut(i, level, link[level]);
            level += 1;
        }
    }

    /// Sets level `level` of the links of position `i`
    fn at_mut(&mut self, i: usize, level: usize, m: Match)
        requires
            link_index(i as int, level as int) < old(self).data@.len(),
            level < HASH_CHAINING_LEVELS,
        ensures
            final(self).data@ == old(self).data@.update(link_index(i as int, level as int), m),
    {
        self.data.set((i % HASH_CHAIN_BUFFER_SIZE) * HASH_CHAINING_LEVELS + level, m);
    }
}

/// How a candidate position is compared with the searched position
#[derive(Copy, Clone)]
enum MatchMode {
    /// By its match length
    Plain,
    /// Looking for a position that matches exactly `length` bytes and goes on
    /// differently from `anchor` (see [match_length_except])
    Except { anchor: usize, length: usize },
    /// Looking for a position that matches more than `length` bytes, or
    /// exactly `length` bytes and goes on differently from `anchor` (see
    /// [match_length_or])
    Or { anchor: usize, length: usize },
}

/// The number of bytes that a result `r` of a comparison in `mode` shows to
/// be common
spec fn mode_lower(mode: MatchMode, r: int) -> int {
    match mode {
        MatchMode::Plain => r,
        MatchMode::Except { length, .. } => if r < length {
            r
        } else {
            length as int
        },
        MatchMode::Or { length, .. } => if r < length {
            r
        } else {
            length as int
        },
    }
}

/// A search from `from` in `mode` for matches longer than `min_length`
spec fn mode_ok(mode: MatchMode, from: int, min_length: int) -> bool {
    match mode {
        MatchMode::Plain => true,
        MatchMode::Except { anchor, length } => from <= anchor && length == min_length && length
            < LONG_LENGTH_MAX,
        MatchMode::Or { anchor, length } => from <= anchor && length == min_length && length
            < LONG_LENGTH_MAX,
    }
}

/// What a result `r` of a comparison of `cand` with `pos` in `Or` mode
/// shows beyond [mode_lower]: when the byte after the first `length` bytes
/// matches too, the match is `r` bytes long
spec fn or_fact(data: Seq<u8>, mode: MatchMode, pos: int, cand: int, r: int) -> bool {
    mode matches MatchMode::Or { length, .. } ==> (r > length && pos + length < data.len()
        && data[pos + length] == data[cand + length] ==> genuine(data, pos, cand, r))
}

/// The result of comparing the earlier position `cand` with `pos` in `mode`,
/// their first `skip` bytes being common: the match length (counted up to
/// one more than `length` for `Except`), where a match of exactly `length`
/// bytes counts one more when the byte after it differs from the one after
/// `anchor` (see [match_length_except] and [match_length_or])
spec fn compare_result(data: Seq<u8>, pos: int, cand: int, skip: int, mode: MatchMode) -> int {
    match mode {
        MatchMode::Plain => spec_match_length(data, pos, cand, LONG_LENGTH_MAX as int, skip),
        MatchMode::Except { anchor, length } => {
            let m = spec_match_length(data, pos, cand, length + 1, skip);
            if m == length {
                length + if anchor + length < data.len() && data[anchor + length] == data[cand
                    + length] {
                    0int
                } else {
                    1int
                }
            } else if m < length {
                m
            } else {
                length as int
            }
        },
        MatchMode::Or { anchor, length } => {
            let m = spec_match_length(data, pos, cand, LONG_LENGTH_MAX as int, skip);
            if m == length {
                m + if anchor + m < data.len() && data[anchor + m] == data[cand + m] {
                    0int
                } else {
                    1int
                }
            } else {
                m
            }
        },
    }
}

/// Compares the earlier position `cand` with `pos` in `mode`, knowing that
/// their first `skip` bytes are common
fn compare(buffer: &[u8], pos: usize, cand: u32, skip: u16, mode: MatchMode) -> (r: u16)
    requires
        genuine(buffer@, pos as int, cand as int, skip as int),
        mode matches MatchMode::Except { anchor, length } ==> cand < anchor && skip <= length
            < LONG_LENGTH_MAX,
        mode matches MatchMode::Or { anchor, length } ==> cand < anchor && skip <= length
            < LONG_LENGTH_MAX,
    ensures
        r == compare_result(buffer@, pos as int, cand as int, skip as int, mode),
        skip <= r <= LONG_LENGTH_MAX,
        genuine(buffer@, pos as int, cand as int, mode_lower(mode, r as int)),
        or_fact(buffer@, mode, pos as int, cand as int, r as int),
{
    let ghost data = buffer@;
    match mode {
        MatchMode::Plain => {
            let r = match_length(buffer, pos, cand as usize, LONG_LENGTH_MAX as usize, skip as usize);
            proof {
                lemma_is_match_length_run(
                    data,
                    pos + skip,
                    cand + skip,
                    LONG_LENGTH_MAX - skip,
                    r - skip,
                );
            }
            r as u16
        },
        MatchMode::Except { anchor, length } => {
            let r = match_length_except(buffer, pos, anchor, cand as usize, length, skip as usize);
            proof {
                lemma_spec_match_length(data, pos as int, cand as int, length + 1, skip as int);
            }
            r
        },
        MatchMode::Or { anchor, length } => {
            let r = match_length_or(buffer, pos, cand as usize, anchor, length, skip as usize);
            proof {
                lemma_spec_match_length(
                    data,
                    pos as int,
                    cand as int,
                    LONG_LENGTH_MAX as int,
                    skip as int,
                );
            }
            r
        },
    }
}

/// The first level from `l` on of the links of `from` in `links` whose
/// match is exactly `len` bytes long, looking no further than a level with
/// no match or a longer one
spec fn level_of_length(links: Seq<Match>, from: int, len: int, l: int) -> Option<int>
    decreases HASH_CHAINING_LEVELS - l,
{
    if l < 0 || l >= HASH_CHAINING_LEVELS {
        None
    } else {
        let m = links[link_index(from, l)];
        if m.length == len {
            Some(l)
        } else if m.length == 0 || m.length > len {
            None
        } else {
            level_of_length(links, from, len, l + 1)
        }
    }
}

/// The level that [level_of_length] finds is a level, whose match has that
/// length
proof fn lemma_level_of_length(links: Seq<Match>, from: int, len: int, l: int)
    ensures
        level_of_length(links, from, len, l) matches Some(k) ==> 0 <= k < HASH_CHAINING_LEVELS
            && links[link_index(from, k)].length == len,
    decreases HASH_CHAINING_LEVELS - l,
{
    if 0 <= l < HASH_CHAINING_LEVELS {
        lemma_level_of_length(links, from, len, l + 1);
    }
}

/// The first level of the links of `from` whose match is exactly
/// `from_len` bytes long, looking no further than a level with no match or a
/// longer one
fn equal_level(chain: &MultiLevelHashChain, from: usize, from_len: u16, Ghost(data): Ghost<Seq<u8>>, Ghost(n): Ghost<int>) -> (r: Option<usize>)
    requires
        chain.chain_ok(data, n),
        from < n <= from + HASH_CHAIN_BUFFER_SIZE,
        from < data.len(),
    ensures
        r matches Some(level) ==> level < HASH_CHAINING_LEVELS && chain.levels_below(
            from as int,
            level as int,
            from_len as int,
        ) && chain.link(from as int, level as int).length == from_len,
        r is None ==> forall|level: int|
            0 <= level < HASH_CHAINING_LEVELS && #[trigger] chain.levels_below(
                from as int,
                level,
                from_len as int,
            ) ==> chain.link(from as int, level).length != from_len,
        r matches Some(level) ==> level_of_length(chain.data@, from as int, from_len as int, 0)
            == Some(level as int),
        r is None ==> level_of_length(chain.data@, from as int, from_len as int, 0) is None,
{
    let mut level: usize = 0;
    while level < HASH_CHAINING_LEVELS
        invariant
            chain.chain_ok(data, n),
            from < n <= from + HASH_CHAIN_BUFFER_SIZE,
            from < data.len(),
            level <= HASH_CHAINING_LEVELS,
            chain.levels_below(from as int, level as int, from_len as int),
            level_of_length(chain.data@, from as int, from_len as int, 0) == level_of_length(
                chain.data@,
                from as int,
                from_len as int,
                level as int,
            ),
        decreases HASH_CHAINING_LEVELS - level,
    {
        let m = chain.read(from, level, Ghost(data), Ghost(n));
        if m.length == from_len {
            return Some(level);
        } else if m.length == 0 || m.length > from_len {
            return None;
        }
        level += 1;
    }
    None
}

/// Positions before this one are out of the reach of a copy at `pos`
spec fn search_limit(pos: int) -> int {
    if pos > LONG_OFFSET_MAX {
        pos - LONG_OFFSET_MAX
    } else {
        0
    }
}

/// A state of the search of [search_from_offset] from which it goes on
/// until it ends: every level of the links of `from` leads, when it holds a
/// match, to an earlier position, and a step up a level was to a level
/// whose match is no longer than `from_len`
spec fn search_state_ok(links: Seq<Match>, pos: int, from: int, from_len: int, level: int, up: bool) -> bool {
    &&& 0 <= level < HASH_CHAINING_LEVELS
    &&& 0 <= from
    &&& from >= search_limit(pos) ==> {
        &&& link_index(from, HASH_CHAINING_LEVELS - 1) < links.len()
        &&& forall|l: int|
            0 <= l < HASH_CHAINING_LEVELS ==> {
                let m = #[trigger] links[link_index(from, l)];
                &&& m.length != 0 ==> m.position < from
                &&& m.bad_position != u32::MAX ==> m.bad_position < from
            }
    }
    &&& up ==> links[link_index(from, level)].length != 0 && from_len >= links[link_index(
        from,
        level,
    )].length
}

/// What the search of [search_from_offset] in the ring `links` for `pos`
/// finds from the state (`from`, `from_len`, `level`, `up`): at each
/// position it looks for the level whose match is exactly as long as the
/// match with `from`, whose position (or bad position) may match more bytes,
/// moving down a level when the match is longer, and up a level, or along
/// the match, when it is shorter
spec fn offset_search(
    data: Seq<u8>,
    links: Seq<Match>,
    pos: int,
    min_length: int,
    mode: MatchMode,
    from: int,
    from_len: int,
    level: int,
    up: bool,
) -> Option<(usize, usize)>
    decreases from, (if up {
        HASH_CHAINING_LEVELS - 1 - level
    } else {
        HASH_CHAINING_LEVELS + level
    }),
    when search_state_ok(links, pos, from, from_len, level, up)
{
    let limit = search_limit(pos);
    if from < limit {
        None
    } else {
        let cur = links[link_index(from, level)];
        if cur.length == 0 {
            if level == 0 {
                None
            } else {
                offset_search(data, links, pos, min_length, mode, from, from_len, level - 1, up)
            }
        } else if from_len < cur.length {
            if level == 0 || from_len > links[link_index(from, level - 1)].skip_length {
                offset_search(
                    data,
                    links,
                    pos,
                    min_length,
                    mode,
                    cur.position as int,
                    from_len,
                    level,
                    false,
                )
            } else {
                offset_search(data, links, pos, min_length, mode, from, from_len, level - 1, up)
            }
        } else if from_len == cur.length {
            if cur.position < limit {
                None
            } else {
                let ml = compare_result(data, pos, cur.position as int, from_len, mode);
                if ml > min_length {
                    Some((cur.position as usize, ml as usize))
                } else if ml == cur.length {
                    if cur.bad_position == u32::MAX || cur.bad_position < limit {
                        None
                    } else {
                        let ml2 = compare_result(data, pos, cur.bad_position as int, from_len, mode);
                        if ml2 > min_length {
                            Some((cur.bad_position as usize, ml2 as usize))
                        } else {
                            offset_search(
                                data,
                                links,
                                pos,
                                min_length,
                                mode,
                                cur.bad_position as int,
                                ml2,
                                level,
                                false,
                            )
                        }
                    }
                } else {
                    offset_search(
                        data,
                        links,
                        pos,
                        min_length,
                        mode,
                        cur.position as int,
                        ml,
                        level,
                        false,
                    )
                }
            }
        } else if from_len <= cur.skip_length || level == HASH_CHAINING_LEVELS - 1 {
            offset_search(
                data,
                links,
                pos,
                min_length,
                mode,
                cur.position as int,
                cur.length as int,
                level,
                false,
            )
        } else {
            let above = links[link_index(from, level + 1)];
            if above.length == 0 {
                None
            } else if from_len < above.length {
                offset_search(
                    data,
                    links,
                    pos,
                    min_length,
                    mode,
                    above.position as int,
                    from_len,
                    level + 1,
                    false,
                )
            } else {
                offset_search(data, links, pos, min_length, mode, from, from_len, level + 1, true)
            }
        }
    }
}

/// A state of the search from a position in reach and in the ring, whose
/// links are genuine, goes on until it ends
proof fn lemma_state_ok(
    chain: &MultiLevelHashChain,
    data: Seq<u8>,
    pos: int,
    from: int,
    from_len: int,
    level: int,
    up: bool,
)
    requires
        chain.chain_ok(data, pos),
        0 <= from < pos < data.len(),
        0 <= level < HASH_CHAINING_LEVELS,
        up ==> chain.link(from, level).length != 0 && from_len >= chain.link(from, level).length,
    ensures
        search_state_ok(chain.data@, pos, from, from_len, level, up),
{
    if from >= search_limit(pos) {
        lemma_link_index(from, HASH_CHAINING_LEVELS - 1, data.len());
        assert forall|l: int| 0 <= l < HASH_CHAINING_LEVELS implies {
            let m = #[trigger] chain.data@[link_index(from, l)];
            &&& m.length != 0 ==> m.position < from
            &&& m.bad_position != u32::MAX ==> m.bad_position < from
        } by {
            assert(link_ok(data, from, chain.data@[link_index(from, l)]));
        }
    }
}

/// Searches the chain from `start`, whose first `start_len` bytes match
/// `pos`, for the next position that compares with `pos` in `mode` to more
/// than `min_length`. Returns that position and the result of the
/// comparison.
fn search_from_offset(
    buffer: &[u8],
    chain: &MultiLevelHashChain,
    pos: usize,
    min_length: usize,
    start: usize,
    start_len: u16,
    mode: MatchMode,
) -> (r: Option<(usize, usize)>)
    requires
        chain.chain_ok(buffer@, pos as int),
        buffer@.len() <= u32::MAX,
        genuine(buffer@, pos as int, start as int, start_len as int),
        0 < start_len <= min_length,
        mode_ok(mode, start as int, min_length as int),
    ensures
        r matches Some((q, len)) ==> {
            &&& q < start
            &&& min_length < len <= LONG_LENGTH_MAX
            &&& genuine(buffer@, pos as int, q as int, mode_lower(mode, len as int))
            &&& or_fact(buffer@, mode, pos as int, q as int, len as int)
        },
        r == offset_search(
            buffer@,
            chain.data@,
            pos as int,
            min_length as int,
            mode,
            start as int,
            start_len as int,
            0,
            false,
        ),
{
    let ghost data = buffer@;
    let ghost n = pos as int;
    let long_offset_limit = if pos > LONG_OFFSET_MAX as usize {
        pos - LONG_OFFSET_MAX as usize
    } else {
        0
    };
    let mut from = start;
    let mut from_len = start_len;
    // the level is kept from one position to the next, since consecutive
    // positions often need the same level
    let mut level: usize = 0;
    // whether the last step went up a level at the same position
    let ghost mut up = false;
    let ghost result = offset_search(
        data,
        chain.data@,
        pos as int,
        min_length as int,
        mode,
        start as int,
        start_len as int,
        0,
        false,
    );
    loop
        invariant
            result == offset_search(
                data,
                chain.data@,
                pos as int,
                min_length as int,
                mode,
                from as int,
                from_len as int,
                level as int,
                up,
            ),
            long_offset_limit == search_limit(pos as int),
            result == offset_search(
                data,
                chain.data@,
                pos as int,
                min_length as int,
                mode,
                start as int,
                start_len as int,
                0,
                false,
            ),
            data == buffer@,
            n == pos,
            chain.chain_ok(data, n),
            data.len() <= u32::MAX,
            long_offset_limit + LONG_OFFSET_MAX >= pos,
            genuine(data, n, from as int, from_len as int),
            0 < from_len <= min_length,
            mode_ok(mode, from as int, min_length as int),
            from <= start,
            level < HASH_CHAINING_LEVELS,
            up ==> chain.link(from as int, level as int).length != 0 && from_len >= chain.link(
                from as int,
                level as int,
            ).length,
        decreases from, (if up {
            HASH_CHAINING_LEVELS - 1 - level
        } else {
            HASH_CHAINING_LEVELS + level
        }),
    {
        proof {
            lemma_state_ok(chain, data, n, from as int, from_len as int, level as int, up);
        }
        if from < long_offset_limit {
            return None;
        }
        let cur = chain.read(from, level, Ghost(data), Ghost(n));
        if cur.length == 0 {
            // past the highest level in use, or no match at all
            if level == 0 {
                return None;
            }
            level -= 1;
        } else if from_len < cur.length {
            // an equal match length can only be on a lower level
            if level == 0 || from_len > chain.read(from, level - 1, Ghost(data), Ghost(n)).skip_length {
                // no equal match here: every position up to the match of
                // this level matches fewer bytes, so go there
                proof {
                    lemma_genuine_trans(data, n, from as int, cur.position as int, from_len as int, cur.length as int, from_len as int);
                }
                from = cur.position as usize;
                proof { up = false; }
            } else {
                level -= 1;
            }
        } else if from_len == cur.length {
            // a candidate for a longer match
            if (cur.position as usize) < long_offset_limit {
                return None;
            }
            proof {
                lemma_genuine_trans(data, n, from as int, cur.position as int, from_len as int, cur.length as int, from_len as int);
            }
            let match_len = compare(buffer, pos, cur.position, from_len, mode);
            if match_len as usize > min_length {
                return Some((cur.position as usize, match_len as usize));
            }
            if match_len == cur.length {
                // the match could not be extended: look for a position that
                // matches as many bytes but goes on differently
                if cur.bad_position == u32::MAX || (cur.bad_position as usize) < long_offset_limit {
                    return None;
                }
                proof {
                    lemma_genuine_trans(data, n, from as int, cur.bad_position as int, from_len as int, cur.length as int, from_len as int);
                }
                let match_len = compare(buffer, pos, cur.bad_position, from_len, mode);
                if match_len as usize > min_length {
                    return Some((cur.bad_position as usize, match_len as usize));
                }
                from_len = match_len;
                from = cur.bad_position as usize;
                proof { up = false; }
            } else {
                // the candidate extended the match: follow it
                from_len = match_len;
                from = cur.position as usize;
                proof { up = false; }
            }
        } else if from_len <= cur.skip_length {
            // a longer match may be in the skipped sequence: follow it
            proof {
                lemma_genuine_trans(data, n, from as int, cur.position as int, from_len as int, cur.length as int, cur.length as int);
            }
            from_len = cur.length;
            from = cur.position as usize;
            proof { up = false; }
        } else if level == HASH_CHAINING_LEVELS - 1 {
            // the highest level: follow its match
            proof {
                lemma_genuine_trans(data, n, from as int, cur.position as int, from_len as int, cur.length as int, cur.length as int);
            }
            from_len = cur.length;
            from = cur.position as usize;
            proof { up = false; }
        } else {
            // a longer match may be on a higher level
            let above = chain.read(from, level + 1, Ghost(data), Ghost(n));
            if above.length == 0 {
                return None;
            } else if from_len < above.length {
                proof {
                    lemma_genuine_trans(data, n, from as int, above.position as int, from_len as int, above.length as int, from_len as int);
                }
                from = above.position as usize;
                level += 1;
                proof { up = false; }
            } else {
                level += 1;
                proof { up = true; }
            }
        }
    }
}


/// Pushing a match that starts where the last one from `start` on ended
/// keeps the matches before `start` and their order
proof fn lemma_push_increasing(
    f1: Seq<(usize, usize, usize)>,
    e: (usize, usize, usize),
    old_found: Seq<(usize, usize, usize)>,
    start: int,
)
    requires
        0 <= start <= f1.len(),
        f1.subrange(0, start) == old_found,
        increasing_from(f1, start),
        f1.len() > start ==> f1.last().2 == e.1,
    ensures
        f1.push(e).subrange(0, start) == old_found,
        increasing_from(f1.push(e), start),
        forall|j: int| 0 <= j < f1.len() ==> f1.push(e)[j] == f1[j],
{
    assert(f1.push(e).subrange(0, start) =~= f1.subrange(0, start));
    let f2 = f1.push(e);
    assert forall|j: int| start <= j < f2.len() - 1 implies #[trigger] f2[j + 1].1 == f2[j].2 by {
        if j < f1.len() - 1 {
            assert(f1[j + 1].1 == f1[j].2);
        }
    }
}

/// Matches added after `f1`, chained from its last one on, keep `f1`'s order
/// from `start` on and what it holds
proof fn lemma_extend_increasing(
    f1: Seq<(usize, usize, usize)>,
    f2: Seq<(usize, usize, usize)>,
    start: int,
)
    requires
        0 <= start < f1.len() <= f2.len(),
        f2.subrange(0, f1.len() as int) == f1,
        increasing_from(f1, start),
        increasing_from(f2, f1.len() - 1),
    ensures
        increasing_from(f2, start),
        forall|j: int| 0 <= j < f1.len() ==> f2[j] == f1[j],
        f2.subrange(0, start) == f1.subrange(0, start),
{
    assert forall|j: int| 0 <= j < f1.len() implies f2[j] == f1[j] by {
        assert(f2.subrange(0, f1.len() as int)[j] == f2[j]);
    }
    assert forall|j: int| start <= j < f2.len() - 1 implies #[trigger] f2[j + 1].1 == f2[j].2 by {
        if j < f1.len() - 1 {
            assert(f1[j + 1].1 == f1[j].2);
            assert(f2[j + 1] == f1[j + 1] && f2[j] == f1[j]);
        }
    }
    assert(f2.subrange(0, start) =~= f1.subrange(0, start));
}

/// Where the walk of [search_break] along the ring `links` for `pos` ends,
/// from `from`, matching `pos` in `from_len` bytes, after `prev_from`,
/// matching it in `prev_len`: the last position but one and the last, each
/// with its match length. The walk goes on while the match is shorter than
/// a copy's longest and `from` is in reach, through the level whose match is
/// as long as the match with `from`, as long as that leads to a longer match.
spec fn break_walk(
    data: Seq<u8>,
    links: Seq<Match>,
    pos: int,
    from: int,
    from_len: int,
    prev_from: int,
    prev_len: int,
) -> (int, int, int, int)
    decreases from,
    when search_state_ok(links, pos, from, from_len, 0, false)
{
    if 0 < from_len < LONG_LENGTH_MAX && from >= search_limit(pos) {
        proof {
            lemma_level_of_length(links, from, from_len, 0);
        }
        match level_of_length(links, from, from_len, 0) {
            None => (prev_from, prev_len, from, from_len),
            Some(level) => {
                let m = links[link_index(from, level)];
                let ml = spec_match_length(data, pos, m.position as int, LONG_LENGTH_MAX as int, from_len);
                if ml <= from_len {
                    (prev_from, prev_len, from, from_len)
                } else {
                    break_walk(data, links, pos, m.position as int, ml, from, from_len)
                }
            },
        }
    } else {
        (prev_from, prev_len, from, from_len)
    }
}

/// The positions, with their match lengths, that the walk of
/// [break_walk] adds to the matches found: every position it leaves but
/// the first
spec fn break_pushed(
    data: Seq<u8>,
    links: Seq<Match>,
    pos: int,
    from: int,
    from_len: int,
    prev_from: int,
    prev_len: int,
) -> Seq<(int, int)>
    decreases from,
    when search_state_ok(links, pos, from, from_len, 0, false)
{
    if 0 < from_len < LONG_LENGTH_MAX && from >= search_limit(pos) {
        proof {
            lemma_level_of_length(links, from, from_len, 0);
        }
        match level_of_length(links, from, from_len, 0) {
            None => Seq::empty(),
            Some(level) => {
                let m = links[link_index(from, level)];
                let ml = spec_match_length(data, pos, m.position as int, LONG_LENGTH_MAX as int, from_len);
                if ml <= from_len {
                    Seq::empty()
                } else {
                    (if from != prev_from {
                        seq![(from, from_len)]
                    } else {
                        Seq::empty()
                    }) + break_pushed(data, links, pos, m.position as int, ml, from, from_len)
                }
            },
        }
    } else {
        Seq::empty()
    }
}

/// Follows from `from`, whose first `from_len` bytes match `pos`, the
/// positions that match `pos` in more and more bytes, as long as the level
/// holding a match as long as the last one leads to a longer match. Each of
/// them but the first and the last is added to `found`, with the copy
/// lengths from one more than `max_matched`, and `max_matched` then becomes
/// its match length.
///
/// Returns the last position but one with its match length (the length up
/// to which the chain was skipped), then the last position with its match
/// length.
fn search_break(
    buffer: &[u8],
    chain: &MultiLevelHashChain,
    pos: usize,
    from: usize,
    from_len: u16,
    found: &mut Vec<(usize, usize, usize)>,
    max_matched: &mut usize,
) -> (r: (usize, usize, usize, usize))
    requires
        chain.chain_ok(buffer@, pos as int),
        buffer@.len() <= u32::MAX,
        genuine(buffer@, pos as int, from as int, from_len as int),
        from_len >= 2,
        *old(max_matched) == from_len,
        forall|j: int|
            0 <= j < old(found)@.len() ==> #[trigger] found_match(buffer@, pos as nat, old(found)@[j]),
        old(found)@.len() > 0,
        old(found)@.last().2 == *old(max_matched) + 1,
    ensures
        final(found)@.len() >= old(found)@.len(),
        final(found)@.subrange(0, old(found)@.len() as int) == old(found)@,
        final(found)@.last().2 == *final(max_matched) + 1,
        increasing_from(final(found)@, old(found)@.len() - 1),
        genuine(buffer@, pos as int, r.0 as int, r.1 as int),
        genuine(buffer@, pos as int, r.2 as int, r.3 as int),
        r.2 <= from,
        r.1 == *final(max_matched),
        from_len <= r.1 <= r.3,
        r.2 != from ==> r.1 < r.3,
        r.2 == from ==> r.3 == from_len,
        forall|j: int|
            0 <= j < final(found)@.len() ==> #[trigger] found_match(buffer@, pos as nat, final(found)@[j]),
        (r.0 as int, r.1 as int, r.2 as int, r.3 as int) == break_walk(
            buffer@,
            chain.data@,
            pos as int,
            from as int,
            from_len as int,
            from as int,
            from_len as int,
        ),
        ({
            let pushed = break_pushed(
                buffer@,
                chain.data@,
                pos as int,
                from as int,
                from_len as int,
                from as int,
                from_len as int,
            );
            &&& final(found)@.len() == old(found)@.len() + pushed.len()
            &&& forall|j: int|
                0 <= j < pushed.len() ==> #[trigger] final(found)@[old(found)@.len() + j].0
                    == pushed[j].0 && final(found)@[old(found)@.len() + j].2 == pushed[j].1 + 1
        }),
        forall|j: int|
            old(found)@.len() <= j < final(found)@.len() ==> pos - #[trigger] final(found)@[j].0
                <= LONG_OFFSET_MAX,
{
    let ghost data = buffer@;
    let ghost n = pos as int;
    let long_offset_limit = if pos > LONG_OFFSET_MAX as usize {
        pos - LONG_OFFSET_MAX as usize
    } else {
        0
    };
    let from0 = from;
    let from_len0 = from_len;
    let ghost found0 = found@;
    let ghost links = chain.data@;
    let ghost result = break_walk(
        data,
        links,
        n,
        from as int,
        from_len as int,
        from as int,
        from_len as int,
    );
    let ghost total = break_pushed(
        data,
        links,
        n,
        from as int,
        from_len as int,
        from as int,
        from_len as int,
    );
    let ghost mut done: Seq<(int, int)> = Seq::empty();
    let mut prev_from = from;
    let mut prev_len = from_len;
    let mut from = from;
    let mut from_len = from_len;
    while from_len < LONG_LENGTH_MAX && from >= long_offset_limit
        invariant
            data == buffer@,
            n == pos,
            chain.chain_ok(data, n),
            data.len() <= u32::MAX,
            long_offset_limit + LONG_OFFSET_MAX >= pos,
            genuine(data, n, from as int, from_len as int),
            genuine(data, n, prev_from as int, prev_len as int),
            *max_matched == prev_len,
            2 <= from_len0 <= prev_len <= from_len,
            prev_from == from ==> prev_len == from_len && from == from0 && from_len == from_len0,
            prev_from != from ==> prev_len < from_len && from < from0,
            from <= from0,
            forall|j: int|
                0 <= j < found@.len() ==> #[trigger] found_match(data, pos as nat, found@[j]),
            found@.len() >= found0.len(),
            found0.len() > 0,
            found@.subrange(0, found0.len() as int) == found0,
            found@.last().2 == *max_matched + 1,
            increasing_from(found@, found0.len() - 1),
            links == chain.data@,
            long_offset_limit == search_limit(n),
            search_state_ok(links, n, from as int, from_len as int, 0, false),
            result == break_walk(
                data,
                links,
                n,
                from as int,
                from_len as int,
                prev_from as int,
                prev_len as int,
            ),
            total == done + break_pushed(
                data,
                links,
                n,
                from as int,
                from_len as int,
                prev_from as int,
                prev_len as int,
            ),
            found@.len() == found0.len() + done.len(),
            forall|j: int|
                0 <= j < done.len() ==> #[trigger] found@[found0.len() + j].0 == done[j].0
                    && found@[found0.len() + j].2 == done[j].1 + 1,
            forall|j: int|
                found0.len() <= j < found@.len() ==> n - #[trigger] found@[j].0 <= LONG_OFFSET_MAX,
        ensures
            genuine(data, n, from as int, from_len as int),
            genuine(data, n, prev_from as int, prev_len as int),
            *max_matched == prev_len,
            2 <= from_len0 <= prev_len <= from_len,
            prev_from == from ==> prev_len == from_len && from == from0 && from_len == from_len0,
            prev_from != from ==> prev_len < from_len && from < from0,
            from <= from0,
            forall|j: int|
                0 <= j < found@.len() ==> #[trigger] found_match(data, pos as nat, found@[j]),
            found@.len() >= found0.len(),
            found0.len() > 0,
            found@.subrange(0, found0.len() as int) == found0,
            found@.last().2 == *max_matched + 1,
            increasing_from(found@, found0.len() - 1),
            links == chain.data@,
            long_offset_limit == search_limit(n),
            search_state_ok(links, n, from as int, from_len as int, 0, false),
            result == break_walk(
                data,
                links,
                n,
                from as int,
                from_len as int,
                prev_from as int,
                prev_len as int,
            ),
            total == done + break_pushed(
                data,
                links,
                n,
                from as int,
                from_len as int,
                prev_from as int,
                prev_len as int,
            ),
            found@.len() == found0.len() + done.len(),
            forall|j: int|
                0 <= j < done.len() ==> #[trigger] found@[found0.len() + j].0 == done[j].0
                    && found@[found0.len() + j].2 == done[j].1 + 1,
            forall|j: int|
                found0.len() <= j < found@.len() ==> n - #[trigger] found@[j].0 <= LONG_OFFSET_MAX,
            result == (prev_from as int, prev_len as int, from as int, from_len as int),
            total == done,
        decreases from,
    {
        proof {
            lemma_state_ok(chain, data, n, from as int, from_len as int, 0, false);
            lemma_level_of_length(links, from as int, from_len as int, 0);
        }
        // the level whose match is as long as the match with `from` may
        // match more bytes, since the byte after it differs from `from`
        let level = match equal_level(chain, from, from_len, Ghost(data), Ghost(n)) {
            Some(level) => level,
            None => {
                assert(done + Seq::<(int, int)>::empty() =~= done);
                break;
            },
        };
        let m = chain.read(from, level, Ghost(data), Ghost(n));
        proof {
            lemma_genuine_trans(data, n, from as int, m.position as int, from_len as int, m.length as int, from_len as int);
        }
        let match_len = match_length(
            buffer,
            pos,
            m.position as usize,
            LONG_LENGTH_MAX as usize,
            from_len as usize,
        );
        proof {
            lemma_is_match_length_run(
                data,
                pos + from_len,
                m.position + from_len,
                LONG_LENGTH_MAX - from_len,
                match_len - from_len,
            );
        }
        if match_len <= from_len as usize {
            assert(done + Seq::<(int, int)>::empty() =~= done);
            break;
        }
        // the longest match of the sequence is kept out of `found`, as it
        // often makes a good link for the level above
        if from != prev_from {
            let ghost f1 = found@;
            found.push((from, *max_matched + 1, from_len as usize + 1));
            *max_matched = from_len as usize;
            proof {
                assert(seq![(from as int, from_len as int)] + break_pushed(
                    data,
                    links,
                    n,
                    m.position as int,
                    match_len as int,
                    from as int,
                    from_len as int,
                ) == break_pushed(
                    data,
                    links,
                    n,
                    from as int,
                    from_len as int,
                    prev_from as int,
                    prev_len as int,
                ));
                assert(done + break_pushed(
                    data,
                    links,
                    n,
                    from as int,
                    from_len as int,
                    prev_from as int,
                    prev_len as int,
                ) =~= done.push((from as int, from_len as int)) + break_pushed(
                    data,
                    links,
                    n,
                    m.position as int,
                    match_len as int,
                    from as int,
                    from_len as int,
                ));
                assert forall|j: int| 0 <= j < f1.len() implies found@[j] == f1[j] by {}
                done = done.push((from as int, from_len as int));
            }
            assert(found@.subrange(0, found0.len() as int) =~= f1.subrange(0, found0.len() as int));
            assert forall|j: int| found0.len() - 1 <= j < found@.len() - 1 implies #[trigger] found@[j
                + 1].1 == found@[j].2 by {
                if j < f1.len() - 1 {
                    assert(f1[j + 1].1 == f1[j].2);
                }
            }
        }
        else {
            proof {
                assert(Seq::<(int, int)>::empty() + break_pushed(
                    data,
                    links,
                    n,
                    m.position as int,
                    match_len as int,
                    from as int,
                    from_len as int,
                ) =~= break_pushed(
                    data,
                    links,
                    n,
                    m.position as int,
                    match_len as int,
                    from as int,
                    from_len as int,
                ));
            }
        }
        prev_from = from;
        prev_len = from_len;
        from = m.position as usize;
        from_len = match_len as u16;
        proof {
            lemma_state_ok(chain, data, n, from as int, from_len as int, 0, false);
        }
    }
    (prev_from, prev_len as usize, from, from_len as usize)
}

/// Links of a position with no match on any level
fn empty_link() -> (link: Vec<Match>)
    ensures
        link@.len() == HASH_CHAINING_LEVELS,
        forall|l: int| 0 <= l < HASH_CHAINING_LEVELS ==> #[trigger] link@[l] == no_match(),
{
    let mut link: Vec<Match> = Vec::with_capacity(HASH_CHAINING_LEVELS);
    let mut level: usize = 0;
    while level < HASH_CHAINING_LEVELS
        invariant
            level <= HASH_CHAINING_LEVELS,
            link@.len() == level,
            forall|l: int| 0 <= l < level ==> #[trigger] link@[l] == no_match(),
        decreases HASH_CHAINING_LEVELS - level,
    {
        link.push(Match::default());
        level += 1;
    }
    link
}

/// `link` with the bad position of level `level` set to `bad_position`
fn with_bad_position(link: &mut Vec<Match>, level: usize, bad_position: usize)
    requires
        level < old(link)@.len(),
        bad_position <= u32::MAX,
    ensures
        final(link)@ == old(link)@.update(
            level as int,
            (Match { bad_position: bad_position as u32, ..old(link)@[level as int] }),
        ),
{
    let m = link[level];
    link.set(level, Match { bad_position: bad_position as u32, ..m });
}

/// Fills `link`, the links of `pos` whose first level is the match with
/// `prev_pos`, the last earlier position with the same first three bytes,
/// by searching the chain; and adds to `found` the matches met on the way,
/// each longer than the one before.
fn link_matches(
    buffer: &[u8],
    chain: &MultiLevelHashChain,
    pos: usize,
    prev_pos: u32,
    link: &mut Vec<Match>,
    found: &mut Vec<(usize, usize, usize)>,
)
    requires
        chain.chain_ok(buffer@, pos as int),
        buffer@.len() <= u32::MAX,
        pos + 3 <= buffer@.len(),
        prev_pos < pos,
        matches_for(buffer@, pos as int, prev_pos as int, 3),
        old(link)@.len() == HASH_CHAINING_LEVELS,
        forall|l: int| 0 <= l < HASH_CHAINING_LEVELS ==> #[trigger] old(link)@[l] == no_match(),
        forall|j: int|
            0 <= j < old(found)@.len() ==> #[trigger] found_match(buffer@, pos as nat, old(found)@[j]),
    ensures
        final(link)@.len() == HASH_CHAINING_LEVELS,
        forall|l: int|
            0 <= l < HASH_CHAINING_LEVELS ==> link_ok(buffer@, pos as int, #[trigger] final(link)@[l]),
        final(link)@[0].position == prev_pos,
        final(link)@[0].length == spec_match_length(
            buffer@,
            pos as int,
            prev_pos as int,
            LONG_LENGTH_MAX as int,
            3,
        ),
        final(found)@.len() > old(found)@.len(),
        final(found)@.subrange(0, old(found)@.len() as int) == old(found)@,
        final(found)@[old(found)@.len() as int] == (
            prev_pos as usize,
            3usize,
            (spec_match_length(buffer@, pos as int, prev_pos as int, LONG_LENGTH_MAX as int, 3)
                + 1) as usize,
        ),
        increasing_from(final(found)@, old(found)@.len() as int),
        forall|j: int|
            0 <= j < final(found)@.len() ==> #[trigger] found_match(buffer@, pos as nat, final(found)@[j]),
{
    let ghost data = buffer@;
    let ghost n = pos as int;
    // the match with the last position of the same prefix
    let ghost old_found = found@;
    let ghost old_len = found@.len() as int;
    let match_length = match_length(buffer, pos, prev_pos as usize, LONG_LENGTH_MAX as usize, 3);
    let ghost ml = spec_match_length(data, pos as int, prev_pos as int, LONG_LENGTH_MAX as int, 3);
    proof {
        lemma_is_match_length_run(
            data,
            pos + 3,
            prev_pos + 3,
            LONG_LENGTH_MAX - 3,
            match_length - 3,
        );
    }
    let ghost first = (prev_pos as usize, 3usize, (ml + 1) as usize);
    link.set(
        0,
        Match {
            position: prev_pos,
            bad_position: u32::MAX,
            length: match_length as u16,
            skip_length: 0,
        },
    );
    // matches are at least 3 bytes long
    let mut max_matched: usize = 2;
    // no match is longer than a copy or than what is left of the input
    let max_possible_match = if (LONG_LENGTH_MAX as usize) < buffer.len() - pos {
        LONG_LENGTH_MAX as usize
    } else {
        buffer.len() - pos
    };
    let mut cur_level: usize = 0;
    while cur_level < HASH_CHAINING_LEVELS
        invariant_except_break
            cur_level < HASH_CHAINING_LEVELS ==> 2 <= max_matched < link@[cur_level as int].length,
            cur_level == 0 ==> found@.len() == old_len && max_matched == 2,
        invariant
            old_len == old_found.len(),
            ml == spec_match_length(data, pos as int, prev_pos as int, LONG_LENGTH_MAX as int, 3),
            first == (prev_pos as usize, 3usize, (ml + 1) as usize),
            link@[0].position == prev_pos,
            link@[0].length == ml,
            found@.len() >= old_len,
            found@.subrange(0, old_len) == old_found,
            increasing_from(found@, old_len),
            found@.len() > old_len ==> found@[old_len] == first && found@.last().2 == max_matched
                + 1,
            cur_level > 0 ==> found@.len() > old_len,
            data == buffer@,
            n == pos,
            chain.chain_ok(data, n),
            data.len() <= u32::MAX,
            pos + 3 <= data.len(),
            max_possible_match <= LONG_LENGTH_MAX,
            max_possible_match <= data.len() - pos,
            link@.len() == HASH_CHAINING_LEVELS,
            forall|l: int| 0 <= l < HASH_CHAINING_LEVELS ==> link_ok(data, n, #[trigger] link@[l]),
            forall|l: int| cur_level < l < HASH_CHAINING_LEVELS ==> #[trigger] link@[l] == no_match(),
            forall|j: int|
                0 <= j < found@.len() ==> #[trigger] found_match(data, pos as nat, found@[j]),
        ensures
            link@.len() == HASH_CHAINING_LEVELS,
            forall|l: int| 0 <= l < HASH_CHAINING_LEVELS ==> link_ok(data, n, #[trigger] link@[l]),
            link@[0].position == prev_pos,
            link@[0].length == ml,
            found@.len() > old_len,
            found@.subrange(0, old_len) == old_found,
            found@[old_len] == first,
            increasing_from(found@, old_len),
            forall|j: int|
                0 <= j < found@.len() ==> #[trigger] found_match(data, pos as nat, found@[j]),
        decreases HASH_CHAINING_LEVELS - cur_level,
    {
        let next_level = cur_level + 1;
        let cur_match = link[cur_level];
        proof {
            lemma_push_increasing(
                found@,
                (cur_match.position as usize, (max_matched + 1) as usize, (cur_match.length + 1) as usize),
                old_found,
                old_len,
            );
        }
        found.push((cur_match.position as usize, max_matched + 1, cur_match.length as usize + 1));
        max_matched = cur_match.length as usize;
        if max_matched >= max_possible_match {
            break;
        }
        // skip the positions whose matches are each one longer than the one
        // before, which runs of bytes would otherwise spread over many levels
        let ghost f1 = found@;
        let (_skip_pos, skip_len, next_pos, next_len) = search_break(
            buffer,
            chain,
            pos,
            cur_match.position as usize,
            cur_match.length,
            found,
            &mut max_matched,
        );
        proof {
            lemma_extend_increasing(f1, found@, old_len);
        }
        link.set(cur_level, Match { skip_length: skip_len as u16, ..cur_match });
        if skip_len >= max_possible_match {
            break;
        }
        let except = MatchMode::Except {
            anchor: cur_match.position as usize,
            length: cur_match.length as usize,
        };
        if next_level < HASH_CHAINING_LEVELS {
            if next_pos != cur_match.position as usize {
                // the end of the skipped sequence is the match of the next
                // level; only the bad position is left to find
                link.set(
                    next_level,
                    Match {
                        position: next_pos as u32,
                        bad_position: u32::MAX,
                        length: next_len as u16,
                        skip_length: 0,
                    },
                );
                if let Some((bad_pos, _bad_len)) = search_from_offset(
                    buffer,
                    chain,
                    pos,
                    cur_match.length as usize,
                    cur_match.position as usize,
                    cur_match.length,
                    except,
                ) {
                    with_bad_position(link, cur_level, bad_pos);
                }
                cur_level = next_level;
                continue;
            }
            // the position that matches more bytes, or as many bytes and
            // then a different one, whichever comes first
            let first = search_from_offset(
                buffer,
                chain,
                pos,
                cur_match.length as usize,
                cur_match.position as usize,
                cur_match.length,
                MatchMode::Or {
                    anchor: cur_match.position as usize,
                    length: cur_match.length as usize,
                },
            );
            let (first_pos, first_len) = match first {
                Some(f) => f,
                None => break,
            };
            if byte_offset_matches(buffer, pos, first_pos, cur_match.length as usize) {
                // the good position, the match of the next level; then look
                // for the bad position from there
                link.set(
                    next_level,
                    Match {
                        position: first_pos as u32,
                        bad_position: u32::MAX,
                        length: first_len as u16,
                        skip_length: 0,
                    },
                );
                if let Some((bad_pos, _bad_len)) = search_from_offset(
                    buffer,
                    chain,
                    pos,
                    cur_match.length as usize,
                    first_pos,
                    cur_match.length,
                    except,
                ) {
                    with_bad_position(link, cur_level, bad_pos);
                }
            } else {
                // the bad position; then look for the good one from there
                with_bad_position(link, cur_level, first_pos);
                match search_from_offset(
                    buffer,
                    chain,
                    pos,
                    cur_match.length as usize,
                    first_pos,
                    cur_match.length,
                    MatchMode::Plain,
                ) {
                    Some((good_pos, good_len)) => {
                        link.set(
                            next_level,
                            Match {
                                position: good_pos as u32,
                                bad_position: u32::MAX,
                                length: good_len as u16,
                                skip_length: 0,
                            },
                        );
                    },
                    None => break,
                }
            }
            cur_level = next_level;
        } else {
            // the highest level: find its bad position, then give the rest
            // of the matches without storing them
            if let Some((bad_pos, _bad_len)) = search_from_offset(
                buffer,
                chain,
                pos,
                cur_match.length as usize,
                cur_match.position as usize,
                cur_match.length,
                except,
            ) {
                with_bad_position(link, cur_level, bad_pos);
            }
            if next_pos != cur_match.position as usize {
                proof {
                    lemma_push_increasing(
                        found@,
                        (next_pos, (max_matched + 1) as usize, (next_len + 1) as usize),
                        old_found,
                        old_len,
                    );
                }
                found.push((next_pos, max_matched + 1, next_len + 1));
                max_matched = next_len;
            }
            let mut cur_pos = next_pos;
            loop
                invariant_except_break
                    data == buffer@,
                    n == pos,
                    chain.chain_ok(data, n),
                    data.len() <= u32::MAX,
                    genuine(data, n, cur_pos as int, max_matched as int),
                    2 <= max_matched,
                    forall|j: int|
                        0 <= j < found@.len() ==> #[trigger] found_match(data, pos as nat, found@[j]),
                    old_len == old_found.len(),
                    found@.len() > old_len,
                    found@.subrange(0, old_len) == old_found,
                    found@[old_len] == first,
                    increasing_from(found@, old_len),
                    found@.last().2 == max_matched + 1,
                ensures
                    forall|j: int|
                        0 <= j < found@.len() ==> #[trigger] found_match(data, pos as nat, found@[j]),
                    found@.len() > old_len,
                    found@.subrange(0, old_len) == old_found,
                    found@[old_len] == first,
                    increasing_from(found@, old_len),
                    found@.last().2 == max_matched + 1,
                decreases LONG_LENGTH_MAX - max_matched,
            {
                let (match_pos, len) = match search_from_offset(
                    buffer,
                    chain,
                    pos,
                    max_matched,
                    cur_pos,
                    max_matched as u16,
                    MatchMode::Plain,
                ) {
                    Some(m) => m,
                    None => break,
                };
                proof {
                    lemma_push_increasing(
                        found@,
                        (match_pos, (max_matched + 1) as usize, (len + 1) as usize),
                        old_found,
                        old_len,
                    );
                }
                found.push((match_pos, max_matched + 1, len + 1));
                max_matched = len;
                cur_pos = match_pos;
                if len == max_possible_match {
                    break;
                }
            }
            break;
        }
    }
}

/// A hash chain with several levels.
///
/// With one level this is a plain hash chain: every link points to the last
/// earlier position with the same prefix. Like a skip list, the levels
/// above the lowest only point to matches longer than what the level below
/// skips over, so that the distances between the positions of a level tend
/// to grow exponentially with the level and a search takes amortized
/// logarithmic time. Some degenerate inputs still make it linear.
pub(crate) struct MultiLevelPrefixSearcher<'a> {
    buffer: &'a [u8],
    /// the last position of every prefix
    head: PrefixTable,
    prev: MultiLevelHashChain,
    next: Ghost<nat>,
}

impl<'a> PrefixSearcher<'a> for MultiLevelPrefixSearcher<'a> {
    closed spec fn data(&self) -> Seq<u8> {
        self.buffer@
    }

    closed spec fn next_position(&self) -> nat {
        self.next@
    }

    /// The table maps each prefix to the last position before the next one
    /// that starts with it, and the links held are genuine
    closed spec fn wf(&self) -> bool {
        &&& self.head.wf()
        &&& self.buffer@.len() <= u32::MAX
        &&& table_latest(self.head.view(), self.buffer@, self.next@ as int)
        &&& self.prev.chain_ok(self.buffer@, self.next@ as int)
    }

    fn build(buffer: &'a [u8]) -> (s: Self) {
        let mut head = PrefixTable::new(buffer.len());
        let _ = head.insert(prefix(buffer), 0);
        let prev = MultiLevelHashChain::new(buffer.len());
        let s = Self { buffer, head, prev, next: Ghost(1) };
        assert forall|p: int, level: int|
            0 <= p < 1 && 1 <= p + HASH_CHAIN_BUFFER_SIZE && 0 <= level < HASH_CHAINING_LEVELS
                implies link_ok(buffer@, p, #[trigger] s.prev.data@[link_index(p, level)]) by {
            lemma_link_index(p, level, buffer@.len());
        }
        s
    }

    fn search(&mut self, pos: usize) -> (found: Vec<(usize, usize, usize)>) {
        let ghost data = self.buffer@;
        let ghost n = pos as int;
        let mut found: Vec<(usize, usize, usize)> = Vec::new();
        let p = prefix(&self.buffer[pos..self.buffer.len()]);
        assert(p@ =~= data.subrange(n, n + 3));
        assert(prefix_key(p@[0], p@[1], p@[2]) == key_at(data, n));
        let ghost old_head = self.head.view();
        proof {
            lemma_table_insert(old_head, data, n);
        }
        let prev_pos = self.head.insert(p, pos as u32);
        self.next = Ghost((pos + 1) as nat);
        // the links of `pos` are built apart, no search reads them, and
        // stored at the end over whatever its slot held
        let mut link = empty_link();
        if let Some(prev_pos) = prev_pos {
            if pos as u32 - prev_pos <= LONG_OFFSET_MAX {
                proof {
                    let key = key_at(data, n);
                    assert(old_head.contains_key(key));
                    lemma_prefix_key_injective(
                        data[prev_pos as int],
                        data[prev_pos + 1],
                        data[prev_pos + 2],
                        data[n],
                        data[n + 1],
                        data[n + 2],
                    );
                    assert forall|k: int| 0 <= k < 3 implies #[trigger] data[n + k] == data[prev_pos
                        + k] by {
                        if k == 1 {
                            assert(data[n + 1] == data[prev_pos + 1]);
                        } else if k == 2 {
                            assert(data[n + 2] == data[prev_pos + 2]);
                        }
                    }
                }
                link_matches(self.buffer, &self.prev, pos, prev_pos, &mut link, &mut found);
            }
        }
        assert(forall|l: int| 0 <= l < HASH_CHAINING_LEVELS ==> link_ok(data, n, #[trigger] link@[l]));
        proof {
            lemma_link_index(n, HASH_CHAINING_LEVELS - 1, data.len());
        }
        let ghost before = self.prev.data@;
        self.prev.store(pos, &link);
        proof {
            let b = HASH_CHAIN_BUFFER_SIZE as int;
            assert forall|q: int, level: int|
                0 <= q < n + 1 && n + 1 <= q + b && 0 <= level < HASH_CHAINING_LEVELS implies link_ok(
                data,
                q,
                #[trigger] self.prev.data@[link_index(q, level)],
            ) by {
                if q < n {
                    lemma_distinct_slots(q, n, b);
                    lemma_link_index(q, level, data.len());
                    vstd::arithmetic::div_mod::lemma_mod_bound(q, b);
                    vstd::arithmetic::div_mod::lemma_mod_bound(n, b);
                    assert(link_index(q, level) < link_index(n, 0) || link_index(q, level) > link_index(n, HASH_CHAINING_LEVELS - 1));
                    assert(self.prev.data@[link_index(q, level)] == before[link_index(q, level)]);
                    assert(link_ok(data, q, before[link_index(q, level)]));
                } else {
                    assert(self.prev.data@[link_index(q, level)] == link@[level]);
                }
            }
        }
        found
    }
}

} // verus!
