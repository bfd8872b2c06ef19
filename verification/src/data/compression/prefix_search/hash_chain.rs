//! A hash chain: for every position, the previous position that starts with
//! the same three bytes, if it is in reach of a copy
use vstd::prelude::*;

use crate::data::compression::match_length::{lemma_is_match_length_run, match_length, spec_match_length};
use crate::data::compression::prefix_search::hash_table::PrefixTable;
use crate::data::compression::prefix_search::{
    chain_size, found_match, in_reach_match, increasing_from, is_latest, is_link, key_at,
    lemma_latest_exists, lemma_table_insert,
    table_latest, lemma_slot_in_bounds, lemma_distinct_slots, lemma_prefix_key_injective, prefix, prefix_key,
    PrefixSearcher, HASH_CHAIN_BUFFER_SIZE,
};
use crate::data::control::{LONG_LENGTH_MAX, LONG_OFFSET_MAX};

verus! {

/// `v` is the link kept for position `p` of `data`: the last earlier position
/// with the same three bytes when it is in reach of a copy, else `u32::MAX`
pub open spec fn link_ok(data: Seq<u8>, p: int, v: u32) -> bool {
    if v == u32::MAX {
        forall|q: int| #[trigger] is_latest(data, p, q) ==> p - q > LONG_OFFSET_MAX
    } else {
        is_link(data, p, v as int) && is_latest(data, p, v as int)
    }
}

/// The last position of every prefix, and for every one of the last
/// positions the previous one with the same prefix
pub(crate) struct HashChain {
    prefix_table: PrefixTable,
    hash_chain: Vec<u32>,
}

impl HashChain {
    /// The positions before `n` of `data` have been inserted in order: the
    /// table maps each key to the last of them with that key, and the link
    /// kept for each of the last positions is a link from it or `u32::MAX`
    pub closed spec fn wf(&self, data: Seq<u8>, n: nat) -> bool {
        &&& self.prefix_table.wf()
        &&& data.len() <= u32::MAX
        &&& n > 0 ==> n + 2 <= data.len()
        &&& self.hash_chain@.len() == chain_size(data.len())
        &&& table_latest(self.prefix_table.view(), data, n as int)
        &&& forall|p: int|
            0 <= p < n && n <= p + HASH_CHAIN_BUFFER_SIZE ==> link_ok(
                data,
                p,
                #[trigger] self.hash_chain@[p as int % (HASH_CHAIN_BUFFER_SIZE as int)],
            )
    }

    /// The chain remembers no position: its table holds no prefix, and no
    /// slot holds a link
    pub closed spec fn is_empty(&self) -> bool {
        &&& self.prefix_table.view() == Map::<u32, u32>::empty()
        &&& forall|i: int| 0 <= i < self.hash_chain@.len() ==> #[trigger] self.hash_chain@[i] == u32::MAX
    }

    /// An empty chain for an input of `bytes` bytes
    pub fn new(bytes: usize) -> (c: Self)
        requires
            bytes <= u32::MAX,
        ensures
            c.is_empty(),
            forall|data: Seq<u8>| data.len() == bytes ==> #[trigger] c.wf(data, 0),
    {
        let size = if bytes < HASH_CHAIN_BUFFER_SIZE {
            bytes
        } else {
            HASH_CHAIN_BUFFER_SIZE
        };
        Self { prefix_table: PrefixTable::new(bytes), hash_chain: vec![u32::MAX; size] }
    }

    /// Inserts `position`, the next position of `data`, whose first three
    /// bytes are `prefix`, and returns the previous position with the same
    /// prefix if it is in reach of a copy
    pub fn insert(&mut self, prefix: [u8; 3], position: u32, Ghost(data): Ghost<Seq<u8>>) -> (r:
        Option<u32>)
        requires
            old(self).wf(data, position as nat),
            position + 3 <= data.len(),
            prefix@ == data.subrange(position as int, position + 3),
        ensures
            final(self).wf(data, (position + 1) as nat),
            r matches Some(v) ==> is_link(data, position as int, v as int),
            r matches Some(v) ==> is_latest(data, position as int, v as int),
            r is None ==> forall|q: int|
                #[trigger] is_latest(data, position as int, q) ==> position - q > LONG_OFFSET_MAX,
    {
        proof {
            lemma_table_insert(self.prefix_table.view(), data, position as int);
        }
        let ghost n = position as int;
        assert(prefix_key(prefix@[0], prefix@[1], prefix@[2]) == key_at(data, n));
        let found_position = match self.prefix_table.insert(prefix, position) {
            Some(pos) => if position - pos <= LONG_OFFSET_MAX {
                Some(pos)
            } else {
                None
            },
            None => None,
        };
        let index = position as usize % HASH_CHAIN_BUFFER_SIZE;
        proof {
            lemma_slot_in_bounds(n, data.len());
        }
        let link = match found_position {
            Some(p) => p,
            None => u32::MAX,
        };
        let ghost before = self.hash_chain@;
        self.hash_chain.set(index, link);
        proof {
            let b = HASH_CHAIN_BUFFER_SIZE as int;
            assert forall|p: int| 0 <= p < n + 1 && n + 1 <= p + b implies link_ok(
                data,
                p,
                #[trigger] self.hash_chain@[p % b],
            ) by {
                lemma_slot_in_bounds(p, data.len());
                if p < n {
                    lemma_distinct_slots(p, n, b);
                    assert(self.hash_chain@[p % b] == before[p % b]);
                }
            }
        }
        found_position
    }

    /// The positions that follow `found`, the position that [HashChain::insert]
    /// returned for `orig_position`, in the chain: first `found`, then the
    /// link of each position that was given before
    pub(crate) fn chain_from(&self, orig_position: u32, found: Option<u32>) -> (it: HashChainIter<'_>)
        ensures
            it.hash_chain == self,
            it.orig_position == orig_position,
            it.pending == found,
            it.cur_position == found,
    {
        HashChainIter { hash_chain: self, orig_position, pending: found, cur_position: found }
    }
}

/// The positions of a hash chain that start with the same three bytes as
/// `orig_position`, from the latest back
pub(crate) struct HashChainIter<'a> {
    pub(crate) hash_chain: &'a HashChain,
    pub(crate) orig_position: u32,
    pub(crate) pending: Option<u32>,
    pub(crate) cur_position: Option<u32>,
}

impl<'a> HashChainIter<'a> {
    /// The chain holds `orig_position` and what it has not given yet is made
    /// of links from it
    pub(crate) open spec fn wf(&self, data: Seq<u8>) -> bool {
        &&& self.hash_chain.wf(data, (self.orig_position + 1) as nat)
        &&& self.pending matches Some(v) ==> is_link(data, self.orig_position as int, v as int)
        &&& self.cur_position matches Some(v) ==> is_link(
            data,
            self.orig_position as int,
            v as int,
        )
    }

    /// Bound on the number of positions still to be given
    pub(crate) open spec fn remaining(&self) -> nat {
        (match self.pending {
            Some(_) => 1nat,
            None => 0nat,
        }) + (match self.cur_position {
            Some(v) => v as nat + 1,
            None => 0nat,
        })
    }

    /// What [HashChainIter::next] returns, then the pending and current
    /// positions after it: the pending position if any, else the link of the
    /// current position while it is in reach of a copy
    pub(crate) closed spec fn step(&self) -> (Option<u32>, Option<u32>, Option<u32>) {
        match self.pending {
            Some(v) => (Some(v), None, self.cur_position),
            None => match self.cur_position {
                None => (None, None, None),
                Some(p) => {
                    let next = self.hash_chain.hash_chain@[p as int % (HASH_CHAIN_BUFFER_SIZE as int)];
                    let r = if next == u32::MAX || self.orig_position - next > LONG_OFFSET_MAX {
                        None
                    } else {
                        Some(next)
                    };
                    (r, None, r)
                },
            },
        }
    }

    /// The next position of the chain, `None` once the chain leaves the reach
    /// of a copy or ends
    pub(crate) fn next(&mut self, Ghost(data): Ghost<Seq<u8>>) -> (r: Option<u32>)
        requires
            old(self).wf(data),
        ensures
            final(self).wf(data),
            final(self).orig_position == old(self).orig_position,
            final(self).hash_chain == old(self).hash_chain,
            (r, final(self).pending, final(self).cur_position) == old(self).step(),
            r matches Some(v) ==> is_link(data, old(self).orig_position as int, v as int)
                && final(self).remaining() < old(self).remaining(),
    {
        if let Some(v) = self.pending {
            self.pending = None;
            return Some(v);
        }
        let position = match self.cur_position {
            Some(p) => p,
            None => return None,
        };
        let ghost b = HASH_CHAIN_BUFFER_SIZE as int;
        let ghost n = self.orig_position + 1;
        assert(0 <= position < n && n <= position + b);
        proof {
            lemma_slot_in_bounds(position as int, data.len());
        }
        let next_pos = self.hash_chain.hash_chain[position as usize % HASH_CHAIN_BUFFER_SIZE];
        assert(next_pos == self.hash_chain.hash_chain@[position as int % b]);
        self.cur_position = if next_pos == u32::MAX || self.orig_position - next_pos
            > LONG_OFFSET_MAX {
            None
        } else {
            Some(next_pos)
        };
        self.cur_position
    }
}

/// Law: the link kept for a position `p` that is in reach of a copy at
/// `pos`, the position inserted last, is, when it is in reach of `pos` too,
/// the last position below `p` with the three bytes of `pos`; when it is not,
/// no position below `p` with those bytes is in reach of `pos`
proof fn lemma_link_step(chain: &HashChain, data: Seq<u8>, pos: int, p: int)
    requires
        chain.wf(data, (pos + 1) as nat),
        in_reach_match(data, pos, p),
    ensures
        ({
            let v = chain.hash_chain@[p % (HASH_CHAIN_BUFFER_SIZE as int)];
            if v == u32::MAX || pos - v > LONG_OFFSET_MAX {
                forall|q: int| q < p ==> !#[trigger] in_reach_match(data, pos, q)
            } else {
                &&& v < p
                &&& in_reach_match(data, pos, v as int)
                &&& forall|q: int| v < q < p ==> !#[trigger] in_reach_match(data, pos, q)
            }
        }),
{
    let b = HASH_CHAIN_BUFFER_SIZE as int;
    let v = chain.hash_chain@[p % b];
    assert(link_ok(data, p, v));
    if v == u32::MAX {
        assert forall|q: int| q < p implies !#[trigger] in_reach_match(data, pos, q) by {
            if in_reach_match(data, pos, q) {
                lemma_latest_exists(data, p, q);
                let r = choose|r: int| q <= r < p && #[trigger] is_latest(data, p, r);
                assert(p - r > LONG_OFFSET_MAX);
            }
        }
    } else {
        assert(is_latest(data, p, v as int));
        assert forall|q: int| v < q < p implies !#[trigger] in_reach_match(data, pos, q) by {
            assert(key_at(data, q) != key_at(data, p));
        }
        if pos - v > LONG_OFFSET_MAX {
            assert forall|q: int| q < p implies !#[trigger] in_reach_match(data, pos, q) by {
                if v < q {
                    assert(key_at(data, q) != key_at(data, p));
                }
            }
        }
    }
}

/// A prefix searcher that walks a plain hash chain
pub(crate) struct HashChainPrefixSearcher<'a> {
    buffer: &'a [u8],
    hash_chain: HashChain,
    next: Ghost<nat>,
}

impl<'a> PrefixSearcher<'a> for HashChainPrefixSearcher<'a> {
    closed spec fn data(&self) -> Seq<u8> {
        self.buffer@
    }

    closed spec fn next_position(&self) -> nat {
        self.next@
    }

    closed spec fn wf(&self) -> bool {
        self.hash_chain.wf(self.buffer@, self.next@)
    }

    fn build(buffer: &'a [u8]) -> (s: Self) {
        let mut hash_chain = HashChain::new(buffer.len());
        assert(hash_chain.wf(buffer@, 0));
        let _ = hash_chain.insert(prefix(buffer), 0, Ghost(buffer@));
        Self { buffer, hash_chain, next: Ghost(1) }
    }

    #[verifier::rlimit(80)]
    #[verifier::spinoff_prover]
    fn search(&mut self, pos: usize) -> (found: Vec<(usize, usize, usize)>)
        ensures
            forall|j: int|
                0 <= j < found@.len() ==> in_reach_match(
                    old(self).data(),
                    pos as int,
                    (#[trigger] found@[j]).0 as int,
                ) && found@[j].2 == spec_match_length(
                    old(self).data(),
                    pos as int,
                    found@[j].0 as int,
                    LONG_LENGTH_MAX as int,
                    3,
                ) + 1,
            forall|j: int, q: int|
                #![trigger found@[j], in_reach_match(old(self).data(), pos as int, q)]
                0 <= j < found@.len() && in_reach_match(old(self).data(), pos as int, q)
                    && found@[j].0 < q ==> spec_match_length(
                    old(self).data(),
                    pos as int,
                    q,
                    LONG_LENGTH_MAX as int,
                    3,
                ) < found@[j].1,
            forall|q: int|
                #[trigger] in_reach_match(old(self).data(), pos as int, q) ==> found@.len() > 0
                    && spec_match_length(
                    old(self).data(),
                    pos as int,
                    q,
                    LONG_LENGTH_MAX as int,
                    3,
                ) < found@.last().2,
    {
        let ghost data = self.buffer@;
        let mut found: Vec<(usize, usize, usize)> = Vec::new();
        let mut min_length: usize = 2;
        let p = prefix(&self.buffer[pos..self.buffer.len()]);
        assert(p@ =~= data.subrange(pos as int, pos + 3));
        let matched = self.hash_chain.insert(p, pos as u32, Ghost(data));
        self.next = Ghost((pos + 1) as nat);
        let mut chain = self.hash_chain.chain_from(pos as u32, matched);
        let ghost mut bound: int = pos as int;
        proof {
            match matched {
                Some(v) => {
                    assert forall|q: int| v < q < pos implies !#[trigger] in_reach_match(
                        data,
                        pos as int,
                        q,
                    ) by {
                        assert(key_at(data, q) != key_at(data, pos as int));
                    }
                },
                None => {
                    assert forall|q: int| q < pos implies !#[trigger] in_reach_match(
                        data,
                        pos as int,
                        q,
                    ) by {
                        if in_reach_match(data, pos as int, q) {
                            lemma_latest_exists(data, pos as int, q);
                            let r = choose|r: int| q <= r < pos && #[trigger] is_latest(
                                data,
                                pos as int,
                                r,
                            );
                            assert(pos - r > LONG_OFFSET_MAX);
                        }
                    }
                },
            }
        }
        loop
            invariant_except_break
                data == self.buffer@,
                pos + 3 <= data.len(),
                pos <= u32::MAX,
                chain.wf(data),
                chain.orig_position == pos,
                2 <= min_length <= LONG_LENGTH_MAX,
                forall|j: int| 0 <= j < found@.len() ==> #[trigger] found_match(
                    data,
                    pos as nat,
                    found@[j],
                ),
                found@.len() == 0 ==> chain.pending == matched && chain.cur_position == matched && min_length == 2,
                matched matches Some(m) ==> pos - m <= LONG_OFFSET_MAX,
                found@.len() > 0 ==> matched is Some && found@[0].0 == matched->0 && found@[0].1 == 3
                    && found@[0].2 == spec_match_length(
                    data,
                    pos as int,
                    matched->0 as int,
                    LONG_LENGTH_MAX as int,
                    3,
                ) + 1 && found@.last().2 == min_length + 1,
                increasing_from(found@, 0),
                chain.hash_chain == &self.hash_chain,
                self.hash_chain.wf(data, (pos + 1) as nat),
                bound <= pos,
                found@.len() == 0 ==> bound == pos,
                chain.pending matches Some(v) ==> chain.cur_position == chain.pending && bound
                    == pos && in_reach_match(data, pos as int, v as int) && forall|q: int|
                    v < q < pos ==> !#[trigger] in_reach_match(data, pos as int, q),
                chain.pending is None ==> (chain.cur_position matches Some(p) ==> p == bound
                    && in_reach_match(data, pos as int, p as int)),
                chain.pending is None && chain.cur_position is None ==> forall|q: int|
                    q < bound ==> !#[trigger] in_reach_match(data, pos as int, q),
                forall|q: int|
                    #[trigger] in_reach_match(data, pos as int, q) && bound <= q ==> spec_match_length(
                        data,
                        pos as int,
                        q,
                        LONG_LENGTH_MAX as int,
                        3,
                    ) <= min_length,
                forall|j: int|
                    0 <= j < found@.len() ==> bound <= (#[trigger] found@[j]).0 && in_reach_match(
                        data,
                        pos as int,
                        found@[j].0 as int,
                    ) && found@[j].2 == spec_match_length(
                        data,
                        pos as int,
                        found@[j].0 as int,
                        LONG_LENGTH_MAX as int,
                        3,
                    ) + 1,
                forall|j: int, q: int|
                    #![trigger found@[j], in_reach_match(data, pos as int, q)]
                    0 <= j < found@.len() && in_reach_match(data, pos as int, q) && found@[j].0 < q
                        ==> spec_match_length(data, pos as int, q, LONG_LENGTH_MAX as int, 3)
                        < found@[j].1,
            ensures
                forall|j: int| 0 <= j < found@.len() ==> #[trigger] found_match(
                    data,
                    pos as nat,
                    found@[j],
                ),
                found@.len() == 0 ==> matched is None,
                found@.len() > 0 ==> matched is Some && found@[0].0 == matched->0 && found@[0].1 == 3
                    && found@[0].2 == spec_match_length(
                    data,
                    pos as int,
                    matched->0 as int,
                    LONG_LENGTH_MAX as int,
                    3,
                ) + 1,
                increasing_from(found@, 0),
                forall|j: int|
                    0 <= j < found@.len() ==> in_reach_match(
                        data,
                        pos as int,
                        (#[trigger] found@[j]).0 as int,
                    ) && found@[j].2 == spec_match_length(
                        data,
                        pos as int,
                        found@[j].0 as int,
                        LONG_LENGTH_MAX as int,
                        3,
                    ) + 1,
                forall|j: int, q: int|
                    #![trigger found@[j], in_reach_match(data, pos as int, q)]
                    0 <= j < found@.len() && in_reach_match(data, pos as int, q) && found@[j].0 < q
                        ==> spec_match_length(data, pos as int, q, LONG_LENGTH_MAX as int, 3)
                        < found@[j].1,
                forall|q: int|
                    #[trigger] in_reach_match(data, pos as int, q) ==> found@.len() > 0
                        && spec_match_length(data, pos as int, q, LONG_LENGTH_MAX as int, 3)
                        < found@.last().2,
            decreases chain.remaining(),
        {
            let ghost before = chain;
            proof {
                if before.pending is None {
                    if let Some(p) = before.cur_position {
                        lemma_link_step(&self.hash_chain, data, pos as int, p as int);
                    }
                }
            }
            let found_pos = match chain.next(Ghost(data)) {
                Some(p) => p,
                None => {
                    proof {
                        assert forall|q: int| #[trigger]
                            in_reach_match(data, pos as int, q) implies found@.len() > 0
                            && spec_match_length(data, pos as int, q, LONG_LENGTH_MAX as int, 3)
                            < found@.last().2 by {
                            assert(bound <= q);
                            assert(found@.len() > 0);
                        }
                    }
                    break;
                },
            };
            assert(in_reach_match(data, pos as int, found_pos as int));
            assert(forall|q: int|
                found_pos < q < bound ==> !#[trigger] in_reach_match(data, pos as int, q));
            if pos as u32 - found_pos > LONG_OFFSET_MAX {
                break;
            }
            let match_length = match_length(
                self.buffer,
                pos,
                found_pos as usize,
                LONG_LENGTH_MAX as usize,
                3,
            );
            proof {
                lemma_is_match_length_run(
                    data,
                    pos + 3,
                    found_pos + 3,
                    LONG_LENGTH_MAX - 3,
                    match_length - 3,
                );
            }
            assert(found@.len() == 0 ==> before.step().0 == matched);
            let ghost old_bound = bound;
            let ghost old_min = min_length;
            let ghost f0 = found@;
            proof {
                bound = found_pos as int;
            }
            if match_length > min_length {
                let ghost f1 = found@;
                found.push((found_pos as usize, min_length + 1, match_length + 1));
                min_length = match_length;
                assert(f1.len() > 0 ==> found@[0] == f1[0]);
                assert forall|j: int| 0 <= j < found@.len() - 1 implies #[trigger] found@[j + 1].1
                    == found@[j].2 by {
                    if j < f1.len() - 1 {
                        assert(f1[j + 1].1 == f1[j].2);
                    }
                }
            }
            assert forall|j: int| 0 <= j < found@.len() implies bound <= (#[trigger] found@[j]).0
                && in_reach_match(data, pos as int, found@[j].0 as int) && found@[j].2
                == spec_match_length(data, pos as int, found@[j].0 as int, LONG_LENGTH_MAX as int, 3)
                + 1 by {
                if j < f0.len() {
                    assert(found@[j] == f0[j]);
                }
            }
            assert forall|q: int| #[trigger]
                in_reach_match(data, pos as int, q) && bound <= q implies spec_match_length(
                data,
                pos as int,
                q,
                LONG_LENGTH_MAX as int,
                3,
            ) <= min_length by {
                if q > found_pos {
                    assert(old_bound <= q);
                }
            }
            assert forall|j: int, q: int|
                #![trigger found@[j], in_reach_match(data, pos as int, q)]
                0 <= j < found@.len() && in_reach_match(data, pos as int, q) && found@[j].0
                    < q implies spec_match_length(
                data,
                pos as int,
                q,
                LONG_LENGTH_MAX as int,
                3,
            ) < found@[j].1 by {
                if j < f0.len() {
                    assert(found@[j] == f0[j]);
                    assert(old_bound <= f0[j].0);
                } else {
                    assert(old_bound <= q);
                }
            }
        }
        found
    }
}

} // verus!
