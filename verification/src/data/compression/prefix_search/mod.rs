//! Searching the earlier positions of a buffer that start with the same three
//! bytes as a given position
use vstd::prelude::*;

pub(crate) mod hash_chain;
pub(crate) mod hash_table;
pub(crate) mod multi_level_hash_chain;

use crate::data::compression::match_length::{matches_for, spec_match_length};
use crate::data::control::{LONG_LENGTH_MAX, LONG_OFFSET_MAX};

verus! {

/// Number of links kept by a hash chain, 2 to the 18th. Only the links of the
/// last `LONG_OFFSET_MAX + 1` positions are ever needed, but a power of two
/// makes the position of a link cheaper to compute.
pub const HASH_CHAIN_BUFFER_SIZE: usize = 262_144;

/// Number of links kept by a hash chain over `len` bytes
pub open spec fn chain_size(len: nat) -> nat {
    if len < HASH_CHAIN_BUFFER_SIZE {
        len
    } else {
        HASH_CHAIN_BUFFER_SIZE as nat
    }
}

/// The link of a position of the input is in the chain
pub proof fn lemma_slot_in_bounds(p: int, len: nat)
    requires
        0 <= p < len,
    ensures
        0 <= p % (HASH_CHAIN_BUFFER_SIZE as int) < chain_size(len),
{
    let b = HASH_CHAIN_BUFFER_SIZE as int;
    vstd::arithmetic::div_mod::lemma_mod_bound(p, b);
    if len < b {
        vstd::arithmetic::div_mod::lemma_small_mod(p as nat, b as nat);
    }
}

/// Key of three bytes, the first being the most significant
pub open spec fn prefix_key(p0: u8, p1: u8, p2: u8) -> u32 {
    (p0 as int * 65536 + p1 as int * 256 + p2 as int) as u32
}

/// Key of the three bytes of `data` at `pos`
pub open spec fn key_at(data: Seq<u8>, pos: int) -> u32 {
    prefix_key(data[pos], data[pos + 1], data[pos + 2])
}

/// Law: equal keys come from equal bytes
pub proof fn lemma_prefix_key_injective(a0: u8, a1: u8, a2: u8, b0: u8, b1: u8, b2: u8)
    requires
        prefix_key(a0, a1, a2) == prefix_key(b0, b1, b2),
    ensures
        a0 == b0 && a1 == b1 && a2 == b2,
{
}

/// `v` is a link from position `p` of `data`: an earlier position, in reach of
/// a copy at `p`, that starts with the same three bytes
pub open spec fn is_link(data: Seq<u8>, p: int, v: int) -> bool {
    &&& 0 <= v < p
    &&& p - v <= LONG_OFFSET_MAX
    &&& p + 3 <= data.len()
    &&& key_at(data, v) == key_at(data, p)
}

/// Positions less than `b` apart fall in different slots modulo `b`
pub proof fn lemma_distinct_slots(p: int, n: int, b: int)
    requires
        0 <= p < n < p + b,
    ensures
        p % b != n % b,
{
    vstd::arithmetic::div_mod::lemma_fundamental_div_mod(p, b);
    vstd::arithmetic::div_mod::lemma_fundamental_div_mod(n, b);
    if p % b == n % b {
        let k = n / b - p / b;
        assert(n - p == b * k) by (nonlinear_arith)
            requires
                p == b * (p / b) + p % b,
                n == b * (n / b) + n % b,
                p % b == n % b,
                k == n / b - p / b,
        ;
        assert(false) by (nonlinear_arith)
            requires
                n - p == b * k,
                0 < n - p < b,
        ;
    }
}

/// A match found for position `pos` of `data`: `(position, start, end)`,
/// where every copy length from `start` up to `end` (excluded) copies bytes
/// equal to those at `pos`, from the earlier `position` (which may be out of
/// the reach of a copy)
pub open spec fn found_match(data: Seq<u8>, pos: nat, m: (usize, usize, usize)) -> bool {
    let (position, start, end) = m;
    &&& position < pos
    &&& 3 <= start < end
    &&& end - 1 <= LONG_LENGTH_MAX
    &&& matches_for(data, pos as int, position as int, end - 1)
}

/// `q` is the last position before `pos` of `data` that starts with the same
/// three bytes
pub open spec fn is_latest(data: Seq<u8>, pos: int, q: int) -> bool {
    &&& 0 <= q < pos
    &&& pos + 3 <= data.len()
    &&& key_at(data, q) == key_at(data, pos)
    &&& forall|r: int| q < r < pos ==> #[trigger] key_at(data, r) != key_at(data, pos)
}

/// `q` is an earlier position of `data` that starts with the same three
/// bytes as `pos`, in reach of a copy at `pos`
pub open spec fn in_reach_match(data: Seq<u8>, pos: int, q: int) -> bool {
    &&& 0 <= q < pos
    &&& pos - q <= LONG_OFFSET_MAX
    &&& pos + 3 <= data.len()
    &&& key_at(data, q) == key_at(data, pos)
}

/// Law: an earlier position with the same three bytes as `p` has a last one
/// at or after it
pub proof fn lemma_latest_exists(data: Seq<u8>, p: int, q: int)
    requires
        0 <= q < p,
        p + 3 <= data.len(),
        key_at(data, q) == key_at(data, p),
    ensures
        exists|r: int| q <= r < p && #[trigger] is_latest(data, p, r),
    decreases p - q,
{
    if exists|r: int| q < r < p && #[trigger] key_at(data, r) == key_at(data, p) {
        let r = choose|r: int| q < r < p && #[trigger] key_at(data, r) == key_at(data, p);
        lemma_latest_exists(data, p, r);
        let t = choose|t: int| r <= t < p && #[trigger] is_latest(data, p, t);
        assert(q <= t < p && is_latest(data, p, t));
    } else {
        assert(is_latest(data, p, q));
    }
}

/// The table `view` maps the key of each prefix met before position `n` of
/// `data` to the last position before `n` that starts with it, and holds no
/// other key
pub open spec fn table_latest(view: Map<u32, u32>, data: Seq<u8>, n: int) -> bool {
    &&& forall|key: u32| #[trigger]
        view.contains_key(key) ==> {
            let p = view[key] as int;
            &&& p < n
            &&& p + 3 <= data.len()
            &&& key_at(data, p) == key
            &&& forall|r: int| p < r < n ==> #[trigger] key_at(data, r) != key
        }
    &&& forall|r: int| 0 <= r < n ==> #[trigger] view.contains_key(key_at(data, r))
}

/// Law: inserting position `n` under its key keeps the table mapping each
/// key to its last position, and what the key held before was the last
/// earlier position with the same prefix, if there was one
pub proof fn lemma_table_insert(view: Map<u32, u32>, data: Seq<u8>, n: int)
    requires
        table_latest(view, data, n),
        0 <= n,
        n + 3 <= data.len() <= u32::MAX,
    ensures
        table_latest(view.insert(key_at(data, n), n as u32), data, n + 1),
        view.contains_key(key_at(data, n)) ==> is_latest(data, n, view[key_at(data, n)] as int),
        !view.contains_key(key_at(data, n)) ==> forall|q: int| !is_latest(data, n, q),
{
    let k = key_at(data, n);
    let v2 = view.insert(k, n as u32);
    assert forall|key: u32| #[trigger] v2.contains_key(key) implies {
        let p = v2[key] as int;
        &&& p < n + 1
        &&& p + 3 <= data.len()
        &&& key_at(data, p) == key
        &&& forall|r: int| p < r < n + 1 ==> #[trigger] key_at(data, r) != key
    } by {
        if key != k {
            assert(view.contains_key(key));
            let p = view[key] as int;
            assert forall|r: int| p < r < n + 1 implies #[trigger] key_at(data, r) != key by {
                if r < n {
                    assert(key_at(data, r) != key);
                }
            }
        }
    }
    assert forall|r: int| 0 <= r < n + 1 implies #[trigger] v2.contains_key(key_at(data, r)) by {
        if r < n {
            assert(view.contains_key(key_at(data, r)));
        }
    }
    if !view.contains_key(k) {
        assert forall|q: int| !is_latest(data, n, q) by {
            if 0 <= q < n {
                assert(view.contains_key(key_at(data, q)));
            }
        }
    }
}

/// From index `start` on, each match of `found` takes copy lengths from
/// where the one before it ended
pub open spec fn increasing_from(found: Seq<(usize, usize, usize)>, start: int) -> bool {
    forall|j: int| start <= j < found.len() - 1 ==> #[trigger] found[j + 1].1 == found[j].2
}

/// Finds, for the positions of a buffer taken in turn, earlier positions that
/// start with the same bytes
pub(crate) trait PrefixSearcher<'a>: Sized {
    /// The buffer searched
    spec fn data(&self) -> Seq<u8>;

    /// The position that the next search is for
    spec fn next_position(&self) -> nat;

    /// The searcher is well formed
    spec fn wf(&self) -> bool;

    /// A searcher over `buffer`, whose first search is for position 1
    fn build(buffer: &'a [u8]) -> (s: Self)
        requires
            3 <= buffer@.len() <= u32::MAX,
        ensures
            s.wf(),
            s.data() == buffer@,
            s.next_position() == 1,
    ;

    /// Matches for position `pos`, the next position, with longer and longer
    /// copy lengths
    fn search(&mut self, pos: usize) -> (found: Vec<(usize, usize, usize)>)
        requires
            old(self).wf(),
            pos == old(self).next_position(),
            pos + 3 <= old(self).data().len(),
        ensures
            final(self).wf(),
            final(self).data() == old(self).data(),
            final(self).next_position() == pos + 1,
            forall|j: int|
                0 <= j < found@.len() ==> #[trigger] found_match(old(self).data(), pos as nat, found@[j]),
            found@.len() > 0 ==> {
                let first = found@[0];
                &&& is_latest(old(self).data(), pos as int, first.0 as int)
                &&& pos - first.0 <= LONG_OFFSET_MAX
                &&& first.1 == 3
                &&& first.2 == spec_match_length(
                    old(self).data(),
                    pos as int,
                    first.0 as int,
                    LONG_LENGTH_MAX as int,
                    3,
                ) + 1
            },
            found@.len() == 0 ==> forall|q: int|
                #[trigger] is_latest(old(self).data(), pos as int, q) ==> pos - q > LONG_OFFSET_MAX,
            increasing_from(found@, 0),
    ;
}

/// The first three bytes of `input_buf`
pub(crate) fn prefix(input_buf: &[u8]) -> (p: [u8; 3])
    requires
        input_buf@.len() >= 3,
    ensures
        p@ == input_buf@.take(3),
{
    let p = [input_buf[0], input_buf[1], input_buf[2]];
    assert(p@ =~= input_buf@.take(3));
    p
}

} // verus!
