//! A table from three byte prefixes to the last position where each was seen
use vstd::prelude::*;

use std::collections::BTreeMap;

use crate::data::compression::prefix_search::prefix_key;

verus! {

/// Inputs shorter than this use a search tree, longer ones a table of buckets
pub(crate) const SMALL_TABLE_CUTOFF: usize = 8192;

/// Map from the key of a three byte prefix to the position where it was last
/// inserted.
///
/// Small inputs use a search tree; large ones a table indexed by the first
/// two bytes, which is faster for very large tables.
pub(crate) enum PrefixTable {
    Small(BTreeMap<u32, u32>),
    Large(LargePrefixTable),
}

/// Keys of `u32` are ordered as numbers
proof fn lemma_u32_keys_ordered()
    ensures
        vstd::laws_cmp::obeys_cmp::<u32>(),
{
    broadcast use vstd::laws_cmp::group_laws_cmp;

}

impl PrefixTable {
    /// Keys mapped to positions
    pub(crate) closed spec fn view(&self) -> Map<u32, u32> {
        match self {
            PrefixTable::Small(m) => m@,
            PrefixTable::Large(t) => t.contents@,
        }
    }

    /// The table is well formed
    pub(crate) closed spec fn wf(&self) -> bool {
        match self {
            PrefixTable::Small(_) => true,
            PrefixTable::Large(t) => t.wf(),
        }
    }

    /// An empty table suited to an input of `bytes` bytes
    pub(crate) fn new(bytes: usize) -> (t: Self)
        ensures
            t.wf(),
            t.view() == Map::<u32, u32>::empty(),
            (t is Small) == (bytes < SMALL_TABLE_CUTOFF),
    {
        if bytes < SMALL_TABLE_CUTOFF {
            PrefixTable::Small(BTreeMap::new())
        } else {
            PrefixTable::Large(LargePrefixTable::new())
        }
    }

    /// Maps the key of `prefix` to `position`, and returns the position it
    /// was mapped to before, if any
    pub(crate) fn insert(&mut self, prefix: [u8; 3], position: u32) -> (r: Option<u32>)
        requires
            old(self).wf(),
        ensures
            final(self).wf(),
            ({
                let k = prefix_key(prefix@[0], prefix@[1], prefix@[2]);
                &&& final(self).view() == old(self).view().insert(k, position)
                &&& r == (if old(self).view().contains_key(k) {
                    Some(old(self).view()[k])
                } else {
                    None::<u32>
                })
            }),
    {
        match self {
            PrefixTable::Small(table) => {
                let p0 = prefix[0] as u32;
                let p1 = prefix[1] as u32;
                let p2 = prefix[2] as u32;
                let key = (p0 << 16) | (p1 << 8) | p2;
                proof {
                    assert(key == p0 * 65536 + p1 * 256 + p2) by (bit_vector)
                        requires
                            key == (p0 << 16) | (p1 << 8) | p2,
                            p0 < 256,
                            p1 < 256,
                            p2 < 256,
                    ;
                    lemma_u32_keys_ordered();
                }
                table.insert(key, position)
            },
            PrefixTable::Large(table) => table.insert(prefix, position),
        }
    }
}

/// Buckets indexed by the first two bytes of a prefix, each holding the
/// third byte and the position of the prefixes seen
pub(crate) struct LargePrefixTable {
    table: Vec<Vec<(u8, u32)>>,
    contents: Ghost<Map<u32, u32>>,
}

impl LargePrefixTable {
    /// Every entry is in `contents` under its key, no third byte occurs twice
    /// in a bucket, and every key of `contents` has an entry
    closed spec fn wf(&self) -> bool {
        &&& self.table@.len() == 0x10000
        &&& forall|b: int, j: int|
            #![trigger self.table@[b]@[j]]
            0 <= b < 0x10000 && 0 <= j < self.table@[b]@.len() ==> {
                let k = (b * 256 + self.table@[b]@[j].0) as u32;
                &&& self.contents@.contains_key(k)
                &&& self.contents@[k] == self.table@[b]@[j].1
            }
        &&& forall|b: int, j1: int, j2: int|
            0 <= b < 0x10000 && 0 <= j1 < self.table@[b]@.len() && 0 <= j2
                < self.table@[b]@.len() && j1 != j2 ==> #[trigger] self.table@[b]@[j1].0
                != #[trigger] self.table@[b]@[j2].0
        &&& forall|k: u32|
            #[trigger] self.contents@.contains_key(k) ==> exists|b: int, j: int|
                0 <= b < 0x10000 && 0 <= j < self.table@[b]@.len() && k == b * 256
                    + #[trigger] self.table@[b]@[j].0
    }

    /// A table with no entries
    fn new() -> (t: Self)
        ensures
            t.wf(),
            t.contents@ == Map::<u32, u32>::empty(),
    {
        let mut table: Vec<Vec<(u8, u32)>> = Vec::new();
        let mut i: usize = 0;
        while i <= 0xFFFF
            invariant
                i <= 0x10000,
                table@.len() == i,
                forall|b: int| 0 <= b < i ==> (#[trigger] table@[b])@.len() == 0,
            decreases 0x10000 - i,
        {
            table.push(Vec::new());
            i += 1;
        }
        LargePrefixTable { table, contents: Ghost(Map::empty()) }
    }

    /// Maps the key of `prefix` to `position`, and returns the position it
    /// was mapped to before, if any
    fn insert(&mut self, prefix: [u8; 3], position: u32) -> (r: Option<u32>)
        requires
            old(self).wf(),
        ensures
            final(self).wf(),
            ({
                let k = prefix_key(prefix@[0], prefix@[1], prefix@[2]);
                &&& final(self).contents@ == old(self).contents@.insert(k, position)
                &&& r == (if old(self).contents@.contains_key(k) {
                    Some(old(self).contents@[k])
                } else {
                    None::<u32>
                })
            }),
    {
        let p0 = prefix[0] as usize;
        let p1 = prefix[1] as usize;
        let p2 = prefix[2];

        let index = (p0 << 8) | p1;
        proof {
            assert(index == p0 * 256 + p1) by (bit_vector)
                requires
                    index == (p0 << 8) | p1,
                    p0 < 256,
                    p1 < 256,
            ;
        }
        let ghost k = prefix_key(prefix@[0], prefix@[1], prefix@[2]);
        assert(k == index * 256 + p2);
        let n = self.table[index].len();
        let mut j: usize = 0;
        while j < n
            invariant
                self.wf(),
                index < 0x10000,
                n == self.table@[index as int]@.len(),
                j <= n,
                forall|jj: int| 0 <= jj < j ==> self.table@[index as int]@[jj].0 != p2,
            ensures
                j < n ==> self.table@[index as int]@[j as int].0 == p2,
            decreases n - j,
        {
            if self.table[index][j].0 == p2 {
                break;
            }
            j += 1;
        }
        if j < n {
            let found = self.table[index][j].1;
            assert(self.table@[index as int]@[j as int].0 == p2);
            assert(self.contents@.contains_key(k) && self.contents@[k] == found);
            let ghost before = self.table@;
            self.table[index].set(j, (p2, position));
            self.contents = Ghost(self.contents@.insert(k, position));
            proof {
                assert(self.table@[index as int]@ == before[index as int]@.update(
                    j as int,
                    (p2, position),
                ));
                assert forall|b: int, jj: int|
                    #![trigger self.table@[b]@[jj]]
                    0 <= b < 0x10000 && 0 <= jj < self.table@[b]@.len() implies {
                    let kk = (b * 256 + self.table@[b]@[jj].0) as u32;
                    &&& self.contents@.contains_key(kk)
                    &&& self.contents@[kk] == self.table@[b]@[jj].1
                } by {
                    if b != index || jj != j {
                        assert(self.table@[b]@[jj] == before[b]@[jj]);
                        if b == index {
                            assert(before[b]@[jj].0 != before[b]@[j as int].0);
                        }
                    }
                }
                assert forall|kk: u32| #[trigger]
                    self.contents@.contains_key(kk) implies exists|b: int, jj: int|
                    0 <= b < 0x10000 && 0 <= jj < self.table@[b]@.len() && kk == b * 256
                        + #[trigger] self.table@[b]@[jj].0 by {
                    if kk == k {
                        assert(self.table@[index as int]@[j as int].0 == p2);
                    } else {
                        let (b, jj) = choose|b: int, jj: int|
                            0 <= b < 0x10000 && 0 <= jj < before[b]@.len() && kk == b * 256
                                + #[trigger] before[b]@[jj].0;
                        if b == index && jj == j {
                            assert(false);
                        }
                        assert(self.table@[b]@[jj] == before[b]@[jj]);
                    }
                }
            }
            return Some(found);
        }
        proof {
            if self.contents@.contains_key(k) {
                let (b, jj) = choose|b: int, jj: int|
                    0 <= b < 0x10000 && 0 <= jj < self.table@[b]@.len() && k == b * 256
                        + #[trigger] self.table@[b]@[jj].0;
                assert(b == index && self.table@[b]@[jj].0 == p2);
                assert(false);
            }
        }
        let ghost before = self.table@;
        self.table[index].push((p2, position));
        self.contents = Ghost(self.contents@.insert(k, position));
        proof {
            assert(self.table@[index as int]@ == before[index as int]@.push((p2, position)));
            assert forall|b: int, jj: int|
                #![trigger self.table@[b]@[jj]]
                0 <= b < 0x10000 && 0 <= jj < self.table@[b]@.len() implies {
                let kk = (b * 256 + self.table@[b]@[jj].0) as u32;
                &&& self.contents@.contains_key(kk)
                &&& self.contents@[kk] == self.table@[b]@[jj].1
            } by {
                if b != index || jj != n {
                    assert(self.table@[b]@[jj] == before[b]@[jj]);
                }
            }
            assert forall|kk: u32| #[trigger]
                self.contents@.contains_key(kk) implies exists|b: int, jj: int|
                0 <= b < 0x10000 && 0 <= jj < self.table@[b]@.len() && kk == b * 256
                    + #[trigger] self.table@[b]@[jj].0 by {
                if kk == k {
                    assert(self.table@[index as int]@[n as int].0 == p2);
                } else {
                    let (b, jj) = choose|b: int, jj: int|
                        0 <= b < 0x10000 && 0 <= jj < before[b]@.len() && kk == b * 256
                            + #[trigger] before[b]@[jj].0;
                    assert(self.table@[b]@[jj] == before[b]@[jj]);
                }
            }
        }
        None
    }
}

} // verus!
