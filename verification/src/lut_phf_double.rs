//! The two-level table: a primary perfect hash over the pairs whose distance
//! fits 16 bits, and a secondary one over the pairs with longer distances and
//! over the short pairs whose primary slot a long key falls on.

use crate::error::LutError;
use crate::lut_phf::hashing::{get_index, hash, spec_get_index, spec_hash, HashKey};
use crate::lut_phf::model::solve;
use crate::lut_phf::keys::{draw_candidates, FIXED_SEED, MAX_ATTEMPTS};
use crate::lut_phf::phf_generator_double_hash::{
    generate_hash_from, try_generate_hash, HashState, DEFAULT_LAMBDA,
};
use crate::lut_phf::proofs::{lemma_solves_empty, lemma_solves_single};
use crate::lut_phf::search::{first_solving, lemma_first_solving, spec_hash_all};
use crate::pairs::{
    lemma_split_covers, lemma_split_lengths, lemma_walk, lemma_walk_skip, lemma_walk_unmatched,
    matched_pairs, split, walk, THRESHOLD_16_BITS,
};
use crate::structural::{structural_at, BracketType, Event, StructuralIterator};
use std::collections::VecDeque;
use vstd::prelude::*;

verus! {

/// The slot of `key` in a table of `len` slots under the hash key `hash_key`
/// and the displacements `disps`.
pub open spec fn slot_of(hash_key: HashKey, disps: Seq<(u32, u32)>, len: nat, key: usize) -> int {
    spec_get_index(spec_hash(key, hash_key), disps, len)
}

/// Whether one of the first `upto` long keys falls on slot `s` of the
/// primary table.
pub open spec fn evicted(
    hash_key: HashKey,
    disps: Seq<(u32, u32)>,
    len: nat,
    keys_64: Seq<usize>,
    upto: nat,
    s: int,
) -> bool {
    exists|j: int| 0 <= j < upto && slot_of(hash_key, disps, len, #[trigger] keys_64[j]) == s
}

/// The primary table after the first `upto` long keys were looked at: each
/// slot holds the distance of the short key that owns it, or the sentinel 0
/// where a long key falls on the slot. `map` holds the owner of each slot.
pub open spec fn primary_distances(
    hash_key: HashKey,
    disps: Seq<(u32, u32)>,
    map: Seq<usize>,
    values_16: Seq<u16>,
    keys_64: Seq<usize>,
    upto: nat,
) -> Seq<usize> {
    Seq::new(
        map.len(),
        |s: int|
            if evicted(hash_key, disps, map.len(), keys_64, upto, s) {
                0usize
            } else {
                values_16[map[s] as int] as usize
            },
    )
}

/// The first `upto` short keys that the primary table cannot answer, each
/// with its distance: those whose slot holds the sentinel.
pub open spec fn conflicts(
    hash_key: HashKey,
    disps: Seq<(u32, u32)>,
    dist: Seq<usize>,
    keys_16: Seq<usize>,
    values_16: Seq<u16>,
    upto: nat,
) -> (Seq<usize>, Seq<usize>)
    decreases upto,
{
    if upto == 0 {
        (Seq::empty(), Seq::empty())
    } else {
        let c = conflicts(hash_key, disps, dist, keys_16, values_16, (upto - 1) as nat);
        if dist[slot_of(hash_key, disps, dist.len(), keys_16[upto - 1])] == 0 {
            (c.0.push(keys_16[upto - 1]), c.1.push(values_16[upto - 1] as usize))
        } else {
            c
        }
    }
}

/// `key + distance`, where that is an offset.
pub open spec fn offset_by(key: usize, distance: usize) -> Option<usize> {
    if key + distance <= usize::MAX {
        Some((key + distance) as usize)
    } else {
        None
    }
}

/// The conflicts hold each short key whose slot holds the sentinel, with its
/// distance, and nothing else.
pub proof fn lemma_conflicts(
    hash_key: HashKey,
    disps: Seq<(u32, u32)>,
    dist: Seq<usize>,
    keys_16: Seq<usize>,
    values_16: Seq<u16>,
    upto: nat,
)
    requires
        upto <= keys_16.len(),
    ensures
        ({
            let c = conflicts(hash_key, disps, dist, keys_16, values_16, upto);
            &&& c.0.len() == c.1.len()
            &&& c.0.len() <= upto
            &&& forall|i: int|
                0 <= i < upto && dist[slot_of(hash_key, disps, dist.len(), #[trigger] keys_16[i])]
                    == 0 ==> exists|a: int|
                    0 <= a < c.0.len() && #[trigger] c.0[a] == keys_16[i] && c.1[a]
                        == values_16[i] as usize
        }),
    decreases upto,
{
    if upto > 0 {
        let prev = conflicts(hash_key, disps, dist, keys_16, values_16, (upto - 1) as nat);
        let c = conflicts(hash_key, disps, dist, keys_16, values_16, upto);
        lemma_conflicts(hash_key, disps, dist, keys_16, values_16, (upto - 1) as nat);
        assert forall|i: int|
            0 <= i < upto && dist[slot_of(hash_key, disps, dist.len(), #[trigger] keys_16[i])]
                == 0 implies exists|a: int|
            0 <= a < c.0.len() && #[trigger] c.0[a] == keys_16[i] && c.1[a]
                == values_16[i] as usize by {
            if i < upto - 1 {
                let a = choose|a: int|
                    0 <= a < prev.0.len() && #[trigger] prev.0[a] == keys_16[i] && prev.1[a]
                        == values_16[i] as usize;
                assert(c.0[a] == keys_16[i] && c.1[a] == values_16[i] as usize);
            } else {
                let a = c.0.len() - 1;
                assert(c.0[a] == keys_16[i] && c.1[a] == values_16[i] as usize);
            }
        }
    }
}

/// The two-level lookup table.
pub struct LutPHFDouble {
    /// The primary table. Each slot holds a 16-bit distance, or the sentinel
    /// 0 for "ask the secondary table".
    pub hash_state_16: HashState,
    /// The secondary table. Each slot holds a full distance.
    pub hash_state_64: HashState,
}

impl LutPHFDouble {
    /// What a lookup of `key` returns: `key` plus the primary table's
    /// distance where that is not the sentinel, else `key` plus the secondary
    /// table's distance; `None` where no table answers or the sum is no
    /// offset.
    pub open spec fn spec_get(&self, key: usize) -> Option<usize> {
        match self.hash_state_16.spec_get(key) {
            Some(d) if d != 0 => offset_by(key, d),
            _ => match self.hash_state_64.spec_get(key) {
                Some(d) => offset_by(key, d),
                None => None,
            },
        }
    }

    /// The keys and distances that go into the secondary table when the
    /// primary table is built under `key_16`: the short keys in conflict,
    /// then the long keys. `None` where the primary table cannot be built.
    pub open spec fn secondary_entries(
        keys_16: Seq<usize>,
        values_16: Seq<u16>,
        keys_64: Seq<usize>,
        values_64: Seq<usize>,
        key_16: HashKey,
    ) -> Option<(Seq<usize>, Seq<usize>)> {
        match solve(spec_hash_all(keys_16, key_16), DEFAULT_LAMBDA as nat) {
            None => None,
            Some(sol) => {
                let dist = primary_distances(
                    key_16,
                    sol.displacements,
                    sol.map,
                    values_16,
                    keys_64,
                    keys_64.len(),
                );
                let c = conflicts(
                    key_16,
                    sol.displacements,
                    dist,
                    keys_16,
                    values_16,
                    keys_16.len(),
                );
                Some((c.0 + keys_64, c.1 + values_64))
            },
        }
    }

    /// Whether the table is the one that is built from the short pairs
    /// `(keys_16, values_16)` and the long pairs `(keys_64, values_64)` under
    /// the table's own two hash keys.
    pub open spec fn is_built_from(
        &self,
        keys_16: Seq<usize>,
        values_16: Seq<u16>,
        keys_64: Seq<usize>,
        values_64: Seq<usize>,
    ) -> bool {
        let key_16 = self.hash_state_16.hash_key;
        match solve(spec_hash_all(keys_16, key_16), DEFAULT_LAMBDA as nat) {
            None => false,
            Some(sol) => {
                let secondary = Self::secondary_entries(
                    keys_16,
                    values_16,
                    keys_64,
                    values_64,
                    key_16,
                ).unwrap();
                &&& self.hash_state_16.displacements@ == sol.displacements
                &&& self.hash_state_16.map@ == primary_distances(
                    key_16,
                    sol.displacements,
                    sol.map,
                    values_16,
                    keys_64,
                    keys_64.len(),
                )
                &&& self.hash_state_64.holds(secondary.0, secondary.1)
            },
        }
    }

    /// Whether the table answers every pair: a lookup of each key returns the
    /// key plus its distance.
    pub open spec fn answers(
        &self,
        keys_16: Seq<usize>,
        values_16: Seq<u16>,
        keys_64: Seq<usize>,
        values_64: Seq<usize>,
    ) -> bool {
        &&& forall|i: int|
            0 <= i < keys_16.len() ==> self.spec_get(#[trigger] keys_16[i]) == offset_by(
                keys_16[i],
                values_16[i] as usize,
            )
        &&& forall|j: int|
            0 <= j < keys_64.len() ==> self.spec_get(#[trigger] keys_64[j]) == offset_by(
                keys_64[j],
                values_64[j],
            )
    }

    /// Lookup soundness: a table built from pairs answers each of them, the
    /// primary table has one slot per short key and holds 16-bit values only,
    /// and the secondary table has one slot per key that was sent to it.
    pub proof fn lemma_lookup_sound(
        &self,
        keys_16: Seq<usize>,
        values_16: Seq<u16>,
        keys_64: Seq<usize>,
        values_64: Seq<usize>,
    )
        requires
            keys_16.len() == values_16.len(),
            keys_64.len() == values_64.len(),
            self.is_built_from(keys_16, values_16, keys_64, values_64),
        ensures
            self.answers(keys_16, values_16, keys_64, values_64),
            self.hash_state_16.map@.len() == keys_16.len(),
            forall|s: int|
                0 <= s < self.hash_state_16.map@.len() ==> (#[trigger] self.hash_state_16.map@[s])
                    < THRESHOLD_16_BITS,
            self.hash_state_64.map@.len() == Self::secondary_entries(
                keys_16,
                values_16,
                keys_64,
                values_64,
                self.hash_state_16.hash_key,
            ).unwrap().0.len(),
    {
        let key_16 = self.hash_state_16.hash_key;
        let hashes = spec_hash_all(keys_16, key_16);
        let sol = solve(hashes, DEFAULT_LAMBDA as nat).unwrap();
        let n = keys_16.len();
        let dist = self.hash_state_16.map@;
        let c = conflicts(key_16, sol.displacements, dist, keys_16, values_16, n);
        let sec_keys = c.0 + keys_64;
        let sec_values = c.1 + values_64;
        crate::lut_phf::proofs::lemma_solution_is_perfect(hashes, DEFAULT_LAMBDA as nat);
        crate::lut_phf::proofs::lemma_bucket_count(n, DEFAULT_LAMBDA as nat);
        lemma_conflicts(key_16, sol.displacements, dist, keys_16, values_16, n);
        self.hash_state_64.lemma_holds_maps(sec_keys, sec_values);
        assert forall|i: int| 0 <= i < keys_16.len() implies self.spec_get(#[trigger] keys_16[i])
            == offset_by(keys_16[i], values_16[i] as usize) by {
            assert(hashes[i] == spec_hash(keys_16[i], key_16));
            let s = slot_of(key_16, sol.displacements, n, keys_16[i]);
            assert(sol.map[s] == i);
            if dist[s] == 0 {
                let a = choose|a: int|
                    0 <= a < c.0.len() && #[trigger] c.0[a] == keys_16[i] && c.1[a]
                        == values_16[i] as usize;
                assert(sec_keys[a] == keys_16[i] && sec_values[a] == values_16[i] as usize);
                assert(self.hash_state_64.spec_get(sec_keys[a]) == Some(sec_values[a]));
            }
        }
        assert forall|j: int| 0 <= j < keys_64.len() implies self.spec_get(#[trigger] keys_64[j])
            == offset_by(keys_64[j], values_64[j]) by {
            let a = c.0.len() + j;
            assert(sec_keys[a] == keys_64[j] && sec_values[a] == values_64[j]);
            assert(self.hash_state_64.spec_get(sec_keys[a]) == Some(sec_values[a]));
            if n > 0 {
                let s = slot_of(key_16, sol.displacements, n, keys_64[j]);
                assert(evicted(key_16, sol.displacements, n, keys_64, keys_64.len(), s));
            }
        }
    }

    /// Minimality: the primary table has exactly one slot per short key and
    /// one displacement pair per short key, the secondary table exactly one
    /// slot per key that was sent to it.
    pub proof fn lemma_tables_minimal(
        &self,
        keys_16: Seq<usize>,
        values_16: Seq<u16>,
        keys_64: Seq<usize>,
        values_64: Seq<usize>,
    )
        requires
            keys_16.len() == values_16.len(),
            keys_64.len() == values_64.len(),
            self.is_built_from(keys_16, values_16, keys_64, values_64),
        ensures
            self.hash_state_16.map@.len() == keys_16.len(),
            self.hash_state_16.displacements@.len() == keys_16.len(),
            self.hash_state_64.map@.len() == Self::secondary_entries(
                keys_16,
                values_16,
                keys_64,
                values_64,
                self.hash_state_16.hash_key,
            ).unwrap().0.len(),
            self.hash_state_64.map@.len() >= keys_64.len(),
            self.hash_state_64.map@.len() <= keys_16.len() + keys_64.len(),
    {
        let key_16 = self.hash_state_16.hash_key;
        let hashes = spec_hash_all(keys_16, key_16);
        let sol = solve(hashes, DEFAULT_LAMBDA as nat).unwrap();
        self.lemma_lookup_sound(keys_16, values_16, keys_64, values_64);
        crate::lut_phf::proofs::lemma_solution_is_perfect(hashes, DEFAULT_LAMBDA as nat);
        crate::lut_phf::proofs::lemma_bucket_count(keys_16.len(), DEFAULT_LAMBDA as nat);
        lemma_conflicts(
            key_16,
            sol.displacements,
            self.hash_state_16.map@,
            keys_16,
            values_16,
            keys_16.len(),
        );
    }

    /// Sentinel safety: where no short distance is 0, the primary table
    /// holds the sentinel at the slot of a short key exactly where a long key
    /// falls on that slot, and the key's own distance everywhere else.
    pub proof fn lemma_sentinel_safe(
        &self,
        keys_16: Seq<usize>,
        values_16: Seq<u16>,
        keys_64: Seq<usize>,
        values_64: Seq<usize>,
    )
        requires
            keys_16.len() == values_16.len(),
            keys_64.len() == values_64.len(),
            self.is_built_from(keys_16, values_16, keys_64, values_64),
            forall|i: int| 0 <= i < values_16.len() ==> #[trigger] values_16[i] != 0,
        ensures
            forall|i: int|
                0 <= i < keys_16.len() ==> {
                    let stored = self.hash_state_16.spec_get(#[trigger] keys_16[i]);
                    let hit = evicted(
                        self.hash_state_16.hash_key,
                        self.hash_state_16.displacements@,
                        keys_16.len(),
                        keys_64,
                        keys_64.len(),
                        self.hash_state_16.spec_slot_of(keys_16[i]),
                    );
                    &&& hit ==> stored == Some(0usize)
                    &&& !hit ==> stored == Some(values_16[i] as usize)
                },
    {
        let key_16 = self.hash_state_16.hash_key;
        let hashes = spec_hash_all(keys_16, key_16);
        let sol = solve(hashes, DEFAULT_LAMBDA as nat).unwrap();
        crate::lut_phf::proofs::lemma_solution_is_perfect(hashes, DEFAULT_LAMBDA as nat);
        crate::lut_phf::proofs::lemma_bucket_count(keys_16.len(), DEFAULT_LAMBDA as nat);
        assert forall|i: int| 0 <= i < keys_16.len() implies ({
            let stored = self.hash_state_16.spec_get(#[trigger] keys_16[i]);
            let hit = evicted(
                self.hash_state_16.hash_key,
                self.hash_state_16.displacements@,
                keys_16.len(),
                keys_64,
                keys_64.len(),
                self.hash_state_16.spec_slot_of(keys_16[i]),
            );
            &&& hit ==> stored == Some(0usize)
            &&& !hit ==> stored == Some(values_16[i] as usize)
        }) by {
            assert(hashes[i] == spec_hash(keys_16[i], key_16));
            let s = slot_of(key_16, sol.displacements, keys_16.len(), keys_16[i]);
            assert(sol.map[s] == i);
        }
    }

    /// Looks up the closing offset of the bracket that opens at `key`.
    pub fn get(&self, key: &usize) -> (r: Option<usize>)
        ensures
            r == self.spec_get(*key),
    {
        if let Some(value_16) = self.hash_state_16.get(key) {
            if value_16 != 0 {
                return key.checked_add(value_16);
            }
        }
        match self.hash_state_64.get(key) {
            Some(distance) => key.checked_add(distance),
            None => None,
        }
    }
}

/// Fills the primary table with distances: the distance of each slot's
/// owner, then the sentinel wherever a long key falls.
fn evict(
    index: &HashState,
    values_16: &Vec<u16>,
    keys_64: &Vec<usize>,
    Ghost(keys_16): Ghost<Seq<usize>>,
) -> (dist: Vec<usize>)
    requires
        index.solves(keys_16),
        keys_16.len() == values_16.len(),
    ensures
        dist@ == primary_distances(
            index.hash_key,
            index.displacements@,
            index.map@,
            values_16@,
            keys_64@,
            keys_64.len() as nat,
        ),
{
    proof {
        index.lemma_solves_is_perfect(keys_16);
    }
    let len: usize = index.map.len();
    let mut dist: Vec<usize> = Vec::new();
    let mut s: usize = 0;
    while s < len
        invariant
            s <= len,
            len == index.map.len(),
            len == values_16.len(),
            forall|t: int| 0 <= t < index.map@.len() ==> (#[trigger] index.map@[t]) < len,
            dist@ == primary_distances(
                index.hash_key,
                index.displacements@,
                index.map@,
                values_16@,
                keys_64@,
                0,
            ).take(s as int),
        decreases len - s,
    {
        dist.push(values_16[index.map[s]] as usize);
        s += 1;
        assert(dist@ =~= primary_distances(
            index.hash_key,
            index.displacements@,
            index.map@,
            values_16@,
            keys_64@,
            0,
        ).take(s as int));
    }
    assert(dist@ =~= primary_distances(
        index.hash_key,
        index.displacements@,
        index.map@,
        values_16@,
        keys_64@,
        0,
    ));
    if len == 0 {
        assert(dist@ =~= primary_distances(
            index.hash_key,
            index.displacements@,
            index.map@,
            values_16@,
            keys_64@,
            keys_64.len() as nat,
        ));
        return dist;
    }
    let mut j: usize = 0;
    while j < keys_64.len()
        invariant
            j <= keys_64.len(),
            0 < len <= u32::MAX,
            len == index.map.len(),
            index.displacements.len() == len,
            dist@ == primary_distances(
                index.hash_key,
                index.displacements@,
                index.map@,
                values_16@,
                keys_64@,
                j as nat,
            ),
        decreases keys_64.len() - j,
    {
        let hashes = hash(keys_64[j], index.hash_key);
        let slot: usize = get_index(&hashes, index.displacements.as_slice(), len) as usize;
        dist[slot] = 0;
        j += 1;
        proof {
            let next = primary_distances(
                index.hash_key,
                index.displacements@,
                index.map@,
                values_16@,
                keys_64@,
                j as nat,
            );
            assert forall|t: int| 0 <= t < len implies dist@[t] == next[t] by {
                let before = evicted(
                    index.hash_key,
                    index.displacements@,
                    len as nat,
                    keys_64@,
                    (j - 1) as nat,
                    t,
                );
                let after = evicted(
                    index.hash_key,
                    index.displacements@,
                    len as nat,
                    keys_64@,
                    j as nat,
                    t,
                );
                if t == slot {
                    assert(slot_of(
                        index.hash_key,
                        index.displacements@,
                        len as nat,
                        keys_64@[j - 1],
                    ) == t);
                } else if before {
                    let w = choose|w: int|
                        0 <= w < j - 1 && slot_of(
                            index.hash_key,
                            index.displacements@,
                            len as nat,
                            #[trigger] keys_64@[w],
                        ) == t;
                    assert(slot_of(index.hash_key, index.displacements@, len as nat, keys_64@[w])
                        == t);
                } else if after {
                    let w = choose|w: int|
                        0 <= w < j && slot_of(
                            index.hash_key,
                            index.displacements@,
                            len as nat,
                            #[trigger] keys_64@[w],
                        ) == t;
                    assert(w < j - 1);
                    assert(slot_of(index.hash_key, index.displacements@, len as nat, keys_64@[w])
                        == t);
                }
            }
            assert(dist@ =~= next);
        }
    }
    dist
}

/// Collects the short keys whose slot of the primary table holds the
/// sentinel, each with its distance.
fn collect_conflicts(
    hash_key: HashKey,
    displacements: &Vec<(u32, u32)>,
    dist: &Vec<usize>,
    keys_16: &Vec<usize>,
    values_16: &Vec<u16>,
) -> (c: (Vec<usize>, Vec<usize>))
    requires
        keys_16.len() == values_16.len(),
        dist.len() == keys_16.len(),
        displacements.len() == keys_16.len(),
        keys_16.len() <= u32::MAX,
    ensures
        (c.0@, c.1@) == conflicts(
            hash_key,
            displacements@,
            dist@,
            keys_16@,
            values_16@,
            keys_16.len() as nat,
        ),
{
    let len: usize = dist.len();
    let mut conflict_keys: Vec<usize> = Vec::new();
    let mut conflict_values: Vec<usize> = Vec::new();
    let mut i: usize = 0;
    while i < keys_16.len()
        invariant
            i <= keys_16.len(),
            keys_16.len() == values_16.len(),
            len == dist.len(),
            dist.len() == keys_16.len(),
            displacements.len() == keys_16.len(),
            keys_16.len() <= u32::MAX,
            (conflict_keys@, conflict_values@) == conflicts(
                hash_key,
                displacements@,
                dist@,
                keys_16@,
                values_16@,
                i as nat,
            ),
        decreases keys_16.len() - i,
    {
        let hashes = hash(keys_16[i], hash_key);
        let slot: usize = get_index(&hashes, displacements.as_slice(), len) as usize;
        if dist[slot] == 0 {
            conflict_keys.push(keys_16[i]);
            conflict_values.push(values_16[i] as usize);
        }
        i += 1;
    }
    (conflict_keys, conflict_values)
}

/// Replaces the key indices of a solved table by the values of the keys.
fn with_values(index: HashState, values: &Vec<usize>, Ghost(entries): Ghost<Seq<usize>>) -> (st:
    HashState)
    requires
        index.solves(entries),
        entries.len() == values.len(),
    ensures
        st.hash_key == index.hash_key,
        st.holds(entries, values@),
{
    proof {
        index.lemma_solves_is_perfect(entries);
    }
    let len: usize = index.map.len();
    let mut map: Vec<usize> = Vec::new();
    let mut s: usize = 0;
    while s < len
        invariant
            s <= len,
            len == index.map.len(),
            len == values.len(),
            forall|t: int| 0 <= t < index.map@.len() ==> (#[trigger] index.map@[t]) < len,
            map@ == Seq::new(s as nat, |t: int| values@[index.map@[t] as int]),
        decreases len - s,
    {
        map.push(values[index.map[s]]);
        s += 1;
        assert(map@ =~= Seq::new(s as nat, |t: int| values@[index.map@[t] as int]));
    }
    HashState { hash_key: index.hash_key, displacements: index.displacements, map }
}

/// All of `first`, then all of `second`.
fn concat(first: Vec<usize>, second: &Vec<usize>) -> (all: Vec<usize>)
    ensures
        all@ == first@ + second@,
{
    let mut all = first;
    let mut i: usize = 0;
    while i < second.len()
        invariant
            i <= second.len(),
            all@ == first@ + second@.take(i as int),
        decreases second.len() - i,
    {
        all.push(second[i]);
        i += 1;
        assert(all@ =~= first@ + second@.take(i as int));
    }
    assert(second@.take(second.len() as int) == second@);
    all
}

/// The primary table and the entries of the secondary one, from a solved
/// primary index.
fn finish_primary(
    index: HashState,
    keys_16: &Vec<usize>,
    values_16: &Vec<u16>,
    keys_64: &Vec<usize>,
    values_64: &Vec<usize>,
) -> (r: (HashState, Vec<usize>, Vec<usize>))
    requires
        index.solves(keys_16@),
        keys_16.len() == values_16.len(),
        keys_64.len() == values_64.len(),
    ensures
        r.0.hash_key == index.hash_key,
        r.0.displacements@ == index.displacements@,
        r.0.map@ == primary_distances(
            index.hash_key,
            index.displacements@,
            index.map@,
            values_16@,
            keys_64@,
            keys_64.len() as nat,
        ),
        Some((r.1@, r.2@)) == LutPHFDouble::secondary_entries(
            keys_16@,
            values_16@,
            keys_64@,
            values_64@,
            index.hash_key,
        ),
        r.1.len() == r.2.len(),
{
    proof {
        index.lemma_solves_is_perfect(keys_16@);
    }
    let dist = evict(&index, values_16, keys_64, Ghost(keys_16@));
    let c = collect_conflicts(index.hash_key, &index.displacements, &dist, keys_16, values_16);
    proof {
        lemma_conflicts(
            index.hash_key,
            index.displacements@,
            dist@,
            keys_16@,
            values_16@,
            keys_16.len() as nat,
        );
    }
    let secondary_keys = concat(c.0, keys_64);
    let secondary_values = concat(c.1, values_64);
    let primary = HashState {
        hash_key: index.hash_key,
        displacements: index.displacements,
        map: dist,
    };
    (primary, secondary_keys, secondary_values)
}

impl LutPHFDouble {
    /// Whether the two hash keys fail to build the table: the search fails
    /// under `key_16` for the short keys, or under `key_64` for the keys of
    /// the secondary table.
    pub open spec fn unsolved(
        keys_16: Seq<usize>,
        values_16: Seq<u16>,
        keys_64: Seq<usize>,
        values_64: Seq<usize>,
        key_16: HashKey,
        key_64: HashKey,
    ) -> bool {
        match Self::secondary_entries(keys_16, values_16, keys_64, values_64, key_16) {
            None => true,
            Some(e) => solve(spec_hash_all(e.0, key_64), DEFAULT_LAMBDA as nat).is_none(),
        }
    }

    /// Whether `r` is what the candidates give for `keys` and `values`: the
    /// state that maps each key to its value under the first candidate that
    /// solves the keys, or the error where no candidate solves them.
    pub open spec fn held_from(
        keys: Seq<usize>,
        values: Seq<usize>,
        candidates: Seq<HashKey>,
        r: Result<HashState, LutError>,
    ) -> bool {
        match first_solving(keys, candidates, DEFAULT_LAMBDA as nat, 0) {
            Some(i) => r is Ok && r->Ok_0.hash_key == candidates[i as int] && r->Ok_0.holds(
                keys,
                values,
            ),
            None => r is Err && r->Err_0 == LutError::PhfUnsolvable,
        }
    }

    /// Whether `r` is what the candidates give for the pairs: the table
    /// whose primary level is built under the first of `candidates_16` that
    /// solves the short keys, and whose secondary level is built under the
    /// first of `candidates_64` that solves the keys sent to it; or the error
    /// where one of the levels finds no such candidate.
    pub open spec fn built_from_candidates(
        keys_16: Seq<usize>,
        values_16: Seq<u16>,
        keys_64: Seq<usize>,
        values_64: Seq<usize>,
        candidates_16: Seq<HashKey>,
        candidates_64: Seq<HashKey>,
        r: Result<LutPHFDouble, LutError>,
    ) -> bool {
        match first_solving(keys_16, candidates_16, DEFAULT_LAMBDA as nat, 0) {
            None => r is Err && r->Err_0 == LutError::PhfUnsolvable,
            Some(i) => {
                let key_16 = candidates_16[i as int];
                let secondary = Self::secondary_entries(
                    keys_16,
                    values_16,
                    keys_64,
                    values_64,
                    key_16,
                ).unwrap();
                match first_solving(secondary.0, candidates_64, DEFAULT_LAMBDA as nat, 0) {
                    None => r is Err && r->Err_0 == LutError::PhfUnsolvable,
                    Some(j) => {
                        &&& r is Ok
                        &&& r->Ok_0.hash_state_16.hash_key == key_16
                        &&& r->Ok_0.hash_state_64.hash_key == candidates_64[j as int]
                        &&& r->Ok_0.is_built_from(keys_16, values_16, keys_64, values_64)
                    },
                }
            },
        }
    }

    /// Pairs of which there is at most one are built under any two hash
    /// keys.
    pub proof fn lemma_one_pair_solves(
        keys_16: Seq<usize>,
        values_16: Seq<u16>,
        keys_64: Seq<usize>,
        values_64: Seq<usize>,
        key_16: HashKey,
        key_64: HashKey,
    )
        requires
            keys_16.len() == values_16.len(),
            keys_64.len() == values_64.len(),
            keys_16.len() + keys_64.len() <= 1,
        ensures
            !Self::unsolved(keys_16, values_16, keys_64, values_64, key_16, key_64),
    {
        let hashes = spec_hash_all(keys_16, key_16);
        if keys_16.len() == 0 {
            lemma_solves_empty(hashes, DEFAULT_LAMBDA as nat);
        } else {
            lemma_solves_single(hashes, DEFAULT_LAMBDA as nat);
        }
        let sol = solve(hashes, DEFAULT_LAMBDA as nat).unwrap();
        let dist = primary_distances(
            key_16,
            sol.displacements,
            sol.map,
            values_16,
            keys_64,
            keys_64.len(),
        );
        lemma_conflicts(key_16, sol.displacements, dist, keys_16, values_16, keys_16.len());
        let e = Self::secondary_entries(keys_16, values_16, keys_64, values_64, key_16).unwrap();
        let second = spec_hash_all(e.0, key_64);
        if e.0.len() == 0 {
            lemma_solves_empty(second, DEFAULT_LAMBDA as nat);
        } else {
            lemma_solves_single(second, DEFAULT_LAMBDA as nat);
        }
    }

    /// Builds the table from the short pairs `(keys_16, values_16)` and the
    /// long pairs `(keys_64, values_64)` under the two given hash keys.
    ///
    /// Returns `None` exactly where the two hash keys fail to build the
    /// table.
    pub fn build_with_hash_keys(
        keys_16: &Vec<usize>,
        values_16: &Vec<u16>,
        keys_64: &Vec<usize>,
        values_64: &Vec<usize>,
        key_16: HashKey,
        key_64: HashKey,
    ) -> (r: Option<Self>)
        requires
            keys_16.len() == values_16.len(),
            keys_64.len() == values_64.len(),
        ensures
            match r {
                Some(t) => {
                    &&& !Self::unsolved(keys_16@, values_16@, keys_64@, values_64@, key_16, key_64)
                    &&& t.hash_state_16.hash_key == key_16
                    &&& t.hash_state_64.hash_key == key_64
                    &&& t.is_built_from(keys_16@, values_16@, keys_64@, values_64@)
                    &&& t.answers(keys_16@, values_16@, keys_64@, values_64@)
                },
                None => Self::unsolved(keys_16@, values_16@, keys_64@, values_64@, key_16, key_64),
            },
    {
        let index = match try_generate_hash(keys_16.as_slice(), key_16) {
            None => {
                return None;
            },
            Some(index) => index,
        };
        let (hash_state_16, secondary_keys, secondary_values) = finish_primary(
            index,
            keys_16,
            values_16,
            keys_64,
            values_64,
        );
        let secondary_index = match try_generate_hash(secondary_keys.as_slice(), key_64) {
            None => {
                return None;
            },
            Some(secondary_index) => secondary_index,
        };
        let hash_state_64 = with_values(secondary_index, &secondary_values, Ghost(secondary_keys@));
        let table = LutPHFDouble { hash_state_16, hash_state_64 };
        proof {
            table.lemma_lookup_sound(keys_16@, values_16@, keys_64@, values_64@);
        }
        Some(table)
    }

    /// Builds the table from the short pairs `(keys_16, values_16)` and the
    /// long pairs `(keys_64, values_64)`, each level under the first of its
    /// candidates that solves it.
    ///
    /// Fails exactly where one of the levels finds no candidate that solves
    /// it.
    pub fn build_with_candidates(
        keys_16: &Vec<usize>,
        values_16: &Vec<u16>,
        keys_64: &Vec<usize>,
        values_64: &Vec<usize>,
        candidates_16: &[HashKey],
        candidates_64: &[HashKey],
    ) -> (r: Result<Self, LutError>)
        requires
            keys_16.len() == values_16.len(),
            keys_64.len() == values_64.len(),
        ensures
            Self::built_from_candidates(
                keys_16@,
                values_16@,
                keys_64@,
                values_64@,
                candidates_16@,
                candidates_64@,
                r,
            ),
            r is Ok ==> r->Ok_0.answers(keys_16@, values_16@, keys_64@, values_64@),
    {
        let index = match generate_hash_from(keys_16.as_slice(), candidates_16) {
            Err(e) => {
                return Err(e);
            },
            Ok(index) => index,
        };
        let (hash_state_16, secondary_keys, secondary_values) = finish_primary(
            index,
            keys_16,
            values_16,
            keys_64,
            values_64,
        );
        let hash_state_64 = match Self::generate_hash_single_from(
            &secondary_keys,
            &secondary_values,
            candidates_64,
        ) {
            Err(e) => {
                return Err(e);
            },
            Ok(hash_state_64) => hash_state_64,
        };
        let table = LutPHFDouble { hash_state_16, hash_state_64 };
        proof {
            table.lemma_lookup_sound(keys_16@, values_16@, keys_64@, values_64@);
        }
        Ok(table)
    }

    /// Builds the table from the short pairs `(keys_16, values_16)` and the
    /// long pairs `(keys_64, values_64)`, trying for each level the first
    /// hash keys of the seeded candidate stream in turn.
    ///
    /// Which keys the stream yields is not known here. Whatever they are: the
    /// result is that of [`build_with_candidates`](Self::build_with_candidates)
    /// on the candidates drawn. So a table that is returned is the one built
    /// under its own two hash keys, and it answers every pair; an error
    /// means that some two hash keys fail to build the table; and at most one
    /// pair always gives a table.
    pub fn build_with_keys_and_values(
        keys_16: Vec<usize>,
        values_16: Vec<u16>,
        keys_64: Vec<usize>,
        values_64: Vec<usize>,
    ) -> (r: Result<Self, LutError>)
        requires
            keys_16.len() == values_16.len(),
            keys_64.len() == values_64.len(),
        ensures
            exists|candidates_16: Seq<HashKey>, candidates_64: Seq<HashKey>|
                candidates_16.len() == MAX_ATTEMPTS && candidates_64.len() == MAX_ATTEMPTS
                    && #[trigger] Self::built_from_candidates(
                    keys_16@,
                    values_16@,
                    keys_64@,
                    values_64@,
                    candidates_16,
                    candidates_64,
                    r,
                ),
            match r {
                Ok(t) => {
                    &&& t.is_built_from(keys_16@, values_16@, keys_64@, values_64@)
                    &&& t.answers(keys_16@, values_16@, keys_64@, values_64@)
                },
                Err(e) => e == LutError::PhfUnsolvable && exists|key_16: HashKey, key_64: HashKey|
                    #[trigger] Self::unsolved(
                        keys_16@,
                        values_16@,
                        keys_64@,
                        values_64@,
                        key_16,
                        key_64,
                    ),
            },
            keys_16@.len() + keys_64@.len() <= 1 ==> r.is_ok(),
    {
        let candidates_16 = draw_candidates(FIXED_SEED, MAX_ATTEMPTS);
        let candidates_64 = draw_candidates(FIXED_SEED, MAX_ATTEMPTS);
        let r = Self::build_with_candidates(
            &keys_16,
            &values_16,
            &keys_64,
            &values_64,
            candidates_16.as_slice(),
            candidates_64.as_slice(),
        );
        proof {
            if r is Err {
                lemma_first_solving(keys_16@, candidates_16@, DEFAULT_LAMBDA as nat, 0);
                let (key_16, key_64) = match first_solving(
                    keys_16@,
                    candidates_16@,
                    DEFAULT_LAMBDA as nat,
                    0,
                ) {
                    None => {
                        assert(solve(
                            spec_hash_all(keys_16@, candidates_16@[0]),
                            DEFAULT_LAMBDA as nat,
                        ).is_none());
                        (candidates_16@[0], candidates_64@[0])
                    },
                    Some(i) => {
                        let secondary = Self::secondary_entries(
                            keys_16@,
                            values_16@,
                            keys_64@,
                            values_64@,
                            candidates_16@[i as int],
                        ).unwrap();
                        lemma_first_solving(
                            secondary.0,
                            candidates_64@,
                            DEFAULT_LAMBDA as nat,
                            0,
                        );
                        assert(solve(
                            spec_hash_all(secondary.0, candidates_64@[0]),
                            DEFAULT_LAMBDA as nat,
                        ).is_none());
                        (candidates_16@[i as int], candidates_64@[0])
                    },
                };
                assert(Self::unsolved(
                    keys_16@,
                    values_16@,
                    keys_64@,
                    values_64@,
                    key_16,
                    key_64,
                ));
                if keys_16@.len() + keys_64@.len() <= 1 {
                    Self::lemma_one_pair_solves(
                        keys_16@,
                        values_16@,
                        keys_64@,
                        values_64@,
                        key_16,
                        key_64,
                    );
                }
            }
        }
        r
    }

    /// Builds a perfect hash that maps each of `keys` to its value, under
    /// the first of `candidates` that solves the keys.
    ///
    /// Fails exactly where none of the candidates solves.
    pub fn generate_hash_single_from(
        keys: &Vec<usize>,
        values: &Vec<usize>,
        candidates: &[HashKey],
    ) -> (r: Result<HashState, LutError>)
        requires
            keys.len() == values.len(),
        ensures
            Self::held_from(keys@, values@, candidates@, r),
            r is Ok ==> r->Ok_0.maps(keys@, values@),
    {
        match generate_hash_from(keys.as_slice(), candidates) {
            Err(e) => Err(e),
            Ok(index) => {
                let st = with_values(index, values, Ghost(keys@));
                proof {
                    st.lemma_holds_maps(keys@, values@);
                }
                Ok(st)
            },
        }
    }

    /// Builds a perfect hash that maps each of `keys` to its value, trying
    /// the first hash keys of the seeded candidate stream in turn.
    ///
    /// Which keys the stream yields is not known here. Whatever they are: the
    /// result is that of
    /// [`generate_hash_single_from`](Self::generate_hash_single_from) on the
    /// candidates drawn. So an error means that some hash key does not solve
    /// the keys; keys that hold a key twice are refused; and at most one key
    /// is always accepted.
    pub fn generate_hash_single(keys: Vec<usize>, values: Vec<usize>) -> (r: Result<
        HashState,
        LutError,
    >)
        requires
            keys.len() == values.len(),
        ensures
            exists|candidates: Seq<HashKey>|
                candidates.len() == MAX_ATTEMPTS && #[trigger] Self::held_from(
                    keys@,
                    values@,
                    candidates,
                    r,
                ),
            match r {
                Ok(st) => st.holds(keys@, values@) && st.maps(keys@, values@),
                Err(e) => e == LutError::PhfUnsolvable && exists|key: HashKey|
                    (#[trigger] solve(spec_hash_all(keys@, key), DEFAULT_LAMBDA as nat)).is_none(),
            },
            !keys@.no_duplicates() ==> r.is_err(),
            keys@.len() <= 1 ==> r.is_ok(),
    {
        let candidates = draw_candidates(FIXED_SEED, MAX_ATTEMPTS);
        let r = Self::generate_hash_single_from(&keys, &values, candidates.as_slice());
        proof {
            lemma_first_solving(keys@, candidates@, DEFAULT_LAMBDA as nat, 0);
            let first = spec_hash_all(keys@, candidates@[0]);
            if keys@.len() == 0 {
                lemma_solves_empty(first, DEFAULT_LAMBDA as nat);
            } else if keys@.len() == 1 {
                lemma_solves_single(first, DEFAULT_LAMBDA as nat);
            }
            if r is Ok {
                r->Ok_0.lemma_holds_maps(keys@, values@);
            } else {
                assert(solve(first, DEFAULT_LAMBDA as nat).is_none());
            }
        }
        r
    }
}

impl LutPHFDouble {
    /// Walks the structural events of `input` with one stack per kind of
    /// bracket and lists every pair of brackets as the offset of the opening
    /// one and the distance to the closing one: `(keys_16, values_16)` for
    /// the distances that fit 16 bits, `(keys_64, values_64)` for the others,
    /// each list in the order of the closing brackets.
    ///
    /// Fails where a closing bracket has no opening one, or an opening
    /// bracket is never closed.
    pub fn find_all_pairs(input: &[u8]) -> (r: Result<
        (Vec<usize>, Vec<u16>, Vec<usize>, Vec<usize>),
        LutError,
    >)
        ensures
            match r {
                Ok(lists) => match matched_pairs(input@) {
                    Some(pairs) => {
                        &&& lists.0@ == split(pairs).keys_16
                        &&& lists.1@ == split(pairs).values_16
                        &&& lists.2@ == split(pairs).keys_64
                        &&& lists.3@ == split(pairs).values_64
                    },
                    None => false,
                },
                Err(e) => e == LutError::UnmatchedBracket && matched_pairs(input@).is_none(),
            },
    {
        let input_len: usize = input.len();
        let mut classifier = StructuralIterator::new(input);
        let mut square_bracket_stack: VecDeque<usize> = VecDeque::new();
        let mut curly_bracket_stack: VecDeque<usize> = VecDeque::new();
        let mut keys_16: Vec<usize> = Vec::new();
        let mut values_16: Vec<u16> = Vec::new();
        let mut keys_64: Vec<usize> = Vec::new();
        let mut values_64: Vec<usize> = Vec::new();
        loop
            invariant
                classifier.wf(),
                classifier.bytes() == input@,
                classifier.position() <= input@.len(),
                input@.len() == input_len,
                !walk(input@, classifier.position()).unmatched,
                square_bracket_stack@ == walk(input@, classifier.position()).square,
                curly_bracket_stack@ == walk(input@, classifier.position()).curly,
                keys_16@ == split(walk(input@, classifier.position()).pairs).keys_16,
                values_16@ == split(walk(input@, classifier.position()).pairs).values_16,
                keys_64@ == split(walk(input@, classifier.position()).pairs).keys_64,
                values_64@ == split(walk(input@, classifier.position()).pairs).values_64,
            ensures
                classifier.position() == input@.len(),
            decreases input@.len() - classifier.position(),
        {
            let ghost before = classifier.position();
            let ghost w = walk(input@, before);
            let event = classifier.next();
            match event {
                None => {
                    proof {
                        lemma_walk_skip(input@, before, input@.len());
                    }
                    break ;
                },
                Some(Event::Opening(b, idx_open)) => {
                    proof {
                        lemma_walk_skip(input@, before, idx_open as nat);
                        assert(walk(input@, (idx_open + 1) as nat) == crate::pairs::walk_step(
                            w,
                            structural_at(input@, idx_open as int),
                        ));
                    }
                    match b {
                        BracketType::Square => square_bracket_stack.push_back(idx_open),
                        BracketType::Curly => curly_bracket_stack.push_back(idx_open),
                    }
                },
                Some(Event::Closing(b, idx_close)) => {
                    proof {
                        lemma_walk_skip(input@, before, idx_close as nat);
                        lemma_walk(input@, idx_close as nat);
                        assert(walk(input@, (idx_close + 1) as nat) == crate::pairs::walk_step(
                            w,
                            structural_at(input@, idx_close as int),
                        ));
                    }
                    let popped = match b {
                        BracketType::Square => square_bracket_stack.pop_back(),
                        BracketType::Curly => curly_bracket_stack.pop_back(),
                    };
                    let idx_open: usize = match popped {
                        None => {
                            proof {
                                lemma_walk_unmatched(
                                    input@,
                                    (idx_close + 1) as nat,
                                    input@.len(),
                                );
                            }
                            return Err(LutError::UnmatchedBracket);
                        },
                        Some(idx_open) => idx_open,
                    };
                    proof {
                        let top = w.stack(b).len() - 1;
                        assert(w.stack(b)[top] < idx_close);
                        assert(w.pairs.push((idx_open, idx_close)).drop_last() =~= w.pairs);
                    }
                    let distance: usize = idx_close - idx_open;
                    if distance < THRESHOLD_16_BITS {
                        keys_16.push(idx_open);
                        values_16.push(distance as u16);
                    } else {
                        keys_64.push(idx_open);
                        values_64.push(distance);
                    }
                },
            }
        }
        if square_bracket_stack.len() != 0 || curly_bracket_stack.len() != 0 {
            return Err(LutError::UnmatchedBracket);
        }
        Ok((keys_16, values_16, keys_64, values_64))
    }

    /// Builds the table of a JSON document: every opening bracket outside
    /// string literals is a key, and a lookup of it returns the offset of the
    /// bracket that closes it.
    ///
    /// Fails with `UnmatchedBracket` exactly where the brackets of the
    /// document do not pair up. Else it builds from the pairs as
    /// [`build_with_keys_and_values`](Self::build_with_keys_and_values) does:
    /// `PhfUnsolvable` means that some two hash keys fail to build the table,
    /// and a document with at most one pair always gives a table.
    pub fn build_with_json(input: &[u8]) -> (r: Result<Self, LutError>)
        ensures
            match r {
                Ok(t) => match matched_pairs(input@) {
                    Some(pairs) => {
                        &&& t.is_built_from(
                            split(pairs).keys_16,
                            split(pairs).values_16,
                            split(pairs).keys_64,
                            split(pairs).values_64,
                        )
                        &&& forall|m: int|
                            0 <= m < pairs.len() ==> t.spec_get((#[trigger] pairs[m]).0) == Some(
                                pairs[m].1,
                            )
                    },
                    None => false,
                },
                Err(e) => match matched_pairs(input@) {
                    None => e == LutError::UnmatchedBracket,
                    Some(pairs) => e == LutError::PhfUnsolvable && exists|
                        key_16: HashKey,
                        key_64: HashKey,
                    |
                        #[trigger] Self::unsolved(
                            split(pairs).keys_16,
                            split(pairs).values_16,
                            split(pairs).keys_64,
                            split(pairs).values_64,
                            key_16,
                            key_64,
                        ),
                },
            },
            matched_pairs(input@) matches Some(pairs) && pairs.len() <= 1 ==> r.is_ok(),
    {
        let (keys_16, values_16, keys_64, values_64) = match Self::find_all_pairs(input) {
            Err(e) => {
                return Err(e);
            },
            Ok(lists) => lists,
        };
        let input_len: usize = input.len();
        let ghost pairs = matched_pairs(input@).unwrap();
        proof {
            lemma_split_lengths(pairs);
        }
        match Self::build_with_keys_and_values(keys_16, values_16, keys_64, values_64) {
            Err(e) => Err(e),
            Ok(table) => {
                proof {
                    assert(input@.len() == input_len);
                    crate::pairs::lemma_pairs_match(input@);
                    assert forall|m: int| 0 <= m < pairs.len() implies table.spec_get(
                        (#[trigger] pairs[m]).0,
                    ) == Some(pairs[m].1) by {
                        lemma_split_covers(pairs, m);
                    }
                }
                Ok(table)
            },
        }
    }
}

} // verus!
