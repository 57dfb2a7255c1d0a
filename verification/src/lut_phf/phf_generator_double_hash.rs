//! The perfect hash behind each level of the two-level table: one key to a
//! bucket on average, which leaves few keys in conflict.

use crate::error::LutError;
use crate::lut_phf::hashing::{get_index, hash, spec_get_index, spec_hash, HashKey};
use crate::lut_phf::keys::{draw_candidates, MAX_ATTEMPTS};
use crate::lut_phf::model::{solve, Solution};
use crate::lut_phf::proofs::{
    lemma_bucket_count, lemma_solution_is_perfect, lemma_solves_empty, lemma_solves_single,
};
use crate::lut_phf::search::{
    first_solving, hash_all, lemma_first_solving, solve_table, spec_hash_all,
};
use vstd::prelude::*;

pub use crate::lut_phf::keys::FIXED_SEED;

verus! {

/// Keys to a bucket, on average.
pub const DEFAULT_LAMBDA: usize = 1;

/// A perfect hash of a set of keys: the hash key under which the keys were
/// hashed, the displacement pair of each bucket, and the table, which holds
/// at each key's slot either the index of that key or the value stored for
/// it.
pub struct HashState {
    pub hash_key: HashKey,
    pub displacements: Vec<(u32, u32)>,
    pub map: Vec<usize>,
}

impl HashState {
    /// Whether a lookup can compute a slot: both tables are non-empty and
    /// their lengths fit the 32-bit lanes.
    pub open spec fn usable(&self) -> bool {
        &&& 0 < self.map@.len() <= u32::MAX
        &&& 0 < self.displacements@.len() <= u32::MAX
    }

    /// The slot that `key` hashes to.
    pub open spec fn spec_slot_of(&self, key: usize) -> int {
        spec_get_index(spec_hash(key, self.hash_key), self.displacements@, self.map@.len())
    }

    /// What the table holds at the slot of `key`; `None` where the state is
    /// not [`usable`](Self::usable). For a key outside the set that the state
    /// was built over, this is the content of some other key's slot.
    pub open spec fn spec_get(&self, key: usize) -> Option<usize> {
        if self.usable() {
            Some(self.map@[self.spec_slot_of(key)])
        } else {
            None
        }
    }

    /// Whether the state is the one that the displacement search finds for
    /// `entries` under its hash key, with key indices in the table.
    pub open spec fn solves(&self, entries: Seq<usize>) -> bool {
        solve(spec_hash_all(entries, self.hash_key), DEFAULT_LAMBDA as nat) == Some(
            Solution { displacements: self.displacements@, map: self.map@ },
        )
    }

    /// Whether the state is the one that the displacement search finds for
    /// `entries` under its hash key, with `values[i]` in the table where the
    /// search put the index `i`.
    pub open spec fn holds(&self, entries: Seq<usize>, values: Seq<usize>) -> bool {
        match solve(spec_hash_all(entries, self.hash_key), DEFAULT_LAMBDA as nat) {
            Some(sol) => {
                &&& self.displacements@ == sol.displacements
                &&& self.map@ == Seq::new(sol.map.len(), |s: int| values[sol.map[s] as int])
            },
            None => false,
        }
    }

    /// Whether the state is a minimal perfect hash of `entries`: one slot per
    /// entry, and the slot of each entry holds that entry's index.
    pub open spec fn is_perfect_for(&self, entries: Seq<usize>) -> bool {
        &&& self.map@.len() == entries.len()
        &&& forall|i: int|
            0 <= i < entries.len() ==> self.spec_get(#[trigger] entries[i]) == Some(i as usize)
    }

    /// Whether the state maps each of `entries` to its value: one slot per
    /// entry, and the slot of `entries[i]` holds `values[i]`.
    pub open spec fn maps(&self, entries: Seq<usize>, values: Seq<usize>) -> bool {
        &&& self.map@.len() == entries.len()
        &&& forall|i: int|
            0 <= i < entries.len() ==> self.spec_get(#[trigger] entries[i]) == Some(values[i])
    }

    /// A state that solves `entries` is a minimal perfect hash of them, and
    /// no entry occurs twice.
    pub proof fn lemma_solves_is_perfect(&self, entries: Seq<usize>)
        requires
            self.solves(entries),
        ensures
            self.is_perfect_for(entries),
            entries.no_duplicates(),
            entries.len() <= u32::MAX,
            self.displacements@.len() == entries.len(),
            forall|s: int| 0 <= s < self.map@.len() ==> (#[trigger] self.map@[s]) < entries.len(),
    {
        let hashes = spec_hash_all(entries, self.hash_key);
        lemma_solution_is_perfect(hashes, DEFAULT_LAMBDA as nat);
        lemma_bucket_count(entries.len(), DEFAULT_LAMBDA as nat);
        assert forall|i: int| 0 <= i < entries.len() implies self.spec_get(#[trigger] entries[i])
            == Some(i as usize) by {
            assert(hashes[i] == spec_hash(entries[i], self.hash_key));
        }
        assert forall|i: int, j: int|
            0 <= i < entries.len() && 0 <= j < entries.len() && i != j implies entries[i]
            != entries[j] by {
            assert(self.spec_get(entries[i]) == Some(i as usize));
            assert(self.spec_get(entries[j]) == Some(j as usize));
        }
    }

    /// A state that holds `values` for `entries` maps each entry to its
    /// value, and no entry occurs twice.
    pub proof fn lemma_holds_maps(&self, entries: Seq<usize>, values: Seq<usize>)
        requires
            self.holds(entries, values),
        ensures
            self.maps(entries, values),
            entries.no_duplicates(),
            entries.len() <= u32::MAX,
            self.displacements@.len() == entries.len(),
    {
        let hashes = spec_hash_all(entries, self.hash_key);
        let sol = solve(hashes, DEFAULT_LAMBDA as nat).unwrap();
        lemma_solution_is_perfect(hashes, DEFAULT_LAMBDA as nat);
        lemma_bucket_count(entries.len(), DEFAULT_LAMBDA as nat);
        assert forall|i: int| 0 <= i < entries.len() implies self.spec_get(#[trigger] entries[i])
            == Some(values[i]) by {
            assert(hashes[i] == spec_hash(entries[i], self.hash_key));
        }
        assert forall|i: int, j: int|
            0 <= i < entries.len() && 0 <= j < entries.len() && i != j implies entries[i]
            != entries[j] by {
            assert(hashes[i] == spec_hash(entries[i], self.hash_key));
            assert(hashes[j] == spec_hash(entries[j], self.hash_key));
            let si = spec_get_index(hashes[i], sol.displacements, entries.len());
            let sj = spec_get_index(hashes[j], sol.displacements, entries.len());
            assert(sol.map[si] == i);
            assert(sol.map[sj] == j);
        }
    }

    /// Looks `key` up: the content of the slot that `key` hashes to.
    pub fn get(&self, key: &usize) -> (r: Option<usize>)
        ensures
            r == self.spec_get(*key),
    {
        let len: usize = self.map.len();
        let buckets: usize = self.displacements.len();
        if len == 0 || buckets == 0 || len > u32::MAX as usize || buckets > u32::MAX as usize {
            return None;
        }
        let hashes = hash(*key, self.hash_key);
        let index: usize = get_index(&hashes, self.displacements.as_slice(), len) as usize;
        Some(self.map[index])
    }
}

/// Runs the displacement search for `entries` under the hash key `key`.
///
/// Returns the perfect hash that the search finds, or `None` where it finds
/// none under this key.
pub fn try_generate_hash(entries: &[usize], key: HashKey) -> (r: Option<HashState>)
    ensures
        match r {
            Some(st) => st.hash_key == key && st.solves(entries@) && st.is_perfect_for(entries@),
            None => solve(spec_hash_all(entries@, key), DEFAULT_LAMBDA as nat).is_none(),
        },
{
    let hashes = hash_all(entries, key);
    match solve_table(&hashes, DEFAULT_LAMBDA) {
        None => None,
        Some(t) => {
            let st = HashState { hash_key: key, displacements: t.0, map: t.1 };
            proof {
                st.lemma_solves_is_perfect(entries@);
            }
            Some(st)
        },
    }
}

/// Whether `r` is what the candidates give for `entries`: the state that
/// the search finds under the first candidate that solves, or the error
/// where no candidate solves.
pub open spec fn generated_from(
    entries: Seq<usize>,
    candidates: Seq<HashKey>,
    r: Result<HashState, LutError>,
) -> bool {
    match first_solving(entries, candidates, DEFAULT_LAMBDA as nat, 0) {
        Some(i) => r is Ok && r->Ok_0.hash_key == candidates[i as int] && r->Ok_0.solves(entries),
        None => r is Err && r->Err_0 == LutError::PhfUnsolvable,
    }
}

/// Builds a perfect hash of `entries` under the first of `candidates` that
/// solves them.
///
/// Fails exactly where none of the candidates solves.
pub fn generate_hash_from(entries: &[usize], candidates: &[HashKey]) -> (r: Result<
    HashState,
    LutError,
>)
    ensures
        generated_from(entries@, candidates@, r),
        r is Ok ==> r->Ok_0.is_perfect_for(entries@),
{
    let mut attempt: usize = 0;
    while attempt < candidates.len()
        invariant
            attempt <= candidates.len(),
            first_solving(entries@, candidates@, DEFAULT_LAMBDA as nat, 0) == first_solving(
                entries@,
                candidates@,
                DEFAULT_LAMBDA as nat,
                attempt as nat,
            ),
        decreases candidates.len() - attempt,
    {
        match try_generate_hash(entries, candidates[attempt]) {
            Some(st) => {
                return Ok(st);
            },
            None => {},
        }
        attempt += 1;
    }
    Err(LutError::PhfUnsolvable)
}

/// Builds a perfect hash of `entries`, trying the first hash keys of the
/// seeded candidate stream in turn.
///
/// Which keys the stream yields is not known here. Whatever they are: the
/// result is that of [`generate_hash_from`] on the candidates drawn. So a
/// state that is returned is a perfect hash of `entries`; an error means that
/// some hash key does not solve them; entries that hold a key twice are
/// refused; and at most one entry is always accepted.
pub fn generate_hash(entries: &[usize]) -> (r: Result<HashState, LutError>)
    ensures
        exists|candidates: Seq<HashKey>|
            candidates.len() == MAX_ATTEMPTS && #[trigger] generated_from(entries@, candidates, r),
        match r {
            Ok(st) => st.solves(entries@) && st.is_perfect_for(entries@),
            Err(e) => e == LutError::PhfUnsolvable && exists|key: HashKey|
                (#[trigger] solve(spec_hash_all(entries@, key), DEFAULT_LAMBDA as nat)).is_none(),
        },
        !entries@.no_duplicates() ==> r.is_err(),
        entries@.len() <= 1 ==> r.is_ok(),
{
    let candidates = draw_candidates(FIXED_SEED, MAX_ATTEMPTS);
    let r = generate_hash_from(entries, candidates.as_slice());
    proof {
        lemma_first_solving(entries@, candidates@, DEFAULT_LAMBDA as nat, 0);
        let first = spec_hash_all(entries@, candidates@[0]);
        if entries@.len() == 0 {
            lemma_solves_empty(first, DEFAULT_LAMBDA as nat);
        } else if entries@.len() == 1 {
            lemma_solves_single(first, DEFAULT_LAMBDA as nat);
        }
        if r is Ok {
            r->Ok_0.lemma_solves_is_perfect(entries@);
        } else {
            assert(solve(first, DEFAULT_LAMBDA as nat).is_none());
        }
    }
    r
}

} // verus!
