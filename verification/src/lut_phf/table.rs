//! The single-level table: one perfect hash over all pairs, which holds the
//! distance of each opening bracket to its closing one.

use crate::error::LutError;
use crate::lut_phf::hashing::HashKey;
use crate::lut_phf::keys::{draw_candidates, FIXED_SEED, MAX_ATTEMPTS};
use crate::lut_phf::model::solve;
use crate::lut_phf::phf_generator::{
    generate_hash_from, try_generate_hash, HashState, DEFAULT_LAMBDA,
};
use crate::lut_phf::proofs::{lemma_solves_empty, lemma_solves_single};
use crate::lut_phf::search::{first_solving, lemma_first_solving, spec_hash_all};
use crate::lut_phf_double::{offset_by, LutPHFDouble};
use crate::pairs::{
    lemma_pairs_match, lemma_split_covers, lemma_split_lengths, matched_pairs, split,
};
use vstd::prelude::*;

verus! {

/// The single-level lookup table.
pub struct LutPHF {
    /// The perfect hash. Each slot holds the distance of its key.
    pub hash_state: HashState,
}

/// All keys of the split lists, the short ones first.
pub open spec fn all_keys(keys_16: Seq<usize>, keys_64: Seq<usize>) -> Seq<usize> {
    keys_16 + keys_64
}

/// All distances of the split lists at full width, the short ones first.
pub open spec fn all_values(values_16: Seq<u16>, values_64: Seq<usize>) -> Seq<usize> {
    Seq::new(values_16.len(), |i: int| values_16[i] as usize) + values_64
}

impl LutPHF {
    /// What a lookup of `key` returns: `key` plus the distance at its slot;
    /// `None` where the table is empty or the sum is no offset.
    pub open spec fn spec_get(&self, key: usize) -> Option<usize> {
        match self.hash_state.spec_get_index(key) {
            Some(d) => offset_by(key, d),
            None => None,
        }
    }

    /// Whether the table is the one that is built from the keys and their
    /// distances under the table's own hash key.
    pub open spec fn is_built_from(&self, keys: Seq<usize>, values: Seq<usize>) -> bool {
        self.hash_state.holds(keys, values)
    }

    /// Whether the table answers every pair: a lookup of each key returns the
    /// key plus its distance.
    pub open spec fn answers(&self, keys: Seq<usize>, values: Seq<usize>) -> bool {
        forall|i: int|
            0 <= i < keys.len() ==> self.spec_get(#[trigger] keys[i]) == offset_by(
                keys[i],
                values[i],
            )
    }

    /// Whether `r` is what the candidates give for the keys and distances:
    /// the table built under the first candidate that solves the keys, or the
    /// error where no candidate solves them.
    pub open spec fn built_from_candidates(
        keys: Seq<usize>,
        values: Seq<usize>,
        candidates: Seq<HashKey>,
        r: Result<LutPHF, LutError>,
    ) -> bool {
        match first_solving(keys, candidates, DEFAULT_LAMBDA as nat, 0) {
            Some(i) => r is Ok && r->Ok_0.hash_state.key == candidates[i as int]
                && r->Ok_0.is_built_from(keys, values),
            None => r is Err && r->Err_0 == LutError::PhfUnsolvable,
        }
    }

    /// Lookup soundness and minimality: a table built from keys and
    /// distances answers each of them and has one slot per key.
    pub proof fn lemma_lookup_sound(&self, keys: Seq<usize>, values: Seq<usize>)
        requires
            self.is_built_from(keys, values),
        ensures
            self.answers(keys, values),
            self.hash_state.map@.len() == keys.len(),
    {
        self.hash_state.lemma_holds_maps(keys, values);
    }

    /// Looks up the closing offset of the bracket that opens at `key`.
    pub fn get(&self, key: &usize) -> (r: Option<usize>)
        ensures
            r == self.spec_get(*key),
    {
        match self.hash_state.get_index(key) {
            Some(distance) => key.checked_add(distance),
            None => None,
        }
    }

    /// Builds the table from keys and their distances under the given hash
    /// key.
    ///
    /// Returns `None` exactly where the displacement search fails under
    /// `key`.
    pub fn build_with_hash_key(keys: &Vec<usize>, values: &Vec<usize>, key: HashKey) -> (r: Option<
        Self,
    >)
        requires
            keys.len() == values.len(),
        ensures
            match r {
                Some(t) => t.hash_state.key == key && t.is_built_from(keys@, values@) && t.answers(
                    keys@,
                    values@,
                ),
                None => solve(spec_hash_all(keys@, key), DEFAULT_LAMBDA as nat).is_none(),
            },
    {
        match try_generate_hash(keys.as_slice(), key) {
            None => None,
            Some(index) => {
                let table = LutPHF { hash_state: index.with_values(values, Ghost(keys@)) };
                proof {
                    table.lemma_lookup_sound(keys@, values@);
                }
                Some(table)
            },
        }
    }

    /// Builds the table from keys and their distances under the first of
    /// `candidates` that solves the keys.
    ///
    /// Fails exactly where none of the candidates solves.
    pub fn build_with_candidates(keys: &Vec<usize>, values: &Vec<usize>, candidates: &[HashKey]) -> (r:
        Result<Self, LutError>)
        requires
            keys.len() == values.len(),
        ensures
            Self::built_from_candidates(keys@, values@, candidates@, r),
            r is Ok ==> r->Ok_0.answers(keys@, values@),
    {
        match generate_hash_from(keys.as_slice(), candidates) {
            Err(e) => Err(e),
            Ok(index) => {
                let table = LutPHF { hash_state: index.with_values(values, Ghost(keys@)) };
                proof {
                    table.lemma_lookup_sound(keys@, values@);
                }
                Ok(table)
            },
        }
    }

    /// Builds the table from keys and their distances, trying the first hash
    /// keys of the seeded candidate stream in turn.
    ///
    /// Which keys the stream yields is not known here. Whatever they are: the
    /// result is that of [`build_with_candidates`](Self::build_with_candidates)
    /// on the candidates drawn. So a table that is returned answers every
    /// pair; an error means that some hash key does not solve the keys; and
    /// at most one pair always gives a table.
    pub fn build_with_keys_and_values(keys: Vec<usize>, values: Vec<usize>) -> (r: Result<
        Self,
        LutError,
    >)
        requires
            keys.len() == values.len(),
        ensures
            exists|candidates: Seq<HashKey>|
                candidates.len() == MAX_ATTEMPTS && #[trigger] Self::built_from_candidates(
                    keys@,
                    values@,
                    candidates,
                    r,
                ),
            match r {
                Ok(t) => t.is_built_from(keys@, values@) && t.answers(keys@, values@),
                Err(e) => e == LutError::PhfUnsolvable && exists|key: HashKey|
                    (#[trigger] solve(spec_hash_all(keys@, key), DEFAULT_LAMBDA as nat)).is_none(),
            },
            keys@.len() <= 1 ==> r.is_ok(),
    {
        let candidates = draw_candidates(FIXED_SEED, MAX_ATTEMPTS);
        let r = Self::build_with_candidates(&keys, &values, candidates.as_slice());
        proof {
            lemma_first_solving(keys@, candidates@, DEFAULT_LAMBDA as nat, 0);
            let first = spec_hash_all(keys@, candidates@[0]);
            if keys@.len() == 0 {
                lemma_solves_empty(first, DEFAULT_LAMBDA as nat);
            } else if keys@.len() == 1 {
                lemma_solves_single(first, DEFAULT_LAMBDA as nat);
            }
            if r is Err {
                assert(solve(first, DEFAULT_LAMBDA as nat).is_none());
            }
        }
        r
    }

    /// Builds the table of a JSON document: every opening bracket outside
    /// string literals is a key, and a lookup of it returns the offset of the
    /// bracket that closes it.
    ///
    /// Fails with `UnmatchedBracket` exactly where the brackets of the
    /// document do not pair up. Else `PhfUnsolvable` means that some hash key
    /// does not solve the keys of the document, and a document with at most
    /// one pair always gives a table.
    pub fn build_with_json(input: &[u8]) -> (r: Result<Self, LutError>)
        ensures
            match r {
                Ok(t) => match matched_pairs(input@) {
                    Some(pairs) => {
                        &&& t.is_built_from(
                            all_keys(split(pairs).keys_16, split(pairs).keys_64),
                            all_values(split(pairs).values_16, split(pairs).values_64),
                        )
                        &&& forall|m: int|
                            0 <= m < pairs.len() ==> t.spec_get((#[trigger] pairs[m]).0) == Some(
                                pairs[m].1,
                            )
                    },
                    None => false,
                },
                Err(e) => match matched_pairs(input@) {
                    None => e == LutError::UnmatchedBracket,
                    Some(pairs) => e == LutError::PhfUnsolvable && exists|key: HashKey|
                        (#[trigger] solve(
                            spec_hash_all(
                                all_keys(split(pairs).keys_16, split(pairs).keys_64),
                                key,
                            ),
                            DEFAULT_LAMBDA as nat,
                        )).is_none(),
                },
            },
            matched_pairs(input@) matches Some(pairs) && pairs.len() <= 1 ==> r.is_ok(),
    {
        let input_len: usize = input.len();
        let (keys_16, values_16, keys_64, values_64) = match LutPHFDouble::find_all_pairs(input) {
            Err(e) => {
                return Err(e);
            },
            Ok(lists) => lists,
        };
        let ghost pairs = matched_pairs(input@).unwrap();
        proof {
            lemma_split_lengths(pairs);
        }
        let mut keys = keys_16;
        let mut values: Vec<usize> = Vec::new();
        let mut i: usize = 0;
        while i < values_16.len()
            invariant
                i <= values_16.len(),
                values@ == Seq::new(i as nat, |j: int| values_16@[j] as usize),
            decreases values_16.len() - i,
        {
            values.push(values_16[i] as usize);
            i += 1;
            assert(values@ =~= Seq::new(i as nat, |j: int| values_16@[j] as usize));
        }
        let mut j: usize = 0;
        while j < keys_64.len()
            invariant
                j <= keys_64.len(),
                keys_64.len() == values_64.len(),
                keys@ == split(pairs).keys_16 + keys_64@.take(j as int),
                values@ == Seq::new(values_16@.len(), |k: int| values_16@[k] as usize)
                    + values_64@.take(j as int),
            decreases keys_64.len() - j,
        {
            keys.push(keys_64[j]);
            values.push(values_64[j]);
            j += 1;
            assert(keys@ =~= split(pairs).keys_16 + keys_64@.take(j as int));
            assert(values@ =~= Seq::new(values_16@.len(), |k: int| values_16@[k] as usize)
                + values_64@.take(j as int));
        }
        proof {
            assert(keys_64@.take(j as int) == keys_64@);
            assert(values_64@.take(j as int) == values_64@);
            assert(keys@ =~= all_keys(split(pairs).keys_16, split(pairs).keys_64));
            assert(values@ =~= all_values(split(pairs).values_16, split(pairs).values_64));
        }
        match Self::build_with_keys_and_values(keys, values) {
            Err(e) => Err(e),
            Ok(table) => {
                proof {
                    assert(input@.len() == input_len);
                    lemma_pairs_match(input@);
                    let s = split(pairs);
                    let ks = all_keys(s.keys_16, s.keys_64);
                    let vs = all_values(s.values_16, s.values_64);
                    assert forall|m: int| 0 <= m < pairs.len() implies table.spec_get(
                        (#[trigger] pairs[m]).0,
                    ) == Some(pairs[m].1) by {
                        lemma_split_covers(pairs, m);
                        let (open, close) = pairs[m];
                        if exists|a: int|
                            0 <= a < s.keys_16.len() && #[trigger] s.keys_16[a] == open
                                && s.values_16[a] == close - open {
                            let a = choose|a: int|
                                0 <= a < s.keys_16.len() && #[trigger] s.keys_16[a] == open
                                    && s.values_16[a] == close - open;
                            assert(ks[a] == open && vs[a] == close - open);
                            assert(table.spec_get(ks[a]) == offset_by(ks[a], vs[a]));
                        } else {
                            let b = choose|b: int|
                                0 <= b < s.keys_64.len() && #[trigger] s.keys_64[b] == open
                                    && s.values_64[b] == close - open;
                            let a = s.keys_16.len() + b;
                            assert(ks[a] == open && vs[a] == close - open);
                            assert(table.spec_get(ks[a]) == offset_by(ks[a], vs[a]));
                        }
                    }
                }
                Ok(table)
            },
        }
    }
}

} // verus!
