//! The lookup table behind one interface, whichever backend holds it.

use crate::error::LutError;
use crate::lut_naive::LutNaive;
use crate::lut_phf_double::LutPHFDouble;
use crate::lut_phf::hashing::HashKey;
use crate::lut_phf::model::solve;
use crate::lut_phf::phf_generator::DEFAULT_LAMBDA;
use crate::lut_phf::search::spec_hash_all;
use crate::lut_phf::table::{all_keys, LutPHF};
use crate::pairs::{matched_pairs, split};
use vstd::prelude::*;

verus! {

/// The backends that a table can be built with.
#[derive(Clone, Copy, Debug, PartialEq, Eq, Structural)]
pub enum Backend {
    /// A hash map.
    Naive,
    /// The single-level perfect hash.
    Phf,
    /// The two-level perfect hash.
    PhfDouble,
}

/// A lookup table of one of the backends.
pub enum LookUpTable {
    /// A table backed by a hash map.
    Naive(LutNaive),
    /// A table backed by the single-level perfect hash.
    Phf(LutPHF),
    /// A table backed by the two-level perfect hash.
    PhfDouble(LutPHFDouble),
}

impl LookUpTable {
    /// The backend of the table.
    pub open spec fn spec_backend(&self) -> Backend {
        match *self {
            LookUpTable::Naive(_) => Backend::Naive,
            LookUpTable::Phf(_) => Backend::Phf,
            LookUpTable::PhfDouble(_) => Backend::PhfDouble,
        }
    }

    /// What a lookup of `open_offset` returns.
    pub open spec fn spec_lookup(&self, open_offset: usize) -> Option<usize> {
        match *self {
            LookUpTable::Naive(lut) => if lut@.contains_key(open_offset) {
                Some(lut@[open_offset])
            } else {
                None
            },
            LookUpTable::Phf(lut) => lut.spec_get(open_offset),
            LookUpTable::PhfDouble(lut) => lut.spec_get(open_offset),
        }
    }

    /// The backend of the table.
    pub fn backend(&self) -> (r: Backend)
        ensures
            r == self.spec_backend(),
    {
        match self {
            LookUpTable::Naive(_) => Backend::Naive,
            LookUpTable::Phf(_) => Backend::Phf,
            LookUpTable::PhfDouble(_) => Backend::PhfDouble,
        }
    }

    /// The offset of the bracket that closes the one at `open_offset`.
    ///
    /// The plain table answers `None` for an offset that is no key. The
    /// perfect-hash tables are to be asked for their keys only: for any other
    /// offset they answer with the distance of some key.
    pub fn lookup(&self, open_offset: usize) -> (r: Option<usize>)
        ensures
            r == self.spec_lookup(open_offset),
    {
        match self {
            LookUpTable::Naive(lut) => match lut.get(&open_offset) {
                Some(close_offset) => Some(*close_offset),
                None => None,
            },
            LookUpTable::Phf(lut) => lut.get(&open_offset),
            LookUpTable::PhfDouble(lut) => lut.get(&open_offset),
        }
    }

    /// Builds the table of a JSON document with the given backend. A lookup
    /// of the offset of any opening bracket of the document returns the
    /// offset of the bracket that closes it.
    ///
    /// Fails with `UnmatchedBracket` exactly where the brackets of the
    /// document do not pair up. The perfect-hash backends also fail, with
    /// `PhfUnsolvable`, where some hash keys fail to build the table; a
    /// document with at most one pair always gives a table.
    pub fn build_from_input(backend: Backend, input: &[u8]) -> (r: Result<Self, LutError>)
        ensures
            match r {
                Ok(table) => match matched_pairs(input@) {
                    Some(pairs) => {
                        &&& table.spec_backend() == backend
                        &&& forall|m: int|
                            0 <= m < pairs.len() ==> table.spec_lookup((#[trigger] pairs[m]).0)
                                == Some(pairs[m].1)
                    },
                    None => false,
                },
                Err(e) => match matched_pairs(input@) {
                    None => e == LutError::UnmatchedBracket,
                    Some(pairs) => {
                        &&& e == LutError::PhfUnsolvable
                        &&& match backend {
                            Backend::Naive => false,
                            Backend::Phf => exists|key: HashKey|
                                (#[trigger] solve(
                                    spec_hash_all(
                                        all_keys(split(pairs).keys_16, split(pairs).keys_64),
                                        key,
                                    ),
                                    DEFAULT_LAMBDA as nat,
                                )).is_none(),
                            Backend::PhfDouble => exists|key_16: HashKey, key_64: HashKey|
                                #[trigger] LutPHFDouble::unsolved(
                                    split(pairs).keys_16,
                                    split(pairs).values_16,
                                    split(pairs).keys_64,
                                    split(pairs).values_64,
                                    key_16,
                                    key_64,
                                ),
                        }
                    },
                },
            },
            matched_pairs(input@) matches Some(pairs) && pairs.len() <= 1 ==> r.is_ok(),
    {
        match backend {
            Backend::Naive => match LutNaive::build_with_json(input) {
                Ok(lut) => Ok(LookUpTable::Naive(lut)),
                Err(e) => Err(e),
            },
            Backend::Phf => match LutPHF::build_with_json(input) {
                Ok(lut) => Ok(LookUpTable::Phf(lut)),
                Err(e) => Err(e),
            },
            Backend::PhfDouble => match LutPHFDouble::build_with_json(input) {
                Ok(lut) => Ok(LookUpTable::PhfDouble(lut)),
                Err(e) => Err(e),
            },
        }
    }
}

} // verus!
