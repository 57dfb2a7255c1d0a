//! The plain table: a hash map from the offset of each opening bracket to the
//! offset of the bracket that closes it.

use crate::error::LutError;
use crate::lut_phf_double::LutPHFDouble;
use crate::pairs::{
    lemma_opens_distinct, lemma_pairs_match, lemma_split_covers, lemma_split_lengths,
    lemma_split_sound, matched_pairs, split,
};
use std::collections::HashMap;
use vstd::prelude::*;
use vstd::set::fold::{is_fun_commutative, lemma_fold_empty, lemma_fold_insert};
use vstd::set_lib::lemma_subset_equality;

verus! {

broadcast use vstd::std_specs::hash::group_hash_axioms;

/// A lookup table backed by a hash map.
pub struct LutNaive {
    table: HashMap<usize, usize>,
}

impl View for LutNaive {
    type V = Map<usize, usize>;

    closed spec fn view(&self) -> Map<usize, usize> {
        self.table@
    }
}

/// Calls `HashMap::capacity`, the number of entries that the map can hold
/// without allocating anew. The number is the allocator's; nothing is claimed
/// of it.
#[verifier::external_body]
fn map_capacity(table: &HashMap<usize, usize>) -> usize {
    table.capacity()
}

impl LutNaive {
    /// The number of entries that the table can hold without allocating
    /// anew.
    pub fn capacity(&self) -> usize {
        map_capacity(&self.table)
    }

    /// An empty table, with room for `start_capacity` entries where that is
    /// given.
    pub fn init(start_capacity: Option<usize>) -> (lut: Self)
        ensures
            lut@ == Map::<usize, usize>::empty(),
    {
        let size: usize = match start_capacity {
            Some(size) => size,
            None => 0,
        };
        Self { table: HashMap::with_capacity(size) }
    }

    /// Stores `value` for `key`, in place of what was stored for it before.
    pub fn put(&mut self, key: usize, value: usize)
        ensures
            final(self)@ == old(self)@.insert(key, value),
    {
        self.table.insert(key, value);
    }

    /// What is stored for `key`.
    pub fn get(&self, key: &usize) -> (r: Option<&usize>)
        ensures
            match r {
                Some(value) => self@.contains_key(*key) && *value == self@[*key],
                None => !self@.contains_key(*key),
            },
    {
        self.table.get(key)
    }

    /// The number of entries.
    pub fn len(&self) -> (n: usize)
        ensures
            n == self@.len(),
            self@.dom().finite(),
    {
        self.table.len()
    }

    /// Whether the table has no entry.
    pub fn is_empty(&self) -> (b: bool)
        ensures
            b == (self@.len() == 0),
            self@.dom().finite(),
    {
        self.table.len() == 0
    }
}

/// The distance from `key` to `value`; 0 where `value` lies before `key`.
pub open spec fn distance(key: usize, value: usize) -> usize {
    if value >= key {
        (value - key) as usize
    } else {
        0
    }
}

/// Adds the distance of one entry of `m` to a sum.
pub open spec fn add_distance(m: Map<usize, usize>) -> spec_fn(nat, usize) -> nat {
    |sum: nat, key: usize| sum + distance(key, m[key]) as nat
}

/// The sum of the distances of all entries.
pub open spec fn total_distance(m: Map<usize, usize>) -> nat {
    m.dom().fold(0nat, add_distance(m))
}

/// Whether `x` is the largest distance of an entry; 0 for the empty table.
pub open spec fn is_max_distance(m: Map<usize, usize>, x: usize) -> bool {
    if m.dom().len() == 0 {
        x == 0
    } else {
        &&& exists|key: usize| m.contains_key(key) && distance(key, #[trigger] m[key]) == x
        &&& forall|key: usize| m.contains_key(key) ==> distance(key, #[trigger] m[key]) <= x
    }
}

/// Whether `x` is the smallest distance of an entry; the largest number for
/// the empty table.
pub open spec fn is_min_distance(m: Map<usize, usize>, x: usize) -> bool {
    if m.dom().len() == 0 {
        x == usize::MAX
    } else {
        &&& exists|key: usize| m.contains_key(key) && distance(key, #[trigger] m[key]) == x
        &&& forall|key: usize| m.contains_key(key) ==> distance(key, #[trigger] m[key]) >= x
    }
}

/// What a table's entries look like: how many there are, and the sum, the
/// largest and the smallest of their distances.
#[derive(Clone, Copy, Debug)]
pub struct DistanceStats {
    pub entries: usize,
    pub total: u128,
    pub max: usize,
    pub min: usize,
}

impl LutNaive {
    /// Counts the entries and sums up and compares their distances. The
    /// table is left as it is.
    pub fn distance_stats(&self) -> (stats: DistanceStats)
        ensures
            stats.entries == self@.len(),
            stats.total == total_distance(self@),
            is_max_distance(self@, stats.max),
            is_min_distance(self@, stats.min),
    {
        let count: usize = self.table.len();
        let ghost m = self.table@;
        let ghost mut seen: Set<usize> = Set::empty();
        let mut entries: usize = 0;
        let mut total: u128 = 0;
        let mut max_distance: usize = 0;
        let mut min_distance: usize = usize::MAX;
        proof {
            lemma_fold_empty::<usize, nat>(0nat, add_distance(m));
            assert(is_fun_commutative(add_distance(m)));
        }
        for pair in it: self.table.iter()
            invariant
                m == self.table@,
                m.dom().finite(),
                count == m.dom().len(),
                it.seq().len() == count,
                it.seq().no_duplicates(),
                forall|i: int|
                    0 <= i < it.seq().len() ==> m.contains_key(*(#[trigger] it.seq()[i]).0) && m[*it.seq()[i].0]
                        == *it.seq()[i].1,
                is_fun_commutative(add_distance(m)),
                entries == it.index(),
                seen.finite(),
                seen.len() == it.index(),
                seen.subset_of(m.dom()),
                forall|key: usize|
                    seen.contains(key) ==> exists|i: int|
                        0 <= i < it.index() && *(#[trigger] it.seq()[i]).0 == key,
                total == seen.fold(0nat, add_distance(m)),
                total <= it.index() * usize::MAX,
                it.index() == 0 ==> max_distance == 0 && min_distance == usize::MAX,
                it.index() > 0 ==> exists|key: usize|
                    seen.contains(key) && distance(key, #[trigger] m[key]) == max_distance,
                it.index() > 0 ==> exists|key: usize|
                    seen.contains(key) && distance(key, #[trigger] m[key]) == min_distance,
                forall|key: usize|
                    seen.contains(key) ==> min_distance <= distance(key, #[trigger] m[key])
                        <= max_distance,
        {
            let (key, value) = pair;
            let d: usize = (*value).saturating_sub(*key);
            proof {
                let at = it.index() as int;
                assert(*it.seq()[at].0 == *key);
                if seen.contains(*key) {
                    let i = choose|i: int| 0 <= i < it.index() && *(#[trigger] it.seq()[i]).0 == *key;
                    assert(m[*it.seq()[i].0] == *it.seq()[i].1);
                    assert(it.seq()[i] == it.seq()[at]);
                }
                lemma_fold_insert::<usize, nat>(seen, 0nat, add_distance(m), *key);
                assert((it.index() + 1) * usize::MAX == it.index() * usize::MAX + usize::MAX)
                    by (nonlinear_arith);
                assert(count * usize::MAX <= usize::MAX * usize::MAX) by (nonlinear_arith)
                    requires
                        count <= usize::MAX,
                ;
                assert((it.index() + 1) * usize::MAX <= count * usize::MAX) by (nonlinear_arith)
                    requires
                        it.index() + 1 <= count,
                ;
                seen = seen.insert(*key);
            }
            total = total + d as u128;
            if d > max_distance {
                max_distance = d;
            }
            if d < min_distance {
                min_distance = d;
            }
            entries = entries + 1;
        }
        proof {
            lemma_subset_equality(seen, m.dom());
        }
        DistanceStats { entries, total, max: max_distance, min: min_distance }
    }
}

impl LutNaive {
    /// Whether the table holds exactly the pairs `pairs`: each opening offset
    /// is a key, its value is the closing offset, and there is no other key.
    pub open spec fn holds_pairs(&self, pairs: Seq<(usize, usize)>) -> bool {
        &&& forall|m: int|
            0 <= m < pairs.len() ==> self@.contains_key((#[trigger] pairs[m]).0) && self@[pairs[m].0]
                == pairs[m].1
        &&& forall|key: usize| #[trigger]
            self@.contains_key(key) ==> exists|m: int|
                0 <= m < pairs.len() && (#[trigger] pairs[m]).0 == key
    }

    /// Builds the table of a JSON document: every opening bracket outside
    /// string literals is a key, and its value is the offset of the bracket
    /// that closes it.
    ///
    /// Fails exactly where the brackets of the document do not pair up.
    pub fn build_with_json(input: &[u8]) -> (r: Result<Self, LutError>)
        ensures
            match r {
                Ok(lut) => match matched_pairs(input@) {
                    Some(pairs) => lut.holds_pairs(pairs),
                    None => false,
                },
                Err(e) => e == LutError::UnmatchedBracket && matched_pairs(input@).is_none(),
            },
    {
        let input_len: usize = input.len();
        let (keys_16, values_16, keys_64, values_64) = match LutPHFDouble::find_all_pairs(input) {
            Err(e) => {
                return Err(e);
            },
            Ok(lists) => lists,
        };
        let ghost pairs = matched_pairs(input@).unwrap();
        let ghost all = keys_16@ + keys_64@;
        proof {
            assert(input@.len() == input_len);
            lemma_pairs_match(input@);
            lemma_opens_distinct(input@);
            lemma_split_lengths(pairs);
            lemma_split_sound(pairs);
        }
        let mut lut = Self::init(Some(keys_16.len()));
        let mut i: usize = 0;
        while i < keys_16.len()
            invariant
                i <= keys_16.len(),
                keys_16.len() == values_16.len(),
                all == keys_16@ + keys_64@,
                all.no_duplicates(),
                keys_16@ == split(pairs).keys_16,
                values_16@ == split(pairs).values_16,
                forall|a: int|
                    #![trigger keys_16@[a]]
                    0 <= a < keys_16.len() ==> exists|m: int|
                        0 <= m < pairs.len() && (#[trigger] pairs[m]).0 == keys_16@[a]
                            && pairs[m].1 == keys_16@[a] + values_16@[a],
                forall|a: int|
                    0 <= a < i ==> lut@.contains_key(#[trigger] keys_16@[a]) && lut@[keys_16@[a]]
                        == keys_16@[a] + values_16@[a],
                forall|key: usize| #[trigger]
                    lut@.contains_key(key) ==> exists|a: int| 0 <= a < i && keys_16@[a] == key,
            decreases keys_16.len() - i,
        {
            proof {
                let m = choose|m: int|
                    0 <= m < pairs.len() && (#[trigger] pairs[m]).0 == keys_16@[i as int]
                        && pairs[m].1 == keys_16@[i as int] + values_16@[i as int];
                assert forall|a: int| 0 <= a < i implies keys_16@[a] != keys_16@[i as int] by {
                    assert(all[a] == keys_16@[a] && all[i as int] == keys_16@[i as int]);
                }
            }
            lut.put(keys_16[i], keys_16[i] + values_16[i] as usize);
            i += 1;
        }
        let mut j: usize = 0;
        while j < keys_64.len()
            invariant
                j <= keys_64.len(),
                keys_16.len() == values_16.len(),
                keys_64.len() == values_64.len(),
                all == keys_16@ + keys_64@,
                all.no_duplicates(),
                forall|b: int|
                    #![trigger keys_64@[b]]
                    0 <= b < keys_64.len() ==> exists|m: int|
                        0 <= m < pairs.len() && (#[trigger] pairs[m]).0 == keys_64@[b]
                            && pairs[m].1 == keys_64@[b] + values_64@[b],
                forall|a: int|
                    0 <= a < keys_16.len() ==> lut@.contains_key(#[trigger] keys_16@[a])
                        && lut@[keys_16@[a]] == keys_16@[a] + values_16@[a],
                forall|b: int|
                    0 <= b < j ==> lut@.contains_key(#[trigger] keys_64@[b]) && lut@[keys_64@[b]]
                        == keys_64@[b] + values_64@[b],
                forall|key: usize| #[trigger]
                    lut@.contains_key(key) ==> (exists|a: int|
                        0 <= a < keys_16.len() && keys_16@[a] == key) || (exists|b: int|
                        0 <= b < j && keys_64@[b] == key),
            decreases keys_64.len() - j,
        {
            proof {
                let m = choose|m: int|
                    0 <= m < pairs.len() && (#[trigger] pairs[m]).0 == keys_64@[j as int]
                        && pairs[m].1 == keys_64@[j as int] + values_64@[j as int];
                assert forall|a: int| 0 <= a < keys_16.len() implies keys_16@[a]
                    != keys_64@[j as int] by {
                    assert(all[a] == keys_16@[a]);
                    assert(all[keys_16.len() + j] == keys_64@[j as int]);
                }
                assert forall|b: int| 0 <= b < j implies keys_64@[b] != keys_64@[j as int] by {
                    assert(all[keys_16.len() + b] == keys_64@[b]);
                    assert(all[keys_16.len() + j] == keys_64@[j as int]);
                }
            }
            lut.put(keys_64[j], keys_64[j] + values_64[j]);
            j += 1;
        }
        proof {
            assert forall|m: int| 0 <= m < pairs.len() implies lut@.contains_key(
                (#[trigger] pairs[m]).0,
            ) && lut@[pairs[m].0] == pairs[m].1 by {
                lemma_split_covers(pairs, m);
            }
            assert forall|key: usize| #[trigger] lut@.contains_key(key) implies exists|m: int|
                0 <= m < pairs.len() && (#[trigger] pairs[m]).0 == key by {
                if exists|a: int| 0 <= a < keys_16.len() && keys_16@[a] == key {
                    let a = choose|a: int| 0 <= a < keys_16.len() && keys_16@[a] == key;
                    let m = choose|m: int|
                        0 <= m < pairs.len() && (#[trigger] pairs[m]).0 == keys_16@[a]
                            && pairs[m].1 == keys_16@[a] + values_16@[a];
                    assert(pairs[m].0 == key);
                } else {
                    let b = choose|b: int| 0 <= b < keys_64.len() && keys_64@[b] == key;
                    let m = choose|m: int|
                        0 <= m < pairs.len() && (#[trigger] pairs[m]).0 == keys_64@[b]
                            && pairs[m].1 == keys_64@[b] + values_64@[b];
                    assert(pairs[m].0 == key);
                }
            }
        }
        Ok(lut)
    }
}

/// The table that holds the entries `entries`, later entries in place of
/// earlier ones with the same key.
pub open spec fn map_of(entries: Seq<(usize, usize)>) -> Map<usize, usize>
    decreases entries.len(),
{
    if entries.len() == 0 {
        Map::empty()
    } else {
        map_of(entries.drop_last()).insert(entries.last().0, entries.last().1)
    }
}

impl LutNaive {
    /// The entries of the table as pairs of key and value, each key once, in
    /// no particular order.
    pub fn entries(&self) -> (list: Vec<(usize, usize)>)
        ensures
            list@.len() == self@.len(),
            self@.dom().finite(),
            map_of(list@) == self@,
            forall|i: int|
                0 <= i < list@.len() ==> self@.contains_key((#[trigger] list@[i]).0)
                    && self@[list@[i].0] == list@[i].1,
            forall|i: int, j: int|
                0 <= i < list@.len() && 0 <= j < list@.len() && i != j ==> (#[trigger] list@[i]).0
                    != (#[trigger] list@[j]).0,
    {
        let count: usize = self.table.len();
        let ghost m = self.table@;
        let ghost mut seen: Set<usize> = Set::empty();
        let mut list: Vec<(usize, usize)> = Vec::new();
        assert(map_of(list@) =~= m.restrict(seen));
        for pair in it: self.table.iter()
            invariant
                m == self.table@,
                m.dom().finite(),
                count == m.dom().len(),
                it.seq().len() == count,
                it.seq().no_duplicates(),
                forall|i: int|
                    0 <= i < it.seq().len() ==> m.contains_key(*(#[trigger] it.seq()[i]).0) && m[*it.seq()[i].0]
                        == *it.seq()[i].1,
                list@.len() == it.index(),
                forall|i: int|
                    0 <= i < it.index() ==> (#[trigger] list@[i]).0 == *it.seq()[i].0 && list@[i].1
                        == *it.seq()[i].1,
                seen.finite(),
                seen.len() == it.index(),
                seen.subset_of(m.dom()),
                forall|key: usize|
                    seen.contains(key) ==> exists|i: int|
                        0 <= i < it.index() && *(#[trigger] it.seq()[i]).0 == key,
                map_of(list@) == m.restrict(seen),
        {
            let (key, value) = pair;
            proof {
                let at = it.index() as int;
                assert(*it.seq()[at].0 == *key);
                if seen.contains(*key) {
                    let i = choose|i: int| 0 <= i < it.index() && *(#[trigger] it.seq()[i]).0 == *key;
                    assert(m[*it.seq()[i].0] == *it.seq()[i].1);
                    assert(it.seq()[i] == it.seq()[at]);
                }
                assert(list@.push((*key, *value)).drop_last() =~= list@);
                assert(m.restrict(seen).insert(*key, *value) =~= m.restrict(seen.insert(*key)));
                seen = seen.insert(*key);
            }
            list.push((*key, *value));
        }
        proof {
            lemma_subset_equality(seen, m.dom());
            assert(m.restrict(m.dom()) =~= m);
            assert forall|i: int, j: int|
                0 <= i < list@.len() && 0 <= j < list@.len() && i != j implies (
            #[trigger] list@[i]).0 != (#[trigger] list@[j]).0 by {
                if list@[i].0 == list@[j].0 {
                    assert(self.table@[list@[i].0] == list@[i].1);
                    assert(self.table@[list@[j].0] == list@[j].1);
                }
            }
        }
        list
    }

    /// The table that holds the entries `entries`, later entries in place of
    /// earlier ones with the same key.
    pub fn from_entries(entries: &[(usize, usize)]) -> (lut: Self)
        ensures
            lut@ == map_of(entries@),
    {
        let mut lut = Self::init(Some(entries.len()));
        let mut i: usize = 0;
        while i < entries.len()
            invariant
                i <= entries.len(),
                lut@ == map_of(entries@.take(i as int)),
            decreases entries.len() - i,
        {
            let (key, value) = entries[i];
            lut.put(key, value);
            i += 1;
            assert(entries@.take(i as int).drop_last() =~= entries@.take(i - 1));
        }
        assert(entries@.take(i as int) == entries@);
        lut
    }
}

/// The order of pairs of integers: by the first number, then by the second.
pub open spec fn pair_le(a: (usize, usize), b: (usize, usize)) -> bool {
    a.0 < b.0 || (a.0 == b.0 && a.1 <= b.1)
}

/// Calls `sort_unstable` of std on a vector of pairs of integers, which
/// sorts it in ascending order; pairs are ordered by their first number, then
/// by their second. The vector holds afterwards what it held before, in
/// ascending order.
#[verifier::external_body]
fn sort_pairs(entries: &mut Vec<(usize, usize)>)
    ensures
        final(entries)@.to_multiset() == old(entries)@.to_multiset(),
        forall|i: int, j: int|
            0 <= i < j < final(entries)@.len() ==> pair_le(
                #[trigger] final(entries)@[i],
                #[trigger] final(entries)@[j],
            ),
{
    entries.sort_unstable();
}

/// Whether `e` lists the entries of `m` by ascending key, each once.
pub open spec fn is_ascending_enumeration(m: Map<usize, usize>, e: Seq<(usize, usize)>) -> bool {
    &&& m.dom().finite()
    &&& e.len() == m.dom().len()
    &&& forall|i: int|
        0 <= i < e.len() ==> m.contains_key((#[trigger] e[i]).0) && m[e[i].0] == e[i].1
    &&& forall|i: int, j: int| 0 <= i < j < e.len() ==> (#[trigger] e[i]).0 < (#[trigger] e[j]).0
}

/// The entries of `m` by ascending key.
pub open spec fn ascending_entries(m: Map<usize, usize>) -> Seq<(usize, usize)> {
    choose|e: Seq<(usize, usize)>| is_ascending_enumeration(m, e)
}

/// An ascending enumeration leaves out no key.
pub proof fn lemma_enumeration_covers(m: Map<usize, usize>, e: Seq<(usize, usize)>)
    requires
        is_ascending_enumeration(m, e),
    ensures
        forall|key: usize| #[trigger]
            m.contains_key(key) ==> exists|i: int| 0 <= i < e.len() && (#[trigger] e[i]).0 == key,
{
    let keys = Seq::new(e.len(), |i: int| e[i].0);
    assert forall|i: int, j: int| 0 <= i < keys.len() && 0 <= j < keys.len() && i != j implies keys[i]
        != keys[j] by {
        if i < j {
            assert(e[i].0 < e[j].0);
        } else {
            assert(e[j].0 < e[i].0);
        }
    }
    keys.unique_seq_to_set();
    vstd::seq_lib::seq_to_set_is_finite(keys);
    assert(keys.to_set().subset_of(m.dom())) by {
        assert forall|key: usize| keys.to_set().contains(key) implies m.dom().contains(key) by {
            let i = choose|i: int| 0 <= i < keys.len() && keys[i] == key;
            assert(m.contains_key(e[i].0));
        }
    }
    lemma_subset_equality(keys.to_set(), m.dom());
    assert forall|key: usize| #[trigger] m.contains_key(key) implies exists|i: int|
        0 <= i < e.len() && (#[trigger] e[i]).0 == key by {
        assert(keys.to_set().contains(key));
        let i = choose|i: int| 0 <= i < keys.len() && keys[i] == key;
        assert(e[i].0 == key);
    }
}

/// Two ascending enumerations of one table agree up to any index.
proof fn lemma_enumerations_agree(
    m: Map<usize, usize>,
    e1: Seq<(usize, usize)>,
    e2: Seq<(usize, usize)>,
    upto: nat,
)
    requires
        is_ascending_enumeration(m, e1),
        is_ascending_enumeration(m, e2),
        upto <= e1.len(),
    ensures
        forall|i: int| 0 <= i < upto ==> #[trigger] e1[i] == e2[i],
    decreases upto,
{
    if upto > 0 {
        let n = (upto - 1) as int;
        lemma_enumerations_agree(m, e1, e2, n as nat);
        lemma_enumeration_covers(m, e1);
        lemma_enumeration_covers(m, e2);
        if e1[n].0 < e2[n].0 {
            assert(m.contains_key(e1[n].0));
            let j = choose|j: int| 0 <= j < e2.len() && (#[trigger] e2[j]).0 == e1[n].0;
            if j < n {
                assert(e1[j] == e2[j]);
                assert(e1[j].0 < e1[n].0);
            } else if j > n {
                assert(e2[n].0 < e2[j].0);
            }
        } else if e2[n].0 < e1[n].0 {
            assert(m.contains_key(e2[n].0));
            let j = choose|j: int| 0 <= j < e1.len() && (#[trigger] e1[j]).0 == e2[n].0;
            if j < n {
                assert(e1[j] == e2[j]);
                assert(e2[j].0 < e2[n].0);
            } else if j > n {
                assert(e1[n].0 < e1[j].0);
            }
        }
        assert(m[e1[n].0] == e1[n].1 && m[e2[n].0] == e2[n].1);
    }
}

/// A table has one ascending enumeration only.
pub proof fn lemma_enumeration_unique(
    m: Map<usize, usize>,
    e1: Seq<(usize, usize)>,
    e2: Seq<(usize, usize)>,
)
    requires
        is_ascending_enumeration(m, e1),
        is_ascending_enumeration(m, e2),
    ensures
        e1 == e2,
{
    lemma_enumerations_agree(m, e1, e2, e1.len());
    assert(e1 =~= e2);
}

/// The table of entries with pairwise different keys has exactly their keys,
/// each with its value.
pub proof fn lemma_map_of(e: Seq<(usize, usize)>)
    requires
        forall|i: int, j: int|
            0 <= i < e.len() && 0 <= j < e.len() && i != j ==> (#[trigger] e[i]).0 != (
            #[trigger] e[j]).0,
    ensures
        forall|i: int|
            0 <= i < e.len() ==> map_of(e).contains_key((#[trigger] e[i]).0) && map_of(e)[e[i].0]
                == e[i].1,
        forall|key: usize| #[trigger]
            map_of(e).contains_key(key) ==> exists|i: int|
                0 <= i < e.len() && (#[trigger] e[i]).0 == key,
    decreases e.len(),
{
    if e.len() > 0 {
        let rest = e.drop_last();
        assert forall|i: int, j: int|
            0 <= i < rest.len() && 0 <= j < rest.len() && i != j implies (#[trigger] rest[i]).0 != (
        #[trigger] rest[j]).0 by {
            assert(rest[i] == e[i] && rest[j] == e[j]);
        }
        lemma_map_of(rest);
        let last = e.len() - 1;
        assert forall|i: int| 0 <= i < e.len() implies map_of(e).contains_key(
            (#[trigger] e[i]).0,
        ) && map_of(e)[e[i].0] == e[i].1 by {
            if i < last {
                assert(rest[i] == e[i]);
                assert(e[i].0 != e[last].0);
            }
        }
        assert forall|key: usize| #[trigger] map_of(e).contains_key(key) implies exists|i: int|
            0 <= i < e.len() && (#[trigger] e[i]).0 == key by {
            if key == e[last].0 {
            } else {
                assert(map_of(rest).contains_key(key));
                let i = choose|i: int| 0 <= i < rest.len() && (#[trigger] rest[i]).0 == key;
                assert(e[i] == rest[i]);
            }
        }
    }
}

/// The table of an ascending enumeration of `m` is `m`.
pub proof fn lemma_enumeration_map(m: Map<usize, usize>, e: Seq<(usize, usize)>)
    requires
        is_ascending_enumeration(m, e),
    ensures
        map_of(e) == m,
{
    assert forall|i: int, j: int| 0 <= i < e.len() && 0 <= j < e.len() && i != j implies (
    #[trigger] e[i]).0 != (#[trigger] e[j]).0 by {
        if i < j {
            assert(e[i].0 < e[j].0);
        } else {
            assert(e[j].0 < e[i].0);
        }
    }
    lemma_map_of(e);
    lemma_enumeration_covers(m, e);
    assert forall|key: usize| map_of(e).contains_key(key) == m.contains_key(key) by {
        if map_of(e).contains_key(key) {
            let i = choose|i: int| 0 <= i < e.len() && (#[trigger] e[i]).0 == key;
            assert(m.contains_key(e[i].0));
        }
        if m.contains_key(key) {
            let i = choose|i: int| 0 <= i < e.len() && (#[trigger] e[i]).0 == key;
            assert(map_of(e).contains_key(e[i].0));
        }
    }
    assert forall|key: usize| m.contains_key(key) implies map_of(e)[key] == m[key] by {
        let i = choose|i: int| 0 <= i < e.len() && (#[trigger] e[i]).0 == key;
        assert(map_of(e)[e[i].0] == e[i].1);
    }
    assert(map_of(e) =~= m);
}

impl LutNaive {
    /// The entries of the table as pairs of key and value, by ascending key.
    pub fn sorted_entries(&self) -> (list: Vec<(usize, usize)>)
        ensures
            is_ascending_enumeration(self@, list@),
            list@ == ascending_entries(self@),
    {
        let mut list = self.entries();
        let ghost before = list@;
        sort_pairs(&mut list);
        proof {
            let m = self@;
            let e = list@;
            before.to_multiset_ensures();
            e.to_multiset_ensures();
            assert(before.no_duplicates()) by {
                assert forall|i: int, j: int|
                    0 <= i < before.len() && 0 <= j < before.len() && i != j implies before[i]
                    != before[j] by {
                    assert(before[i].0 != before[j].0);
                }
            }
            before.lemma_multiset_has_no_duplicates();
            e.lemma_multiset_has_no_duplicates_conv();
            assert forall|i: int| 0 <= i < e.len() implies m.contains_key((#[trigger] e[i]).0)
                && m[e[i].0] == e[i].1 by {
                assert(e.contains(e[i]));
                assert(before.to_multiset().count(e[i]) > 0);
                assert(before.contains(e[i]));
                let j = choose|j: int| 0 <= j < before.len() && before[j] == e[i];
                assert(m.contains_key(before[j].0));
            }
            assert forall|i: int, j: int| 0 <= i < j < e.len() implies (#[trigger] e[i]).0 < (
            #[trigger] e[j]).0 by {
                assert(pair_le(e[i], e[j]));
                if e[i].0 == e[j].0 {
                    assert(m[e[i].0] == e[i].1 && m[e[j].0] == e[j].1);
                    assert(e[i] == e[j]);
                }
            }
            assert(is_ascending_enumeration(m, e));
            lemma_enumeration_unique(m, e, ascending_entries(m));
        }
        list
    }
}

impl LutNaive {
    /// Determinism: two tables that hold the same pairs are the same table.
    pub proof fn lemma_same_pairs_same_table(&self, other: &LutNaive, pairs: Seq<(usize, usize)>)
        requires
            self.holds_pairs(pairs),
            other.holds_pairs(pairs),
        ensures
            self@ == other@,
            ascending_entries(self@) == ascending_entries(other@),
    {
        assert forall|key: usize| self@.contains_key(key) == other@.contains_key(key) by {
            if self@.contains_key(key) {
                let m = choose|m: int| 0 <= m < pairs.len() && (#[trigger] pairs[m]).0 == key;
                assert(other@.contains_key(pairs[m].0));
            }
            if other@.contains_key(key) {
                let m = choose|m: int| 0 <= m < pairs.len() && (#[trigger] pairs[m]).0 == key;
                assert(self@.contains_key(pairs[m].0));
            }
        }
        assert forall|key: usize| self@.contains_key(key) implies self@[key] == other@[key] by {
            let m = choose|m: int| 0 <= m < pairs.len() && (#[trigger] pairs[m]).0 == key;
            assert(self@[pairs[m].0] == pairs[m].1 && other@[pairs[m].0] == pairs[m].1);
        }
        assert(self@ =~= other@);
    }
}

} // verus!
