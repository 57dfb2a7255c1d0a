//! The mathematical model of the displacement search: which buckets the keys
//! fall into, in which order the buckets are placed, and which displacement
//! pair each bucket receives.

use crate::lut_phf::hashing::{spec_slot, HashTriple};
use vstd::prelude::*;

verus! {

/// Number of buckets for `n` keys when a bucket holds `lambda` keys on
/// average: `n / lambda`, rounded up.
pub open spec fn bucket_count(n: nat, lambda: nat) -> nat {
    ((n + lambda - 1) / (lambda as int)) as nat
}

/// The bucket of a key with lanes `h`.
pub open spec fn bucket_of(h: HashTriple, buckets: nat) -> int {
    h.g as int % buckets as int
}

/// The indices below `upto` of the keys that fall into bucket `b`, ascending.
pub open spec fn bucket_keys_upto(hashes: Seq<HashTriple>, buckets: nat, b: int, upto: nat) -> Seq<
    usize,
>
    decreases upto,
{
    if upto == 0 {
        Seq::empty()
    } else {
        let rest = bucket_keys_upto(hashes, buckets, b, (upto - 1) as nat);
        if bucket_of(hashes[upto - 1], buckets) == b {
            rest.push((upto - 1) as usize)
        } else {
            rest
        }
    }
}

/// The indices of the keys that fall into bucket `b`, ascending.
pub open spec fn bucket_keys(hashes: Seq<HashTriple>, buckets: nat, b: int) -> Seq<usize> {
    bucket_keys_upto(hashes, buckets, b, hashes.len())
}

/// The buckets below `upto` that hold exactly `size` keys, ascending.
pub open spec fn buckets_of_size(hashes: Seq<HashTriple>, buckets: nat, size: nat, upto: nat) -> Seq<
    usize,
>
    decreases upto,
{
    if upto == 0 {
        Seq::empty()
    } else {
        let rest = buckets_of_size(hashes, buckets, size, (upto - 1) as nat);
        if bucket_keys(hashes, buckets, upto - 1).len() == size {
            rest.push((upto - 1) as usize)
        } else {
            rest
        }
    }
}

/// The buckets that hold at least `size` keys: larger buckets first, buckets
/// of equal size by ascending index.
pub open spec fn order_from(hashes: Seq<HashTriple>, buckets: nat, size: nat) -> Seq<usize>
    decreases hashes.len() + 1 - size,
{
    if size > hashes.len() {
        Seq::empty()
    } else {
        order_from(hashes, buckets, size + 1) + buckets_of_size(hashes, buckets, size, buckets)
    }
}

/// The order in which the buckets are placed: by descending size, buckets of
/// equal size by ascending index.
pub open spec fn bucket_order(hashes: Seq<HashTriple>, buckets: nat) -> Seq<usize> {
    order_from(hashes, buckets, 0)
}

/// The slot of key number `k` under the displacement pair `d`.
pub open spec fn key_slot(hashes: Seq<HashTriple>, k: usize, d: (u32, u32)) -> int {
    spec_slot(hashes[k as int], d, hashes.len())
}

/// Whether the displacement pair `d` sends the keys `keys` to free and
/// pairwise distinct slots of `map`.
pub open spec fn fits(
    map: Seq<Option<usize>>,
    hashes: Seq<HashTriple>,
    keys: Seq<usize>,
    d: (u32, u32),
) -> bool {
    &&& forall|a: int|
        0 <= a < keys.len() ==> map[key_slot(hashes, #[trigger] keys[a], d)].is_none()
    &&& forall|a: int, b: int|
        0 <= a < b < keys.len() ==> key_slot(hashes, #[trigger] keys[a], d) != key_slot(
            hashes,
            #[trigger] keys[b],
            d,
        )
}

/// `map` after the first `upto` keys of `keys` were written to their slots
/// under `d`.
pub open spec fn place(
    map: Seq<Option<usize>>,
    hashes: Seq<HashTriple>,
    keys: Seq<usize>,
    d: (u32, u32),
    upto: nat,
) -> Seq<Option<usize>>
    decreases upto,
{
    if upto == 0 {
        map
    } else {
        place(map, hashes, keys, d, (upto - 1) as nat).update(
            key_slot(hashes, keys[upto - 1], d),
            Some(keys[upto - 1]),
        )
    }
}

/// The first displacement pair at or after `(d1, d2)`, in lexicographic order
/// over `[0, n) x [0, n)`, that fits; `None` where no pair fits.
pub open spec fn first_fit(
    map: Seq<Option<usize>>,
    hashes: Seq<HashTriple>,
    keys: Seq<usize>,
    d1: nat,
    d2: nat,
) -> Option<(u32, u32)>
    decreases hashes.len() - d1, hashes.len() + 1 - d2,
{
    if d1 >= hashes.len() {
        None
    } else if d2 >= hashes.len() {
        first_fit(map, hashes, keys, d1 + 1, 0)
    } else if fits(map, hashes, keys, (d1 as u32, d2 as u32)) {
        Some((d1 as u32, d2 as u32))
    } else {
        first_fit(map, hashes, keys, d1, d2 + 1)
    }
}

/// The state of the search: which key index each slot holds, and the
/// displacement pair of each bucket.
pub struct SearchState {
    pub map: Seq<Option<usize>>,
    pub disps: Seq<(u32, u32)>,
}

/// The state before any bucket is placed.
pub open spec fn initial_state(n: nat, buckets: nat) -> SearchState {
    SearchState {
        map: Seq::new(n, |s: int| None::<usize>),
        disps: Seq::new(buckets, |b: int| (0u32, 0u32)),
    }
}

/// The state after bucket `b` was placed on top of `st`, or `None` where no
/// displacement pair fits it.
pub open spec fn place_bucket(st: SearchState, hashes: Seq<HashTriple>, buckets: nat, b: int) -> Option<
    SearchState,
> {
    let keys = bucket_keys(hashes, buckets, b);
    match first_fit(st.map, hashes, keys, 0, 0) {
        None => None,
        Some(d) => Some(
            SearchState {
                map: place(st.map, hashes, keys, d, keys.len()),
                disps: st.disps.update(b, d),
            },
        ),
    }
}

/// The state after the first `k` buckets of `order` were placed, or `None`
/// where one of them could not be placed.
pub open spec fn search(hashes: Seq<HashTriple>, buckets: nat, order: Seq<usize>, k: nat) -> Option<
    SearchState,
>
    decreases k,
{
    if k == 0 {
        Some(initial_state(hashes.len(), buckets))
    } else {
        match search(hashes, buckets, order, (k - 1) as nat) {
            None => None,
            Some(st) => place_bucket(st, hashes, buckets, order[k - 1] as int),
        }
    }
}

/// A solved table: the displacement pair of each bucket and the key index
/// that each slot holds.
pub struct Solution {
    pub displacements: Seq<(u32, u32)>,
    pub map: Seq<usize>,
}

/// The table that the search finds for keys with the lanes `hashes`, or
/// `None` where it finds none: where there are more keys than 32-bit slots,
/// or where some bucket fits under no displacement pair.
pub open spec fn solve(hashes: Seq<HashTriple>, lambda: nat) -> Option<Solution> {
    let n = hashes.len();
    let buckets = bucket_count(n, lambda);
    let order = bucket_order(hashes, buckets);
    if n > u32::MAX {
        None
    } else {
        match search(hashes, buckets, order, order.len()) {
            None => None,
            Some(st) => Some(
                Solution { displacements: st.disps, map: Seq::new(n, |s: int| st.map[s].unwrap()) },
            ),
        }
    }
}

} // verus!
