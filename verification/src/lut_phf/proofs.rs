//! Properties of the search model: every solved table is a minimal perfect
//! hash of its keys.

use crate::lut_phf::hashing::{spec_get_index, spec_slot, HashTriple};
use crate::lut_phf::model::{
    bucket_count, bucket_keys, bucket_keys_upto, bucket_of, bucket_order, buckets_of_size, first_fit,
    fits, initial_state, key_slot, order_from, place, place_bucket, search, solve, SearchState,
    Solution,
};
use vstd::prelude::*;
use vstd::set_lib::{lemma_int_range, lemma_subset_equality, set_int_range};

verus! {

/// There are no more buckets than keys, and at least one bucket as soon as
/// there is a key.
pub proof fn lemma_bucket_count(n: nat, lambda: nat)
    requires
        lambda >= 1,
    ensures
        bucket_count(n, lambda) <= n,
        n > 0 ==> bucket_count(n, lambda) >= 1,
{
    let q = (n + lambda - 1) / (lambda as int);
    assert(0 <= q <= n && (n > 0 ==> q >= 1)) by (nonlinear_arith)
        requires
            lambda >= 1,
            n >= 0,
            q == (n + lambda - 1) / (lambda as int),
    ;
}

/// A slot lies inside the table.
pub proof fn lemma_slot_range(h: HashTriple, d: (u32, u32), n: nat)
    requires
        n > 0,
    ensures
        0 <= spec_slot(h, d, n) < n,
{
}

/// The keys of a bucket are indices of keys of that bucket, ascending, and
/// none is missing.
pub proof fn lemma_bucket_keys_upto(hashes: Seq<HashTriple>, buckets: nat, b: int, upto: nat)
    requires
        upto <= hashes.len() <= usize::MAX,
    ensures
        ({
            let keys = bucket_keys_upto(hashes, buckets, b, upto);
            &&& keys.len() <= upto
            &&& forall|a: int|
                0 <= a < keys.len() ==> (#[trigger] keys[a]) < upto && bucket_of(
                    hashes[keys[a] as int],
                    buckets,
                ) == b
            &&& forall|a: int, c: int| 0 <= a < c < keys.len() ==> keys[a] < keys[c]
            &&& forall|i: int|
                0 <= i < upto && bucket_of(#[trigger] hashes[i], buckets) == b ==> keys.contains(
                    i as usize,
                )
        }),
    decreases upto,
{
    if upto > 0 {
        lemma_bucket_keys_upto(hashes, buckets, b, (upto - 1) as nat);
        let rest = bucket_keys_upto(hashes, buckets, b, (upto - 1) as nat);
        let keys = bucket_keys_upto(hashes, buckets, b, upto);
        assert forall|i: int|
            0 <= i < upto && bucket_of(#[trigger] hashes[i], buckets) == b implies keys.contains(
            i as usize,
        ) by {
            if i < upto - 1 {
                let a = choose|a: int| 0 <= a < rest.len() && rest[a] == i as usize;
                assert(keys[a] == i as usize);
            } else {
                assert(keys[keys.len() - 1] == i as usize);
            }
        }
    }
}

/// The facts of [`lemma_bucket_keys_upto`] for a whole bucket.
pub proof fn lemma_bucket_keys(hashes: Seq<HashTriple>, buckets: nat, b: int)
    requires
        hashes.len() <= usize::MAX,
    ensures
        ({
            let keys = bucket_keys(hashes, buckets, b);
            &&& keys.len() <= hashes.len()
            &&& forall|a: int|
                0 <= a < keys.len() ==> (#[trigger] keys[a]) < hashes.len() && bucket_of(
                    hashes[keys[a] as int],
                    buckets,
                ) == b
            &&& forall|a: int, c: int| 0 <= a < c < keys.len() ==> keys[a] < keys[c]
            &&& forall|i: int|
                0 <= i < hashes.len() && bucket_of(#[trigger] hashes[i], buckets) == b
                    ==> keys.contains(i as usize)
        }),
{
    lemma_bucket_keys_upto(hashes, buckets, b, hashes.len());
}

/// The buckets of one size are buckets of that size, ascending, and none is
/// missing.
pub proof fn lemma_buckets_of_size(hashes: Seq<HashTriple>, buckets: nat, size: nat, upto: nat)
    requires
        upto <= buckets <= usize::MAX,
    ensures
        ({
            let r = buckets_of_size(hashes, buckets, size, upto);
            &&& r.len() <= upto
            &&& forall|a: int|
                0 <= a < r.len() ==> (#[trigger] r[a]) < upto && bucket_keys(
                    hashes,
                    buckets,
                    r[a] as int,
                ).len() == size
            &&& forall|a: int, c: int| 0 <= a < c < r.len() ==> r[a] < r[c]
            &&& forall|b: int|
                0 <= b < upto && (#[trigger] bucket_keys(hashes, buckets, b)).len() == size
                    ==> r.contains(b as usize)
        }),
    decreases upto,
{
    if upto > 0 {
        lemma_buckets_of_size(hashes, buckets, size, (upto - 1) as nat);
        let rest = buckets_of_size(hashes, buckets, size, (upto - 1) as nat);
        let r = buckets_of_size(hashes, buckets, size, upto);
        assert forall|b: int|
            0 <= b < upto && (#[trigger] bucket_keys(hashes, buckets, b)).len() == size implies r.contains(
            b as usize,
        ) by {
            if b < upto - 1 {
                let a = choose|a: int| 0 <= a < rest.len() && rest[a] == b as usize;
                assert(r[a] == b as usize);
            } else {
                assert(r[r.len() - 1] == b as usize);
            }
        }
    }
}

/// The placement order from one size on lists each bucket of at least that
/// size, and lists none twice.
pub proof fn lemma_order_from(hashes: Seq<HashTriple>, buckets: nat, size: nat)
    requires
        buckets <= usize::MAX,
        hashes.len() <= usize::MAX,
    ensures
        ({
            let r = order_from(hashes, buckets, size);
            &&& forall|a: int|
                0 <= a < r.len() ==> (#[trigger] r[a]) < buckets && bucket_keys(
                    hashes,
                    buckets,
                    r[a] as int,
                ).len() >= size
            &&& r.no_duplicates()
            &&& forall|b: int|
                0 <= b < buckets && (#[trigger] bucket_keys(hashes, buckets, b)).len() >= size
                    ==> r.contains(b as usize)
        }),
    decreases hashes.len() + 1 - size,
{
    let r = order_from(hashes, buckets, size);
    if size <= hashes.len() {
        lemma_order_from(hashes, buckets, size + 1);
        lemma_buckets_of_size(hashes, buckets, size, buckets);
        let larger = order_from(hashes, buckets, size + 1);
        let same = buckets_of_size(hashes, buckets, size, buckets);
        assert(r == larger + same);
        assert forall|a: int, c: int| 0 <= a < r.len() && 0 <= c < r.len() && a != c implies r[a]
            != r[c] by {
            if a < larger.len() && c < larger.len() {
                assert(larger[a] != larger[c]);
            } else if a >= larger.len() && c >= larger.len() {
                let a2 = a - larger.len();
                let c2 = c - larger.len();
                if a2 < c2 {
                    assert(same[a2] < same[c2]);
                } else {
                    assert(same[c2] < same[a2]);
                }
            } else if a < larger.len() {
                assert(r[a] == larger[a]);
                assert(r[c] == same[c - larger.len()]);
            } else {
                assert(r[c] == larger[c]);
                assert(r[a] == same[a - larger.len()]);
            }
        }
        assert forall|b: int|
            0 <= b < buckets && (#[trigger] bucket_keys(hashes, buckets, b)).len()
                >= size implies r.contains(b as usize) by {
            if bucket_keys(hashes, buckets, b).len() == size {
                let a = choose|a: int| 0 <= a < same.len() && same[a] == b as usize;
                assert(r[larger.len() + a] == b as usize);
            } else {
                let a = choose|a: int| 0 <= a < larger.len() && larger[a] == b as usize;
                assert(r[a] == b as usize);
            }
        }
    } else {
        assert forall|b: int|
            0 <= b < buckets && (#[trigger] bucket_keys(hashes, buckets, b)).len()
                >= size implies r.contains(b as usize) by {
            lemma_bucket_keys(hashes, buckets, b);
        }
    }
}

/// The placement order lists every bucket exactly once.
pub proof fn lemma_bucket_order(hashes: Seq<HashTriple>, buckets: nat)
    requires
        buckets <= usize::MAX,
        hashes.len() <= usize::MAX,
    ensures
        ({
            let r = bucket_order(hashes, buckets);
            &&& forall|a: int| 0 <= a < r.len() ==> (#[trigger] r[a]) < buckets
            &&& r.no_duplicates()
            &&& forall|b: usize| b < buckets ==> #[trigger] r.contains(b)
        }),
{
    lemma_order_from(hashes, buckets, 0);
    let r = bucket_order(hashes, buckets);
    assert forall|b: usize| b < buckets implies #[trigger] r.contains(b) by {
        assert(bucket_keys(hashes, buckets, b as int).len() >= 0);
    }
}

/// Where every bucket is smaller than `size`, the placement order from
/// `size` on is empty.
pub proof fn lemma_order_from_empty(hashes: Seq<HashTriple>, buckets: nat, size: nat)
    requires
        buckets <= usize::MAX,
        forall|b: int|
            0 <= b < buckets ==> (#[trigger] bucket_keys(hashes, buckets, b)).len() < size,
    ensures
        order_from(hashes, buckets, size) == Seq::<usize>::empty(),
    decreases hashes.len() + 1 - size,
{
    if size <= hashes.len() {
        lemma_order_from_empty(hashes, buckets, size + 1);
        lemma_buckets_of_size(hashes, buckets, size, buckets);
        let same = buckets_of_size(hashes, buckets, size, buckets);
        if same.len() > 0 {
            assert(bucket_keys(hashes, buckets, same[0] as int).len() == size);
        }
        assert(order_from(hashes, buckets, size) =~= Seq::<usize>::empty());
    }
}

/// Once a bucket cannot be placed, the search has failed for good.
pub proof fn lemma_search_none(
    hashes: Seq<HashTriple>,
    buckets: nat,
    order: Seq<usize>,
    k: nat,
    m: nat,
)
    requires
        k <= m,
        search(hashes, buckets, order, k).is_none(),
    ensures
        search(hashes, buckets, order, m).is_none(),
    decreases m,
{
    if k < m {
        lemma_search_none(hashes, buckets, order, k, (m - 1) as nat);
    }
}

/// Writing keys that fit keeps the table's length, puts each key at its slot
/// and leaves every other slot as it was.
pub proof fn lemma_place(
    map: Seq<Option<usize>>,
    hashes: Seq<HashTriple>,
    keys: Seq<usize>,
    d: (u32, u32),
    upto: nat,
)
    requires
        upto <= keys.len(),
        map.len() == hashes.len(),
        hashes.len() > 0,
        fits(map, hashes, keys, d),
    ensures
        ({
            let r = place(map, hashes, keys, d, upto);
            &&& r.len() == map.len()
            &&& forall|a: int|
                0 <= a < upto ==> r[key_slot(hashes, #[trigger] keys[a], d)] == Some(keys[a])
            &&& forall|s: int|
                0 <= s < r.len() ==> (#[trigger] r[s]) == map[s] || exists|a: int|
                    0 <= a < upto && key_slot(hashes, #[trigger] keys[a], d) == s
        }),
    decreases upto,
{
    if upto > 0 {
        let prev = place(map, hashes, keys, d, (upto - 1) as nat);
        let r = place(map, hashes, keys, d, upto);
        let last = key_slot(hashes, keys[upto - 1], d);
        lemma_place(map, hashes, keys, d, (upto - 1) as nat);
        lemma_slot_range(hashes[keys[upto - 1] as int], d, hashes.len());
        assert forall|a: int| 0 <= a < upto implies r[key_slot(hashes, #[trigger] keys[a], d)]
            == Some(keys[a]) by {
            lemma_slot_range(hashes[keys[a] as int], d, hashes.len());
            if a < upto - 1 {
                assert(key_slot(hashes, keys[a], d) != key_slot(hashes, keys[upto - 1], d));
            }
        }
        assert forall|s: int| 0 <= s < r.len() implies (#[trigger] r[s]) == map[s] || exists|
            a: int,
        |
            0 <= a < upto && key_slot(hashes, #[trigger] keys[a], d) == s by {
            if s == last {
                assert(key_slot(hashes, keys[upto - 1], d) == s);
            } else {
                assert(r[s] == prev[s]);
                if prev[s] != map[s] {
                    let a = choose|a: int|
                        0 <= a < upto - 1 && key_slot(hashes, #[trigger] keys[a], d) == s;
                    assert(key_slot(hashes, keys[a], d) == s);
                }
            }
        }
    }
}

/// A displacement pair that the search returns fits and lies inside the
/// search range.
pub proof fn lemma_first_fit(
    map: Seq<Option<usize>>,
    hashes: Seq<HashTriple>,
    keys: Seq<usize>,
    d1: nat,
    d2: nat,
)
    requires
        hashes.len() <= u32::MAX,
    ensures
        match first_fit(map, hashes, keys, d1, d2) {
            Some(d) => fits(map, hashes, keys, d) && d.0 < hashes.len() && d.1 < hashes.len(),
            None => true,
        },
    decreases hashes.len() - d1, hashes.len() + 1 - d2,
{
    if d1 >= hashes.len() {
    } else if d2 >= hashes.len() {
        lemma_first_fit(map, hashes, keys, d1 + 1, 0);
    } else if fits(map, hashes, keys, (d1 as u32, d2 as u32)) {
    } else {
        lemma_first_fit(map, hashes, keys, d1, d2 + 1);
    }
}

/// Whether bucket `b` is among the first `k` buckets of `order`.
pub open spec fn processed(order: Seq<usize>, k: nat, b: int) -> bool {
    exists|p: int| 0 <= p < k && #[trigger] order[p] == b
}

/// The slot of key number `i` under the displacement pair of its bucket.
pub open spec fn final_slot(hashes: Seq<HashTriple>, disps: Seq<(u32, u32)>, i: usize) -> int {
    key_slot(hashes, i, disps[bucket_of(hashes[i as int], disps.len())])
}

/// What holds of the search state after the first `k` buckets of `order`:
/// a slot holds a key exactly where that key's bucket was placed and the key
/// hashes to the slot.
pub open spec fn placed_ok(
    hashes: Seq<HashTriple>,
    buckets: nat,
    order: Seq<usize>,
    k: nat,
    st: SearchState,
) -> bool {
    let n = hashes.len();
    &&& st.map.len() == n
    &&& st.disps.len() == buckets
    &&& forall|s: int|
        0 <= s < n && (#[trigger] st.map[s]).is_some() ==> {
            let i = st.map[s].unwrap();
            &&& i < n
            &&& processed(order, k, bucket_of(hashes[i as int], buckets))
            &&& final_slot(hashes, st.disps, i) == s
        }
    &&& forall|i: usize|
        i < n && processed(order, k, bucket_of(hashes[i as int], buckets)) ==> st.map[#[trigger] final_slot(
            hashes,
            st.disps,
            i,
        )] == Some(i)
}

/// Placing one more bucket keeps [`placed_ok`].
pub proof fn lemma_place_bucket(
    hashes: Seq<HashTriple>,
    buckets: nat,
    order: Seq<usize>,
    k: nat,
    st: SearchState,
)
    requires
        0 < hashes.len() <= u32::MAX,
        0 < buckets,
        k < order.len(),
        order.no_duplicates(),
        order[k as int] < buckets,
        placed_ok(hashes, buckets, order, k, st),
        place_bucket(st, hashes, buckets, order[k as int] as int).is_some(),
    ensures
        placed_ok(
            hashes,
            buckets,
            order,
            k + 1,
            place_bucket(st, hashes, buckets, order[k as int] as int).unwrap(),
        ),
{
    let n = hashes.len();
    let b = order[k as int] as int;
    let keys = bucket_keys(hashes, buckets, b);
    let d = first_fit(st.map, hashes, keys, 0, 0).unwrap();
    let st2 = place_bucket(st, hashes, buckets, b).unwrap();
    lemma_bucket_keys(hashes, buckets, b);
    lemma_first_fit(st.map, hashes, keys, 0, 0);
    lemma_place(st.map, hashes, keys, d, keys.len());
    assert(!processed(order, k, b)) by {
        if processed(order, k, b) {
            let p = choose|p: int| 0 <= p < k && #[trigger] order[p] == b;
            assert(order[p] == order[k as int]);
        }
    }
    assert(processed(order, k + 1, b)) by {
        assert(order[k as int] == b);
    }
    assert forall|c: int| processed(order, k, c) implies processed(order, k + 1, c) by {
        let p = choose|p: int| 0 <= p < k && #[trigger] order[p] == c;
        assert(0 <= p < k + 1 && order[p] == c);
    }
    assert forall|c: int| processed(order, k + 1, c) && c != b implies processed(order, k, c) by {
        let p = choose|p: int| 0 <= p < k + 1 && #[trigger] order[p] == c;
        assert(0 <= p < k && order[p] == c);
    }
    assert forall|s: int| 0 <= s < n && (#[trigger] st2.map[s]).is_some() implies ({
        let i = st2.map[s].unwrap();
        &&& i < n
        &&& processed(order, k + 1, bucket_of(hashes[i as int], buckets))
        &&& final_slot(hashes, st2.disps, i) == s
    }) by {
        if exists|a: int| 0 <= a < keys.len() && key_slot(hashes, #[trigger] keys[a], d) == s {
            let a = choose|a: int|
                0 <= a < keys.len() && key_slot(hashes, #[trigger] keys[a], d) == s;
            assert(st2.map[key_slot(hashes, keys[a], d)] == Some(keys[a]));
        } else {
            assert(st2.map[s] == st.map[s]);
            let i = st.map[s].unwrap();
            assert(final_slot(hashes, st.disps, i) == s);
        }
    }
    assert forall|i: usize|
        i < n && processed(order, k + 1, bucket_of(hashes[i as int], buckets)) implies st2.map[#[trigger] final_slot(
        hashes,
        st2.disps,
        i,
    )] == Some(i) by {
        if bucket_of(hashes[i as int], buckets) == b {
            assert(keys.contains(i));
            let a = choose|a: int| 0 <= a < keys.len() && keys[a] == i;
            assert(st2.map[key_slot(hashes, keys[a], d)] == Some(keys[a]));
        } else {
            let s = final_slot(hashes, st.disps, i);
            assert(st.map[s] == Some(i));
            assert(final_slot(hashes, st2.disps, i) == s);
            lemma_slot_range(hashes[i as int], st.disps[bucket_of(hashes[i as int], buckets)], n);
            if st2.map[s] != st.map[s] {
                let a = choose|a: int|
                    0 <= a < keys.len() && key_slot(hashes, #[trigger] keys[a], d) == s;
                assert(st.map[key_slot(hashes, keys[a], d)].is_none());
            }
        }
    }
}

/// [`placed_ok`] holds after any number of buckets.
pub proof fn lemma_search(hashes: Seq<HashTriple>, buckets: nat, order: Seq<usize>, k: nat)
    requires
        0 < hashes.len() <= u32::MAX,
        0 < buckets,
        k <= order.len(),
        order.no_duplicates(),
        forall|a: int| 0 <= a < order.len() ==> (#[trigger] order[a]) < buckets,
        search(hashes, buckets, order, k).is_some(),
    ensures
        placed_ok(hashes, buckets, order, k, search(hashes, buckets, order, k).unwrap()),
    decreases k,
{
    if k > 0 {
        lemma_search(hashes, buckets, order, (k - 1) as nat);
        lemma_place_bucket(
            hashes,
            buckets,
            order,
            (k - 1) as nat,
            search(hashes, buckets, order, (k - 1) as nat).unwrap(),
        );
    }
}

/// In a table with as many slots as keys, where each key sits at a slot of
/// its own, no slot is empty.
pub proof fn lemma_all_slots_filled(map: Seq<Option<usize>>, slots: Seq<int>)
    requires
        map.len() == slots.len(),
        forall|i: int|
            0 <= i < slots.len() ==> 0 <= (#[trigger] slots[i]) < map.len() && map[slots[i]]
                == Some(i as usize),
        slots.len() <= usize::MAX,
    ensures
        forall|s: int| 0 <= s < map.len() ==> (#[trigger] map[s]).is_some(),
{
    let n = map.len() as int;
    assert forall|i: int, j: int| 0 <= i < slots.len() && 0 <= j < slots.len() && i != j implies slots[i]
        != slots[j] by {
        assert(map[slots[i]] == Some(i as usize));
        assert(map[slots[j]] == Some(j as usize));
    }
    slots.unique_seq_to_set();
    lemma_int_range(0, n);
    vstd::seq_lib::seq_to_set_is_finite(slots);
    assert(slots.to_set().subset_of(set_int_range(0, n)));
    lemma_subset_equality(slots.to_set(), set_int_range(0, n));
    assert forall|s: int| 0 <= s < map.len() implies (#[trigger] map[s]).is_some() by {
        assert(set_int_range(0, n).contains(s));
        assert(slots.to_set().contains(s));
        let i = choose|i: int| 0 <= i < slots.len() && slots[i] == s;
        assert(map[slots[i]] == Some(i as usize));
    }
}

/// Once every bucket is placed, no slot is empty and each key sits at the
/// slot that it hashes to.
pub proof fn lemma_search_complete(hashes: Seq<HashTriple>, buckets: nat)
    requires
        0 < hashes.len() <= u32::MAX,
        0 < buckets <= usize::MAX,
        search(
            hashes,
            buckets,
            bucket_order(hashes, buckets),
            bucket_order(hashes, buckets).len(),
        ).is_some(),
    ensures
        ({
            let order = bucket_order(hashes, buckets);
            let st = search(hashes, buckets, order, order.len()).unwrap();
            &&& st.map.len() == hashes.len()
            &&& st.disps.len() == buckets
            &&& forall|s: int|
                0 <= s < st.map.len() ==> (#[trigger] st.map[s]).is_some() && st.map[s].unwrap()
                    < hashes.len()
            &&& forall|i: int|
                0 <= i < hashes.len() ==> {
                    let s = spec_get_index(#[trigger] hashes[i], st.disps, hashes.len());
                    0 <= s < hashes.len() && st.map[s] == Some(i as usize)
                }
        }),
{
    let n = hashes.len();
    let order = bucket_order(hashes, buckets);
    let st = search(hashes, buckets, order, order.len()).unwrap();
    lemma_bucket_order(hashes, buckets);
    lemma_search(hashes, buckets, order, order.len());
    let slots = Seq::new(n, |i: int| final_slot(hashes, st.disps, i as usize));
    assert forall|i: int| 0 <= i < n implies 0 <= (#[trigger] slots[i]) < n && st.map[slots[i]]
        == Some(i as usize) by {
        let b = bucket_of(hashes[i], buckets);
        assert(order.contains(b as usize));
        let p = choose|p: int| 0 <= p < order.len() && order[p] == b as usize;
        assert(processed(order, order.len(), b));
        lemma_slot_range(hashes[i], st.disps[b], n);
        assert(st.map[final_slot(hashes, st.disps, i as usize)] == Some(i as usize));
    }
    lemma_all_slots_filled(st.map, slots);
    assert forall|i: int| 0 <= i < hashes.len() implies ({
        let s = spec_get_index(#[trigger] hashes[i], st.disps, hashes.len());
        0 <= s < hashes.len() && st.map[s] == Some(i as usize)
    }) by {
        assert(slots[i] == spec_get_index(hashes[i], st.disps, n));
    }
}

/// Without keys there is nothing to place.
pub proof fn lemma_search_empty(hashes: Seq<HashTriple>)
    requires
        hashes.len() == 0,
    ensures
        bucket_order(hashes, 0).len() == 0,
{
    lemma_bucket_order(hashes, 0);
    let order = bucket_order(hashes, 0);
    if order.len() > 0 {
        assert(order[0] < 0);
    }
}

/// A solved table is a minimal perfect hash: it has one slot per key and one
/// displacement pair per bucket, and each key's slot holds that key's index.
pub proof fn lemma_solution_is_perfect(hashes: Seq<HashTriple>, lambda: nat)
    requires
        lambda >= 1,
        solve(hashes, lambda).is_some(),
    ensures
        ({
            let sol = solve(hashes, lambda).unwrap();
            let n = hashes.len();
            &&& sol.map.len() == n
            &&& sol.displacements.len() == bucket_count(n, lambda)
            &&& n <= u32::MAX
            &&& forall|s: int| 0 <= s < n ==> (#[trigger] sol.map[s]) < n
            &&& forall|i: int|
                0 <= i < n ==> {
                    let s = spec_get_index(#[trigger] hashes[i], sol.displacements, n);
                    0 <= s < n && sol.map[s] == i
                }
        }),
{
    let n = hashes.len();
    lemma_bucket_count(n, lambda);
    if n > 0 {
        lemma_search_complete(hashes, bucket_count(n, lambda));
    } else {
        lemma_search_empty(hashes);
    }
}

/// The search always solves the empty set of keys.
pub proof fn lemma_solves_empty(hashes: Seq<HashTriple>, lambda: nat)
    requires
        lambda >= 1,
        hashes.len() == 0,
    ensures
        solve(hashes, lambda).is_some(),
{
    lemma_bucket_count(0, lambda);
    lemma_search_empty(hashes);
}

/// The search always solves a single key: the key goes to the only slot
/// under the displacement pair `(0, 0)`.
pub proof fn lemma_solves_single(hashes: Seq<HashTriple>, lambda: nat)
    requires
        lambda >= 1,
        hashes.len() == 1,
    ensures
        solve(hashes, lambda) == Some(
            Solution { displacements: seq![(0u32, 0u32)], map: seq![0usize] },
        ),
{
    lemma_bucket_count(1, lambda);
    let buckets = bucket_count(1, lambda);
    assert(buckets == 1);
    let order = bucket_order(hashes, 1);
    lemma_bucket_order(hashes, 1);
    assert(order.contains(0usize));
    assert(order.len() == 1) by {
        if order.len() > 1 {
            assert(order[0] == 0 && order[1] == 0);
        }
    }
    assert(order[0] == 0);
    let keys = bucket_keys(hashes, 1, 0);
    assert(bucket_keys_upto(hashes, 1, 0, 0) =~= Seq::<usize>::empty());
    assert(keys =~= seq![0usize]);
    let start = initial_state(1, 1);
    let d = (0u32, 0u32);
    lemma_slot_range(hashes[0], d, 1);
    assert(key_slot(hashes, 0usize, d) == 0);
    assert(fits(start.map, hashes, keys, d));
    assert(first_fit(start.map, hashes, keys, 0, 0) == Some(d));
    assert(place(start.map, hashes, keys, d, 0) == start.map);
    assert(place(start.map, hashes, keys, d, 1) =~= seq![Some(0usize)]);
    assert(start.disps.update(0, d) =~= seq![d]);
    assert(search(hashes, 1, order, 0) == Some(start));
    let st = place_bucket(start, hashes, 1, 0).unwrap();
    assert(search(hashes, 1, order, 1) == Some(st));
    assert(st.map =~= seq![Some(0usize)]);
    assert(st.disps =~= seq![d]);
    assert(solve(hashes, lambda).unwrap().map =~= seq![0usize]);
}

} // verus!
