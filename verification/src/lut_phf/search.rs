//! The displacement search itself: buckets are filled, ordered by size and
//! placed one after the other, each under the first displacement pair that
//! sends its keys to free slots.

use crate::lut_phf::hashing::{hash, slot, spec_hash, HashKey, HashTriple};
use crate::lut_phf::model::{
    bucket_count, bucket_keys, bucket_keys_upto, bucket_order, buckets_of_size, first_fit, fits,
    initial_state, key_slot, order_from, place, place_bucket, search, solve, SearchState, Solution,
};
use crate::lut_phf::proofs::{
    lemma_bucket_count, lemma_bucket_keys, lemma_bucket_order, lemma_order_from_empty,
    lemma_search_complete, lemma_search_empty, lemma_search_none, lemma_slot_range,
};
use vstd::prelude::*;

verus! {

/// The lanes of every entry under `key`.
pub open spec fn spec_hash_all(entries: Seq<usize>, key: HashKey) -> Seq<HashTriple> {
    Seq::new(entries.len(), |i: int| spec_hash(entries[i], key))
}

/// The index of the first candidate at or after `from` under which the
/// displacement search solves `entries`, or `None` where no candidate does.
pub open spec fn first_solving(
    entries: Seq<usize>,
    candidates: Seq<HashKey>,
    lambda: nat,
    from: nat,
) -> Option<nat>
    decreases candidates.len() - from,
{
    if from >= candidates.len() {
        None
    } else if solve(spec_hash_all(entries, candidates[from as int]), lambda).is_some() {
        Some(from)
    } else {
        first_solving(entries, candidates, lambda, from + 1)
    }
}

/// The first solving candidate solves and no candidate before it does; where
/// there is none, no candidate solves.
pub proof fn lemma_first_solving(
    entries: Seq<usize>,
    candidates: Seq<HashKey>,
    lambda: nat,
    from: nat,
)
    ensures
        match first_solving(entries, candidates, lambda, from) {
            Some(i) => {
                &&& from <= i < candidates.len()
                &&& solve(spec_hash_all(entries, candidates[i as int]), lambda).is_some()
                &&& forall|j: int|
                    from <= j < i ==> (#[trigger] solve(
                        spec_hash_all(entries, candidates[j]),
                        lambda,
                    )).is_none()
            },
            None => forall|j: int|
                from <= j < candidates.len() ==> (#[trigger] solve(
                    spec_hash_all(entries, candidates[j]),
                    lambda,
                )).is_none(),
        },
    decreases candidates.len() - from,
{
    if from < candidates.len() && solve(spec_hash_all(entries, candidates[from as int]), lambda)
        .is_none() {
        lemma_first_solving(entries, candidates, lambda, from + 1);
    }
}

/// Hashes every entry under `key`.
pub fn hash_all(entries: &[usize], key: HashKey) -> (hashes: Vec<HashTriple>)
    ensures
        hashes@ == spec_hash_all(entries@, key),
{
    let mut hashes: Vec<HashTriple> = Vec::new();
    let mut i: usize = 0;
    while i < entries.len()
        invariant
            i <= entries.len(),
            hashes@ == spec_hash_all(entries@, key).take(i as int),
        decreases entries.len() - i,
    {
        hashes.push(hash(entries[i], key));
        i += 1;
    }
    hashes
}

/// `n / lambda`, rounded up.
pub fn buckets_for(n: usize, lambda: usize) -> (buckets: usize)
    requires
        lambda >= 1,
    ensures
        buckets == bucket_count(n as nat, lambda as nat),
{
    let q: usize = n / lambda;
    let r: usize = n % lambda;
    proof {
        let want = (n + lambda - 1) / (lambda as int);
        assert(want == if r == 0 {
            q as int
        } else {
            q + 1
        }) by (nonlinear_arith)
            requires
                lambda >= 1,
                n >= 0,
                q == n / lambda,
                r == n % lambda,
                want == (n + lambda - 1) / (lambda as int),
        ;
        lemma_bucket_count(n as nat, lambda as nat);
    }
    if r == 0 {
        q
    } else {
        q + 1
    }
}

/// Sorts the key indices into their buckets.
fn fill_buckets(hashes: &Vec<HashTriple>, buckets_len: usize) -> (buckets: Vec<Vec<usize>>)
    requires
        hashes.len() == 0 || 0 < buckets_len <= u32::MAX,
    ensures
        buckets.len() == buckets_len,
        forall|b: int|
            0 <= b < buckets_len ==> (#[trigger] buckets[b])@ == bucket_keys(
                hashes@,
                buckets_len as nat,
                b,
            ),
{
    let mut buckets: Vec<Vec<usize>> = Vec::new();
    while buckets.len() < buckets_len
        invariant
            buckets.len() <= buckets_len,
            forall|b: int| 0 <= b < buckets.len() ==> (#[trigger] buckets[b])@ == Seq::<usize>::empty(),
        decreases buckets_len - buckets.len(),
    {
        buckets.push(Vec::new());
    }
    let mut i: usize = 0;
    while i < hashes.len()
        invariant
            i <= hashes.len(),
            hashes.len() == 0 || 0 < buckets_len <= u32::MAX,
            buckets.len() == buckets_len,
            forall|b: int|
                0 <= b < buckets_len ==> (#[trigger] buckets[b])@ == bucket_keys_upto(
                    hashes@,
                    buckets_len as nat,
                    b,
                    i as nat,
                ),
        decreases hashes.len() - i,
    {
        let b: usize = (hashes[i].g % (buckets_len as u32)) as usize;
        buckets[b].push(i);
        i += 1;
    }
    buckets
}

/// Lists the buckets in the order in which they are placed.
fn order_buckets(buckets: &Vec<Vec<usize>>, Ghost(hashes): Ghost<Seq<HashTriple>>) -> (order: Vec<
    usize,
>)
    requires
        hashes.len() <= usize::MAX,
        forall|b: int|
            0 <= b < buckets.len() ==> (#[trigger] buckets[b])@ == bucket_keys(
                hashes,
                buckets.len() as nat,
                b,
            ),
    ensures
        order@ == bucket_order(hashes, buckets.len() as nat),
{
    let buckets_len: usize = buckets.len();
    let mut max_len: usize = 0;
    let mut b: usize = 0;
    while b < buckets_len
        invariant
            b <= buckets_len,
            buckets_len == buckets.len(),
            hashes.len() <= usize::MAX,
            max_len <= hashes.len(),
            forall|c: int|
                0 <= c < buckets.len() ==> (#[trigger] buckets[c])@ == bucket_keys(
                    hashes,
                    buckets.len() as nat,
                    c,
                ),
            forall|c: int| 0 <= c < b ==> (#[trigger] buckets[c])@.len() <= max_len,
        decreases buckets_len - b,
    {
        proof {
            lemma_bucket_keys(hashes, buckets_len as nat, b as int);
        }
        if buckets[b].len() > max_len {
            max_len = buckets[b].len();
        }
        b += 1;
    }
    let mut by_size: Vec<Vec<usize>> = Vec::new();
    while by_size.len() <= max_len
        invariant
            by_size.len() <= max_len + 1,
            forall|s: int| 0 <= s < by_size.len() ==> (#[trigger] by_size[s])@ == Seq::<usize>::empty(),
        decreases max_len + 1 - by_size.len(),
    {
        by_size.push(Vec::new());
    }
    b = 0;
    while b < buckets_len
        invariant
            b <= buckets_len,
            buckets_len == buckets.len(),
            by_size.len() == max_len + 1,
            forall|c: int| 0 <= c < buckets_len ==> (#[trigger] buckets[c])@.len() <= max_len,
            forall|c: int|
                0 <= c < buckets.len() ==> (#[trigger] buckets[c])@ == bucket_keys(
                    hashes,
                    buckets.len() as nat,
                    c,
                ),
            forall|s: int|
                0 <= s <= max_len ==> (#[trigger] by_size[s])@ == buckets_of_size(
                    hashes,
                    buckets_len as nat,
                    s as nat,
                    b as nat,
                ),
        decreases buckets_len - b,
    {
        let size: usize = buckets[b].len();
        by_size[size].push(b);
        b += 1;
    }
    let mut order: Vec<usize> = Vec::new();
    let mut s: usize = by_size.len();
    proof {
        assert forall|c: int| 0 <= c < buckets_len implies (#[trigger] bucket_keys(
            hashes,
            buckets_len as nat,
            c,
        )).len() < max_len + 1 by {
            assert(buckets[c]@.len() <= max_len);
        }
        lemma_order_from_empty(hashes, buckets_len as nat, (max_len + 1) as nat);
    }
    while s > 0
        invariant
            s <= max_len + 1,
            by_size.len() == max_len + 1,
            max_len <= hashes.len(),
            order@ == order_from(hashes, buckets_len as nat, s as nat),
            forall|t: int|
                0 <= t <= max_len ==> (#[trigger] by_size[t])@ == buckets_of_size(
                    hashes,
                    buckets_len as nat,
                    t as nat,
                    buckets_len as nat,
                ),
        decreases s,
    {
        s -= 1;
        let ghost larger = order@;
        let mut j: usize = 0;
        while j < by_size[s as usize].len()
            invariant
                s < by_size.len(),
                j <= by_size[s as int]@.len(),
                order@ == larger + by_size[s as int]@.take(j as int),
            decreases by_size[s as int]@.len() - j,
        {
            order.push(by_size[s][j]);
            j += 1;
        }
        assert(by_size[s as int]@.take(j as int) == by_size[s as int]@);
    }
    order
}

/// A vector of `n` copies of `value`.
fn filled<T: Copy>(n: usize, value: T) -> (v: Vec<T>)
    ensures
        v@ == Seq::new(n as nat, |i: int| value),
{
    let mut v: Vec<T> = Vec::new();
    while v.len() < n
        invariant
            v.len() <= n,
            v@ == Seq::new(v.len() as nat, |i: int| value),
        decreases n - v.len(),
    {
        v.push(value);
    }
    v
}

/// The slot and the index of each key of a bucket under the displacement
/// pair `d`.
pub open spec fn placements(hashes: Seq<HashTriple>, keys: Seq<usize>, d: (u32, u32)) -> Seq<
    (usize, usize),
> {
    Seq::new(keys.len(), |a: int| (key_slot(hashes, keys[a], d) as usize, keys[a]))
}

/// Opens a new generation: afterwards no cell of `try_map` carries the
/// returned tag.
fn next_generation(try_map: &mut Vec<u64>, generation: u64) -> (next: u64)
    requires
        forall|s: int| 0 <= s < old(try_map).len() ==> (#[trigger] old(try_map)[s]) <= generation,
    ensures
        final(try_map).len() == old(try_map).len(),
        forall|s: int| 0 <= s < final(try_map).len() ==> (#[trigger] final(try_map)[s]) < next,
{
    if generation == u64::MAX {
        let mut s: usize = 0;
        while s < try_map.len()
            invariant
                s <= try_map.len(),
                try_map.len() == old(try_map).len(),
                forall|t: int| 0 <= t < s ==> (#[trigger] try_map[t]) == 0,
            decreases try_map.len() - s,
        {
            try_map[s] = 0;
            s += 1;
        }
        1
    } else {
        generation + 1
    }
}

/// Tries one displacement pair on one bucket: stamps the slot of each key
/// with `generation` and gives up at the first slot that is taken, be it by
/// an earlier bucket or by a key of this one.
fn try_place(
    hashes: &Vec<HashTriple>,
    keys: &Vec<usize>,
    d1: u32,
    d2: u32,
    map: &Vec<Option<usize>>,
    try_map: &mut Vec<u64>,
    generation: u64,
    values_to_add: &mut Vec<(usize, usize)>,
) -> (ok: bool)
    requires
        0 < hashes.len() <= u32::MAX,
        map.len() == hashes.len(),
        old(try_map).len() == hashes.len(),
        forall|a: int| 0 <= a < keys.len() ==> (#[trigger] keys[a]) < hashes.len(),
        forall|s: int| 0 <= s < old(try_map).len() ==> (#[trigger] old(try_map)[s]) < generation,
    ensures
        ok == fits(map@, hashes@, keys@, (d1, d2)),
        ok ==> final(values_to_add)@ == placements(hashes@, keys@, (d1, d2)),
        final(try_map).len() == hashes.len(),
        forall|s: int| 0 <= s < final(try_map).len() ==> (#[trigger] final(try_map)[s]) <= generation,
{
    let table_len: usize = hashes.len();
    let ghost d = (d1, d2);
    values_to_add.clear();
    let mut j: usize = 0;
    while j < keys.len()
        invariant
            j <= keys.len(),
            table_len == hashes.len(),
            0 < hashes.len() <= u32::MAX,
            map.len() == hashes.len(),
            try_map.len() == hashes.len(),
            d == (d1, d2),
            forall|a: int| 0 <= a < keys.len() ==> (#[trigger] keys[a]) < hashes.len(),
            forall|s: int| 0 <= s < try_map.len() ==> (#[trigger] try_map[s]) <= generation,
            forall|s: int|
                0 <= s < try_map.len() && (#[trigger] try_map[s]) == generation ==> exists|a: int|
                    0 <= a < j && key_slot(hashes@, #[trigger] keys[a], d) == s,
            forall|a: int|
                0 <= a < j ==> try_map[key_slot(hashes@, #[trigger] keys[a], d)] == generation,
            forall|a: int| 0 <= a < j ==> map[key_slot(hashes@, #[trigger] keys[a], d)].is_none(),
            forall|a: int, b: int|
                0 <= a < b < j ==> key_slot(hashes@, #[trigger] keys[a], d) != key_slot(
                    hashes@,
                    #[trigger] keys[b],
                    d,
                ),
            values_to_add@ == placements(hashes@, keys@, d).take(j as int),
        decreases keys.len() - j,
    {
        let key: usize = keys[j];
        let idx: usize = slot(&hashes[key], d1, d2, table_len);
        assert(idx == key_slot(hashes@, keys[j as int], d));
        if map[idx].is_some() || try_map[idx] == generation {
            proof {
                if map[idx as int].is_none() {
                    let a = choose|a: int|
                        0 <= a < j && key_slot(hashes@, #[trigger] keys[a], d) == idx;
                    assert(key_slot(hashes@, keys[a], d) == key_slot(hashes@, keys[j as int], d));
                }
            }
            return false;
        }
        proof {
            assert forall|a: int| 0 <= a < j implies key_slot(hashes@, #[trigger] keys[a], d)
                != idx by {
                lemma_slot_range(hashes@[keys[a] as int], d, hashes.len() as nat);
            }
        }
        try_map[idx] = generation;
        values_to_add.push((idx, key));
        j += 1;
        proof {
            assert forall|a: int| 0 <= a < j implies try_map[key_slot(
                hashes@,
                #[trigger] keys[a],
                d,
            )] == generation by {
                lemma_slot_range(hashes@[keys[a] as int], d, hashes.len() as nat);
            }
            assert(values_to_add@ =~= placements(hashes@, keys@, d).take(j as int));
        }
    }
    assert(placements(hashes@, keys@, d).take(j as int) == placements(hashes@, keys@, d));
    true
}

/// Searches the first displacement pair, in lexicographic order, under which
/// the keys of one bucket fit into the free slots of `map`.
fn find_displacement(
    hashes: &Vec<HashTriple>,
    keys: &Vec<usize>,
    map: &Vec<Option<usize>>,
    try_map: &mut Vec<u64>,
    generation: &mut u64,
    values_to_add: &mut Vec<(usize, usize)>,
) -> (found: Option<(u32, u32)>)
    requires
        0 < hashes.len() <= u32::MAX,
        map.len() == hashes.len(),
        old(try_map).len() == hashes.len(),
        forall|a: int| 0 <= a < keys.len() ==> (#[trigger] keys[a]) < hashes.len(),
        forall|s: int|
            0 <= s < old(try_map).len() ==> (#[trigger] old(try_map)[s]) <= *old(generation),
    ensures
        found == first_fit(map@, hashes@, keys@, 0, 0),
        found.is_some() ==> final(values_to_add)@ == placements(hashes@, keys@, found.unwrap()),
        final(try_map).len() == hashes.len(),
        forall|s: int|
            0 <= s < final(try_map).len() ==> (#[trigger] final(try_map)[s]) <= *final(generation),
{
    let table_len: u32 = hashes.len() as u32;
    let mut d1: u32 = 0;
    while d1 < table_len
        invariant
            d1 <= table_len,
            table_len == hashes.len(),
            0 < hashes.len() <= u32::MAX,
            map.len() == hashes.len(),
            try_map.len() == hashes.len(),
            forall|a: int| 0 <= a < keys.len() ==> (#[trigger] keys[a]) < hashes.len(),
            forall|s: int| 0 <= s < try_map.len() ==> (#[trigger] try_map[s]) <= *generation,
            first_fit(map@, hashes@, keys@, 0, 0) == first_fit(map@, hashes@, keys@, d1 as nat, 0),
        decreases table_len - d1,
    {
        let mut d2: u32 = 0;
        while d2 < table_len
            invariant
                d1 < table_len,
                d2 <= table_len,
                table_len == hashes.len(),
                0 < hashes.len() <= u32::MAX,
                map.len() == hashes.len(),
                try_map.len() == hashes.len(),
                forall|a: int| 0 <= a < keys.len() ==> (#[trigger] keys[a]) < hashes.len(),
                forall|s: int| 0 <= s < try_map.len() ==> (#[trigger] try_map[s]) <= *generation,
                first_fit(map@, hashes@, keys@, 0, 0) == first_fit(
                    map@,
                    hashes@,
                    keys@,
                    d1 as nat,
                    d2 as nat,
                ),
            decreases table_len - d2,
        {
            *generation = next_generation(try_map, *generation);
            if try_place(hashes, keys, d1, d2, map, try_map, *generation, values_to_add) {
                return Some((d1, d2));
            }
            d2 += 1;
        }
        d1 += 1;
    }
    None
}

/// Writes the keys of a placed bucket into the table.
fn commit(
    map: &mut Vec<Option<usize>>,
    values_to_add: &Vec<(usize, usize)>,
    Ghost(hashes): Ghost<Seq<HashTriple>>,
    Ghost(keys): Ghost<Seq<usize>>,
    Ghost(d): Ghost<(u32, u32)>,
)
    requires
        0 < hashes.len(),
        old(map).len() == hashes.len(),
        values_to_add@ == placements(hashes, keys, d),
    ensures
        final(map).len() == old(map).len(),
        final(map)@ == place(old(map)@, hashes, keys, d, keys.len()),
{
    let mut a: usize = 0;
    while a < values_to_add.len()
        invariant
            a <= values_to_add.len(),
            0 < hashes.len(),
            map.len() == hashes.len(),
            values_to_add@ == placements(hashes, keys, d),
            map@ == place(old(map)@, hashes, keys, d, a as nat),
        decreases values_to_add.len() - a,
    {
        let (idx, key) = values_to_add[a];
        proof {
            lemma_slot_range(hashes[keys[a as int] as int], d, hashes.len());
        }
        map[idx] = Some(key);
        a += 1;
    }
}

/// Runs the displacement search for keys with the lanes `hashes`, `lambda`
/// keys to a bucket on average.
pub fn solve_table(hashes: &Vec<HashTriple>, lambda: usize) -> (r: Option<
    (Vec<(u32, u32)>, Vec<usize>),
>)
    requires
        lambda >= 1,
    ensures
        match r {
            Some(t) => solve(hashes@, lambda as nat) == Some(
                Solution { displacements: t.0@, map: t.1@ },
            ),
            None => solve(hashes@, lambda as nat).is_none(),
        },
{
    let table_len: usize = hashes.len();
    if table_len > u32::MAX as usize {
        return None;
    }
    let buckets_len: usize = buckets_for(table_len, lambda);
    proof {
        lemma_bucket_count(table_len as nat, lambda as nat);
    }
    let buckets = fill_buckets(hashes, buckets_len);
    let order = order_buckets(&buckets, Ghost(hashes@));
    let mut map: Vec<Option<usize>> = filled(table_len, None);
    let mut disps: Vec<(u32, u32)> = filled(buckets_len, (0u32, 0u32));
    let mut try_map: Vec<u64> = filled(table_len, 0u64);
    let mut generation: u64 = 0;
    let mut values_to_add: Vec<(usize, usize)> = Vec::new();
    proof {
        lemma_bucket_order(hashes@, buckets_len as nat);
        if table_len == 0 {
            lemma_search_empty(hashes@);
        }
        assert(map@ =~= initial_state(table_len as nat, buckets_len as nat).map);
        assert(disps@ =~= initial_state(table_len as nat, buckets_len as nat).disps);
    }
    let mut k: usize = 0;
    while k < order.len()
        invariant
            k <= order.len(),
            table_len == hashes.len(),
            0 < table_len <= u32::MAX || order.len() == 0,
            table_len <= u32::MAX,
            buckets_len == bucket_count(table_len as nat, lambda as nat),
            buckets.len() == buckets_len,
            order@ == bucket_order(hashes@, buckets_len as nat),
            forall|a: int| 0 <= a < order.len() ==> (#[trigger] order[a]) < buckets_len,
            forall|b: int|
                0 <= b < buckets_len ==> (#[trigger] buckets[b])@ == bucket_keys(
                    hashes@,
                    buckets_len as nat,
                    b,
                ),
            map.len() == table_len,
            disps.len() == buckets_len,
            try_map.len() == table_len,
            forall|s: int| 0 <= s < try_map.len() ==> (#[trigger] try_map[s]) <= generation,
            search(hashes@, buckets_len as nat, order@, k as nat) == Some(
                SearchState { map: map@, disps: disps@ },
            ),
        decreases order.len() - k,
    {
        let b: usize = order[k];
        proof {
            lemma_bucket_keys(hashes@, buckets_len as nat, b as int);
        }
        let found = find_displacement(
            hashes,
            &buckets[b],
            &map,
            &mut try_map,
            &mut generation,
            &mut values_to_add,
        );
        match found {
            None => {
                proof {
                    assert(place_bucket(
                        SearchState { map: map@, disps: disps@ },
                        hashes@,
                        buckets_len as nat,
                        b as int,
                    ).is_none());
                    assert(search(hashes@, buckets_len as nat, order@, (k + 1) as nat).is_none());
                    lemma_search_none(
                        hashes@,
                        buckets_len as nat,
                        order@,
                        (k + 1) as nat,
                        order.len() as nat,
                    );
                }
                return None;
            },
            Some(d) => {
                disps[b] = d;
                commit(&mut map, &values_to_add, Ghost(hashes@), Ghost(buckets[b as int]@), Ghost(d));
            },
        }
        k += 1;
    }
    proof {
        if table_len > 0 {
            lemma_search_complete(hashes@, buckets_len as nat);
        }
    }
    let mut slots: Vec<usize> = Vec::new();
    let mut s: usize = 0;
    while s < table_len
        invariant
            s <= table_len,
            map.len() == table_len,
            forall|t: int| 0 <= t < map.len() ==> (#[trigger] map[t]).is_some(),
            slots@ == Seq::new(s as nat, |t: int| map@[t].unwrap()),
        decreases table_len - s,
    {
        slots.push(map[s].unwrap());
        s += 1;
        assert(slots@ =~= Seq::new(s as nat, |t: int| map@[t].unwrap()));
    }
    Some((disps, slots))
}

} // verus!
