//! The hash family of the perfect-hash tables and the slot arithmetic on its
//! lanes.

use vstd::prelude::*;

verus! {

/// Seed that selects one function of the hash family.
pub type HashKey = u64;

/// The three 32-bit lanes that a key hashes to under a [`HashKey`]: `g` picks
/// the bucket, `f1` and `f2` are combined with the bucket's displacements.
#[derive(Clone, Copy, Debug)]
pub struct HashTriple {
    pub g: u32,
    pub f1: u32,
    pub f2: u32,
}

/// The lanes `(g, f1, f2)` that `phf_shared::hash` computes for a 64-bit key
/// under a seed.
pub uninterp spec fn sip_lanes(key: u64, seed: u64) -> (u32, u32, u32);

/// Calls `phf_shared::hash` on a `u64` key. That function feeds the key's
/// little-endian bytes to SipHash-1-3 keyed by `(0, seed)` and cuts the 128-bit
/// digest into three lanes; it reads nothing but its arguments, so the lanes
/// are the value of [`sip_lanes`] at `(key, seed)`.
#[verifier::external_body]
fn hash_lanes(key: u64, seed: u64) -> (r: (u32, u32, u32))
    ensures
        r == sip_lanes(key, seed),
{
    let h = ::phf_shared::hash(&key, &seed);
    (h.g, h.f1, h.f2)
}

/// `phf_shared::displace` evaluates `d2 + f1 * d1 + f2` in wrapping 32-bit
/// arithmetic.
pub assume_specification[ ::phf_shared::displace ](f1: u32, f2: u32, d1: u32, d2: u32) -> (r: u32)
    ensures
        r == spec_displace(f1, f2, d1, d2),
;

/// The hash of `key` under `hash_key`.
pub open spec fn spec_hash(key: usize, hash_key: HashKey) -> HashTriple {
    let lanes = sip_lanes(key as u64, hash_key);
    HashTriple { g: lanes.0, f1: lanes.1, f2: lanes.2 }
}

/// `d2 + f1 * d1 + f2` modulo 2^32.
pub open spec fn spec_displace(f1: u32, f2: u32, d1: u32, d2: u32) -> u32 {
    ((d2 + f1 * d1 + f2) % 0x1_0000_0000) as u32
}

/// The slot of a table of `table_len` slots that a key with lanes `h` falls
/// into under the displacement pair `d`.
pub open spec fn spec_slot(h: HashTriple, d: (u32, u32), table_len: nat) -> int {
    spec_displace(h.f1, h.f2, d.0, d.1) as int % table_len as int
}

/// The slot of a key with lanes `h` in a table of `len` slots whose buckets
/// have the displacements `disps`: the lane `g` picks the bucket.
pub open spec fn spec_get_index(h: HashTriple, disps: Seq<(u32, u32)>, len: nat) -> int {
    spec_slot(h, disps[h.g as int % disps.len() as int], len)
}

/// Hashes `key` under `hash_key`.
pub fn hash(key: usize, hash_key: HashKey) -> (h: HashTriple)
    ensures
        h == spec_hash(key, hash_key),
{
    let lanes = hash_lanes(key as u64, hash_key);
    HashTriple { g: lanes.0, f1: lanes.1, f2: lanes.2 }
}

/// The slot of a key with lanes `h` under the displacement pair `(d1, d2)`.
pub fn slot(h: &HashTriple, d1: u32, d2: u32, table_len: usize) -> (s: usize)
    requires
        0 < table_len <= u32::MAX,
    ensures
        s == spec_slot(*h, (d1, d2), table_len as nat),
        s < table_len,
{
    (::phf_shared::displace(h.f1, h.f2, d1, d2) % (table_len as u32)) as usize
}

/// The slot of a key with lanes `hashes` in a table of `len` slots.
pub fn get_index(hashes: &HashTriple, disps: &[(u32, u32)], len: usize) -> (s: u32)
    requires
        0 < disps.len() <= u32::MAX,
        0 < len <= u32::MAX,
    ensures
        s == spec_get_index(*hashes, disps@, len as nat),
        s < len,
{
    let (d1, d2) = disps[(hashes.g % (disps.len() as u32)) as usize];
    ::phf_shared::displace(hashes.f1, hashes.f2, d1, d2) % (len as u32)
}

} // verus!
