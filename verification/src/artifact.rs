//! The stored form of the two-level table: a little-endian byte layout, the
//! function that writes it and the function that reads it back.

use crate::error::LutError;
use crate::lut_naive::{ascending_entries, lemma_enumeration_map, map_of, LutNaive};
use crate::lut_phf::hashing::HashKey;
use crate::lut_phf::table::LutPHF;
use crate::lut_phf::phf_generator_double_hash::HashState;
use crate::lut_phf_double::LutPHFDouble;
use crate::pairs::THRESHOLD_16_BITS;
use vstd::bytes::{
    lemma_auto_spec_u16_to_from_le_bytes, lemma_auto_spec_u32_to_from_le_bytes,
    lemma_auto_spec_u64_to_from_le_bytes, spec_u16_from_le_bytes, spec_u16_to_le_bytes,
    spec_u32_from_le_bytes, spec_u32_to_le_bytes, spec_u64_from_le_bytes, spec_u64_to_le_bytes,
    u16_from_le_bytes, u16_to_le_bytes, u32_from_le_bytes, u32_to_le_bytes, u64_from_le_bytes,
    u64_to_le_bytes,
};
use vstd::prelude::*;
use vstd::slice::slice_subrange;

verus! {

/// The version of the layout.
pub const ARTIFACT_VERSION: u16 = 1;

/// The tag of a plain table.
pub const TAG_NAIVE: u8 = 0;

/// The tag of a single-level perfect-hash table.
pub const TAG_PHF: u8 = 1;

/// The tag of the two-level perfect-hash table.
pub const TAG_PHF_DOUBLE: u8 = 2;

/// One level of a perfect-hash table, as plain values.
pub struct Level {
    pub hash_key: HashKey,
    pub displacements: Seq<(u32, u32)>,
    pub map: Seq<usize>,
}

/// A level from its plain values.
pub open spec fn level(hash_key: HashKey, displacements: Seq<(u32, u32)>, map: Seq<usize>) -> Level {
    Level { hash_key, displacements, map }
}

/// The plain values of a hash state of the two-level table.
pub open spec fn level_of(st: HashState) -> Level {
    level(st.hash_key, st.displacements@, st.map@)
}

/// The plain values of the hash state of the single-level table.
pub open spec fn single_level_of(st: crate::lut_phf::phf_generator::HashState) -> Level {
    level(st.key, st.displacements@, st.map@)
}

/// The bytes of the displacement pairs: each pair as two 32-bit numbers.
pub open spec fn encode_pairs(d: Seq<(u32, u32)>) -> Seq<u8>
    decreases d.len(),
{
    if d.len() == 0 {
        Seq::empty()
    } else {
        encode_pairs(d.drop_last()) + spec_u32_to_le_bytes(d.last().0) + spec_u32_to_le_bytes(
            d.last().1,
        )
    }
}

/// The bytes of a table of 16-bit values.
pub open spec fn encode_short(m: Seq<usize>) -> Seq<u8>
    decreases m.len(),
{
    if m.len() == 0 {
        Seq::empty()
    } else {
        encode_short(m.drop_last()) + spec_u16_to_le_bytes(m.last() as u16)
    }
}

/// The bytes of a table of 64-bit values.
pub open spec fn encode_wide(m: Seq<usize>) -> Seq<u8>
    decreases m.len(),
{
    if m.len() == 0 {
        Seq::empty()
    } else {
        encode_wide(m.drop_last()) + spec_u64_to_le_bytes(m.last() as u64)
    }
}

/// The bytes of a table: 64-bit values where `wide`, else 16-bit values.
pub open spec fn encode_map(m: Seq<usize>, wide: bool) -> Seq<u8> {
    if wide {
        encode_wide(m)
    } else {
        encode_short(m)
    }
}

/// The bytes of one level: the hash key in 16 bytes, the number of buckets,
/// the displacement pairs, the number of slots, and the table.
pub open spec fn encode_level(l: Level, wide: bool) -> Seq<u8> {
    spec_u64_to_le_bytes(l.hash_key) + spec_u64_to_le_bytes(0) + spec_u32_to_le_bytes(
        l.displacements.len() as u32,
    ) + encode_pairs(l.displacements) + spec_u32_to_le_bytes(l.map.len() as u32) + encode_map(
        l.map,
        wide,
    )
}

/// Whether a level can be written: its lengths fit 32 bits, and where the
/// table is not `wide` its values fit 16 bits.
pub open spec fn level_fits(l: Level, wide: bool) -> bool {
    &&& l.displacements.len() <= u32::MAX
    &&& l.map.len() <= u32::MAX
    &&& !wide ==> forall|s: int| 0 <= s < l.map.len() ==> (#[trigger] l.map[s]) < THRESHOLD_16_BITS
}

/// The bytes of the envelope around a payload: the version and the tag of
/// the backend.
pub open spec fn encode_envelope(tag: u8) -> Seq<u8> {
    spec_u16_to_le_bytes(ARTIFACT_VERSION) + seq![tag]
}

/// The stored form of the two-level table.
pub open spec fn encode_double(primary: Level, secondary: Level) -> Seq<u8> {
    encode_envelope(TAG_PHF_DOUBLE) + encode_level(primary, false) + encode_level(secondary, true)
}

/// The 16-bit number at offset `at`.
pub open spec fn read_u16(bytes: Seq<u8>, at: int) -> u16 {
    spec_u16_from_le_bytes(bytes.subrange(at, at + 2))
}

/// The 32-bit number at offset `at`.
pub open spec fn read_u32(bytes: Seq<u8>, at: int) -> u32 {
    spec_u32_from_le_bytes(bytes.subrange(at, at + 4))
}

/// The 64-bit number at offset `at`.
pub open spec fn read_u64(bytes: Seq<u8>, at: int) -> u64 {
    spec_u64_from_le_bytes(bytes.subrange(at, at + 8))
}

/// The value `i` of a table that starts at offset `at`.
pub open spec fn read_item(bytes: Seq<u8>, at: int, wide: bool, i: int) -> u64 {
    if wide {
        read_u64(bytes, at + 8 * i)
    } else {
        read_u16(bytes, at + 2 * i) as u64
    }
}

/// The width of a table's values in bytes.
pub open spec fn item_width(wide: bool) -> int {
    if wide {
        8
    } else {
        2
    }
}

/// Reads one level at offset `at`: the level and the offset behind it, or
/// `None` where the bytes are too few, the upper half of the hash key is not
/// zero, or a value is no `usize`.
pub open spec fn parse_level(bytes: Seq<u8>, at: int, wide: bool) -> Option<(Level, int)> {
    if at < 0 || at + 20 > bytes.len() || read_u64(bytes, at + 8) != 0 {
        None
    } else {
        let buckets = read_u32(bytes, at + 16) as int;
        let pairs_at = at + 20;
        if pairs_at + 8 * buckets + 4 > bytes.len() {
            None
        } else {
            let slots_at = pairs_at + 8 * buckets;
            let slots = read_u32(bytes, slots_at) as int;
            let map_at = slots_at + 4;
            let end = map_at + item_width(wide) * slots;
            if end > bytes.len() || exists|i: int|
                0 <= i < slots && #[trigger] read_item(bytes, map_at, wide, i) > usize::MAX {
                None
            } else {
                Some(
                    (
                        Level {
                            hash_key: read_u64(bytes, at),
                            displacements: Seq::new(
                                buckets as nat,
                                |i: int|
                                    (
                                        read_u32(bytes, pairs_at + 8 * i),
                                        read_u32(bytes, pairs_at + 8 * i + 4),
                                    ),
                            ),
                            map: Seq::new(
                                slots as nat,
                                |i: int| read_item(bytes, map_at, wide, i) as usize,
                            ),
                        },
                        end,
                    ),
                )
            }
        }
    }
}

/// Reads the stored form of the two-level table: the two levels, or `None`
/// where the bytes are not such a form.
pub open spec fn parse_double(bytes: Seq<u8>) -> Option<(Level, Level)> {
    if bytes.len() < 3 || read_u16(bytes, 0) != ARTIFACT_VERSION || bytes[2] != TAG_PHF_DOUBLE {
        None
    } else {
        match parse_level(bytes, 3, false) {
            None => None,
            Some((primary, at)) => match parse_level(bytes, at, true) {
                None => None,
                Some((secondary, end)) => if end == bytes.len() {
                    Some((primary, secondary))
                } else {
                    None
                },
            },
        }
    }
}

/// The displacement pairs take eight bytes each and are read back one by
/// one, whatever stands before and behind them.
pub proof fn lemma_pairs_layout(before: Seq<u8>, d: Seq<(u32, u32)>, after: Seq<u8>)
    ensures
        encode_pairs(d).len() == 8 * d.len(),
        forall|i: int|
            0 <= i < d.len() ==> read_u32(
                before + encode_pairs(d) + after,
                before.len() + 8 * i,
            ) == (#[trigger] d[i]).0 && read_u32(
                before + encode_pairs(d) + after,
                before.len() + 8 * i + 4,
            ) == d[i].1,
    decreases d.len(),
{
    lemma_auto_spec_u32_to_from_le_bytes();
    if d.len() > 0 {
        let rest = d.drop_last();
        let a = spec_u32_to_le_bytes(d.last().0);
        let b = spec_u32_to_le_bytes(d.last().1);
        lemma_pairs_layout(before, rest, a + b + after);
        let all = before + encode_pairs(d) + after;
        assert(all =~= before + encode_pairs(rest) + (a + b + after));
        let at = (before.len() + 8 * rest.len()) as int;
        assert(all.subrange(at, at + 4) =~= a);
        assert(all.subrange(at + 4, at + 8) =~= b);
        assert forall|i: int| 0 <= i < d.len() implies read_u32(all, before.len() + 8 * i) == (
        #[trigger] d[i]).0 && read_u32(all, before.len() + 8 * i + 4) == d[i].1 by {
            if i < rest.len() {
                assert(rest[i] == d[i]);
            }
        }
    }
}

/// A table takes a fixed number of bytes per value, and its values are read
/// back one by one, whatever stands before and behind it.
pub proof fn lemma_map_layout(before: Seq<u8>, m: Seq<usize>, wide: bool, after: Seq<u8>)
    requires
        !wide ==> forall|s: int| 0 <= s < m.len() ==> (#[trigger] m[s]) < THRESHOLD_16_BITS,
    ensures
        encode_map(m, wide).len() == item_width(wide) * m.len(),
        forall|i: int|
            0 <= i < m.len() ==> #[trigger] read_item(
                before + encode_map(m, wide) + after,
                before.len() as int,
                wide,
                i,
            ) == m[i],
    decreases m.len(),
{
    lemma_auto_spec_u16_to_from_le_bytes();
    lemma_auto_spec_u64_to_from_le_bytes();
    if m.len() > 0 {
        let rest = m.drop_last();
        let a = if wide {
            spec_u64_to_le_bytes(m.last() as u64)
        } else {
            spec_u16_to_le_bytes(m.last() as u16)
        };
        assert forall|s: int| 0 <= s < rest.len() implies (#[trigger] rest[s])
            < THRESHOLD_16_BITS || wide by {
            assert(rest[s] == m[s]);
        }
        lemma_map_layout(before, rest, wide, a + after);
        let all = before + encode_map(m, wide) + after;
        assert(all =~= before + encode_map(rest, wide) + (a + after));
        let at = (before.len() + item_width(wide) * rest.len()) as int;
        assert(all.subrange(at, at + item_width(wide)) =~= a);
        assert forall|i: int| 0 <= i < m.len() implies #[trigger] read_item(
            all,
            before.len() as int,
            wide,
            i,
        ) == m[i] by {
            if i < rest.len() {
                assert(rest[i] == m[i]);
            } else {
                assert(m[i] == m.last());
            }
        }
    }
}

/// A level that fits is read back as it was written, whatever stands before
/// and behind it.
pub proof fn lemma_level_round_trip(before: Seq<u8>, l: Level, wide: bool, after: Seq<u8>)
    requires
        level_fits(l, wide),
    ensures
        parse_level(before + encode_level(l, wide) + after, before.len() as int, wide) == Some(
            (l, (before.len() + encode_level(l, wide).len()) as int),
        ),
{
    lemma_auto_spec_u32_to_from_le_bytes();
    lemma_auto_spec_u64_to_from_le_bytes();
    let key = spec_u64_to_le_bytes(l.hash_key);
    let zero = spec_u64_to_le_bytes(0);
    let buckets = spec_u32_to_le_bytes(l.displacements.len() as u32);
    let pairs = encode_pairs(l.displacements);
    let slots = spec_u32_to_le_bytes(l.map.len() as u32);
    let map = encode_map(l.map, wide);
    let all = before + encode_level(l, wide) + after;
    let at = before.len() as int;
    lemma_pairs_layout(before + key + zero + buckets, l.displacements, slots + map + after);
    lemma_map_layout(before + key + zero + buckets + pairs + slots, l.map, wide, after);
    assert(all =~= (before + key + zero + buckets) + pairs + (slots + map + after));
    assert(all =~= (before + key + zero + buckets + pairs + slots) + map + after);
    assert(all.subrange(at, at + 8) =~= key);
    assert(all.subrange(at + 8, at + 16) =~= zero);
    assert(all.subrange(at + 16, at + 20) =~= buckets);
    let slots_at = (at + 20 + 8 * l.displacements.len()) as int;
    assert(all.subrange(slots_at, slots_at + 4) =~= slots);
    let parsed = parse_level(all, at, wide);
    let map_at = slots_at + 4;
    assert forall|i: int| 0 <= i < l.map.len() implies #[trigger] read_item(all, map_at, wide, i)
        == l.map[i] by {
        assert(read_item(
            (before + key + zero + buckets + pairs + slots) + map + after,
            (before + key + zero + buckets + pairs + slots).len() as int,
            wide,
            i,
        ) == l.map[i]);
    }
    assert(parsed.is_some());
    assert(parsed.unwrap().0.displacements =~= l.displacements);
    assert(parsed.unwrap().0.map =~= l.map);
}

/// Round trip: the stored form of a table whose levels fit is read back as
/// the table that was written.
pub proof fn lemma_double_round_trip(primary: Level, secondary: Level)
    requires
        level_fits(primary, false),
        level_fits(secondary, true),
    ensures
        parse_double(encode_double(primary, secondary)) == Some((primary, secondary)),
{
    lemma_auto_spec_u16_to_from_le_bytes();
    let envelope = encode_envelope(TAG_PHF_DOUBLE);
    let first = encode_level(primary, false);
    let second = encode_level(secondary, true);
    let all = encode_double(primary, secondary);
    assert(envelope.len() == 3);
    assert(all.subrange(0, 2) =~= spec_u16_to_le_bytes(ARTIFACT_VERSION));
    assert(all[2] == TAG_PHF_DOUBLE);
    lemma_level_round_trip(envelope, primary, false, second);
    lemma_level_round_trip(envelope + first, secondary, true, Seq::empty());
    assert(all =~= envelope + first + second);
    assert(all =~= (envelope + first) + second + Seq::<u8>::empty());
}

/// Appends a 16-bit number.
fn write_u16(out: &mut Vec<u8>, x: u16)
    ensures
        final(out)@ == old(out)@ + spec_u16_to_le_bytes(x),
{
    let mut bytes = u16_to_le_bytes(x);
    out.append(&mut bytes);
}

/// Appends a 32-bit number.
fn write_u32(out: &mut Vec<u8>, x: u32)
    ensures
        final(out)@ == old(out)@ + spec_u32_to_le_bytes(x),
{
    let mut bytes = u32_to_le_bytes(x);
    out.append(&mut bytes);
}

/// Appends a 64-bit number.
fn write_u64(out: &mut Vec<u8>, x: u64)
    ensures
        final(out)@ == old(out)@ + spec_u64_to_le_bytes(x),
{
    let mut bytes = u64_to_le_bytes(x);
    out.append(&mut bytes);
}

/// Whether a level can be written.
#[verifier::loop_isolation(false)]
fn check_level(displacements: &Vec<(u32, u32)>, map: &Vec<usize>, wide: bool) -> (ok: bool)
    ensures
        forall|hash_key: HashKey|
            ok == level_fits(#[trigger] level(hash_key, displacements@, map@), wide),
{
    if displacements.len() > u32::MAX as usize || map.len() > u32::MAX as usize {
        return false;
    }
    if !wide {
        let mut s: usize = 0;
        while s < map.len()
            invariant
                s <= map.len(),
                forall|t: int| 0 <= t < s ==> (#[trigger] map@[t]) < THRESHOLD_16_BITS,
            decreases map.len() - s,
        {
            if map[s] >= THRESHOLD_16_BITS {
                assert(map@[s as int] >= THRESHOLD_16_BITS);
                return false;
            }
            s += 1;
        }
    }
    true
}

/// Appends one level.
fn write_level(
    out: &mut Vec<u8>,
    hash_key: HashKey,
    displacements: &Vec<(u32, u32)>,
    map: &Vec<usize>,
    wide: bool,
)
    requires
        level_fits(level(hash_key, displacements@, map@), wide),
    ensures
        final(out)@ == old(out)@ + encode_level(level(hash_key, displacements@, map@), wide),
{
    let ghost start = out@;
    write_u64(out, hash_key);
    write_u64(out, 0);
    write_u32(out, displacements.len() as u32);
    let ghost head = out@;
    let mut b: usize = 0;
    while b < displacements.len()
        invariant
            b <= displacements.len(),
            out@ == head + encode_pairs(displacements@.take(b as int)),
        decreases displacements.len() - b,
    {
        let (d1, d2) = displacements[b];
        write_u32(out, d1);
        write_u32(out, d2);
        b += 1;
        proof {
            let now = displacements@.take(b as int);
            assert(now.drop_last() =~= displacements@.take(b - 1));
            assert(out@ =~= head + encode_pairs(now));
        }
    }
    assert(displacements@.take(b as int) == displacements@);
    write_u32(out, map.len() as u32);
    let ghost body = out@;
    let mut s: usize = 0;
    while s < map.len()
        invariant
            s <= map.len(),
            level_fits(level(hash_key, displacements@, map@), wide),
            out@ == body + encode_map(map@.take(s as int), wide),
        decreases map.len() - s,
    {
        if wide {
            write_u64(out, map[s] as u64);
        } else {
            write_u16(out, map[s] as u16);
        }
        s += 1;
        proof {
            let now = map@.take(s as int);
            assert(now.drop_last() =~= map@.take(s - 1));
            assert(out@ =~= body + encode_map(now, wide));
        }
    }
    assert(map@.take(s as int) == map@);
    assert(out@ =~= start + encode_level(level(hash_key, displacements@, map@), wide));
}

/// Reads one level at offset `at`.
#[verifier::loop_isolation(false)]
fn read_level(bytes: &[u8], at: usize, wide: bool) -> (r: Option<
    (HashKey, Vec<(u32, u32)>, Vec<usize>, usize),
>)
    requires
        at <= bytes.len(),
    ensures
        match r {
            Some((hash_key, displacements, map, end)) => parse_level(bytes@, at as int, wide)
                == Some((level(hash_key, displacements@, map@), end as int)) && end <= bytes.len(),
            None => parse_level(bytes@, at as int, wide).is_none(),
        },
{
    let len: usize = bytes.len();
    if len - at < 20 {
        return None;
    }
    let hash_key = u64_from_le_bytes(slice_subrange(bytes, at, at + 8));
    let high = u64_from_le_bytes(slice_subrange(bytes, at + 8, at + 16));
    if high != 0 {
        return None;
    }
    let buckets: usize = u32_from_le_bytes(slice_subrange(bytes, at + 16, at + 20)) as usize;
    let pairs_at: usize = at + 20;
    if ((len - pairs_at) as u64) < 8 * (buckets as u64) + 4 {
        return None;
    }
    let mut displacements: Vec<(u32, u32)> = Vec::new();
    let mut b: usize = 0;
    while b < buckets
        invariant
            b <= buckets,
            pairs_at + 8 * buckets + 4 <= len,
            len == bytes.len(),
            displacements@ == Seq::new(
                b as nat,
                |i: int|
                    (
                        read_u32(bytes@, pairs_at + 8 * i),
                        read_u32(bytes@, pairs_at + 8 * i + 4),
                    ),
            ),
        decreases buckets - b,
    {
        let p: usize = pairs_at + 8 * b;
        let d1 = u32_from_le_bytes(slice_subrange(bytes, p, p + 4));
        let d2 = u32_from_le_bytes(slice_subrange(bytes, p + 4, p + 8));
        displacements.push((d1, d2));
        b += 1;
        assert(displacements@ =~= Seq::new(
            b as nat,
            |i: int|
                (read_u32(bytes@, pairs_at + 8 * i), read_u32(bytes@, pairs_at + 8 * i + 4)),
        ));
    }
    let slots_at: usize = pairs_at + 8 * buckets;
    let slots: usize = u32_from_le_bytes(slice_subrange(bytes, slots_at, slots_at + 4)) as usize;
    let map_at: usize = slots_at + 4;
    let width: usize = if wide {
        8
    } else {
        2
    };
    if ((len - map_at) as u64) < (width as u64) * (slots as u64) {
        return None;
    }
    let mut map: Vec<usize> = Vec::new();
    let mut s: usize = 0;
    while s < slots
        invariant
            s <= slots,
            width == item_width(wide),
            map_at + width * slots <= len,
            len == bytes.len(),
            forall|i: int| 0 <= i < s ==> #[trigger] read_item(bytes@, map_at as int, wide, i)
                <= usize::MAX,
            map@ == Seq::new(
                s as nat,
                |i: int| read_item(bytes@, map_at as int, wide, i) as usize,
            ),
        decreases slots - s,
    {
        let p: usize = map_at + width * s;
        let item: u64 = if wide {
            u64_from_le_bytes(slice_subrange(bytes, p, p + 8))
        } else {
            u16_from_le_bytes(slice_subrange(bytes, p, p + 2)) as u64
        };
        assert(item == read_item(bytes@, map_at as int, wide, s as int));
        if item > usize::MAX as u64 {
            assert(read_item(bytes@, map_at as int, wide, s as int) > usize::MAX);
            return None;
        }
        map.push(item as usize);
        s += 1;
        assert(map@ =~= Seq::new(
            s as nat,
            |i: int| read_item(bytes@, map_at as int, wide, i) as usize,
        ));
    }
    Some((hash_key, displacements, map, map_at + width * slots))
}

impl LutPHFDouble {
    /// The two levels as plain values.
    pub open spec fn levels(&self) -> (Level, Level) {
        (level_of(self.hash_state_16), level_of(self.hash_state_64))
    }

    /// Whether the table can be stored: the lengths of its levels fit 32
    /// bits, and the primary table holds 16-bit values only.
    pub open spec fn storable(&self) -> bool {
        level_fits(self.levels().0, false) && level_fits(self.levels().1, true)
    }

    /// The stored form of the table; `None` where the table cannot be
    /// stored.
    pub fn to_bytes(&self) -> (r: Option<Vec<u8>>)
        ensures
            match r {
                Some(bytes) => self.storable() && bytes@ == encode_double(
                    self.levels().0,
                    self.levels().1,
                ),
                None => !self.storable(),
            },
    {
        let first = check_level(&self.hash_state_16.displacements, &self.hash_state_16.map, false);
        let second = check_level(&self.hash_state_64.displacements, &self.hash_state_64.map, true);
        proof {
            assert(first == level_fits(self.levels().0, false));
            assert(second == level_fits(self.levels().1, true));
        }
        if !first || !second {
            return None;
        }
        let mut out: Vec<u8> = Vec::new();
        write_u16(&mut out, ARTIFACT_VERSION);
        out.push(TAG_PHF_DOUBLE);
        assert(out@ =~= encode_envelope(TAG_PHF_DOUBLE));
        write_level(
            &mut out,
            self.hash_state_16.hash_key,
            &self.hash_state_16.displacements,
            &self.hash_state_16.map,
            false,
        );
        write_level(
            &mut out,
            self.hash_state_64.hash_key,
            &self.hash_state_64.displacements,
            &self.hash_state_64.map,
            true,
        );
        Some(out)
    }

    /// The table that `bytes` is the stored form of.
    ///
    /// Fails exactly where `bytes` is not the stored form of a table.
    pub fn from_bytes(bytes: &[u8]) -> (r: Result<Self, LutError>)
        ensures
            match r {
                Ok(table) => parse_double(bytes@) == Some(table.levels()),
                Err(e) => e == LutError::CorruptedArtifact && parse_double(bytes@).is_none(),
            },
    {
        if bytes.len() < 3 {
            return Err(LutError::CorruptedArtifact);
        }
        let version = u16_from_le_bytes(slice_subrange(bytes, 0, 2));
        if version != ARTIFACT_VERSION || bytes[2] != TAG_PHF_DOUBLE {
            return Err(LutError::CorruptedArtifact);
        }
        let (key_16, displacements_16, map_16, at) = match read_level(bytes, 3, false) {
            None => {
                return Err(LutError::CorruptedArtifact);
            },
            Some(parts) => parts,
        };
        let (key_64, displacements_64, map_64, end) = match read_level(bytes, at, true) {
            None => {
                return Err(LutError::CorruptedArtifact);
            },
            Some(parts) => parts,
        };
        if end != bytes.len() {
            return Err(LutError::CorruptedArtifact);
        }
        Ok(
            LutPHFDouble {
                hash_state_16: HashState {
                    hash_key: key_16,
                    displacements: displacements_16,
                    map: map_16,
                },
                hash_state_64: HashState {
                    hash_key: key_64,
                    displacements: displacements_64,
                    map: map_64,
                },
            },
        )
    }

    /// Round trip: what [`to_bytes`](Self::to_bytes) writes for a table,
    /// [`from_bytes`](Self::from_bytes) reads back as a table with the same
    /// hash keys, displacements and slots.
    pub proof fn lemma_round_trip(&self)
        requires
            self.storable(),
        ensures
            parse_double(encode_double(self.levels().0, self.levels().1)) == Some(self.levels()),
    {
        lemma_double_round_trip(self.levels().0, self.levels().1);
    }

    /// Determinism: two results that the same candidates give for the same
    /// pairs agree: both fail, or both are tables with the same levels, and so
    /// with the same stored form.
    pub proof fn lemma_candidates_deterministic(
        keys_16: Seq<usize>,
        values_16: Seq<u16>,
        keys_64: Seq<usize>,
        values_64: Seq<usize>,
        candidates_16: Seq<HashKey>,
        candidates_64: Seq<HashKey>,
        first: Result<LutPHFDouble, LutError>,
        second: Result<LutPHFDouble, LutError>,
    )
        requires
            Self::built_from_candidates(
                keys_16,
                values_16,
                keys_64,
                values_64,
                candidates_16,
                candidates_64,
                first,
            ),
            Self::built_from_candidates(
                keys_16,
                values_16,
                keys_64,
                values_64,
                candidates_16,
                candidates_64,
                second,
            ),
        ensures
            first is Ok <==> second is Ok,
            first is Err ==> first->Err_0 == second->Err_0,
            first is Ok ==> first->Ok_0.levels() == second->Ok_0.levels() && encode_double(
                first->Ok_0.levels().0,
                first->Ok_0.levels().1,
            ) == encode_double(second->Ok_0.levels().0, second->Ok_0.levels().1),
    {
    }

    /// Determinism: two tables built from the same pairs under the same two
    /// hash keys have the same levels, and so the same stored form.
    pub proof fn lemma_build_deterministic(
        &self,
        other: &LutPHFDouble,
        keys_16: Seq<usize>,
        values_16: Seq<u16>,
        keys_64: Seq<usize>,
        values_64: Seq<usize>,
    )
        requires
            self.is_built_from(keys_16, values_16, keys_64, values_64),
            other.is_built_from(keys_16, values_16, keys_64, values_64),
            self.hash_state_16.hash_key == other.hash_state_16.hash_key,
            self.hash_state_64.hash_key == other.hash_state_64.hash_key,
        ensures
            self.levels() == other.levels(),
            encode_double(self.levels().0, self.levels().1) == encode_double(
                other.levels().0,
                other.levels().1,
            ),
    {
    }
}

/// The bytes of the entries of a plain table: each entry as two 64-bit
/// numbers, the key and the value.
pub open spec fn encode_entries(e: Seq<(usize, usize)>) -> Seq<u8>
    decreases e.len(),
{
    if e.len() == 0 {
        Seq::empty()
    } else {
        encode_entries(e.drop_last()) + spec_u64_to_le_bytes(e.last().0 as u64)
            + spec_u64_to_le_bytes(e.last().1 as u64)
    }
}

/// The stored form of a plain table with the entries `e`: the envelope, the
/// number of entries, and the entries.
pub open spec fn encode_naive(e: Seq<(usize, usize)>) -> Seq<u8> {
    encode_envelope(TAG_NAIVE) + spec_u64_to_le_bytes(e.len() as u64) + encode_entries(e)
}

/// Reads the stored form of a plain table: its entries, or `None` where the
/// bytes are not such a form.
pub open spec fn parse_naive(bytes: Seq<u8>) -> Option<Seq<(usize, usize)>> {
    if bytes.len() < 11 || read_u16(bytes, 0) != ARTIFACT_VERSION || bytes[2] != TAG_NAIVE {
        None
    } else {
        let count = read_u64(bytes, 3) as int;
        if 11 + 16 * count != bytes.len() || exists|i: int|
            0 <= i < count && (#[trigger] read_u64(bytes, 11 + 16 * i) > usize::MAX || read_u64(
                bytes,
                11 + 16 * i + 8,
            ) > usize::MAX) {
            None
        } else {
            Some(
                Seq::new(
                    count as nat,
                    |i: int|
                        (
                            read_u64(bytes, 11 + 16 * i) as usize,
                            read_u64(bytes, 11 + 16 * i + 8) as usize,
                        ),
                ),
            )
        }
    }
}

/// The entries take sixteen bytes each and are read back one by one,
/// whatever stands before them.
pub proof fn lemma_entries_layout(before: Seq<u8>, e: Seq<(usize, usize)>, after: Seq<u8>)
    ensures
        encode_entries(e).len() == 16 * e.len(),
        forall|i: int|
            0 <= i < e.len() ==> read_u64(
                before + encode_entries(e) + after,
                before.len() + 16 * i,
            ) == (#[trigger] e[i]).0 && read_u64(
                before + encode_entries(e) + after,
                before.len() + 16 * i + 8,
            ) == e[i].1,
    decreases e.len(),
{
    lemma_auto_spec_u64_to_from_le_bytes();
    if e.len() > 0 {
        let rest = e.drop_last();
        let a = spec_u64_to_le_bytes(e.last().0 as u64);
        let b = spec_u64_to_le_bytes(e.last().1 as u64);
        lemma_entries_layout(before, rest, a + b + after);
        let all = before + encode_entries(e) + after;
        assert(all =~= before + encode_entries(rest) + (a + b + after));
        let at = (before.len() + 16 * rest.len()) as int;
        assert(all.subrange(at, at + 8) =~= a);
        assert(all.subrange(at + 8, at + 16) =~= b);
        assert forall|i: int| 0 <= i < e.len() implies read_u64(all, before.len() + 16 * i) == (
        #[trigger] e[i]).0 && read_u64(all, before.len() + 16 * i + 8) == e[i].1 by {
            if i < rest.len() {
                assert(rest[i] == e[i]);
            }
        }
    }
}

/// Round trip: the stored form of a plain table is read back as the entries
/// that were written.
pub proof fn lemma_naive_round_trip(e: Seq<(usize, usize)>)
    requires
        e.len() <= u64::MAX,
    ensures
        parse_naive(encode_naive(e)) == Some(e),
{
    lemma_auto_spec_u16_to_from_le_bytes();
    lemma_auto_spec_u64_to_from_le_bytes();
    let envelope = encode_envelope(TAG_NAIVE);
    let count = spec_u64_to_le_bytes(e.len() as u64);
    let all = encode_naive(e);
    assert(envelope.len() == 3);
    assert(all.subrange(0, 2) =~= spec_u16_to_le_bytes(ARTIFACT_VERSION));
    assert(all[2] == TAG_NAIVE);
    assert(all.subrange(3, 11) =~= count);
    lemma_entries_layout(envelope + count, e, Seq::empty());
    assert(all =~= (envelope + count) + encode_entries(e) + Seq::<u8>::empty());
    assert((envelope + count).len() == 11);
    assert(read_u64(all, 3) == e.len());
    assert forall|i: int| 0 <= i < e.len() implies read_u64(all, 11 + 16 * i) == (#[trigger] e[i]).0
        && read_u64(all, 11 + 16 * i + 8) == e[i].1 by {
        assert(read_u64(all, (envelope + count).len() + 16 * i) == e[i].0);
    }
    assert forall|i: int| 0 <= i < e.len() implies !(#[trigger] read_u64(all, 11 + 16 * i)
        > usize::MAX || read_u64(all, 11 + 16 * i + 8) > usize::MAX) by {
        assert(read_u64(all, 11 + 16 * i) == e[i].0);
    }
    assert(parse_naive(all).is_some());
    assert(parse_naive(all).unwrap() =~= e);
}

/// Writes the stored form of a plain table with the entries `entries`.
pub fn write_entries(entries: &[(usize, usize)]) -> (out: Vec<u8>)
    ensures
        out@ == encode_naive(entries@),
{
    let mut out: Vec<u8> = Vec::new();
    write_u16(&mut out, ARTIFACT_VERSION);
    out.push(TAG_NAIVE);
    write_u64(&mut out, entries.len() as u64);
    let ghost head = out@;
    assert(head =~= encode_envelope(TAG_NAIVE) + spec_u64_to_le_bytes(entries@.len() as u64));
    let mut i: usize = 0;
    while i < entries.len()
        invariant
            i <= entries.len(),
            out@ == head + encode_entries(entries@.take(i as int)),
        decreases entries.len() - i,
    {
        let (key, value) = entries[i];
        write_u64(&mut out, key as u64);
        write_u64(&mut out, value as u64);
        i += 1;
        proof {
            let now = entries@.take(i as int);
            assert(now.drop_last() =~= entries@.take(i - 1));
            assert(out@ =~= head + encode_entries(now));
        }
    }
    assert(entries@.take(i as int) == entries@);
    out
}

/// Reads the stored form of a plain table.
#[verifier::loop_isolation(false)]
pub fn read_entries(bytes: &[u8]) -> (r: Option<Vec<(usize, usize)>>)
    ensures
        match r {
            Some(entries) => parse_naive(bytes@) == Some(entries@),
            None => parse_naive(bytes@).is_none(),
        },
{
    let len: usize = bytes.len();
    if len < 11 {
        return None;
    }
    let version = u16_from_le_bytes(slice_subrange(bytes, 0, 2));
    if version != ARTIFACT_VERSION || bytes[2] != TAG_NAIVE {
        return None;
    }
    let count: u64 = u64_from_le_bytes(slice_subrange(bytes, 3, 11));
    if (len - 11) as u128 != 16 * (count as u128) {
        return None;
    }
    let mut entries: Vec<(usize, usize)> = Vec::new();
    let mut i: usize = 0;
    while i < count as usize
        invariant
            i <= count,
            11 + 16 * count == len,
            forall|j: int|
                0 <= j < i ==> #[trigger] read_u64(bytes@, 11 + 16 * j) <= usize::MAX && read_u64(
                    bytes@,
                    11 + 16 * j + 8,
                ) <= usize::MAX,
            entries@ == Seq::new(
                i as nat,
                |j: int|
                    (
                        read_u64(bytes@, 11 + 16 * j) as usize,
                        read_u64(bytes@, 11 + 16 * j + 8) as usize,
                    ),
            ),
        decreases count - i,
    {
        let p: usize = 11 + 16 * i;
        let key: u64 = u64_from_le_bytes(slice_subrange(bytes, p, p + 8));
        let value: u64 = u64_from_le_bytes(slice_subrange(bytes, p + 8, p + 16));
        if key > usize::MAX as u64 || value > usize::MAX as u64 {
            assert(read_u64(bytes@, 11 + 16 * i) > usize::MAX || read_u64(bytes@, 11 + 16 * i + 8)
                > usize::MAX);
            return None;
        }
        entries.push((key as usize, value as usize));
        i += 1;
        assert(entries@ =~= Seq::new(
            i as nat,
            |j: int|
                (
                    read_u64(bytes@, 11 + 16 * j) as usize,
                    read_u64(bytes@, 11 + 16 * j + 8) as usize,
                ),
        ));
    }
    Some(entries)
}

impl LutNaive {
    /// The stored form of the table, with the entries by ascending key.
    /// What is read back from it is this table.
    pub fn to_bytes(&self) -> (bytes: Vec<u8>)
        ensures
            bytes@ == encode_naive(ascending_entries(self@)),
            parse_naive(bytes@) == Some(ascending_entries(self@)),
            map_of(ascending_entries(self@)) == self@,
    {
        let entries = self.sorted_entries();
        let count: usize = entries.len();
        proof {
            assert(entries@.len() == count);
            lemma_naive_round_trip(entries@);
            lemma_enumeration_map(self@, entries@);
        }
        write_entries(entries.as_slice())
    }

    /// The table that `bytes` is the stored form of.
    ///
    /// Fails exactly where `bytes` is not the stored form of a plain table.
    pub fn from_bytes(bytes: &[u8]) -> (r: Result<Self, LutError>)
        ensures
            match r {
                Ok(lut) => match parse_naive(bytes@) {
                    Some(entries) => lut@ == map_of(entries),
                    None => false,
                },
                Err(e) => e == LutError::CorruptedArtifact && parse_naive(bytes@).is_none(),
            },
    {
        match read_entries(bytes) {
            Some(entries) => Ok(Self::from_entries(entries.as_slice())),
            None => Err(LutError::CorruptedArtifact),
        }
    }
}

/// The stored form of the single-level table: the envelope and the one
/// level, with 64-bit values.
pub open spec fn encode_single(l: Level) -> Seq<u8> {
    encode_envelope(TAG_PHF) + encode_level(l, true)
}

/// Reads the stored form of the single-level table: its level, or `None`
/// where the bytes are not such a form.
pub open spec fn parse_single(bytes: Seq<u8>) -> Option<Level> {
    if bytes.len() < 3 || read_u16(bytes, 0) != ARTIFACT_VERSION || bytes[2] != TAG_PHF {
        None
    } else {
        match parse_level(bytes, 3, true) {
            None => None,
            Some((l, end)) => if end == bytes.len() {
                Some(l)
            } else {
                None
            },
        }
    }
}

/// Round trip: the stored form of a single-level table whose level fits is
/// read back as the level that was written.
pub proof fn lemma_single_round_trip(l: Level)
    requires
        level_fits(l, true),
    ensures
        parse_single(encode_single(l)) == Some(l),
{
    lemma_auto_spec_u16_to_from_le_bytes();
    let envelope = encode_envelope(TAG_PHF);
    let all = encode_single(l);
    assert(envelope.len() == 3);
    assert(all.subrange(0, 2) =~= spec_u16_to_le_bytes(ARTIFACT_VERSION));
    assert(all[2] == TAG_PHF);
    lemma_level_round_trip(envelope, l, true, Seq::empty());
    assert(all =~= envelope + encode_level(l, true) + Seq::<u8>::empty());
}

impl LutPHF {
    /// The level as plain values.
    pub open spec fn level(&self) -> Level {
        single_level_of(self.hash_state)
    }

    /// Whether the table can be stored: the lengths of its level fit 32
    /// bits.
    pub open spec fn storable(&self) -> bool {
        level_fits(self.level(), true)
    }

    /// The stored form of the table; `None` where the table cannot be
    /// stored.
    pub fn to_bytes(&self) -> (r: Option<Vec<u8>>)
        ensures
            match r {
                Some(bytes) => self.storable() && bytes@ == encode_single(self.level()),
                None => !self.storable(),
            },
    {
        let fits = check_level(&self.hash_state.displacements, &self.hash_state.map, true);
        proof {
            assert(fits == level_fits(self.level(), true));
        }
        if !fits {
            return None;
        }
        let mut out: Vec<u8> = Vec::new();
        write_u16(&mut out, ARTIFACT_VERSION);
        out.push(TAG_PHF);
        assert(out@ =~= encode_envelope(TAG_PHF));
        write_level(
            &mut out,
            self.hash_state.key,
            &self.hash_state.displacements,
            &self.hash_state.map,
            true,
        );
        Some(out)
    }

    /// The table that `bytes` is the stored form of.
    ///
    /// Fails exactly where `bytes` is not the stored form of a single-level
    /// table.
    pub fn from_bytes(bytes: &[u8]) -> (r: Result<Self, LutError>)
        ensures
            match r {
                Ok(table) => parse_single(bytes@) == Some(table.level()),
                Err(e) => e == LutError::CorruptedArtifact && parse_single(bytes@).is_none(),
            },
    {
        if bytes.len() < 3 {
            return Err(LutError::CorruptedArtifact);
        }
        let version = u16_from_le_bytes(slice_subrange(bytes, 0, 2));
        if version != ARTIFACT_VERSION || bytes[2] != TAG_PHF {
            return Err(LutError::CorruptedArtifact);
        }
        let (key, displacements, map, end) = match read_level(bytes, 3, true) {
            None => {
                return Err(LutError::CorruptedArtifact);
            },
            Some(parts) => parts,
        };
        if end != bytes.len() {
            return Err(LutError::CorruptedArtifact);
        }
        Ok(
            LutPHF {
                hash_state: crate::lut_phf::phf_generator::HashState { key, displacements, map },
            },
        )
    }
}

} // verus!
