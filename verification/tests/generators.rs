use bracket_lut::error::LutError;
use bracket_lut::lut_phf::hashing::{get_index, hash, slot, HashTriple};
use bracket_lut::lut_phf::phf_generator;
use bracket_lut::lut_phf::phf_generator_double_hash;
use bracket_lut::lut_phf::search::{buckets_for, hash_all, solve_table};

#[test]
fn hash_depends_on_key_and_seed() {
    let a = hash(1, 7);
    let b = hash(2, 7);
    let c = hash(1, 8);
    assert!((a.g, a.f1, a.f2) != (b.g, b.f1, b.f2));
    assert!((a.g, a.f1, a.f2) != (c.g, c.f1, c.f2));
    assert!((a.g, a.f1, a.f2) != (1, 1, 1));
    let again = hash(1, 7);
    assert_eq!((a.g, a.f1, a.f2), (again.g, again.f1, again.f2));
}

#[test]
fn hash_is_the_sip_hash_of_the_little_endian_key() {
    let direct = phf_shared::hash(&0x0102_0304_0506_0708u64, &42u64);
    let ours = hash(0x0102_0304_0506_0708usize, 42);
    assert_eq!((ours.g, ours.f1, ours.f2), (direct.g, direct.f1, direct.f2));
}

#[test]
fn slot_is_displacement_modulo_table_length() {
    let h = HashTriple { g: 0, f1: 3, f2: 4 };
    assert_eq!(slot(&h, 5, 6, 7), (6 + 3 * 5 + 4) % 7);
    assert_eq!(slot(&h, 5, 6, 1000), 25);
    let wrap = HashTriple { g: 0, f1: u32::MAX, f2: 10 };
    // (1 + (2^32 - 1) * 2 + 10) mod 2^32 = 9
    assert_eq!(slot(&wrap, 2, 1, 100), 9);
}

#[test]
fn get_index_picks_the_bucket_by_g() {
    let h = HashTriple { g: 5, f1: 1, f2: 2 };
    let disps = [(0u32, 0u32), (10, 20), (3, 4)];
    // bucket 5 % 3 = 2, displacement (3, 4): 4 + 1 * 3 + 2 = 9
    assert_eq!(get_index(&h, &disps, 100), 9);
    assert_eq!(get_index(&h, &disps, 4), 1);
}

#[test]
fn bucket_count_rounds_up() {
    assert_eq!(buckets_for(0, 5), 0);
    assert_eq!(buckets_for(1, 5), 1);
    assert_eq!(buckets_for(5, 5), 1);
    assert_eq!(buckets_for(6, 5), 2);
    assert_eq!(buckets_for(7, 1), 7);
    assert_eq!(buckets_for(usize::MAX, usize::MAX), 1);
}

fn first_solution(entries: &[usize]) -> phf_generator::HashState {
    for key in 0..64u64 {
        if let Some(state) = phf_generator::try_generate_hash(entries, key) {
            assert_eq!(state.key, key);
            return state;
        }
    }
    panic!("no hash key solves the entries");
}

#[test]
fn solved_state_is_a_minimal_perfect_hash() {
    let entries: Vec<usize> = (0..500).map(|i| i * i + 3).collect();
    let state = first_solution(&entries);
    assert_eq!(state.map.len(), entries.len());
    assert_eq!(state.displacements.len(), 100);
    for (i, entry) in entries.iter().enumerate() {
        assert_eq!(state.get_index(entry), Some(i));
    }
    let mut seen = vec![false; entries.len()];
    for index in &state.map {
        assert!(!seen[*index]);
        seen[*index] = true;
    }
}

#[test]
fn double_hash_state_has_one_bucket_per_key() {
    let entries: Vec<usize> = vec![11, 22, 33, 44, 55, 66, 77];
    let state = phf_generator_double_hash::generate_hash(&entries).unwrap();
    assert_eq!(state.map.len(), 7);
    assert_eq!(state.displacements.len(), 7);
    for (i, entry) in entries.iter().enumerate() {
        assert_eq!(state.get(entry), Some(i));
    }
}

#[test]
fn search_is_a_function_of_hashes() {
    let entries: Vec<usize> = vec![5, 9, 100, 4000, 77];
    let hashes = hash_all(&entries, 3);
    assert_eq!(hashes.len(), 5);
    let first = solve_table(&hashes, 5);
    let second = solve_table(&hashes, 5);
    assert_eq!(first, second);
}

#[test]
fn single_key_goes_to_slot_zero_under_zero_displacements() {
    let state = phf_generator::try_generate_hash(&[42], 0).unwrap();
    assert_eq!(state.displacements, vec![(0, 0)]);
    assert_eq!(state.map, vec![0]);
    assert_eq!(state.get_index(&42), Some(0));
}

#[test]
fn no_entries_give_an_empty_state() {
    let state = phf_generator::generate_hash(&[]).unwrap();
    assert!(state.map.is_empty());
    assert!(state.displacements.is_empty());
    assert_eq!(state.get_index(&1), None);
    let state = phf_generator_double_hash::try_generate_hash(&[], 9).unwrap();
    assert_eq!(state.hash_key, 9);
    assert_eq!(state.get(&1), None);
}

#[test]
fn entries_with_a_key_twice_are_unsolvable() {
    assert!(phf_generator::try_generate_hash(&[1, 2, 1], 0).is_none());
    assert_eq!(phf_generator::generate_hash(&[7, 7]).err(), Some(LutError::PhfUnsolvable));
    assert_eq!(
        phf_generator_double_hash::generate_hash(&[7, 8, 7]).err(),
        Some(LutError::PhfUnsolvable)
    );
}

#[test]
fn generate_hash_is_reproducible() {
    let entries: Vec<usize> = (0..200).map(|i| 3 * i + 1).collect();
    let a = phf_generator::generate_hash(&entries).unwrap();
    let b = phf_generator::generate_hash(&entries).unwrap();
    assert_eq!(a.key, b.key);
    assert_eq!(a.displacements, b.displacements);
    assert_eq!(a.map, b.map);
}

#[test]
fn unusable_state_answers_nothing() {
    let state = phf_generator::HashState { key: 1, displacements: vec![], map: vec![3] };
    assert_eq!(state.get_index(&0), None);
    let state = phf_generator_double_hash::HashState {
        hash_key: 1,
        displacements: vec![(0, 0)],
        map: vec![],
    };
    assert_eq!(state.get(&0), None);
}
