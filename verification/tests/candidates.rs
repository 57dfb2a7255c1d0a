use bracket_lut::error::LutError;
use bracket_lut::lut_phf::keys::{draw_candidates, FIXED_SEED, MAX_ATTEMPTS};
use bracket_lut::lut_phf::phf_generator;
use bracket_lut::lut_phf::phf_generator_double_hash;
use bracket_lut::lut_phf::table::LutPHF;
use bracket_lut::lut_phf_double::LutPHFDouble;

#[test]
fn one_long_pair_lives_in_the_secondary_table_only() {
    let r = LutPHFDouble::build_with_keys_and_values(vec![], vec![], vec![0], vec![70001]).unwrap();
    assert!(r.hash_state_16.map.is_empty());
    assert!(r.hash_state_16.displacements.is_empty());
    assert_eq!(r.hash_state_64.map, vec![70001]);
    assert_eq!(r.hash_state_64.displacements, vec![(0, 0)]);
    assert_eq!(r.get(&0), Some(70001));
}

#[test]
fn one_short_pair_lives_in_the_primary_table_only() {
    let r = LutPHFDouble::build_with_keys_and_values(vec![4], vec![9], vec![], vec![]).unwrap();
    assert_eq!(r.hash_state_16.map, vec![9]);
    assert_eq!(r.hash_state_16.displacements, vec![(0, 0)]);
    assert!(r.hash_state_64.map.is_empty());
    assert_eq!(r.get(&4), Some(13));
}

#[test]
fn candidates_are_drawn_alike_every_time() {
    let first = draw_candidates(FIXED_SEED, MAX_ATTEMPTS);
    let second = draw_candidates(FIXED_SEED, MAX_ATTEMPTS);
    assert_eq!(first.len(), MAX_ATTEMPTS);
    assert_eq!(first, second);
    assert_eq!(draw_candidates(FIXED_SEED, 3), first[..3].to_vec());
    assert!(draw_candidates(FIXED_SEED, 0).is_empty());
    assert!(first != draw_candidates(FIXED_SEED + 1, MAX_ATTEMPTS));
}

#[test]
fn first_solving_candidate_is_taken() {
    let entries: Vec<usize> = (0..40).map(|i| 17 * i + 2).collect();
    let candidates: Vec<u64> = (100..120).collect();
    let expected = candidates
        .iter()
        .find_map(|key| phf_generator::try_generate_hash(&entries, *key))
        .unwrap();
    let state = phf_generator::generate_hash_from(&entries, &candidates).unwrap();
    assert_eq!(state.key, expected.key);
    assert_eq!(state.displacements, expected.displacements);
    assert_eq!(state.map, expected.map);

    let expected = candidates
        .iter()
        .find_map(|key| phf_generator_double_hash::try_generate_hash(&entries, *key))
        .unwrap();
    let state = phf_generator_double_hash::generate_hash_from(&entries, &candidates).unwrap();
    assert_eq!(state.hash_key, expected.hash_key);
    assert_eq!(state.displacements, expected.displacements);
    assert_eq!(state.map, expected.map);
}

#[test]
fn generate_hash_takes_the_first_solving_key_of_the_stream() {
    let entries: Vec<usize> = (0..100).map(|i| i * i + 1).collect();
    let candidates = draw_candidates(FIXED_SEED, MAX_ATTEMPTS);
    let from_list = phf_generator::generate_hash_from(&entries, &candidates).unwrap();
    let drawn = phf_generator::generate_hash(&entries).unwrap();
    assert_eq!(drawn.key, from_list.key);
    assert_eq!(drawn.displacements, from_list.displacements);
    assert_eq!(drawn.map, from_list.map);
    let first = candidates
        .iter()
        .position(|key| phf_generator::try_generate_hash(&entries, *key).is_some())
        .unwrap();
    assert_eq!(drawn.key, candidates[first]);
}

#[test]
fn no_candidates_solve_nothing() {
    assert_eq!(
        phf_generator::generate_hash_from(&[1, 2], &[]).err(),
        Some(LutError::PhfUnsolvable)
    );
    assert_eq!(
        phf_generator_double_hash::generate_hash_from(&[], &[]).err(),
        Some(LutError::PhfUnsolvable)
    );
    assert_eq!(
        phf_generator::generate_hash_from(&[3, 3], &[1, 2, 3]).err(),
        Some(LutError::PhfUnsolvable)
    );
    assert!(phf_generator::generate_hash_from(&[3], &[77]).is_ok());
}

#[test]
fn two_level_table_from_candidates() {
    let keys_16: Vec<usize> = vec![0, 3, 8, 20, 31];
    let values_16: Vec<u16> = vec![30, 2, 5, 1, 7];
    let keys_64: Vec<usize> = vec![100, 200];
    let values_64: Vec<usize> = vec![70000, 80000];
    let candidates: Vec<u64> = (1..30).collect();
    let first = LutPHFDouble::build_with_candidates(
        &keys_16, &values_16, &keys_64, &values_64, &candidates, &candidates,
    )
    .unwrap();
    let second = LutPHFDouble::build_with_candidates(
        &keys_16, &values_16, &keys_64, &values_64, &candidates, &candidates,
    )
    .unwrap();
    assert_eq!(first.to_bytes().unwrap(), second.to_bytes().unwrap());
    let direct = LutPHFDouble::build_with_hash_keys(
        &keys_16,
        &values_16,
        &keys_64,
        &values_64,
        first.hash_state_16.hash_key,
        first.hash_state_64.hash_key,
    )
    .unwrap();
    assert_eq!(direct.to_bytes().unwrap(), first.to_bytes().unwrap());
    for i in 0..keys_16.len() {
        assert_eq!(first.get(&keys_16[i]), Some(keys_16[i] + values_16[i] as usize));
    }
    for j in 0..keys_64.len() {
        assert_eq!(first.get(&keys_64[j]), Some(keys_64[j] + values_64[j]));
    }
    let none = LutPHFDouble::build_with_candidates(
        &keys_16, &values_16, &keys_64, &values_64, &[], &candidates,
    );
    assert_eq!(none.err(), Some(LutError::PhfUnsolvable));
    let none = LutPHFDouble::build_with_candidates(
        &keys_16, &values_16, &keys_64, &values_64, &candidates, &[],
    );
    assert_eq!(none.err(), Some(LutError::PhfUnsolvable));
}

#[test]
fn mapping_state_from_candidates() {
    let keys: Vec<usize> = vec![5, 6, 7, 8];
    let values: Vec<usize> = vec![50, 60, 70, 80];
    let state = LutPHFDouble::generate_hash_single_from(&keys, &values, &[9, 10, 11]).unwrap();
    for i in 0..keys.len() {
        assert_eq!(state.get(&keys[i]), Some(values[i]));
    }
    let one = LutPHFDouble::generate_hash_single(vec![12], vec![34]).unwrap();
    assert_eq!(one.map, vec![34]);
    assert_eq!(one.displacements, vec![(0, 0)]);
}

#[test]
fn single_level_table_answers_every_pair() {
    let input = br#"{"a":[1,2,{"b":[[],[]]}],"c":{"d":[{},{}]}}"#;
    let table = LutPHF::build_with_json(input).unwrap();
    let (keys_16, values_16, keys_64, _) = LutPHFDouble::find_all_pairs(input).unwrap();
    assert!(keys_64.is_empty());
    assert_eq!(table.hash_state.map.len(), keys_16.len());
    assert_eq!(table.hash_state.displacements.len(), (keys_16.len() + 4) / 5);
    for i in 0..keys_16.len() {
        assert_eq!(table.get(&keys_16[i]), Some(keys_16[i] + values_16[i] as usize));
    }
    assert_eq!(table.get(&0), Some(input.len() - 1));
}

#[test]
fn single_level_table_small_cases() {
    let empty = LutPHF::build_with_json(b"").unwrap();
    assert_eq!(empty.get(&0), None);
    let one = LutPHF::build_with_keys_and_values(vec![0], vec![70001]).unwrap();
    assert_eq!(one.hash_state.map, vec![70001]);
    assert_eq!(one.hash_state.displacements, vec![(0, 0)]);
    assert_eq!(one.get(&0), Some(70001));
    assert_eq!(
        LutPHF::build_with_keys_and_values(vec![2, 2], vec![1, 1]).err(),
        Some(LutError::PhfUnsolvable)
    );
    assert_eq!(LutPHF::build_with_json(b"[").err(), Some(LutError::UnmatchedBracket));
    assert!(LutPHF::build_with_hash_key(&vec![1, 1], &vec![2, 2], 5).is_none());
    let keyed = LutPHF::build_with_hash_key(&vec![7], &vec![3], 5).unwrap();
    assert_eq!(keyed.hash_state.key, 5);
    assert_eq!(keyed.get(&7), Some(10));
    let listed = LutPHF::build_with_candidates(&vec![7, 9], &vec![3, 4], &[1, 2, 3]).unwrap();
    assert_eq!(listed.get(&7), Some(10));
    assert_eq!(listed.get(&9), Some(13));
}

#[test]
fn single_level_table_round_trips() {
    let table = LutPHF::build_with_json(br#"[[],{"a":[]}]"#).unwrap();
    let bytes = table.to_bytes().unwrap();
    assert_eq!(&bytes[..3], &[1, 0, 1]);
    let back = LutPHF::from_bytes(&bytes).unwrap();
    assert_eq!(back.hash_state.key, table.hash_state.key);
    assert_eq!(back.hash_state.displacements, table.hash_state.displacements);
    assert_eq!(back.hash_state.map, table.hash_state.map);
    assert_eq!(LutPHF::from_bytes(&bytes[..bytes.len() - 1]).err(), Some(LutError::CorruptedArtifact));
    let mut tag = bytes.clone();
    tag[2] = 2;
    assert_eq!(LutPHF::from_bytes(&tag).err(), Some(LutError::CorruptedArtifact));
    assert_eq!(
        LutPHF::build_with_json(br#"[[],{"a":[]}]"#).unwrap().to_bytes().unwrap(),
        bytes
    );
}
