use bracket_lut::error::LutError;
use bracket_lut::lut_phf::phf_generator_double_hash::HashState;
use bracket_lut::lut_phf_double::LutPHFDouble;

fn pairs_of(input: &[u8]) -> Vec<(usize, usize)> {
    let (keys_16, values_16, keys_64, values_64) = LutPHFDouble::find_all_pairs(input).unwrap();
    let mut pairs: Vec<(usize, usize)> = Vec::new();
    for i in 0..keys_16.len() {
        pairs.push((keys_16[i], keys_16[i] + values_16[i] as usize));
    }
    for i in 0..keys_64.len() {
        pairs.push((keys_64[i], keys_64[i] + values_64[i]));
    }
    pairs
}

#[test]
fn empty_array_has_one_pair() {
    let input = b"[]";
    assert_eq!(pairs_of(input), vec![(0, 1)]);
    let table = LutPHFDouble::build_with_json(input).unwrap();
    assert_eq!(table.get(&0), Some(1));
}

#[test]
fn nested_arrays_close_inner_first() {
    let input = b"[[]]";
    assert_eq!(pairs_of(input), vec![(1, 2), (0, 3)]);
    let table = LutPHFDouble::build_with_json(input).unwrap();
    assert_eq!(table.get(&0), Some(3));
    assert_eq!(table.get(&1), Some(2));
}

#[test]
fn object_with_array_and_object() {
    let input = br#"{"a":[1,2],"b":{}}"#;
    assert_eq!(pairs_of(input), vec![(5, 9), (15, 16), (0, 17)]);
    let table = LutPHFDouble::build_with_json(input).unwrap();
    assert_eq!(table.get(&0), Some(17));
    assert_eq!(table.get(&5), Some(9));
    assert_eq!(table.get(&15), Some(16));
}

#[test]
fn two_short_pairs_far_apart() {
    let mut input: Vec<u8> = Vec::new();
    input.extend_from_slice(b"[]");
    input.extend(std::iter::repeat(b'a').take(65534));
    input.extend_from_slice(b"[]");
    let (keys_16, values_16, keys_64, values_64) = LutPHFDouble::find_all_pairs(&input).unwrap();
    assert_eq!(keys_16, vec![0, 65536]);
    assert_eq!(values_16, vec![1, 1]);
    assert!(keys_64.is_empty());
    assert!(values_64.is_empty());
    let table = LutPHFDouble::build_with_json(&input).unwrap();
    assert_eq!(table.get(&0), Some(1));
    assert_eq!(table.get(&65536), Some(65537));
}

#[test]
fn one_long_pair_goes_through_the_secondary_table() {
    let mut input: Vec<u8> = Vec::new();
    input.push(b'[');
    input.extend(std::iter::repeat(b'x').take(70000));
    input.push(b']');
    let (keys_16, values_16, keys_64, values_64) = LutPHFDouble::find_all_pairs(&input).unwrap();
    assert!(keys_16.is_empty());
    assert!(values_16.is_empty());
    assert_eq!(keys_64, vec![0]);
    assert_eq!(values_64, vec![70001]);
    let table = LutPHFDouble::build_with_json(&input).unwrap();
    assert_eq!(table.hash_state_16.map.len(), 0);
    assert_eq!(table.hash_state_64.map, vec![70001]);
    assert_eq!(table.get(&0), Some(70001));
}

#[test]
fn brackets_inside_strings_are_ignored() {
    let input = br#"["\\[not a bracket"]"#;
    assert_eq!(pairs_of(input), vec![(0, input.len() - 1)]);
    let table = LutPHFDouble::build_with_json(input).unwrap();
    assert_eq!(table.get(&0), Some(input.len() - 1));
}

#[test]
fn escaped_quote_does_not_end_the_string() {
    let input = br#"["a\"]", {"}":[]}]"#;
    assert_eq!(pairs_of(input), vec![(14, 15), (9, 16), (0, 17)]);
}

#[test]
fn distance_at_the_threshold_goes_long() {
    let mut short: Vec<u8> = vec![b'['];
    short.extend(std::iter::repeat(b' ').take(65534));
    short.push(b']');
    let (keys_16, values_16, keys_64, _) = LutPHFDouble::find_all_pairs(&short).unwrap();
    assert_eq!(keys_16, vec![0]);
    assert_eq!(values_16, vec![65535]);
    assert!(keys_64.is_empty());

    let mut long: Vec<u8> = vec![b'['];
    long.extend(std::iter::repeat(b' ').take(65535));
    long.push(b']');
    let (keys_16, _, keys_64, values_64) = LutPHFDouble::find_all_pairs(&long).unwrap();
    assert!(keys_16.is_empty());
    assert_eq!(keys_64, vec![0]);
    assert_eq!(values_64, vec![65536]);
}

#[test]
fn empty_input_has_no_pairs_and_answers_nothing() {
    assert_eq!(pairs_of(b""), vec![]);
    let table = LutPHFDouble::build_with_json(b"").unwrap();
    assert_eq!(table.get(&0), None);
    assert_eq!(table.get(&12345), None);
}

#[test]
fn deep_nesting_pairs_every_level() {
    let depth: usize = 2000;
    let mut input: Vec<u8> = Vec::new();
    input.extend(std::iter::repeat(b'[').take(depth));
    input.extend(std::iter::repeat(b']').take(depth));
    let pairs = pairs_of(&input);
    assert_eq!(pairs.len(), depth);
    let table = LutPHFDouble::build_with_json(&input).unwrap();
    for open in 0..depth {
        assert_eq!(table.get(&open), Some(2 * depth - 1 - open));
    }
}

#[test]
fn interleaved_kinds_use_one_stack_each() {
    assert_eq!(pairs_of(b"[{]}"), vec![(0, 2), (1, 3)]);
    assert_eq!(pairs_of(b"{[{}]}[]"), vec![(2, 3), (1, 4), (0, 5), (6, 7)]);
}

#[test]
fn number_of_pairs_is_number_of_opening_brackets() {
    let input = br#"{"k":"[{","v":[[],{},[{"x":"]"}]]}"#;
    let openings = 6;
    assert_eq!(pairs_of(input).len(), openings);
    for (open, close) in pairs_of(input) {
        assert!(close > open);
        let expected = if input[open] == b'[' { b']' } else { b'}' };
        assert_eq!(input[close], expected);
    }
}

#[test]
fn unmatched_closing_bracket_is_refused() {
    assert_eq!(LutPHFDouble::find_all_pairs(b"[]]").err(), Some(LutError::UnmatchedBracket));
    assert_eq!(LutPHFDouble::build_with_json(b"}").err(), Some(LutError::UnmatchedBracket));
}

#[test]
fn unclosed_opening_bracket_is_refused() {
    assert_eq!(LutPHFDouble::find_all_pairs(b"[[]").err(), Some(LutError::UnmatchedBracket));
    assert_eq!(LutPHFDouble::build_with_json(b"{").err(), Some(LutError::UnmatchedBracket));
    assert_eq!(
        LutPHFDouble::find_all_pairs(br#"["]"#).err(),
        Some(LutError::UnmatchedBracket)
    );
}

#[test]
fn a_key_given_twice_cannot_be_hashed() {
    let r = LutPHFDouble::build_with_keys_and_values(vec![4, 4], vec![1, 2], vec![], vec![]);
    assert_eq!(r.err(), Some(LutError::PhfUnsolvable));
    let r = LutPHFDouble::build_with_keys_and_values(vec![], vec![], vec![9, 9], vec![70000, 80000]);
    assert_eq!(r.err(), Some(LutError::PhfUnsolvable));
    let r = LutPHFDouble::generate_hash_single(vec![1, 2, 1], vec![5, 6, 7]);
    assert_eq!(r.err(), Some(LutError::PhfUnsolvable));
}

#[test]
fn built_table_answers_every_pair() {
    let keys_16: Vec<usize> = (0..300).map(|i| i * 7 + 1).collect();
    let values_16: Vec<u16> = (0..300).map(|i| (i % 50 + 1) as u16).collect();
    let keys_64: Vec<usize> = (0..40).map(|i| 1_000_000 + i * 13).collect();
    let values_64: Vec<usize> = (0..40).map(|i| 65536 + i * 1000).collect();
    let table = LutPHFDouble::build_with_keys_and_values(
        keys_16.clone(),
        values_16.clone(),
        keys_64.clone(),
        values_64.clone(),
    )
    .unwrap();
    for i in 0..keys_16.len() {
        assert_eq!(table.get(&keys_16[i]), Some(keys_16[i] + values_16[i] as usize));
    }
    for j in 0..keys_64.len() {
        assert_eq!(table.get(&keys_64[j]), Some(keys_64[j] + values_64[j]));
    }
    assert_eq!(table.hash_state_16.map.len(), keys_16.len());
    assert!(table.hash_state_16.map.iter().all(|d| *d < 65536));
    let evicted = table.hash_state_16.map.iter().filter(|d| **d == 0).count();
    assert_eq!(table.hash_state_64.map.len(), evicted + keys_64.len());
}

#[test]
fn long_keys_evict_short_keys_to_the_secondary_table() {
    let keys_16: Vec<usize> = vec![10];
    let values_16: Vec<u16> = vec![3];
    let keys_64: Vec<usize> = vec![500];
    let values_64: Vec<usize> = vec![100_000];
    let table =
        LutPHFDouble::build_with_keys_and_values(keys_16, values_16, keys_64, values_64).unwrap();
    assert_eq!(table.hash_state_16.map, vec![0]);
    assert_eq!(table.hash_state_64.map.len(), 2);
    assert_eq!(table.get(&10), Some(13));
    assert_eq!(table.get(&500), Some(100_500));
}

#[test]
fn same_pairs_and_hash_keys_give_the_same_table() {
    let keys_16: Vec<usize> = vec![0, 3, 8, 20];
    let values_16: Vec<u16> = vec![30, 2, 5, 1];
    let keys_64: Vec<usize> = vec![100];
    let values_64: Vec<usize> = vec![70000];
    let mut found = None;
    for key_16 in 0..64u64 {
        for key_64 in 0..64u64 {
            if found.is_none() {
                if let Some(t) = LutPHFDouble::build_with_hash_keys(
                    &keys_16, &values_16, &keys_64, &values_64, key_16, key_64,
                ) {
                    found = Some((key_16, key_64, t));
                }
            }
        }
    }
    let (key_16, key_64, first) = found.unwrap();
    let second = LutPHFDouble::build_with_hash_keys(
        &keys_16, &values_16, &keys_64, &values_64, key_16, key_64,
    )
    .unwrap();
    assert_eq!(first.hash_state_16.hash_key, key_16);
    assert_eq!(first.hash_state_64.hash_key, key_64);
    assert_eq!(first.to_bytes().unwrap(), second.to_bytes().unwrap());
    for i in 0..keys_16.len() {
        assert_eq!(first.get(&keys_16[i]), Some(keys_16[i] + values_16[i] as usize));
    }
    assert_eq!(first.get(&100), Some(70100));
}

#[test]
fn building_twice_gives_identical_bytes() {
    let input = br#"{"a":[1,2,{"b":[[],[]]}],"c":{"d":[{},{}]}}"#;
    let first = LutPHFDouble::build_with_json(input).unwrap().to_bytes().unwrap();
    let second = LutPHFDouble::build_with_json(input).unwrap().to_bytes().unwrap();
    assert_eq!(first, second);
}

#[test]
fn lookup_of_a_sum_that_is_no_offset_is_none() {
    let table = LutPHFDouble {
        hash_state_16: HashState { hash_key: 0, displacements: vec![(0, 0)], map: vec![5] },
        hash_state_64: HashState { hash_key: 0, displacements: vec![], map: vec![] },
    };
    assert_eq!(table.get(&1), Some(6));
    assert_eq!(table.get(&usize::MAX), None);
}
