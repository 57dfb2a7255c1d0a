use bracket_lut::error::LutError;
use bracket_lut::format::{format_of_path, lower, Format};
use bracket_lut::lut_phf::phf_generator_double_hash::HashState;
use bracket_lut::lut_phf_double::LutPHFDouble;

fn small_table() -> LutPHFDouble {
    LutPHFDouble {
        hash_state_16: HashState { hash_key: 0x0102, displacements: vec![(1, 2)], map: vec![7] },
        hash_state_64: HashState { hash_key: 3, displacements: vec![], map: vec![] },
    }
}

fn small_bytes() -> Vec<u8> {
    let mut bytes: Vec<u8> = vec![1, 0, 2];
    bytes.extend_from_slice(&[2, 1, 0, 0, 0, 0, 0, 0]);
    bytes.extend_from_slice(&[0; 8]);
    bytes.extend_from_slice(&[1, 0, 0, 0]);
    bytes.extend_from_slice(&[1, 0, 0, 0, 2, 0, 0, 0]);
    bytes.extend_from_slice(&[1, 0, 0, 0]);
    bytes.extend_from_slice(&[7, 0]);
    bytes.extend_from_slice(&[3, 0, 0, 0, 0, 0, 0, 0]);
    bytes.extend_from_slice(&[0; 8]);
    bytes.extend_from_slice(&[0; 4]);
    bytes.extend_from_slice(&[0; 4]);
    bytes
}

#[test]
fn stored_form_is_little_endian() {
    assert_eq!(small_table().to_bytes(), Some(small_bytes()));
}

#[test]
fn stored_form_is_read_back() {
    let table = LutPHFDouble::from_bytes(&small_bytes()).unwrap();
    assert_eq!(table.hash_state_16.hash_key, 0x0102);
    assert_eq!(table.hash_state_16.displacements, vec![(1, 2)]);
    assert_eq!(table.hash_state_16.map, vec![7]);
    assert_eq!(table.hash_state_64.hash_key, 3);
    assert!(table.hash_state_64.displacements.is_empty());
    assert!(table.hash_state_64.map.is_empty());
}

#[test]
fn built_table_round_trips() {
    let mut input: Vec<u8> = Vec::new();
    input.extend_from_slice(br#"{"a":[[],[{}]],"b":["#);
    input.extend(std::iter::repeat(b' ').take(70000));
    input.extend_from_slice(b"]}");
    let table = LutPHFDouble::build_with_json(&input).unwrap();
    let bytes = table.to_bytes().unwrap();
    let back = LutPHFDouble::from_bytes(&bytes).unwrap();
    assert_eq!(back.hash_state_16.hash_key, table.hash_state_16.hash_key);
    assert_eq!(back.hash_state_16.displacements, table.hash_state_16.displacements);
    assert_eq!(back.hash_state_16.map, table.hash_state_16.map);
    assert_eq!(back.hash_state_64.hash_key, table.hash_state_64.hash_key);
    assert_eq!(back.hash_state_64.displacements, table.hash_state_64.displacements);
    assert_eq!(back.hash_state_64.map, table.hash_state_64.map);
    assert_eq!(back.to_bytes().unwrap(), bytes);
    assert_eq!(back.get(&0), Some(input.len() - 1));
}

#[test]
fn wide_values_do_not_fit_the_primary_table() {
    let mut table = small_table();
    table.hash_state_16.map = vec![65536];
    assert_eq!(table.to_bytes(), None);
    table.hash_state_16.map = vec![65535];
    assert!(table.to_bytes().is_some());
}

#[test]
fn corrupted_bytes_are_refused() {
    let good = small_bytes();
    assert_eq!(LutPHFDouble::from_bytes(&[]).err(), Some(LutError::CorruptedArtifact));
    assert_eq!(
        LutPHFDouble::from_bytes(&good[..good.len() - 1]).err(),
        Some(LutError::CorruptedArtifact)
    );
    let mut trailing = good.clone();
    trailing.push(0);
    assert_eq!(LutPHFDouble::from_bytes(&trailing).err(), Some(LutError::CorruptedArtifact));
    let mut version = good.clone();
    version[0] = 2;
    assert_eq!(LutPHFDouble::from_bytes(&version).err(), Some(LutError::CorruptedArtifact));
    let mut tag = good.clone();
    tag[2] = 0;
    assert_eq!(LutPHFDouble::from_bytes(&tag).err(), Some(LutError::CorruptedArtifact));
    let mut high = good.clone();
    high[11] = 1;
    assert_eq!(LutPHFDouble::from_bytes(&high).err(), Some(LutError::CorruptedArtifact));
    let mut count = good.clone();
    count[19] = 200;
    assert_eq!(LutPHFDouble::from_bytes(&count).err(), Some(LutError::CorruptedArtifact));
}

#[test]
fn format_is_told_by_suffix() {
    assert_eq!(format_of_path("table.json"), Ok(Format::Json));
    assert_eq!(format_of_path("table.cbor"), Ok(Format::Cbor));
    assert_eq!(format_of_path("dir.d/Table.JSON"), Ok(Format::Json));
    assert_eq!(format_of_path("x.CbOr"), Ok(Format::Cbor));
    assert_eq!(format_of_path(".json"), Ok(Format::Json));
}

#[test]
fn other_suffixes_are_unsupported() {
    assert_eq!(format_of_path("table.txt"), Err(LutError::UnsupportedFormat));
    assert_eq!(format_of_path("json"), Err(LutError::UnsupportedFormat));
    assert_eq!(format_of_path("tablejson"), Err(LutError::UnsupportedFormat));
    assert_eq!(format_of_path("table.json.bak"), Err(LutError::UnsupportedFormat));
    assert_eq!(format_of_path(""), Err(LutError::UnsupportedFormat));
    assert_eq!(format_of_path("a.jsom"), Err(LutError::UnsupportedFormat));
}

#[test]
fn lower_changes_upper_case_letters_only() {
    assert_eq!(lower(b'A'), b'a');
    assert_eq!(lower(b'Z'), b'z');
    assert_eq!(lower(b'a'), b'a');
    assert_eq!(lower(b'@'), b'@');
    assert_eq!(lower(b'['), b'[');
    assert_eq!(lower(0xff), 0xff);
}

#[test]
fn naive_stored_form_is_little_endian() {
    let bytes = bracket_lut::artifact::write_entries(&[(1, 0x0102), (3, 4)]);
    let mut expected: Vec<u8> = vec![1, 0, 0];
    expected.extend_from_slice(&[2, 0, 0, 0, 0, 0, 0, 0]);
    expected.extend_from_slice(&[1, 0, 0, 0, 0, 0, 0, 0, 2, 1, 0, 0, 0, 0, 0, 0]);
    expected.extend_from_slice(&[3, 0, 0, 0, 0, 0, 0, 0, 4, 0, 0, 0, 0, 0, 0, 0]);
    assert_eq!(bytes, expected);
    assert_eq!(bracket_lut::artifact::read_entries(&expected), Some(vec![(1, 0x0102), (3, 4)]));
}

#[test]
fn naive_table_round_trips() {
    let lut = bracket_lut::lut_naive::LutNaive::build_with_json(br#"{"a":[[],{}],"b":[1]}"#).unwrap();
    let bytes = lut.to_bytes();
    assert_eq!(bytes.len(), 11 + 16 * lut.len());
    let back = bracket_lut::lut_naive::LutNaive::from_bytes(&bytes).unwrap();
    assert_eq!(back.len(), lut.len());
    let mut entries = lut.entries();
    entries.sort();
    let mut entries_back = back.entries();
    entries_back.sort();
    assert_eq!(entries, entries_back);
    assert_eq!(entries, vec![(0, 20), (5, 11), (6, 7), (9, 10), (17, 19)]);
}

#[test]
fn naive_corrupted_bytes_are_refused() {
    let good = bracket_lut::artifact::write_entries(&[(1, 2)]);
    let refuse = |bytes: &[u8]| {
        assert_eq!(
            bracket_lut::lut_naive::LutNaive::from_bytes(bytes).err(),
            Some(LutError::CorruptedArtifact)
        );
    };
    refuse(&[]);
    refuse(&good[..good.len() - 1]);
    let mut tag = good.clone();
    tag[2] = 2;
    refuse(&tag);
    let mut count = good.clone();
    count[3] = 2;
    refuse(&count);
    let mut trailing = good.clone();
    trailing.push(0);
    refuse(&trailing);
    assert!(bracket_lut::lut_naive::LutNaive::from_bytes(&good).is_ok());
}

#[test]
fn later_entries_replace_earlier_ones() {
    let lut = bracket_lut::lut_naive::LutNaive::from_entries(&[(1, 2), (3, 4), (1, 9)]);
    assert_eq!(lut.len(), 2);
    assert_eq!(lut.get(&1), Some(&9));
    assert_eq!(lut.get(&3), Some(&4));
}

#[test]
fn naive_stored_form_lists_entries_by_ascending_key() {
    let mut lut = bracket_lut::lut_naive::LutNaive::init(None);
    for key in [40usize, 3, 17, 2000, 5, 1] {
        lut.put(key, key + 2);
    }
    let expected = bracket_lut::artifact::write_entries(&[
        (1, 3),
        (3, 5),
        (5, 7),
        (17, 19),
        (40, 42),
        (2000, 2002),
    ]);
    assert_eq!(lut.to_bytes(), expected);
    assert_eq!(
        lut.sorted_entries(),
        vec![(1, 3), (3, 5), (5, 7), (17, 19), (40, 42), (2000, 2002)]
    );
    let mut other = bracket_lut::lut_naive::LutNaive::init(Some(64));
    for key in [1usize, 5, 2000, 40, 17, 3] {
        other.put(key, key + 2);
    }
    assert_eq!(other.to_bytes(), expected);
}

#[test]
fn naive_building_twice_gives_identical_bytes() {
    let input = br#"{"a":[1,2,{"b":[[],[]]}],"c":{"d":[{},{}]}}"#;
    let first = bracket_lut::lut_naive::LutNaive::build_with_json(input).unwrap().to_bytes();
    let second = bracket_lut::lut_naive::LutNaive::build_with_json(input).unwrap().to_bytes();
    assert_eq!(first, second);
}

#[test]
fn naive_capacity_holds_the_entries() {
    let mut lut = bracket_lut::lut_naive::LutNaive::init(Some(10));
    assert!(lut.capacity() >= 10);
    lut.put(1, 2);
    assert!(lut.capacity() >= lut.len());
}
