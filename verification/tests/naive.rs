use bracket_lut::error::LutError;
use bracket_lut::lut_naive::LutNaive;

#[test]
fn naive_put_then_get() {
    let mut lut = LutNaive::init(None);
    assert!(lut.is_empty());
    assert_eq!(lut.get(&3), None);
    lut.put(3, 9);
    lut.put(4, 5);
    assert_eq!(lut.get(&3), Some(&9));
    assert_eq!(lut.get(&4), Some(&5));
    assert_eq!(lut.get(&5), None);
    assert_eq!(lut.len(), 2);
}

#[test]
fn naive_put_overwrites() {
    let mut lut = LutNaive::init(Some(16));
    lut.put(1, 2);
    lut.put(1, 7);
    assert_eq!(lut.get(&1), Some(&7));
    assert_eq!(lut.len(), 1);
}

#[test]
fn naive_scenarios() {
    let lut = LutNaive::build_with_json(b"[]").unwrap();
    assert_eq!(lut.get(&0), Some(&1));
    assert_eq!(lut.len(), 1);

    let lut = LutNaive::build_with_json(b"[[]]").unwrap();
    assert_eq!(lut.get(&0), Some(&3));
    assert_eq!(lut.get(&1), Some(&2));
    assert_eq!(lut.len(), 2);

    let lut = LutNaive::build_with_json(br#"{"a":[1,2],"b":{}}"#).unwrap();
    assert_eq!(lut.get(&0), Some(&17));
    assert_eq!(lut.get(&5), Some(&9));
    assert_eq!(lut.get(&15), Some(&16));
    assert_eq!(lut.len(), 3);

    let input = br#"["\\[not a bracket"]"#;
    let lut = LutNaive::build_with_json(input).unwrap();
    assert_eq!(lut.get(&0), Some(&(input.len() - 1)));
    assert_eq!(lut.len(), 1);
}

#[test]
fn naive_far_apart_and_long_pairs() {
    let mut input: Vec<u8> = Vec::new();
    input.extend_from_slice(b"[]");
    input.extend(std::iter::repeat(b'a').take(65534));
    input.extend_from_slice(b"[]");
    let lut = LutNaive::build_with_json(&input).unwrap();
    assert_eq!(lut.get(&0), Some(&1));
    assert_eq!(lut.get(&65536), Some(&65537));

    let mut input: Vec<u8> = vec![b'['];
    input.extend(std::iter::repeat(b'x').take(70000));
    input.push(b']');
    let lut = LutNaive::build_with_json(&input).unwrap();
    assert_eq!(lut.get(&0), Some(&70001));
}

#[test]
fn naive_empty_input() {
    let lut = LutNaive::build_with_json(b"").unwrap();
    assert!(lut.is_empty());
    assert_eq!(lut.get(&0), None);
}

#[test]
fn naive_refuses_unmatched_brackets() {
    assert_eq!(LutNaive::build_with_json(b"]").err(), Some(LutError::UnmatchedBracket));
    assert_eq!(LutNaive::build_with_json(b"[{}").err(), Some(LutError::UnmatchedBracket));
}

#[test]
fn naive_distance_statistics() {
    let mut lut = LutNaive::init(None);
    lut.put(0, 17);
    lut.put(5, 9);
    lut.put(15, 16);
    let stats = lut.distance_stats();
    assert_eq!(stats.entries, 3);
    assert_eq!(stats.total, 22);
    assert_eq!(stats.max, 17);
    assert_eq!(stats.min, 1);
}

#[test]
fn naive_distance_statistics_saturate() {
    let mut lut = LutNaive::init(None);
    lut.put(10, 4);
    lut.put(2, 8);
    let stats = lut.distance_stats();
    assert_eq!(stats.entries, 2);
    assert_eq!(stats.total, 6);
    assert_eq!(stats.max, 6);
    assert_eq!(stats.min, 0);
}

#[test]
fn naive_distance_statistics_of_empty_table() {
    let stats = LutNaive::init(None).distance_stats();
    assert_eq!(stats.entries, 0);
    assert_eq!(stats.total, 0);
    assert_eq!(stats.max, 0);
    assert_eq!(stats.min, usize::MAX);
}
