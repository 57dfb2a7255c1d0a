use bracket_lut::backend::{Backend, LookUpTable};
use bracket_lut::error::LutError;

fn both(input: &[u8]) -> Vec<LookUpTable> {
    vec![
        LookUpTable::build_from_input(Backend::Naive, input).unwrap(),
        LookUpTable::build_from_input(Backend::PhfDouble, input).unwrap(),
        LookUpTable::build_from_input(Backend::Phf, input).unwrap(),
    ]
}

#[test]
fn backends_agree_on_small_documents() {
    for table in both(b"[]") {
        assert_eq!(table.lookup(0), Some(1));
    }
    for table in both(b"[[]]") {
        assert_eq!(table.lookup(0), Some(3));
        assert_eq!(table.lookup(1), Some(2));
    }
    for table in both(br#"{"a":[1,2],"b":{}}"#) {
        assert_eq!(table.lookup(0), Some(17));
        assert_eq!(table.lookup(5), Some(9));
        assert_eq!(table.lookup(15), Some(16));
    }
    let input = br#"["\\[not a bracket"]"#;
    for table in both(input) {
        assert_eq!(table.lookup(0), Some(input.len() - 1));
    }
}

#[test]
fn backends_agree_on_far_and_long_pairs() {
    let mut far: Vec<u8> = Vec::new();
    far.extend_from_slice(b"[]");
    far.extend(std::iter::repeat(b'a').take(65534));
    far.extend_from_slice(b"[]");
    for table in both(&far) {
        assert_eq!(table.lookup(0), Some(1));
        assert_eq!(table.lookup(65536), Some(65537));
    }
    let mut long: Vec<u8> = vec![b'['];
    long.extend(std::iter::repeat(b'x').take(70000));
    long.push(b']');
    for table in both(&long) {
        assert_eq!(table.lookup(0), Some(70001));
    }
}

#[test]
fn backends_agree_on_a_mixed_document() {
    let mut input: Vec<u8> = Vec::new();
    input.extend_from_slice(br#"{"list":["#);
    for i in 0..300 {
        input.extend_from_slice(br#"{"k":[1,[2],{"s":"]}["}]},"#);
        if i % 50 == 0 {
            input.extend(std::iter::repeat(b' ').take(70000));
        }
    }
    input.extend_from_slice(b"[]]}");
    let tables = both(&input);
    let (keys_16, values_16, keys_64, values_64) =
        bracket_lut::lut_phf_double::LutPHFDouble::find_all_pairs(&input).unwrap();
    assert!(!keys_64.is_empty());
    for table in &tables {
        for i in 0..keys_16.len() {
            assert_eq!(table.lookup(keys_16[i]), Some(keys_16[i] + values_16[i] as usize));
        }
        for j in 0..keys_64.len() {
            assert_eq!(table.lookup(keys_64[j]), Some(keys_64[j] + values_64[j]));
        }
    }
}

#[test]
fn empty_input_answers_nothing() {
    for table in both(b"") {
        assert_eq!(table.lookup(0), None);
        assert_eq!(table.lookup(7), None);
    }
}

#[test]
fn backend_is_kept() {
    let tables = both(b"{}");
    assert_eq!(tables[0].backend(), Backend::Naive);
    assert_eq!(tables[1].backend(), Backend::PhfDouble);
    assert_eq!(tables[2].backend(), Backend::Phf);
}

#[test]
fn both_backends_refuse_unmatched_brackets() {
    for backend in [Backend::Naive, Backend::Phf, Backend::PhfDouble] {
        assert_eq!(
            LookUpTable::build_from_input(backend, b"[}").err(),
            Some(LutError::UnmatchedBracket)
        );
        assert_eq!(
            LookUpTable::build_from_input(backend, b"[[]").err(),
            Some(LutError::UnmatchedBracket)
        );
    }
}
