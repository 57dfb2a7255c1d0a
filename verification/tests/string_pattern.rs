use bracket_lut::string_pattern::{
    push_utf8, utf16_units, AlternativeRepresentation, StringPattern, StringPatternBuilder,
    BLOCK_SIZE, JSON_SPACE_BYTE,
};
use rsonpath_syntax::str::JsonString;

fn code(digits: &[u8; 4]) -> u32 {
    u32::from_le_bytes(*digits)
}

fn padded(quoted: &[u8]) -> Vec<u8> {
    let mut all = quoted.to_vec();
    all.extend(std::iter::repeat(JSON_SPACE_BYTE).take(BLOCK_SIZE));
    all
}

#[test]
fn plain_string_is_quoted_and_padded() {
    let pattern = StringPattern::from_unquoted("ab");
    assert_eq!(pattern.bytes(), b"\"ab\"");
    assert_eq!(pattern.quoted(), padded(b"\"ab\"").as_slice());
    assert_eq!(pattern.unquoted(), &padded(b"\"ab\"")[1..4 + BLOCK_SIZE - 1]);
    assert_eq!(pattern.len_limit(), 2 + 6 + 6);
    assert_eq!(pattern.alternative(0), Some(AlternativeRepresentation::Absent));
    assert_eq!(
        pattern.alternative(1),
        Some(AlternativeRepresentation::SlashUSingle(code(b"0061"), 1))
    );
    assert_eq!(
        pattern.alternative(2),
        Some(AlternativeRepresentation::SlashUSingle(code(b"0062"), 1))
    );
    assert_eq!(pattern.alternative(3), Some(AlternativeRepresentation::Absent));
    assert_eq!(pattern.alternative(4), None);
}

#[test]
fn empty_string_is_two_quotes() {
    let pattern = StringPattern::from_unquoted("");
    assert_eq!(pattern.bytes(), b"\"\"");
    assert_eq!(pattern.len_limit(), 2);
    assert_eq!(pattern.quoted().len(), 2 + BLOCK_SIZE);
}

#[test]
fn short_escapes_take_two_bytes() {
    let pattern = StringPattern::from_unquoted("\n\t\"\\\u{0008}\u{000C}\r");
    assert_eq!(pattern.bytes(), br#""\n\t\"\\\b\f\r""#);
    assert_eq!(pattern.len_limit(), 2 + 7 * 6);
    assert_eq!(pattern.alternative(1), Some(AlternativeRepresentation::Absent));
    assert_eq!(pattern.alternative(2), Some(AlternativeRepresentation::USingle(code(b"000a"))));
    assert_eq!(pattern.alternative(4), Some(AlternativeRepresentation::USingle(code(b"0009"))));
    assert_eq!(pattern.alternative(6), Some(AlternativeRepresentation::USingle(code(b"0022"))));
    assert_eq!(pattern.alternative(8), Some(AlternativeRepresentation::USingle(code(b"005c"))));
}

#[test]
fn other_control_characters_take_six_bytes() {
    let pattern = StringPattern::from_unquoted("\u{0001}\u{001f}");
    assert_eq!(pattern.bytes(), br#""\u0001\u001f""#);
    assert_eq!(pattern.len_limit(), 2 + 12);
    for i in 0..14 {
        assert_eq!(pattern.alternative(i), Some(AlternativeRepresentation::Absent));
    }
}

#[test]
fn slash_and_single_quote_may_be_escaped() {
    let pattern = StringPattern::from_unquoted("/'");
    assert_eq!(pattern.bytes(), b"\"/'\"");
    assert_eq!(pattern.len_limit(), 2 + 12);
    assert_eq!(
        pattern.alternative(1),
        Some(AlternativeRepresentation::SlashByteOrUSingle(b'/', code(b"002f")))
    );
    assert_eq!(
        pattern.alternative(2),
        Some(AlternativeRepresentation::SlashByteOrUSingle(b'\'', code(b"0027")))
    );
}

#[test]
fn two_byte_character_has_its_code_at_both_bytes() {
    let pattern = StringPattern::from_unquoted("\u{e9}");
    assert_eq!(pattern.bytes(), &[0x22, 0xc3, 0xa9, 0x22]);
    let repr = AlternativeRepresentation::SlashUSingle(code(b"00e9"), 2);
    assert_eq!(pattern.alternative(1), Some(repr));
    assert_eq!(pattern.alternative(2), Some(repr));
    assert_eq!(pattern.len_limit(), 2 + 6);
}

#[test]
fn three_byte_character_has_nothing_in_the_middle() {
    let pattern = StringPattern::from_unquoted("\u{20ac}");
    assert_eq!(pattern.bytes(), &[0x22, 0xe2, 0x82, 0xac, 0x22]);
    let repr = AlternativeRepresentation::SlashUSingle(code(b"20ac"), 3);
    assert_eq!(pattern.alternative(1), Some(repr));
    assert_eq!(pattern.alternative(2), Some(AlternativeRepresentation::Absent));
    assert_eq!(pattern.alternative(3), Some(repr));
}

#[test]
fn character_outside_the_basic_plane_has_a_pair_of_codes() {
    let pattern = StringPattern::from_unquoted("\u{1f600}");
    assert_eq!(pattern.bytes(), &[0x22, 0xf0, 0x9f, 0x98, 0x80, 0x22]);
    let repr = AlternativeRepresentation::SlashUPair(code(b"d83d"), code(b"de00"), 4);
    assert_eq!(pattern.alternative(1), Some(repr));
    assert_eq!(pattern.alternative(2), Some(AlternativeRepresentation::Absent));
    assert_eq!(pattern.alternative(3), Some(AlternativeRepresentation::Absent));
    assert_eq!(pattern.alternative(4), Some(repr));
    assert_eq!(pattern.len_limit(), 2 + 12);
}

#[test]
fn pattern_of_a_json_string_is_the_pattern_of_its_contents() {
    let string = JsonString::new("a/\u{e9}\n");
    let from_string = StringPattern::new(&string);
    let from_contents = StringPattern::from_unquoted("a/\u{e9}\n");
    assert_eq!(from_string.quoted(), from_contents.quoted());
    assert_eq!(from_string.bytes(), b"\"a/\xc3\xa9\\n\"");
    assert_eq!(from_string.len_limit(), from_contents.len_limit());
    assert!(from_string == from_contents);
    assert!(from_string != StringPattern::new(&JsonString::new("b")));
}

#[test]
fn patterns_compare_by_bytes() {
    let a = StringPattern::from_unquoted("abc");
    assert!(a.same_bytes(&StringPattern::from_unquoted("abc")));
    assert!(!a.same_bytes(&StringPattern::from_unquoted("abd")));
    let copy = a.clone();
    assert!(copy == a);
    assert_eq!(copy.bytes(), a.bytes());
    assert_eq!(copy.len_limit(), a.len_limit());
}

#[test]
fn nibbles_are_lower_case_hexadecimal() {
    assert_eq!(StringPatternBuilder::encode_nibble(0), b'0');
    assert_eq!(StringPatternBuilder::encode_nibble(9), b'9');
    assert_eq!(StringPatternBuilder::encode_nibble(10), b'a');
    assert_eq!(StringPatternBuilder::encode_nibble(15), b'f');
}

#[test]
fn code_holds_four_digits_first_digit_lowest() {
    assert_eq!(StringPatternBuilder::encode(0x0000), code(b"0000"));
    assert_eq!(StringPatternBuilder::encode(0x12ab), code(b"12ab"));
    assert_eq!(StringPatternBuilder::encode(0xffff), code(b"ffff"));
    assert_eq!(StringPatternBuilder::encode(0x12ab), 0x6261_3231);
}

#[test]
fn utf16_units_agree_with_std() {
    for c in ['a', '\u{e9}', '\u{20ac}', '\u{ffff}', '\u{10000}', '\u{1f600}', '\u{10ffff}'] {
        let mut buf = [0u16; 2];
        let units = c.encode_utf16(&mut buf);
        let ours = utf16_units(c);
        assert_eq!(ours.0, units[0]);
        assert_eq!(ours.1, units.get(1).copied());
    }
}

#[test]
fn utf8_bytes_agree_with_std() {
    for c in ['\0', 'a', '\u{7f}', '\u{80}', '\u{7ff}', '\u{800}', '\u{d7ff}', '\u{e000}', '\u{ffff}', '\u{10000}', '\u{10ffff}'] {
        let mut buf = [0u8; 4];
        let expected = c.encode_utf8(&mut buf).as_bytes().to_vec();
        let mut bytes: Vec<u8> = vec![1, 2];
        let len = push_utf8(&mut bytes, c);
        assert_eq!(len, expected.len());
        assert_eq!(&bytes[..2], &[1, 2]);
        assert_eq!(&bytes[2..], expected.as_slice());
    }
}

#[test]
fn builder_steps() {
    let mut builder = StringPatternBuilder::new(8);
    assert_eq!(builder.bytes, vec![b'"']);
    assert_eq!(builder.len_limit, 1);
    builder.short_escape(b'n', '\n');
    assert_eq!(builder.bytes, b"\"\\n".to_vec());
    assert_eq!(builder.len_limit, 7);
    builder.long_escape('\u{0002}');
    assert_eq!(builder.bytes, b"\"\\n\\u0002".to_vec());
    builder.special_escape('/');
    builder.regular_escape('x');
    assert_eq!(builder.bytes, b"\"\\n\\u0002/x".to_vec());
    assert_eq!(builder.alternatives.len(), builder.bytes.len());
    assert_eq!(builder.len_limit, 1 + 4 * 6);
    let pattern = builder.into_pattern();
    assert_eq!(pattern.bytes(), b"\"\\n\\u0002/x\"");
    assert_eq!(pattern.len_limit(), 2 + 4 * 6);
    assert_eq!(pattern.quoted().len(), pattern.bytes().len() + BLOCK_SIZE);
}

#[test]
fn len_limit_saturates() {
    let mut builder = StringPatternBuilder::new(0);
    builder.len_limit = usize::MAX - 3;
    builder.regular_escape('a');
    assert_eq!(builder.len_limit, usize::MAX);
    let pattern = builder.into_pattern();
    assert_eq!(pattern.len_limit(), usize::MAX);
}

#[test]
fn long_escape_writes_the_lowest_byte() {
    let mut builder = StringPatternBuilder::new(0);
    builder.long_escape('\u{0141}');
    assert_eq!(builder.bytes, b"\"\\u0041".to_vec());
    builder.long_escape('\u{001f}');
    assert_eq!(builder.bytes, b"\"\\u0041\\u001f".to_vec());
    assert_eq!(builder.alternatives.len(), 13);
}

#[test]
fn special_escape_keeps_the_byte_and_the_code() {
    let mut builder = StringPatternBuilder::new(0);
    builder.special_escape('\'');
    assert_eq!(builder.bytes, b"\"'".to_vec());
    assert_eq!(
        builder.alternatives[1],
        AlternativeRepresentation::SlashByteOrUSingle(b'\'', code(b"0027"))
    );
}

#[test]
fn pattern_of_an_empty_builder() {
    let builder = StringPatternBuilder { bytes: vec![], alternatives: vec![], len_limit: 0 };
    let pattern = builder.into_pattern();
    assert_eq!(pattern.bytes(), b"\"");
    assert_eq!(pattern.quoted().len(), 1 + BLOCK_SIZE);
    assert_eq!(pattern.unquoted().len(), BLOCK_SIZE - 1);
    assert_eq!(pattern.len_limit(), 1);
}
