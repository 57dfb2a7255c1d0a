use bracket_lut::structural::{BracketType, Event, StructuralIterator};

fn events_of(input: &[u8]) -> Vec<Event> {
    let mut it = StructuralIterator::new(input);
    let mut events = Vec::new();
    while let Some(event) = it.next() {
        events.push(event);
    }
    assert_eq!(it.next(), None);
    events
}

#[test]
fn events_come_in_document_order() {
    assert_eq!(
        events_of(br#"{"a":[1,2]}"#),
        vec![
            Event::Opening(BracketType::Curly, 0),
            Event::Opening(BracketType::Square, 5),
            Event::Closing(BracketType::Square, 9),
            Event::Closing(BracketType::Curly, 10),
        ]
    );
}

#[test]
fn commas_and_colons_are_no_events() {
    assert_eq!(events_of(br#"1,2:"x",:"#), vec![]);
    assert_eq!(events_of(b""), vec![]);
}

#[test]
fn strings_hide_brackets() {
    assert_eq!(
        events_of(br#"["{[","]}"]"#),
        vec![Event::Opening(BracketType::Square, 0), Event::Closing(BracketType::Square, 10)]
    );
}

#[test]
fn escaped_quotes_and_backslashes() {
    assert_eq!(
        events_of(br#""\"[" ]"#),
        vec![Event::Closing(BracketType::Square, 6)]
    );
    assert_eq!(
        events_of(br#""\\" ["#),
        vec![Event::Opening(BracketType::Square, 5)]
    );
}

#[test]
fn event_offset() {
    assert_eq!(Event::Opening(BracketType::Square, 12).offset(), 12);
    assert_eq!(Event::Closing(BracketType::Curly, 3).offset(), 3);
}
