use json_syntax::code_map::{Entry, Span};
use json_syntax::parse::document::Parse;
use json_syntax::Value;

#[test]
fn code_map_t1() {
    let (value, code_map) = Value::parse_str(r#"{ "a": 0, "b": [1, 2] }"#).unwrap();
    let expected = [
        Entry::new(Span::new(0, 23), 9),
        Entry::new(Span::new(2, 8), 3),
        Entry::new(Span::new(2, 5), 1),
        Entry::new(Span::new(7, 8), 1),
        Entry::new(Span::new(10, 21), 5),
        Entry::new(Span::new(10, 13), 1),
        Entry::new(Span::new(15, 21), 3),
        Entry::new(Span::new(16, 17), 1),
        Entry::new(Span::new(19, 20), 1),
    ];

    assert_eq!(code_map.len(), expected.len());
    assert_eq!(value.traverse().len(), expected.len());
    for (i, entry) in code_map.iter() {
        assert_eq!(entry, expected[i])
    }
}

#[test]
fn code_map_t2() {
    let (value, code_map) =
        Value::parse_str(r#"{ "a": 0, "b": { "c": 1, "d": [2, 3] }, "e": [4, [5, 6]] }"#)
            .unwrap();
    let expected = [
        Entry::new(Span::new(0, 58), 22),
        Entry::new(Span::new(2, 8), 3),
        Entry::new(Span::new(2, 5), 1),
        Entry::new(Span::new(7, 8), 1),
        Entry::new(Span::new(10, 38), 11),
        Entry::new(Span::new(10, 13), 1),
        Entry::new(Span::new(15, 38), 9),
        Entry::new(Span::new(17, 23), 3),
        Entry::new(Span::new(17, 20), 1),
        Entry::new(Span::new(22, 23), 1),
        Entry::new(Span::new(25, 36), 5),
        Entry::new(Span::new(25, 28), 1),
        Entry::new(Span::new(30, 36), 3),
        Entry::new(Span::new(31, 32), 1),
        Entry::new(Span::new(34, 35), 1),
        Entry::new(Span::new(40, 56), 7),
        Entry::new(Span::new(40, 43), 1),
        Entry::new(Span::new(45, 56), 5),
        Entry::new(Span::new(46, 47), 1),
        Entry::new(Span::new(49, 55), 3),
        Entry::new(Span::new(50, 51), 1),
        Entry::new(Span::new(53, 54), 1),
    ];

    assert_eq!(code_map.len(), expected.len());
    assert_eq!(value.traverse().len(), expected.len());
    for (i, entry) in code_map.iter() {
        assert_eq!(entry, expected[i])
    }
}

#[test]
fn code_map_entries_hold_what_they_count() {
    let text = r#"{ "a": [true, { "b": null }], "c": "d" }"#;
    let (value, code_map) = Value::parse_str(text).unwrap();
    let entries = code_map.as_slice();
    assert_eq!(entries.len(), value.traverse().len());
    assert_eq!(entries[0].volume, entries.len());
    for t in 0..entries.len() {
        let outer = entries[t];
        assert!(outer.span.start <= outer.span.end && outer.span.end <= text.len());
        assert!(t + outer.volume <= entries.len());
        for u in t + 1..t + outer.volume {
            let inner = entries[u];
            assert!(outer.span.start <= inner.span.start);
            assert!(inner.span.end <= outer.span.end);
        }
    }
}
