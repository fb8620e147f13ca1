use json_syntax::print::Print;
use json_syntax::print::{print_array, print_object, Size};
use json_syntax::{Object, Value};

fn obj(entries: Vec<(&str, Value)>) -> Value {
    let mut o = Object::new();
    for (k, v) in entries {
        o.push(k.to_string(), v);
    }
    Value::Object(o)
}

#[test]
fn print_01() {
    let value = Value::Null;
    assert_eq!(value.pretty_print().to_string(), "null")
}

#[test]
fn print_02() {
    let value = Value::Boolean(true);
    assert_eq!(value.pretty_print().to_string(), "true")
}

#[test]
fn print_03() {
    let value = Value::Boolean(false);
    assert_eq!(value.pretty_print().to_string(), "false")
}

#[test]
fn print_04() {
    let value = Value::from("foo");
    assert_eq!(value.pretty_print().to_string(), "\"foo\"")
}

#[test]
fn print_05() {
    let value = Value::from(1);
    assert_eq!(value.pretty_print().to_string(), "1")
}

#[test]
fn print_06() {
    let value = Value::Array(vec![]);
    assert_eq!(value.pretty_print().to_string(), "[]")
}

#[test]
fn print_07() {
    let value = Value::Array(vec![Value::Null]);
    assert_eq!(value.pretty_print().to_string(), "[ null ]")
}

#[test]
fn print_08() {
    let value = Value::Array(vec![Value::from("azertyuiop")]);
    assert_eq!(value.pretty_print().to_string(), "[ \"azertyuiop\" ]")
}

#[test]
fn print_09() {
    let value = Value::Array(vec![Value::from("azertyuiopq")]);
    assert_eq!(value.pretty_print().to_string(), "[\n  \"azertyuiopq\"\n]")
}

#[test]
fn print_10() {
    let value = Value::Array(vec![Value::Boolean(true), Value::Boolean(false)]);
    assert_eq!(value.pretty_print().to_string(), "[\n  true,\n  false\n]")
}

#[test]
fn print_11() {
    let value = obj(vec![("a", Value::Null)]);
    assert_eq!(value.pretty_print().to_string(), "{ \"a\": null }")
}

#[test]
fn print_12() {
    let value = obj(vec![("a", Value::Null), ("b", Value::from(12))]);
    assert_eq!(
        value.pretty_print().to_string(),
        "{\n  \"a\": null,\n  \"b\": 12\n}"
    )
}

#[test]
fn print_13() {
    let value = obj(vec![
        ("a", Value::Array(vec![Value::Null])),
        ("b", Value::Array(vec![Value::from(13)])),
    ]);
    assert_eq!(
        value.pretty_print().to_string(),
        "{\n  \"a\": [ null ],\n  \"b\": [ 13 ]\n}"
    )
}

#[test]
fn print_14() {
    let value = obj(vec![
        ("a", Value::Array(vec![Value::Null, Value::Array(vec![])])),
        ("b", Value::Array(vec![Value::from(14)])),
    ]);
    assert_eq!(
        value.pretty_print().to_string(),
        "{\n  \"a\": [\n    null,\n    []\n  ],\n  \"b\": [ 14 ]\n}"
    )
}

#[test]
fn array_width_uses_array_padding() {
    let mut opts = json_syntax::print::Options::inline();
    opts.object_begin = 0;
    opts.object_end = 0;
    let mut sizes: Vec<json_syntax::print::Size> = Vec::new();
    let size = json_syntax::print::pre_compute_array_size(&vec![Value::Boolean(true)], &opts, &mut sizes);
    assert!(matches!(size, json_syntax::print::Size::Width(8)));
    assert!(matches!(sizes[..], [json_syntax::print::Size::Width(8)]));
    let mut sizes: Vec<json_syntax::print::Size> = Vec::new();
    opts.array_empty = 3;
    let size = json_syntax::print::pre_compute_array_size(&vec![], &opts, &mut sizes);
    assert!(matches!(size, json_syntax::print::Size::Width(5)));
    assert_eq!(Value::Array(vec![]).print_with(opts).to_string(), "[   ]");
}

#[test]
fn printed_string_size_counts_bytes() {
    assert_eq!(json_syntax::print::printed_string_size("é"), 4);
    assert_eq!(json_syntax::print::printed_string_size(""), 2);
    assert_eq!(json_syntax::print::printed_string_size("a\"\n\u{1}"), 13);
    assert_eq!(json_syntax::print::printed_string_size("€"), 5);
}

#[test]
fn print_array_reads_the_given_slots() {
    let items = vec![
        Value::Array(vec![Value::Boolean(true)]),
        Value::Array(vec![Value::Null]),
    ];
    // The outer array on one line, the first inner one expanded, the
    // second on one line: the widths in the slots are not read.
    let sizes = [Size::Width(0), Size::Expanded, Size::Width(0)];
    let mut out = String::new();
    let mut index = 0;
    print_array(&items, &mut out, &json_syntax::print::Options::pretty(), 0, &sizes, &mut index);
    assert_eq!(out, "[ [\n    true\n  ], [ null ] ]");
    assert_eq!(index, 3);
}

#[test]
fn print_object_reads_the_given_slots() {
    let mut object = Object::new();
    object.push("a".into(), Value::Array(vec![]));
    let sizes = [Size::Expanded, Size::Width(7)];
    let mut out = String::new();
    let mut index = 0;
    print_object(&object, &mut out, &json_syntax::print::Options::compact(), 0, &sizes, &mut index);
    assert_eq!(out, "{\n\"a\":[]\n}");
    assert_eq!(index, 2);
}

#[test]
fn printed_string_size_sums_the_escapes() {
    // Quotes 2, a control character 6, 'é' 2, a quote 2, a tab 2, 'a' 1.
    assert_eq!(json_syntax::print::printed_string_size("\u{1}é\"\ta"), 15);
}
