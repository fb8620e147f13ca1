use std::hash::{Hash, Hasher};
use json_syntax::array::JsonArray;
use json_syntax::object::index_map::Equivalent;
use json_syntax::print::Print;
use json_syntax::{
    BorrowUnordered, Kind, KindSet, NumberType, Object, Parse, TryFromJson, TryIntoNumberError,
    Unexpected, Unordered, UnorderedHash, Value,
};

fn parse(s: &str) -> Value {
    Value::parse_str(s).unwrap().0
}

#[test]
fn kind_and_accessors() {
    let v = parse(r#"{"a": [true, 1, "x", null]}"#);
    assert_eq!(v.kind(), Kind::Object);
    assert!(v.is_kind(Kind::Object));
    assert!(v.is_object() && !v.is_array() && !v.is_null());
    let o = v.as_object().unwrap();
    let a = o.get("a");
    assert_eq!(a.len(), 1);
    let items = a[0].as_array().unwrap();
    assert_eq!(items.len(), 4);
    assert_eq!(items[0].as_boolean(), Some(true));
    assert_eq!(items[1].as_number().unwrap().as_str(), "1");
    assert_eq!(items[2].as_str(), Some("x"));
    assert!(items[3].is_null());
    assert_eq!(items[3].force_as_array().len(), 1);
    assert!(Value::Array(vec![]).is_empty_array_or_object());
    assert!(!Value::Null.is_empty_array_or_object());
}

#[test]
fn take_leaves_null() {
    let mut v = Value::from(true);
    let t = v.take();
    assert_eq!(t, Value::Boolean(true));
    assert_eq!(v, Value::Null);
}

#[test]
fn mutable_accessors() {
    let mut v = Value::Boolean(false);
    *v.as_boolean_mut().unwrap() = true;
    assert_eq!(v, Value::Boolean(true));
    assert!(v.as_string_mut().is_none());
}

#[test]
fn integers_are_written_in_decimal() {
    assert_eq!(Value::from(255u8).compact_print().to_string(), "255");
    assert_eq!(Value::from(-12i32).compact_print().to_string(), "-12");
    assert_eq!(Value::from(0u64).compact_print().to_string(), "0");
    assert_eq!(
        Value::from(i64::MIN).compact_print().to_string(),
        "-9223372036854775808"
    );
}

#[test]
fn fragments_in_pre_order() {
    let v = parse(r#"{"a": [1]}"#);
    assert!(v.get_fragment(0).unwrap().is_object());
    assert!(v.get_fragment(1).unwrap().is_entry());
    assert!(v.get_fragment(2).unwrap().is_key());
    assert!(v.get_fragment(3).unwrap().is_array());
    assert!(v.get_fragment(4).unwrap().is_number());
    assert_eq!(v.get_fragment(5).err(), Some(0));
    assert_eq!(v.get_fragment(8).err(), Some(3));
    let t = v.traverse();
    assert_eq!(t.len(), 5);
    for (i, (j, _)) in t.iter().enumerate() {
        assert_eq!(i, *j);
    }
}

#[test]
fn volume_counts_values() {
    let v = parse(r#"{"a": [1, {"b": null}]}"#);
    assert_eq!(v.volume(), 5);
    assert_eq!(Value::Null.volume(), 1);
    assert_eq!(v.count(|_, f| f.is_key()), 2);
    assert_eq!(v.count(|i, _| i % 2 == 0), 5);
}

#[test]
fn code_map_volumes_count_fragments() {
    let (v, cm) = Value::parse_str(r#"[1, [2, 3], {"k": 4}]"#).unwrap();
    assert_eq!(cm.len(), v.traverse().len());
    assert_eq!(cm.get(0).unwrap().volume, cm.len());
    let items = v.as_array().unwrap().to_vec();
    let offsets: Vec<usize> = items.iter_mapped(&cm, 0).iter().map(|m| m.offset).collect();
    assert_eq!(offsets, vec![1, 2, 5]);
}

#[test]
fn code_map_object_offsets() {
    let (v, cm) = Value::parse_str(r#"{"a": [1, 2], "b": 3, "a": null}"#).unwrap();
    let o = v.as_object().unwrap();
    let offsets: Vec<(usize, usize, usize)> = o
        .iter_mapped(&cm, 0)
        .iter()
        .map(|m| (m.offset, m.value.key.offset, m.value.value.offset))
        .collect();
    assert_eq!(offsets, vec![(1, 2, 3), (6, 7, 8), (9, 10, 11)]);
    let a: Vec<usize> = o.get_mapped(&cm, 0, "a").iter().map(|m| m.offset).collect();
    assert_eq!(a, vec![3, 11]);
    assert_eq!(cm.get(3).unwrap().volume, 3);
}

#[test]
fn unordered_comparison() {
    let a = parse(r#"{"a": 0, "b": [1, {"c": 2, "d": 3}]}"#);
    let b = parse(r#"{"b": [1, {"d": 3, "c": 2}], "a": 0}"#);
    let c = parse(r#"{"b": [{"d": 3, "c": 2}, 1], "a": 0}"#);
    assert_ne!(a, b);
    assert_eq!(a.as_unordered(), b.as_unordered());
    assert_eq!(Unordered(a.clone()), Unordered(b));
    assert_ne!(a.as_unordered(), c.as_unordered());
    assert_eq!(a.as_unordered(), a.as_unordered());
}

#[test]
fn unordered_duplicate_keys() {
    let a = parse(r#"{"a": 0, "a": 1}"#);
    let b = parse(r#"{"a": 0, "a": 0}"#);
    assert_ne!(a.as_unordered(), b.as_unordered());
}

#[test]
fn unordered_symmetric_and_transitive() {
    let a = parse(r#"{"x": {"p": 1, "q": 2}, "y": [3]}"#);
    let b = parse(r#"{"y": [3], "x": {"q": 2, "p": 1}}"#);
    let c = parse(r#"{"x": {"p": 1, "q": 2}, "y": [3]}"#);
    assert_eq!(a.as_unordered(), b.as_unordered());
    assert_eq!(b.as_unordered(), a.as_unordered());
    assert_eq!(b.as_unordered(), c.as_unordered());
    assert_eq!(a.as_unordered(), c.as_unordered());
    let d = parse(r#"{"a": 0, "a": 1}"#);
    let e = parse(r#"{"a": 1, "a": 0}"#);
    assert_eq!(d.as_unordered(), e.as_unordered());
    assert_eq!(e.as_unordered(), d.as_unordered());
    let f = parse(r#"{"a": 0, "b": 0}"#);
    let g = parse(r#"{"a": 0, "a": 0}"#);
    assert_ne!(f.as_unordered(), g.as_unordered());
    assert_ne!(g.as_unordered(), f.as_unordered());
}

#[test]
fn sort_entries_by_key_then_value() {
    let mut v = parse(r#"{"b": 1, "a": 2, "a": 1, "c": [], "a": null}"#);
    v.as_object_mut().unwrap().sort();
    assert_eq!(
        v.compact_print().to_string(),
        r#"{"a":null,"a":1,"a":2,"b":1,"c":[]}"#
    );
}

#[test]
fn value_order() {
    assert!(Value::Null < Value::Boolean(false));
    assert!(Value::Boolean(false) < Value::Boolean(true));
    assert!(Value::from(10) < Value::from(9));
    assert!(Value::from("a") < Value::from("b"));
    assert!(Value::Array(vec![]) < Value::Object(Object::new()));
}

#[test]
fn conversions() {
    let cm = Value::parse_str("255").unwrap().1;
    assert_eq!(u8::try_from_json(&parse("255"), &cm).ok(), Some(255));
    match u8::try_from_json(&parse("256"), &cm) {
        Err(m) => {
            assert_eq!(m.offset, 0);
            assert!(matches!(m.value, TryIntoNumberError::OutOfBounds(_)));
        }
        Ok(_) => panic!(),
    }
    assert!(u8::try_from_json(&parse("1.5"), &cm).is_err());
    assert!(u8::try_from_json(&parse("-0"), &cm).is_err());
    assert_eq!(i8::try_from_json(&parse("-0"), &cm).ok(), Some(0));
    assert_eq!(i8::try_from_json(&parse("-128"), &cm).ok(), Some(-128));
    let cm_null = Value::parse_str("null").unwrap().1;
    match bool::try_from_json(&Value::Null, &cm_null) {
        Err(m) => assert_eq!(m.value.to_string(), "expected boolean, found null"),
        Ok(_) => panic!(),
    }
    assert_eq!(
        Option::<bool>::try_from_json(&Value::Null, &cm_null).ok(),
        Some(None)
    );
    let (arr, cm_arr) = Value::parse_str("[true, false]").unwrap();
    assert_eq!(
        Vec::<bool>::try_from_json(&arr, &cm_arr).ok(),
        Some(vec![true, false])
    );
    let (bad, cm_bad) = Value::parse_str("[true, 0]").unwrap();
    match Vec::<bool>::try_from_json(&bad, &cm_bad) {
        Err(m) => assert_eq!(m.offset, 2),
        Ok(_) => panic!(),
    }
}

#[test]
fn unexpected_text() {
    let e = Unexpected {
        expected: KindSet::single(Kind::Number) | KindSet::single(Kind::String),
        found: Kind::Array,
    };
    assert_eq!(e.to_string(), "expected number or string, found array");
    assert_eq!(NumberType::<u8>::default().to_string(), "NumberType");
    let m = TryIntoNumberError::<u8>::OutOfBounds(3).map(|x| x + 1);
    assert!(matches!(m, TryIntoNumberError::OutOfBounds(4)));
}

#[test]
fn key_equivalence() {
    assert!("a".equivalent(&"a".to_string()));
    assert!(!"a".equivalent(&"b".to_string()));
}

#[test]
fn object_get_or_insert_with() {
    let mut o = Object::new();
    o.push("a".into(), Value::Null);
    assert_eq!(*o.get_or_insert_with("a", || Value::Boolean(true)), Value::Null);
    assert_eq!(*o.get_or_insert_with("b", || Value::Boolean(true)), Value::Boolean(true));
    assert_eq!(o.len(), 2);
    assert!(o.capacity() >= 2);
}

#[test]
fn parse_slice_agrees_with_parse_str() {
    let s = r#"{"é": [1, "ü"]}"#;
    let (a, ca) = Value::parse_str(s).unwrap();
    let (b, cb) = Value::parse_slice(s.as_bytes()).unwrap();
    assert_eq!(a, b);
    assert_eq!(ca.len(), cb.len());
    assert!(Value::parse_slice(b"[\"\xff\"]").is_err());
}

struct Bag(Vec<u8>);

impl UnorderedHash for Bag {
    fn unordered_hash<H: std::hash::Hasher>(&self, state: &mut H) {
        let mut sorted = self.0.clone();
        sorted.sort();
        state.write(&sorted);
    }
}

#[test]
fn unordered_hash_goes_through_the_trait() {
    let digest = |b: Bag| {
        let mut h = std::collections::hash_map::DefaultHasher::new();
        Unordered(b).hash(&mut h);
        h.finish()
    };
    assert_eq!(digest(Bag(vec![3, 1, 2])), digest(Bag(vec![2, 3, 1])));
}

#[test]
fn printed_values_parse_back() {
    let v = parse(r#"{"a": [1, -2.5e3, "x\"y\\z\n\u0001"], "b": {}, "c": [], "d": null, "a": true}"#);
    let text = v.compact_print().to_string();
    assert_eq!(
        text,
        r#"{"a":[1,-2.5e3,"x\"y\\z\n\u0001"],"b":{},"c":[],"d":null,"a":true}"#
    );
    assert_eq!(v.to_string(), text);
    let (w, _) = Value::parse_str(&text).unwrap();
    assert_eq!(w, v);
    let (p, _) = Value::parse_str(&v.pretty_print().to_string()).unwrap();
    assert_eq!(p, v);
    let (i, _) = Value::parse_str(&v.inline_print().to_string()).unwrap();
    assert_eq!(i, v);
}

#[test]
fn value_order_is_total() {
    let a = parse(r#"[1, {"a": 0}]"#);
    let b = parse(r#"[1, {"a": 1}]"#);
    let c = parse(r#"[1, {"b": 0}]"#);
    assert_eq!(a.partial_cmp(&b), Some(std::cmp::Ordering::Less));
    assert_eq!(b.partial_cmp(&c), Some(std::cmp::Ordering::Less));
    assert_eq!(a.partial_cmp(&c), Some(std::cmp::Ordering::Less));
    assert_eq!(c.partial_cmp(&a), Some(std::cmp::Ordering::Greater));
    assert_eq!(a.partial_cmp(&a.clone()), Some(std::cmp::Ordering::Equal));
    assert_eq!(parse("null").partial_cmp(&parse("false")), Some(std::cmp::Ordering::Less));
    let o1 = parse(r#"{"a": 0, "b": 1}"#);
    let o2 = parse(r#"{"a": 0, "c": 0}"#);
    assert_eq!(
        o1.as_object().unwrap().partial_cmp(o2.as_object().unwrap()),
        Some(std::cmp::Ordering::Less)
    );
    assert!(o2.as_object().unwrap() > o1.as_object().unwrap());
}

#[test]
fn code_map_spans_lie_within_the_input() {
    let input = "{\"é\": [1, \"ü\", {\"k\": null}], \"z\": true}";
    let (_, cm) = Value::parse_str(input).unwrap();
    for i in 0..cm.len() {
        let e = cm.get(i).unwrap();
        assert!(e.span.start <= e.span.end && e.span.end <= input.len());
    }
    assert_eq!(cm.get(0).unwrap().span.end, input.len());
}

#[test]
fn value_from_str() {
    let v: Value = "[true, {\"a\": null}]".parse().unwrap();
    assert_eq!(v, parse("[true, {\"a\": null}]"));
    let e = "[1,".parse::<Value>().unwrap_err();
    assert_eq!(e.position(), 3);
}

#[test]
fn equal_values_hash_alike() {
    let digest = |v: &Value| {
        let mut h = std::collections::hash_map::DefaultHasher::new();
        v.hash(&mut h);
        h.finish()
    };
    let a = parse(r#"{"a": [1, "x"], "b": null}"#);
    assert_eq!(digest(&a), digest(&a.clone()));
    assert_ne!(digest(&a), digest(&parse(r#"{"b": null, "a": [1, "x"]}"#)));
}

#[test]
fn generic_conversions_hand_items_to_the_item_type() {
    let (v, cm) = Value::parse_str("[]").unwrap();
    assert_eq!(Vec::<bool>::try_from_json(&v, &cm).unwrap(), Vec::<bool>::new());
    let (v, cm) = Value::parse_str("[true, [1], false]").unwrap();
    let e = Vec::<bool>::try_from_json(&v, &cm).unwrap_err();
    assert_eq!(e.offset, 2);
    assert_eq!(e.value.to_string(), "expected boolean, found array");
    let (v, cm) = Value::parse_str("1").unwrap();
    assert_eq!(Option::<bool>::try_from_json(&v, &cm).unwrap_err().offset, 0);
    let (v, cm) = Value::parse_str("true").unwrap();
    assert_eq!(*Box::<bool>::try_from_json(&v, &cm).unwrap(), true);
    assert_eq!(Option::<bool>::try_from_json(&v, &cm).unwrap(), Some(true));
}
