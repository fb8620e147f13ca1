use json_syntax::object::index_map::IndexMap;
use json_syntax::object::Entry;
use json_syntax::{BorrowUnordered, Object, Parse, UnorderedPartialEq, Value};

#[test]
fn mod_remove() {
    let mut object = Object::new();
    object.insert("a".into(), Value::Null);

    object.remove("a");
    object.remove("a");
}

#[test]
fn object_remove() {
    let mut object = Object::new();
    object.insert("a".into(), Value::Null);

    object.remove("a");
    object.remove("a");
}

#[test]
fn insert_front1() {
    let mut a = Object::new();
    a.push("a".into(), Value::Null);
    a.push("b".into(), Value::Null);
    a.push("c".into(), Value::Null);
    a.insert_front("b".into(), Value::Null);

    let mut b = Object::new();
    b.push("b".into(), Value::Null);
    b.push("a".into(), Value::Null);
    b.push("c".into(), Value::Null);

    assert_eq!(a, b);
}

#[test]
fn insert_front2() {
    let mut a = Object::new();
    a.push("a".into(), Value::Null);
    a.push("a".into(), Value::Null);
    a.push("c".into(), Value::Null);
    a.insert_front("a".into(), Value::Null);

    let mut b = Object::new();
    b.push("a".into(), Value::Null);
    b.push("c".into(), Value::Null);

    assert_eq!(a, b);
}

fn three_entries() -> [Entry; 3] {
    [
        Entry::new("a".into(), Value::Null),
        Entry::new("b".into(), Value::Null),
        Entry::new("a".into(), Value::Null),
    ]
}

#[test]
fn insert() {
    let entries = three_entries();

    let mut indexes: IndexMap = IndexMap::new();
    indexes.insert(&entries[2].key, 2);
    indexes.insert(&entries[1].key, 1);
    indexes.insert(&entries[0].key, 0);

    let a = indexes.get("a").unwrap().iter();
    let b = indexes.get("b").unwrap().iter();

    assert_eq!(a, vec![0, 2]);
    assert_eq!(b, vec![1]);
    assert_eq!(indexes.get("c"), None)
}

#[test]
fn remove1() {
    let entries = three_entries();

    let mut indexes: IndexMap = IndexMap::new();
    indexes.insert(&entries[2].key, 2);
    indexes.insert(&entries[1].key, 1);
    indexes.insert(&entries[0].key, 0);

    indexes.remove(&entries[1].key, 1);
    indexes.remove(&entries[0].key, 0);

    let a = indexes.get("a").unwrap().iter();

    assert_eq!(a, vec![2]);
    assert_eq!(indexes.get("b"), None)
}

#[test]
fn remove2() {
    let entries = three_entries();

    let mut indexes: IndexMap = IndexMap::new();
    indexes.insert(&entries[2].key, 2);
    indexes.insert(&entries[1].key, 1);
    indexes.insert(&entries[0].key, 0);

    indexes.remove(&entries[0].key, 0);
    indexes.remove(&entries[1].key, 1);
    indexes.remove(&entries[2].key, 2);

    assert_eq!(indexes.get("a"), None);
    assert_eq!(indexes.get("b"), None)
}

#[test]
fn unordered_eq1() {
    let mut a = Object::new();
    a.push("a".into(), Value::Null);
    a.push("b".into(), Value::Null);

    let mut b = Object::new();
    b.push("b".into(), Value::Null);
    b.push("a".into(), Value::Null);

    assert_ne!(a, b);
    assert_eq!(a.as_unordered(), b.as_unordered())
}

#[test]
fn unordered_eq2() {
    let mut a = Object::new();
    a.push("a".into(), Value::Null);
    a.push("a".into(), Value::Null);

    let mut b = Object::new();
    b.push("a".into(), Value::Null);
    b.push("a".into(), Value::Null);

    assert_eq!(a, b);
    assert_eq!(a.as_unordered(), b.as_unordered())
}

#[test]
fn mapped_entries() {
    let (json, code_map) =
        Value::parse_str(r#"{ "0": [null, null], "1": { "foo": 0, "bar": 1 }, "0": null }"#)
            .unwrap();
    let object = json.into_object().unwrap();

    let offsets: Vec<_> = object
        .get_mapped_entries(&code_map, 0, "0")
        .into_iter()
        .map(|e| (e.offset, e.value.key.offset, e.value.value.offset))
        .collect();

    assert_eq!(offsets, [(1, 2, 3), (15, 16, 17)]);

    let offsets: Vec<_> = object
        .get_mapped_entries(&code_map, 0, "1")
        .into_iter()
        .map(|e| (e.offset, e.value.key.offset, e.value.value.offset))
        .collect();

    assert_eq!(offsets, [(6, 7, 8)]);

    let offsets: Vec<_> = object
        .iter_mapped(&code_map, 0)
        .into_iter()
        .map(|e| (e.offset, e.value.key.offset, e.value.value.offset))
        .collect();

    assert_eq!(offsets, [(1, 2, 3), (6, 7, 8), (15, 16, 17)]);
}

#[test]
fn unordered_eq_counts_duplicates() {
    let mut a = Object::new();
    a.push("a".into(), Value::Null);
    a.push("a".into(), Value::Null);
    a.push("a".into(), Value::Boolean(true));
    let mut b = Object::new();
    b.push("a".into(), Value::Null);
    b.push("a".into(), Value::Boolean(true));
    b.push("a".into(), Value::Boolean(true));
    assert!(!a.unordered_eq(&b));
    assert!(!b.unordered_eq(&a));
    let mut c = Object::new();
    c.push("a".into(), Value::Boolean(true));
    c.push("a".into(), Value::Null);
    c.push("a".into(), Value::Null);
    assert!(a.unordered_eq(&c));
    assert!(c.unordered_eq(&a));
}

#[test]
fn duplicate_keys_are_found() {
    let mut map = IndexMap::new();
    map.insert(&"a".to_string(), 0);
    map.insert(&"b".to_string(), 1);
    assert!(!map.contains_duplicate_keys());
    map.insert(&"a".to_string(), 2);
    assert!(map.contains_duplicate_keys());
}
