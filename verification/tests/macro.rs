use json_syntax::object::Entry;
use json_syntax::{Object, Value};

fn obj(entries: Vec<(&str, Value)>) -> Value {
    let mut o = Object::new();
    for (k, v) in entries {
        o.push(k.to_string(), v);
    }
    Value::Object(o)
}

#[test]
fn macro_01() {
    let value = Value::Null;
    assert_eq!(value, Value::Null)
}

#[test]
fn macro_02() {
    let value = Value::from(true);
    assert_eq!(value, Value::Boolean(true))
}

#[test]
fn macro_03() {
    let value = Value::from(false);
    assert_eq!(value, Value::Boolean(false))
}

#[test]
fn macro_04() {
    let value = Value::from(Vec::<Value>::new());
    assert_eq!(value, Value::Array(vec![]))
}

#[test]
fn macro_05() {
    let value = Value::from(Object::new());
    assert_eq!(value, Value::Object(Object::default()))
}

#[test]
fn macro_06() {
    let value = Value::from(vec![Value::Null]);
    assert_eq!(value, Value::Array(vec![Value::Null]))
}

#[test]
fn macro_07() {
    let value = obj(vec![("foo", Value::Null)]);
    assert_eq!(
        value,
        Value::Object(vec![Entry::new("foo".into(), Value::Null)].into())
    )
}

#[test]
fn macro_08() {
    let item = Value::Null;
    let value = Value::Array(vec![item]);
    assert_eq!(value, Value::Array(vec![Value::Null]))
}

#[test]
fn macro_09() {
    let value = Value::from(vec![
        Value::from(vec![Value::Null]),
        Value::from(true),
        Value::from(false),
    ]);
    assert_eq!(
        value,
        Value::Array(vec![
            Value::Array(vec![Value::Null]),
            Value::Boolean(true),
            Value::Boolean(false)
        ])
    )
}

#[test]
fn macro_10() {
    let value = obj(vec![("a", Value::from(true)), ("b", Value::from(false))]);
    assert_eq!(
        value,
        Value::Object(Object::from_vec(vec![
            Entry::new("a".into(), Value::Boolean(true)),
            Entry::new("b".into(), Value::Boolean(false))
        ]))
    )
}

#[test]
fn macro_11() {
    let key = String::from("a");
    let t = Value::from(true);
    let value = obj(vec![(key.as_str(), t), ("b", Value::from(false))]);
    assert_eq!(
        value,
        Value::Object(Object::from_vec(vec![
            Entry::new("a".into(), Value::Boolean(true)),
            Entry::new("b".into(), Value::Boolean(false))
        ]))
    )
}

#[test]
fn macro_12() {
    let keys = [String::from("a"), String::from("c")];
    let values = [Value::from(true), Value::from(false)];
    let value = obj(vec![
        (keys[0].as_str(), values[0].clone()),
        ("b", Value::Object(Object::new())),
        (keys[1].as_str(), values[1].clone()),
    ]);
    assert_eq!(
        value,
        Value::Object(Object::from_vec(vec![
            Entry::new("a".into(), Value::Boolean(true)),
            Entry::new("b".into(), Value::Object(Object::default())),
            Entry::new("c".into(), Value::Boolean(false))
        ]))
    )
}

#[test]
fn macro_13() {
    let keys = [String::from("a"), String::from("c")];
    let values = [Value::from(true), Value::from(false)];
    let value = obj(vec![
        (keys[0].as_str(), values[0].clone()),
        (("b"), Value::Object(Object::new())),
        (keys[1].as_str(), values[1].clone()),
    ]);
    assert_eq!(
        value,
        Value::Object(Object::from_vec(vec![
            Entry::new("a".into(), Value::Boolean(true)),
            Entry::new("b".into(), Value::Object(Object::default())),
            Entry::new("c".into(), Value::Boolean(false))
        ]))
    )
}
