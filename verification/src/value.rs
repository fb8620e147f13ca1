//! JSON values.
use vstd::prelude::*;
use vstd::std_specs::cmp::PartialEqSpecImpl;
use vstd::std_specs::convert::FromSpecImpl;
use crate::number::{NumberBuf, integer_text};
use crate::object::{Object, Entry, object_clone};
use crate::kind::Kind;

verus! {

/// Mathematical model of a JSON value.
pub enum JValue {
    Null,
    Boolean(bool),
    Number(Seq<char>),
    String(Seq<char>),
    Array(Seq<JValue>),
    Object(Seq<(Seq<char>, JValue)>),
}

/// JSON value.
#[derive(Debug, Hash)]
pub enum Value {
    Null,
    Boolean(bool),
    Number(NumberBuf),
    String(String),
    Array(Vec<Value>),
    Object(Object),
}

impl Value {
    pub open(crate) spec fn view_json(self) -> JValue
        decreases self,
    {
        match self {
            Value::Null => JValue::Null,
            Value::Boolean(b) => JValue::Boolean(b),
            Value::Number(n) => JValue::Number(n@),
            Value::String(s) => JValue::String(s@),
            Value::Array(a) => JValue::Array(values_view(a@)),
            Value::Object(o) => JValue::Object(entries_view(o.entries@)),
        }
    }
}

pub open(crate) spec fn values_view(s: Seq<Value>) -> Seq<JValue>
    decreases s,
{
    if s.len() == 0 {
        Seq::empty()
    } else {
        values_view(s.drop_last()).push(s.last().view_json())
    }
}

pub open(crate) spec fn entries_view(s: Seq<Entry>) -> Seq<(Seq<char>, JValue)>
    decreases s,
{
    if s.len() == 0 {
        Seq::empty()
    } else {
        entries_view(s.drop_last()).push((s.last().key@, s.last().value.view_json()))
    }
}

pub proof fn lemma_values_view_push(s: Seq<Value>, v: Value)
    ensures
        values_view(s.push(v)) == values_view(s).push(v.view_json()),
{
    assert(s.push(v).drop_last() =~= s);
}

pub proof fn lemma_entries_view_push(s: Seq<Entry>, e: Entry)
    ensures
        entries_view(s.push(e)) == entries_view(s).push((e.key@, e.value.view_json())),
{
    assert(s.push(e).drop_last() =~= s);
}

pub proof fn lemma_values_view_len(s: Seq<Value>)
    ensures
        values_view(s).len() == s.len(),
    decreases s.len(),
{
    if s.len() > 0 {
        lemma_values_view_len(s.drop_last());
    }
}

/// The model of a sequence of values is the sequence of their models.
pub proof fn lemma_values_view(s: Seq<Value>)
    ensures
        values_view(s).len() == s.len(),
        forall|i: int| 0 <= i < s.len() ==> #[trigger] values_view(s)[i] == s[i].view_json(),
    decreases s.len(),
{
    if s.len() > 0 {
        lemma_values_view(s.drop_last());
    }
}

/// The model of a sequence of entries is the sequence of their models.
pub proof fn lemma_entries_view(s: Seq<Entry>)
    ensures
        entries_view(s).len() == s.len(),
        forall|i: int|
            0 <= i < s.len() ==> #[trigger] entries_view(s)[i] == (s[i].key@, s[i].value.view_json()),
    decreases s.len(),
{
    if s.len() > 0 {
        lemma_entries_view(s.drop_last());
    }
}

/// The kind of the model value `v`.
pub open spec fn jkind(v: JValue) -> Kind {
    match v {
        JValue::Null => Kind::Null,
        JValue::Boolean(_) => Kind::Boolean,
        JValue::Number(_) => Kind::Number,
        JValue::String(_) => Kind::String,
        JValue::Array(_) => Kind::Array,
        JValue::Object(_) => Kind::Object,
    }
}

/// Each kind is the kind of exactly the values of its variant: null of
/// `null`, `Boolean` of booleans, `Number` of numbers, `String` of
/// strings, `Array` of arrays and `Object` of objects.
pub proof fn lemma_kind_of_variant(v: JValue)
    ensures
        (jkind(v) == Kind::Null) == (v is Null),
        (jkind(v) == Kind::Boolean) == (v is Boolean),
        (jkind(v) == Kind::Number) == (v is Number),
        (jkind(v) == Kind::String) == (v is String),
        (jkind(v) == Kind::Array) == (v is Array),
        (jkind(v) == Kind::Object) == (v is Object),
{
}

/// `v` is an empty array or an empty object.
pub open spec fn is_empty_array_or_object(v: JValue) -> bool {
    match v {
        JValue::Array(a) => a.len() == 0,
        JValue::Object(o) => o.len() == 0,
        _ => false,
    }
}

/// `core::slice::from_ref`: the slice of length one that holds `v`.
#[verifier::external_body]
fn slice_of_one(v: &Value) -> (r: &[Value])
    ensures
        r@ == seq![*v],
{
    core::slice::from_ref(v)
}

impl Value {
    pub fn kind(&self) -> (r: Kind)
        ensures
            r == jkind(self.view_json()),
    {
        match self {
            Value::Null => Kind::Null,
            Value::Boolean(_) => Kind::Boolean,
            Value::Number(_) => Kind::Number,
            Value::String(_) => Kind::String,
            Value::Array(_) => Kind::Array,
            Value::Object(_) => Kind::Object,
        }
    }

    pub fn is_kind(&self, kind: Kind) -> (r: bool)
        ensures
            r == (jkind(self.view_json()) == kind),
    {
        self.kind() == kind
    }

    pub fn is_null(&self) -> (r: bool)
        ensures
            r == (self.view_json() is Null),
    {
        match self {
            Value::Null => true,
            _ => false,
        }
    }

    pub fn is_boolean(&self) -> (r: bool)
        ensures
            r == (self.view_json() is Boolean),
    {
        match self {
            Value::Boolean(_) => true,
            _ => false,
        }
    }

    pub fn is_number(&self) -> (r: bool)
        ensures
            r == (self.view_json() is Number),
    {
        match self {
            Value::Number(_) => true,
            _ => false,
        }
    }

    pub fn is_string(&self) -> (r: bool)
        ensures
            r == (self.view_json() is String),
    {
        match self {
            Value::String(_) => true,
            _ => false,
        }
    }

    pub fn is_array(&self) -> (r: bool)
        ensures
            r == (self.view_json() is Array),
    {
        match self {
            Value::Array(_) => true,
            _ => false,
        }
    }

    pub fn is_object(&self) -> (r: bool)
        ensures
            r == (self.view_json() is Object),
    {
        match self {
            Value::Object(_) => true,
            _ => false,
        }
    }

    /// Checks if the value is either an empty array or an empty object.
    pub fn is_empty_array_or_object(&self) -> (r: bool)
        ensures
            r == is_empty_array_or_object(self.view_json()),
    {
        match self {
            Value::Array(a) => {
                proof {
                    lemma_values_view(a@);
                }
                a.len() == 0
            },
            Value::Object(o) => {
                proof {
                    o.lemma_view();
                    lemma_entries_view(o@);
                }
                o.is_empty()
            },
            _ => false,
        }
    }

    pub fn as_boolean(&self) -> (r: Option<bool>)
        ensures
            r == (match self.view_json() {
                JValue::Boolean(b) => Some(b),
                _ => None,
            }),
    {
        match self {
            Value::Boolean(b) => Some(*b),
            _ => None,
        }
    }

    pub fn as_boolean_mut(&mut self) -> (r: Option<&mut bool>)
        ensures
            r is Some <==> *old(self) is Boolean,
            r matches Some(b) ==> *old(self) == Value::Boolean(*b) && *final(self) == Value::Boolean(
                *final(b),
            ),
            r is None ==> *final(self) == *old(self),
    {
        match self {
            Value::Boolean(b) => Some(b),
            _ => None,
        }
    }

    pub fn as_number(&self) -> (r: Option<&NumberBuf>)
        ensures
            r is Some <==> self.view_json() is Number,
            r matches Some(n) ==> self.view_json() == JValue::Number(n@),
    {
        match self {
            Value::Number(n) => Some(n),
            _ => None,
        }
    }

    pub fn as_number_mut(&mut self) -> (r: Option<&mut NumberBuf>)
        ensures
            r is Some <==> *old(self) is Number,
            r matches Some(n) ==> *old(self) == Value::Number(*n) && *final(self) == Value::Number(
                *final(n),
            ),
            r is None ==> *final(self) == *old(self),
    {
        match self {
            Value::Number(n) => Some(n),
            _ => None,
        }
    }

    pub fn as_string_mut(&mut self) -> (r: Option<&mut String>)
        ensures
            r is Some <==> *old(self) is String,
            r matches Some(s) ==> *old(self) == Value::String(*s) && *final(self) == Value::String(
                *final(s),
            ),
            r is None ==> *final(self) == *old(self),
    {
        match self {
            Value::String(s) => Some(s),
            _ => None,
        }
    }

    pub fn as_array_mut(&mut self) -> (r: Option<&mut Vec<Value>>)
        ensures
            r is Some <==> *old(self) is Array,
            r matches Some(a) ==> *old(self) == Value::Array(*a) && *final(self) == Value::Array(
                *final(a),
            ),
            r is None ==> *final(self) == *old(self),
    {
        match self {
            Value::Array(a) => Some(a),
            _ => None,
        }
    }

    pub fn as_object_mut(&mut self) -> (r: Option<&mut Object>)
        ensures
            r is Some <==> *old(self) is Object,
            r matches Some(o) ==> *old(self) == Value::Object(*o) && *final(self) == Value::Object(
                *final(o),
            ),
            r is None ==> *final(self) == *old(self),
    {
        match self {
            Value::Object(o) => Some(o),
            _ => None,
        }
    }

    pub fn as_string(&self) -> (r: Option<&str>)
        ensures
            r is Some <==> self.view_json() is String,
            r matches Some(s) ==> self.view_json() == JValue::String(s@),
    {
        match self {
            Value::String(s) => Some(s.as_str()),
            _ => None,
        }
    }

    /// Alias for `as_string`.
    pub fn as_str(&self) -> (r: Option<&str>)
        ensures
            r is Some <==> self.view_json() is String,
            r matches Some(s) ==> self.view_json() == JValue::String(s@),
    {
        self.as_string()
    }

    pub fn as_array(&self) -> (r: Option<&[Value]>)
        ensures
            r is Some <==> self.view_json() is Array,
            r matches Some(a) ==> self.view_json() == JValue::Array(values_view(a@)),
    {
        match self {
            Value::Array(a) => Some(a.as_slice()),
            _ => None,
        }
    }

    /// The value as an array, even if it is not one: the items of an
    /// array, or a slice with the value as its only item.
    pub fn force_as_array(&self) -> (r: &[Value])
        ensures
            self.view_json() is Array ==> JValue::Array(values_view(r@)) == self.view_json(),
            !(self.view_json() is Array) ==> r@ == seq![*self],
    {
        match self {
            Value::Array(a) => a.as_slice(),
            other => slice_of_one(other),
        }
    }

    pub fn as_object(&self) -> (r: Option<&Object>)
        ensures
            r is Some <==> self.view_json() is Object,
            r matches Some(o) ==> *self == Value::Object(*o),
    {
        match self {
            Value::Object(o) => Some(o),
            _ => None,
        }
    }

    pub fn into_boolean(self) -> (r: Option<bool>)
        ensures
            r == (match self {
                Value::Boolean(b) => Some(b),
                _ => None,
            }),
    {
        match self {
            Value::Boolean(b) => Some(b),
            _ => None,
        }
    }

    pub fn into_number(self) -> (r: Option<NumberBuf>)
        ensures
            r == (match self {
                Value::Number(n) => Some(n),
                _ => None,
            }),
    {
        match self {
            Value::Number(n) => Some(n),
            _ => None,
        }
    }

    pub fn into_string(self) -> (r: Option<String>)
        ensures
            r == (match self {
                Value::String(s) => Some(s),
                _ => None,
            }),
    {
        match self {
            Value::String(s) => Some(s),
            _ => None,
        }
    }

    pub fn into_array(self) -> (r: Option<Vec<Value>>)
        ensures
            r == (match self {
                Value::Array(a) => Some(a),
                _ => None,
            }),
    {
        match self {
            Value::Array(a) => Some(a),
            _ => None,
        }
    }

    pub fn into_object(self) -> (r: Option<Object>)
        ensures
            r == (match self {
                Value::Object(o) => Some(o),
                _ => None,
            }),
    {
        match self {
            Value::Object(o) => Some(o),
            _ => None,
        }
    }

    /// Moves the value out and returns it, leaving `null` in its place.
    pub fn take(&mut self) -> (r: Value)
        ensures
            r == *old(self),
            *final(self) == Value::Null,
    {
        let mut result = Value::Null;
        std::mem::swap(&mut result, self);
        result
    }
}

/// Compares two values: equal when their models are.
pub fn value_eq(a: &Value, b: &Value) -> (r: bool)
    ensures
        r == (a.view_json() == b.view_json()),
    decreases a, 1int,
{
    match a {
        Value::Null => match b {
            Value::Null => true,
            _ => false,
        },
        Value::Boolean(x) => match b {
            Value::Boolean(y) => *x == *y,
            _ => false,
        },
        Value::Number(x) => match b {
            Value::Number(y) => *x == *y,
            _ => false,
        },
        Value::String(x) => match b {
            Value::String(y) => *x == *y,
            _ => false,
        },
        Value::Array(x) => match b {
            Value::Array(y) => {
                proof {
                    assert(decreases_to!(a => x));
                }
                items_eq(x, y)
            },
            _ => false,
        },
        Value::Object(x) => match b {
            Value::Object(y) => {
                proof {
                    assert(decreases_to!(a => x));
                    assert(decreases_to!(x => x.entries));
                    x.lemma_view();
                    y.lemma_view();
                }
                entries_eq(&x.entries, &y.entries)
            },
            _ => false,
        },
    }
}

/// Compares two sequences of values, item by item.
pub fn items_eq(x: &Vec<Value>, y: &Vec<Value>) -> (r: bool)
    ensures
        r == (values_view(x@) == values_view(y@)),
    decreases x, 0int,
{
    proof {
        lemma_values_view(x@);
        lemma_values_view(y@);
    }
    if x.len() != y.len() {
        return false;
    }
    let mut i: usize = 0;
    while i < x.len()
        invariant
            x@.len() == y@.len(),
            i <= x@.len(),
            values_view(x@).len() == x@.len(),
            values_view(y@).len() == y@.len(),
            forall|j: int| 0 <= j < x@.len() ==> #[trigger] values_view(x@)[j] == x@[j].view_json(),
            forall|j: int| 0 <= j < y@.len() ==> #[trigger] values_view(y@)[j] == y@[j].view_json(),
            forall|j: int| 0 <= j < i ==> #[trigger] x@[j].view_json() == y@[j].view_json(),
        decreases x@.len() - i,
    {
        proof {
            assert(decreases_to!(x => x@));
            assert(decreases_to!(x@ => x@[i as int]));
        }
        if !value_eq(&x[i], &y[i]) {
            proof {
                assert(values_view(x@)[i as int] != values_view(y@)[i as int]);
            }
            return false;
        }
        i = i + 1;
    }
    proof {
        assert(values_view(x@) =~= values_view(y@));
    }
    true
}

/// Compares two sequences of entries, entry by entry.
pub fn entries_eq(x: &Vec<Entry>, y: &Vec<Entry>) -> (r: bool)
    ensures
        r == (entries_view(x@) == entries_view(y@)),
    decreases x, 0int,
{
    proof {
        lemma_entries_view(x@);
        lemma_entries_view(y@);
    }
    if x.len() != y.len() {
        return false;
    }
    let mut i: usize = 0;
    while i < x.len()
        invariant
            x@.len() == y@.len(),
            i <= x@.len(),
            entries_view(x@).len() == x@.len(),
            entries_view(y@).len() == y@.len(),
            forall|j: int|
                0 <= j < x@.len() ==> #[trigger] entries_view(x@)[j] == (
                    x@[j].key@,
                    x@[j].value.view_json(),
                ),
            forall|j: int|
                0 <= j < y@.len() ==> #[trigger] entries_view(y@)[j] == (
                    y@[j].key@,
                    y@[j].value.view_json(),
                ),
            forall|j: int|
                0 <= j < i ==> #[trigger] entries_view(x@)[j] == entries_view(y@)[j],
        decreases x@.len() - i,
    {
        proof {
            assert(decreases_to!(x => x@));
            assert(decreases_to!(x@ => x@[i as int]));
            assert(decreases_to!(x@[i as int] => x@[i as int].value));
        }
        let same_key = x[i].key == y[i].key;
        if !same_key || !value_eq(&x[i].value, &y[i].value) {
            proof {
                assert(entries_view(x@)[i as int] != entries_view(y@)[i as int]);
            }
            return false;
        }
        i = i + 1;
    }
    proof {
        assert(entries_view(x@) =~= entries_view(y@));
    }
    true
}

impl PartialEq for Value {
    fn eq(&self, other: &Value) -> (r: bool) {
        value_eq(self, other)
    }
}

impl Eq for Value {}

impl PartialEqSpecImpl for Value {
    open spec fn obeys_eq_spec() -> bool {
        true
    }

    open spec fn eq_spec(&self, other: &Value) -> bool {
        self.view_json() == other.view_json()
    }
}

/// A copy of the value `a`, with the same model.
pub fn value_clone(a: &Value) -> (r: Value)
    ensures
        r.view_json() == a.view_json(),
    decreases a, 2int,
{
    match a {
        Value::Null => Value::Null,
        Value::Boolean(b) => Value::Boolean(*b),
        Value::Number(n) => Value::Number(n.clone()),
        Value::String(s) => Value::String(s.clone()),
        Value::Array(x) => {
            proof {
                assert(decreases_to!(a => x));
            }
            Value::Array(items_clone(x))
        },
        Value::Object(o) => {
            proof {
                assert(decreases_to!(a => o));
            }
            Value::Object(object_clone(o))
        },
    }
}

/// A copy of the items `x`, with the same model.
pub fn items_clone(x: &Vec<Value>) -> (r: Vec<Value>)
    ensures
        values_view(r@) == values_view(x@),
    decreases x, 0int,
{
    let mut r: Vec<Value> = Vec::new();
    let mut i: usize = 0;
    while i < x.len()
        invariant
            i <= x@.len(),
            r@.len() == i,
            forall|j: int| 0 <= j < i ==> #[trigger] r@[j].view_json() == x@[j].view_json(),
        decreases x@.len() - i,
    {
        proof {
            assert(decreases_to!(x => x@));
            assert(decreases_to!(x@ => x@[i as int]));
        }
        let v = value_clone(&x[i]);
        r.push(v);
        i = i + 1;
    }
    proof {
        lemma_values_view(r@);
        lemma_values_view(x@);
        assert(values_view(r@) =~= values_view(x@));
    }
    r
}

impl Clone for Value {
    fn clone(&self) -> (r: Value)
        ensures
            r.view_json() == self.view_json(),
    {
        value_clone(self)
    }
}

impl From<bool> for Value {
    fn from(b: bool) -> (r: Value) {
        Value::Boolean(b)
    }
}

impl FromSpecImpl<bool> for Value {
    open spec fn obeys_from_spec() -> bool {
        true
    }

    open spec fn from_spec(b: bool) -> Value {
        Value::Boolean(b)
    }
}

impl From<NumberBuf> for Value {
    fn from(n: NumberBuf) -> (r: Value) {
        Value::Number(n)
    }
}

impl FromSpecImpl<NumberBuf> for Value {
    open spec fn obeys_from_spec() -> bool {
        true
    }

    open spec fn from_spec(n: NumberBuf) -> Value {
        Value::Number(n)
    }
}

impl From<String> for Value {
    fn from(s: String) -> (r: Value) {
        Value::String(s)
    }
}

impl FromSpecImpl<String> for Value {
    open spec fn obeys_from_spec() -> bool {
        true
    }

    open spec fn from_spec(s: String) -> Value {
        Value::String(s)
    }
}

impl From<Vec<Value>> for Value {
    fn from(a: Vec<Value>) -> (r: Value) {
        Value::Array(a)
    }
}

impl FromSpecImpl<Vec<Value>> for Value {
    open spec fn obeys_from_spec() -> bool {
        true
    }

    open spec fn from_spec(a: Vec<Value>) -> Value {
        Value::Array(a)
    }
}

impl From<Object> for Value {
    fn from(o: Object) -> (r: Value) {
        Value::Object(o)
    }
}

impl FromSpecImpl<Object> for Value {
    open spec fn obeys_from_spec() -> bool {
        true
    }

    open spec fn from_spec(o: Object) -> Value {
        Value::Object(o)
    }
}

impl<'s> From<&'s str> for Value {
    /// A string value with the characters of `s`.
    fn from(s: &'s str) -> (r: Value)
        ensures
            r.view_json() == JValue::String(s@),
    {
        Value::String(s.to_owned())
    }
}

impl<'s> FromSpecImpl<&'s str> for Value {
    /// The string that the result holds is a new one: `from`'s own `ensures`
    /// says what it is.
    open spec fn obeys_from_spec() -> bool {
        false
    }

    open spec fn from_spec(s: &'s str) -> Value {
        vstd::pervasive::arbitrary()
    }
}

impl From<u8> for Value {
    /// The number that writes `n` in decimal.
    fn from(n: u8) -> (r: Value)
        ensures
            r.view_json() == JValue::Number(integer_text(n as int)),
    {
        Value::Number(NumberBuf::from_u64(n as u64))
    }
}

impl FromSpecImpl<u8> for Value {
    /// The number is a new one: `from`'s own `ensures` says what it is.
    open spec fn obeys_from_spec() -> bool {
        false
    }

    open spec fn from_spec(n: u8) -> Value {
        vstd::pervasive::arbitrary()
    }
}

impl From<u16> for Value {
    /// The number that writes `n` in decimal.
    fn from(n: u16) -> (r: Value)
        ensures
            r.view_json() == JValue::Number(integer_text(n as int)),
    {
        Value::Number(NumberBuf::from_u64(n as u64))
    }
}

impl FromSpecImpl<u16> for Value {
    /// The number is a new one: `from`'s own `ensures` says what it is.
    open spec fn obeys_from_spec() -> bool {
        false
    }

    open spec fn from_spec(n: u16) -> Value {
        vstd::pervasive::arbitrary()
    }
}

impl From<u32> for Value {
    /// The number that writes `n` in decimal.
    fn from(n: u32) -> (r: Value)
        ensures
            r.view_json() == JValue::Number(integer_text(n as int)),
    {
        Value::Number(NumberBuf::from_u64(n as u64))
    }
}

impl FromSpecImpl<u32> for Value {
    /// The number is a new one: `from`'s own `ensures` says what it is.
    open spec fn obeys_from_spec() -> bool {
        false
    }

    open spec fn from_spec(n: u32) -> Value {
        vstd::pervasive::arbitrary()
    }
}

impl From<u64> for Value {
    /// The number that writes `n` in decimal.
    fn from(n: u64) -> (r: Value)
        ensures
            r.view_json() == JValue::Number(integer_text(n as int)),
    {
        Value::Number(NumberBuf::from_u64(n))
    }
}

impl FromSpecImpl<u64> for Value {
    /// The number is a new one: `from`'s own `ensures` says what it is.
    open spec fn obeys_from_spec() -> bool {
        false
    }

    open spec fn from_spec(n: u64) -> Value {
        vstd::pervasive::arbitrary()
    }
}

impl From<i8> for Value {
    /// The number that writes `n` in decimal.
    fn from(n: i8) -> (r: Value)
        ensures
            r.view_json() == JValue::Number(integer_text(n as int)),
    {
        Value::Number(NumberBuf::from_i64(n as i64))
    }
}

impl FromSpecImpl<i8> for Value {
    /// The number is a new one: `from`'s own `ensures` says what it is.
    open spec fn obeys_from_spec() -> bool {
        false
    }

    open spec fn from_spec(n: i8) -> Value {
        vstd::pervasive::arbitrary()
    }
}

impl From<i16> for Value {
    /// The number that writes `n` in decimal.
    fn from(n: i16) -> (r: Value)
        ensures
            r.view_json() == JValue::Number(integer_text(n as int)),
    {
        Value::Number(NumberBuf::from_i64(n as i64))
    }
}

impl FromSpecImpl<i16> for Value {
    /// The number is a new one: `from`'s own `ensures` says what it is.
    open spec fn obeys_from_spec() -> bool {
        false
    }

    open spec fn from_spec(n: i16) -> Value {
        vstd::pervasive::arbitrary()
    }
}

impl From<i32> for Value {
    /// The number that writes `n` in decimal.
    fn from(n: i32) -> (r: Value)
        ensures
            r.view_json() == JValue::Number(integer_text(n as int)),
    {
        Value::Number(NumberBuf::from_i64(n as i64))
    }
}

impl FromSpecImpl<i32> for Value {
    /// The number is a new one: `from`'s own `ensures` says what it is.
    open spec fn obeys_from_spec() -> bool {
        false
    }

    open spec fn from_spec(n: i32) -> Value {
        vstd::pervasive::arbitrary()
    }
}

impl From<i64> for Value {
    /// The number that writes `n` in decimal.
    fn from(n: i64) -> (r: Value)
        ensures
            r.view_json() == JValue::Number(integer_text(n as int)),
    {
        Value::Number(NumberBuf::from_i64(n))
    }
}

impl FromSpecImpl<i64> for Value {
    /// The number is a new one: `from`'s own `ensures` says what it is.
    open spec fn obeys_from_spec() -> bool {
        false
    }

    open spec fn from_spec(n: i64) -> Value {
        vstd::pervasive::arbitrary()
    }
}

} // verus!
