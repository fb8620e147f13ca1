//! Conversions from JSON values, with the code-map offsets of the
//! fragments that a conversion rejects.
use vstd::prelude::*;
use core::marker::PhantomData;
use crate::code_map::{CodeMap, Mapped};
use crate::kind::{Kind, KindSet, kind_mask, kind_name, kind_set_text, push_all, write_listing};
use crate::value::{Value, JValue, jkind, values_view, lemma_values_view};
use crate::array::{maps, lemma_array_maps, item_offset_at};
use crate::object::Object;

verus! {

/// Unexpected JSON value kind error: a conversion expected a value of one of
/// the kinds `expected`, and found one of the kind `found`.
#[derive(Debug, Clone, Copy, PartialEq, Eq, Structural)]
pub struct Unexpected {
    /// Expected kind(s).
    pub expected: KindSet,
    /// Found kind.
    pub found: Kind,
}

/// The text of the error: what was expected, then what was found.
pub open spec fn unexpected_text(e: Unexpected) -> Seq<char> {
    seq!['e', 'x', 'p', 'e', 'c', 't', 'e', 'd', ' '] + kind_set_text(e.expected, seq!['o', 'r'])
        + seq![',', ' ', 'f', 'o', 'u', 'n', 'd', ' '] + kind_name(e.found)
}

impl Unexpected {
    /// The text of the error: "expected ..., found ...".
    pub fn to_string(&self) -> (r: String)
        ensures
            r@ == unexpected_text(*self),
    {
        let mut out = String::new();
        let a = ['e', 'x', 'p', 'e', 'c', 't', 'e', 'd', ' '];
        push_all(&mut out, &a);
        let w = ['o', 'r'];
        assert(w@ =~= seq!['o', 'r']);
        write_listing(self.expected, &w, &mut out);
        let b = [',', ' ', 'f', 'o', 'u', 'n', 'd', ' '];
        push_all(&mut out, &b);
        self.found.write_name(&mut out);
        proof {
            assert(a@ =~= seq!['e', 'x', 'p', 'e', 'c', 't', 'e', 'd', ' ']);
            assert(b@ =~= seq![',', ' ', 'f', 'o', 'u', 'n', 'd', ' ']);
            assert(out@ =~= unexpected_text(*self));
        }
        out
    }
}

/// The error of a conversion that expected a value of the kind `k`, on `v`
/// found at `offset`.
pub open spec fn unexpected_at(offset: usize, k: Kind, v: JValue) -> Mapped<Unexpected> {
    Mapped { offset, value: Unexpected { expected: KindSet::of_bits(kind_mask(k)), found: jkind(v) } }
}

/// The number type `T`, named in errors.
pub struct NumberType<T>(pub PhantomData<T>);

impl<T> Clone for NumberType<T> {
    fn clone(&self) -> (r: NumberType<T>) {
        NumberType(PhantomData)
    }
}

impl<T> Copy for NumberType<T> {

}

impl<T> Default for NumberType<T> {
    fn default() -> (r: NumberType<T>)
        ensures
            r == NumberType::<T>(PhantomData),
    {
        NumberType(PhantomData)
    }
}

impl<T> NumberType<T> {
    /// The name of the type in messages.
    pub fn to_string(&self) -> (r: String)
        ensures
            r@ == seq!['N', 'u', 'm', 'b', 'e', 'r', 'T', 'y', 'p', 'e'],
    {
        let mut out = String::new();
        let a = ['N', 'u', 'm', 'b', 'e', 'r', 'T', 'y', 'p', 'e'];
        push_all(&mut out, &a);
        proof {
            assert(a@ =~= seq!['N', 'u', 'm', 'b', 'e', 'r', 'T', 'y', 'p', 'e']);
        }
        out
    }
}

/// Error of a conversion into a number type.
pub enum TryIntoNumberError<T> {
    /// The value is not a number.
    Unexpected(Unexpected),
    /// The number does not fit the type.
    OutOfBounds(T),
}

impl<T> TryIntoNumberError<T> {
    /// The error, with `f` applied to what the `OutOfBounds` case holds.
    pub fn map<U, F: FnOnce(T) -> U>(self, f: F) -> (r: TryIntoNumberError<U>)
        requires
            self matches TryIntoNumberError::OutOfBounds(t) ==> f.requires((t,)),
        ensures
            self matches TryIntoNumberError::Unexpected(e) ==> r == TryIntoNumberError::<U>::Unexpected(e),
            self matches TryIntoNumberError::OutOfBounds(t) ==> (r matches TryIntoNumberError::OutOfBounds(u) && f.ensures((t,), u)),
    {
        match self {
            TryIntoNumberError::Unexpected(e) => TryIntoNumberError::Unexpected(e),
            TryIntoNumberError::OutOfBounds(t) => TryIntoNumberError::OutOfBounds(f(t)),
        }
    }
}

/// Whether every character of `s` is a decimal digit.
pub open spec fn all_digits(s: Seq<char>) -> bool {
    forall|i: int| 0 <= i < s.len() ==> '0' <= #[trigger] s[i] <= '9'
}

/// The value of the decimal digits `s`.
pub open spec fn digits_value(s: Seq<char>) -> int
    decreases s.len(),
{
    if s.len() == 0 {
        0
    } else {
        digits_value(s.drop_last()) * 10 + (s.last() as int - '0' as int)
    }
}

/// The integer that `s` writes, as Rust's `from_str` for integers reads it:
/// a sign (`-` only where `signed`), then at least one decimal digit.
pub open spec fn integer_value(s: Seq<char>, signed: bool) -> Option<int> {
    if s.len() > 0 && s[0] == '+' {
        let d = s.drop_first();
        if d.len() > 0 && all_digits(d) {
            Some(digits_value(d))
        } else {
            None
        }
    } else if signed && s.len() > 0 && s[0] == '-' {
        let d = s.drop_first();
        if d.len() > 0 && all_digits(d) {
            Some(-digits_value(d))
        } else {
            None
        }
    } else if s.len() > 0 && all_digits(s) {
        Some(digits_value(s))
    } else {
        None
    }
}

/// Conversion from JSON values, with code-mapping information: the code map
/// `code_map` describes the value from the offset of its fragment.
pub trait TryFromJson: Sized {
    /// Error that the conversion may return.
    type Error;

    /// Converts `value`, whose fragment is the first of the code map.
    fn try_from_json(value: &Value, code_map: &CodeMap) -> (r: Result<Self, Self::Error>)
        requires
            maps(code_map@, 0, value.view_json()),
        ensures
            call_ensures(Self::try_from_json_at, (value, code_map, 0usize), r),
    {
        Self::try_from_json_at(value, code_map, 0)
    }

    /// Converts `value`, whose fragment is at `offset` in the code map.
    fn try_from_json_at(value: &Value, code_map: &CodeMap, offset: usize) -> (r: Result<
        Self,
        Self::Error,
    >)
        requires
            maps(code_map@, offset as int, value.view_json()),
    ;
}

/// Conversion from JSON objects, with code-mapping information.
pub trait TryFromJsonObject: Sized {
    /// Error that the conversion may return.
    type Error;

    /// Converts `object`, whose fragment is the first of the code map.
    fn try_from_json_object(object: &Object, code_map: &CodeMap) -> (r: Result<Self, Self::Error>)
        requires
            maps(code_map@, 0, JValue::Object(object.view_json())),
        ensures
            call_ensures(Self::try_from_json_object_at, (object, code_map, 0usize), r),
    {
        Self::try_from_json_object_at(object, code_map, 0)
    }

    /// Converts `object`, whose fragment is at `offset` in the code map.
    fn try_from_json_object_at(object: &Object, code_map: &CodeMap, offset: usize) -> (r: Result<
        Self,
        Self::Error,
    >)
        requires
            maps(code_map@, offset as int, JValue::Object(object.view_json())),
    ;
}

impl<T: TryFromJson> TryFromJson for Box<T> {
    type Error = T::Error;

    /// What `T` makes of the value, boxed.
    fn try_from_json_at(value: &Value, code_map: &CodeMap, offset: usize) -> (r: Result<
        Box<T>,
        T::Error,
    >)
        ensures
            r matches Ok(b) ==> call_ensures(
                T::try_from_json_at,
                (value, code_map, offset),
                Ok::<T, T::Error>(*b),
            ),
            r matches Err(e) ==> call_ensures(
                T::try_from_json_at,
                (value, code_map, offset),
                Err::<T, T::Error>(e),
            ),
    {
        match T::try_from_json_at(value, code_map, offset) {
            Ok(t) => Ok(Box::new(t)),
            Err(e) => Err(e),
        }
    }
}

impl<T: TryFromJsonObject> TryFromJsonObject for Box<T> {
    type Error = T::Error;

    /// What `T` makes of the object, boxed.
    fn try_from_json_object_at(object: &Object, code_map: &CodeMap, offset: usize) -> (r: Result<
        Box<T>,
        T::Error,
    >)
        ensures
            r matches Ok(b) ==> call_ensures(
                T::try_from_json_object_at,
                (object, code_map, offset),
                Ok::<T, T::Error>(*b),
            ),
            r matches Err(e) ==> call_ensures(
                T::try_from_json_object_at,
                (object, code_map, offset),
                Err::<T, T::Error>(e),
            ),
    {
        match T::try_from_json_object_at(object, code_map, offset) {
            Ok(t) => Ok(Box::new(t)),
            Err(e) => Err(e),
        }
    }
}

impl<T: TryFromJson> TryFromJson for Option<T> {
    type Error = T::Error;

    /// `None` for `null`; otherwise what `T` makes of the value.
    fn try_from_json_at(value: &Value, code_map: &CodeMap, offset: usize) -> (r: Result<
        Option<T>,
        T::Error,
    >)
        ensures
            value.view_json() is Null ==> (r matches Ok(None)),
            !(value.view_json() is Null) ==> ({
                ||| r matches Ok(Some(t)) && call_ensures(
                    T::try_from_json_at,
                    (value, code_map, offset),
                    Ok::<T, T::Error>(t),
                )
                ||| r matches Err(e) && call_ensures(
                    T::try_from_json_at,
                    (value, code_map, offset),
                    Err::<T, T::Error>(e),
                )
            }),
    {
        match value {
            Value::Null => Ok(None),
            other => match T::try_from_json_at(other, code_map, offset) {
                Ok(t) => Ok(Some(t)),
                Err(e) => Err(e),
            },
        }
    }
}

impl TryFromJson for () {
    type Error = Mapped<Unexpected>;

    /// `()` for `null`, an error otherwise.
    fn try_from_json_at(value: &Value, _code_map: &CodeMap, offset: usize) -> (r: Result<
        (),
        Mapped<Unexpected>,
    >)
        ensures
            value.view_json() is Null ==> r is Ok,
            !(value.view_json() is Null) ==> r == Err::<(), Mapped<Unexpected>>(
                unexpected_at(offset, Kind::Null, value.view_json()),
            ),
    {
        match value {
            Value::Null => Ok(()),
            other => Err(
                Mapped::new(
                    offset,
                    Unexpected { expected: KindSet::single(Kind::Null), found: other.kind() },
                ),
            ),
        }
    }
}

impl TryFromJson for bool {
    type Error = Mapped<Unexpected>;

    /// The boolean of a boolean value, an error otherwise.
    fn try_from_json_at(value: &Value, _code_map: &CodeMap, offset: usize) -> (r: Result<
        bool,
        Mapped<Unexpected>,
    >)
        ensures
            value.view_json() matches JValue::Boolean(b) ==> r == Ok::<bool, Mapped<Unexpected>>(b),
            !(value.view_json() is Boolean) ==> r == Err::<bool, Mapped<Unexpected>>(
                unexpected_at(offset, Kind::Boolean, value.view_json()),
            ),
    {
        match value {
            Value::Boolean(b) => Ok(*b),
            other => Err(
                Mapped::new(
                    offset,
                    Unexpected { expected: KindSet::single(Kind::Boolean), found: other.kind() },
                ),
            ),
        }
    }
}

impl TryFromJson for String {
    type Error = Mapped<Unexpected>;

    /// The characters of a string value, an error otherwise.
    fn try_from_json_at(value: &Value, _code_map: &CodeMap, offset: usize) -> (r: Result<
        String,
        Mapped<Unexpected>,
    >)
        ensures
            value.view_json() matches JValue::String(s) ==> (r matches Ok(t) && t@ == s),
            !(value.view_json() is String) ==> r == Err::<String, Mapped<Unexpected>>(
                unexpected_at(offset, Kind::String, value.view_json()),
            ),
    {
        match value {
            Value::String(s) => Ok(s.clone()),
            other => Err(
                Mapped::new(
                    offset,
                    Unexpected { expected: KindSet::single(Kind::String), found: other.kind() },
                ),
            ),
        }
    }
}

impl<T: TryFromJson> TryFromJson for Vec<T> where T::Error: From<Mapped<Unexpected>> {
    type Error = T::Error;

    /// The conversions of the items of an array, each at the offset of its
    /// fragment: the first error if any; an error if the value is not an
    /// array.
    fn try_from_json_at(value: &Value, code_map: &CodeMap, offset: usize) -> (r: Result<
        Vec<T>,
        T::Error,
    >)
        ensures
            value.view_json() is Array ==> {
                let items = array_items(*value);
                &&& r matches Ok(v) ==> v@.len() == items.len() && forall|i: int|
                    0 <= i < items.len() ==> call_ensures(
                        T::try_from_json_at,
                        (&items[i], code_map, item_offset_at(code_map@, offset + 1, i as nat) as usize),
                        Ok::<T, T::Error>(#[trigger] v@[i]),
                    )
                &&& r matches Err(e) ==> item_fails::<T>(items, code_map, offset, e)
                &&& items.len() == 0 ==> (r matches Ok(v) && v@.len() == 0)
            },
            !(value.view_json() is Array) ==> (r matches Err(e) && call_ensures(
                T::Error::from,
                (unexpected_at(offset, Kind::Array, value.view_json()),),
                e,
            )),
    {
        match value {
            Value::Array(items) => {
                let ghost cm = code_map@;
                proof {
                    lemma_values_view(items@);
                }
                let mut r: Vec<T> = Vec::new();
                let mut cur = offset + 1;
                let mut i: usize = 0;
                let n = items.len();
                while i < n
                    invariant
                        cm == code_map@,
                        n == items@.len(),
                        value.view_json() == JValue::Array(values_view(items@)),
                        *value == Value::Array(*items),
                        maps(cm, offset as int, value.view_json()),
                        values_view(items@).len() == items@.len(),
                        forall|j: int| 0 <= j < items@.len() ==> #[trigger] values_view(items@)[j] == items@[j].view_json(),
                        i <= n,
                        r@.len() == i,
                        cur == item_offset_at(cm, offset + 1, i as nat),
                        forall|j: int|
                            0 <= j < i ==> call_ensures(
                                T::try_from_json_at,
                                (&items@[j], code_map, item_offset_at(cm, offset + 1, j as nat) as usize),
                                Ok::<T, T::Error>(#[trigger] r@[j]),
                            ),
                    decreases n - i,
                {
                    proof {
                        lemma_array_maps(cm, offset as int, values_view(items@), i as nat);
                        lemma_array_maps(cm, offset as int, values_view(items@), (i + 1) as nat);
                    }
                    let vol = code_map.get(cur).unwrap().volume;
                    proof {
                        assert(item_offset_at(cm, offset + 1, i as nat) as usize == cur);
                    }
                    match T::try_from_json_at(&items[i], code_map, cur) {
                        Ok(t) => r.push(t),
                        Err(e) => {
                            proof {
                                let k: int = i as int;
                                assert(array_items(*value) == items@);
                                assert(call_ensures(
                                    T::try_from_json_at,
                                    (
                                        &array_items(*value)[k],
                                        code_map,
                                        item_offset_at(code_map@, offset + 1, k as nat) as usize,
                                    ),
                                    Err::<T, T::Error>(e),
                                ));
                                assert forall|j: int| 0 <= j < k implies #[trigger] item_converts::<T>(
                                    array_items(*value),
                                    code_map,
                                    offset,
                                    j,
                                ) by {
                                    assert(call_ensures(
                                        T::try_from_json_at,
                                        (
                                            &array_items(*value)[j],
                                            code_map,
                                            item_offset_at(code_map@, offset + 1, j as nat) as usize,
                                        ),
                                        Ok::<T, T::Error>(r@[j]),
                                    ));
                                }
                                assert(item_fails::<T>(array_items(*value), code_map, offset, e));
                            }
                            return Err(e);
                        },
                    }
                    proof {
                        crate::array::lemma_item_offset_step_pub(cm, offset + 1, i as nat);
                        let vs = values_view(items@);
                        assert(vs =~= vs.take(i + 1) + vs.skip(i + 1));
                        crate::fragment::lemma_items_fragments_split(vs.take(i + 1), vs.skip(i + 1));
                        assert(crate::fragment::value_fragments(JValue::Array(vs)).len() == 1
                            + crate::fragment::items_fragments(vs).len());
                    }
                    cur = cur + vol;
                    i = i + 1;
                }
                Ok(r)
            },
            other => {
                let e = Mapped::new(
                    offset,
                    Unexpected { expected: KindSet::single(Kind::Array), found: other.kind() },
                );
                Err(T::Error::from(e))
            },
        }
    }
}

/// The conversion by `T` of an item of `items`, at the code-map offset of
/// its fragment in an array at `offset`, may fail with `e`, while the
/// conversion of each item before it succeeds: `e` is the error of the
/// first item that fails.
pub open spec fn item_fails<T: TryFromJson>(
    items: Seq<Value>,
    code_map: &CodeMap,
    offset: usize,
    e: T::Error,
) -> bool {
    exists|i: int|
        0 <= i < items.len() && #[trigger] call_ensures(
            T::try_from_json_at,
            (&items[i], code_map, item_offset_at(code_map@, offset + 1, i as nat) as usize),
            Err::<T, T::Error>(e),
        ) && forall|j: int| 0 <= j < i ==> #[trigger] item_converts::<T>(items, code_map, offset, j)
}

/// The conversion by `T` of the item `j` of `items`, at the code-map
/// offset of its fragment in an array at `offset`, may succeed.
pub open spec fn item_converts<T: TryFromJson>(
    items: Seq<Value>,
    code_map: &CodeMap,
    offset: usize,
    j: int,
) -> bool {
    exists|t: T|
        #[trigger] call_ensures(
            T::try_from_json_at,
            (&items[j], code_map, item_offset_at(code_map@, offset + 1, j as nat) as usize),
            Ok::<T, T::Error>(t),
        )
}

/// The items of `v`, where it is an array.
pub open spec fn array_items(v: Value) -> Seq<Value> {
    match v {
        Value::Array(items) => items@,
        _ => Seq::empty(),
    }
}

/// Rust's `u8::from_str`: the integer that `s` writes (see
/// `integer_value`), if it fits the type.
#[verifier::external_body]
fn parse_u8(s: &str) -> (r: Option<u8>)
    ensures
        r == (match integer_value(s@, false) {
            Some(n) => if u8::MIN <= n <= u8::MAX {
                Some(n as u8)
            } else {
                None
            },
            None => None,
        }),
{
    s.parse::<u8>().ok()
}

impl TryFromJson for u8 {
    type Error = Mapped<TryIntoNumberError<NumberType<u8>>>;

    /// The integer of a number that writes one that fits the type; an
    /// error otherwise.
    fn try_from_json_at(value: &Value, _code_map: &CodeMap, offset: usize) -> (r: Result<
        u8,
        Mapped<TryIntoNumberError<NumberType<u8>>>,
    >)
        ensures
            value.view_json() matches JValue::Number(s) ==> (match integer_value(s, false) {
                Some(n) => if u8::MIN <= n <= u8::MAX {
                    r == Ok::<u8, Mapped<TryIntoNumberError<NumberType<u8>>>>(n as u8)
                } else {
                    r matches Err(Mapped { offset: o, value: TryIntoNumberError::OutOfBounds(_) }) && o == offset
                },
                None => r matches Err(Mapped { offset: o, value: TryIntoNumberError::OutOfBounds(_) }) && o == offset,
            }),
            !(value.view_json() is Number) ==> (r matches Err(Mapped { offset: o, value: TryIntoNumberError::Unexpected(e) }) && o == offset && e == unexpected_at(offset, Kind::Number, value.view_json()).value),
    {
        match value {
            Value::Number(n) => match parse_u8(n.as_str()) {
                Some(x) => Ok(x),
                None => Err(Mapped::new(offset, TryIntoNumberError::OutOfBounds(NumberType(PhantomData)))),
            },
            other => Err(
                Mapped::new(
                    offset,
                    TryIntoNumberError::Unexpected(
                        Unexpected { expected: KindSet::single(Kind::Number), found: other.kind() },
                    ),
                ),
            ),
        }
    }
}

/// Rust's `u16::from_str`: the integer that `s` writes (see
/// `integer_value`), if it fits the type.
#[verifier::external_body]
fn parse_u16(s: &str) -> (r: Option<u16>)
    ensures
        r == (match integer_value(s@, false) {
            Some(n) => if u16::MIN <= n <= u16::MAX {
                Some(n as u16)
            } else {
                None
            },
            None => None,
        }),
{
    s.parse::<u16>().ok()
}

impl TryFromJson for u16 {
    type Error = Mapped<TryIntoNumberError<NumberType<u16>>>;

    /// The integer of a number that writes one that fits the type; an
    /// error otherwise.
    fn try_from_json_at(value: &Value, _code_map: &CodeMap, offset: usize) -> (r: Result<
        u16,
        Mapped<TryIntoNumberError<NumberType<u16>>>,
    >)
        ensures
            value.view_json() matches JValue::Number(s) ==> (match integer_value(s, false) {
                Some(n) => if u16::MIN <= n <= u16::MAX {
                    r == Ok::<u16, Mapped<TryIntoNumberError<NumberType<u16>>>>(n as u16)
                } else {
                    r matches Err(Mapped { offset: o, value: TryIntoNumberError::OutOfBounds(_) }) && o == offset
                },
                None => r matches Err(Mapped { offset: o, value: TryIntoNumberError::OutOfBounds(_) }) && o == offset,
            }),
            !(value.view_json() is Number) ==> (r matches Err(Mapped { offset: o, value: TryIntoNumberError::Unexpected(e) }) && o == offset && e == unexpected_at(offset, Kind::Number, value.view_json()).value),
    {
        match value {
            Value::Number(n) => match parse_u16(n.as_str()) {
                Some(x) => Ok(x),
                None => Err(Mapped::new(offset, TryIntoNumberError::OutOfBounds(NumberType(PhantomData)))),
            },
            other => Err(
                Mapped::new(
                    offset,
                    TryIntoNumberError::Unexpected(
                        Unexpected { expected: KindSet::single(Kind::Number), found: other.kind() },
                    ),
                ),
            ),
        }
    }
}

/// Rust's `u32::from_str`: the integer that `s` writes (see
/// `integer_value`), if it fits the type.
#[verifier::external_body]
fn parse_u32(s: &str) -> (r: Option<u32>)
    ensures
        r == (match integer_value(s@, false) {
            Some(n) => if u32::MIN <= n <= u32::MAX {
                Some(n as u32)
            } else {
                None
            },
            None => None,
        }),
{
    s.parse::<u32>().ok()
}

impl TryFromJson for u32 {
    type Error = Mapped<TryIntoNumberError<NumberType<u32>>>;

    /// The integer of a number that writes one that fits the type; an
    /// error otherwise.
    fn try_from_json_at(value: &Value, _code_map: &CodeMap, offset: usize) -> (r: Result<
        u32,
        Mapped<TryIntoNumberError<NumberType<u32>>>,
    >)
        ensures
            value.view_json() matches JValue::Number(s) ==> (match integer_value(s, false) {
                Some(n) => if u32::MIN <= n <= u32::MAX {
                    r == Ok::<u32, Mapped<TryIntoNumberError<NumberType<u32>>>>(n as u32)
                } else {
                    r matches Err(Mapped { offset: o, value: TryIntoNumberError::OutOfBounds(_) }) && o == offset
                },
                None => r matches Err(Mapped { offset: o, value: TryIntoNumberError::OutOfBounds(_) }) && o == offset,
            }),
            !(value.view_json() is Number) ==> (r matches Err(Mapped { offset: o, value: TryIntoNumberError::Unexpected(e) }) && o == offset && e == unexpected_at(offset, Kind::Number, value.view_json()).value),
    {
        match value {
            Value::Number(n) => match parse_u32(n.as_str()) {
                Some(x) => Ok(x),
                None => Err(Mapped::new(offset, TryIntoNumberError::OutOfBounds(NumberType(PhantomData)))),
            },
            other => Err(
                Mapped::new(
                    offset,
                    TryIntoNumberError::Unexpected(
                        Unexpected { expected: KindSet::single(Kind::Number), found: other.kind() },
                    ),
                ),
            ),
        }
    }
}

/// Rust's `u64::from_str`: the integer that `s` writes (see
/// `integer_value`), if it fits the type.
#[verifier::external_body]
fn parse_u64(s: &str) -> (r: Option<u64>)
    ensures
        r == (match integer_value(s@, false) {
            Some(n) => if u64::MIN <= n <= u64::MAX {
                Some(n as u64)
            } else {
                None
            },
            None => None,
        }),
{
    s.parse::<u64>().ok()
}

impl TryFromJson for u64 {
    type Error = Mapped<TryIntoNumberError<NumberType<u64>>>;

    /// The integer of a number that writes one that fits the type; an
    /// error otherwise.
    fn try_from_json_at(value: &Value, _code_map: &CodeMap, offset: usize) -> (r: Result<
        u64,
        Mapped<TryIntoNumberError<NumberType<u64>>>,
    >)
        ensures
            value.view_json() matches JValue::Number(s) ==> (match integer_value(s, false) {
                Some(n) => if u64::MIN <= n <= u64::MAX {
                    r == Ok::<u64, Mapped<TryIntoNumberError<NumberType<u64>>>>(n as u64)
                } else {
                    r matches Err(Mapped { offset: o, value: TryIntoNumberError::OutOfBounds(_) }) && o == offset
                },
                None => r matches Err(Mapped { offset: o, value: TryIntoNumberError::OutOfBounds(_) }) && o == offset,
            }),
            !(value.view_json() is Number) ==> (r matches Err(Mapped { offset: o, value: TryIntoNumberError::Unexpected(e) }) && o == offset && e == unexpected_at(offset, Kind::Number, value.view_json()).value),
    {
        match value {
            Value::Number(n) => match parse_u64(n.as_str()) {
                Some(x) => Ok(x),
                None => Err(Mapped::new(offset, TryIntoNumberError::OutOfBounds(NumberType(PhantomData)))),
            },
            other => Err(
                Mapped::new(
                    offset,
                    TryIntoNumberError::Unexpected(
                        Unexpected { expected: KindSet::single(Kind::Number), found: other.kind() },
                    ),
                ),
            ),
        }
    }
}

/// Rust's `usize::from_str`: the integer that `s` writes (see
/// `integer_value`), if it fits the type.
#[verifier::external_body]
fn parse_usize(s: &str) -> (r: Option<usize>)
    ensures
        r == (match integer_value(s@, false) {
            Some(n) => if usize::MIN <= n <= usize::MAX {
                Some(n as usize)
            } else {
                None
            },
            None => None,
        }),
{
    s.parse::<usize>().ok()
}

impl TryFromJson for usize {
    type Error = Mapped<TryIntoNumberError<NumberType<usize>>>;

    /// The integer of a number that writes one that fits the type; an
    /// error otherwise.
    fn try_from_json_at(value: &Value, _code_map: &CodeMap, offset: usize) -> (r: Result<
        usize,
        Mapped<TryIntoNumberError<NumberType<usize>>>,
    >)
        ensures
            value.view_json() matches JValue::Number(s) ==> (match integer_value(s, false) {
                Some(n) => if usize::MIN <= n <= usize::MAX {
                    r == Ok::<usize, Mapped<TryIntoNumberError<NumberType<usize>>>>(n as usize)
                } else {
                    r matches Err(Mapped { offset: o, value: TryIntoNumberError::OutOfBounds(_) }) && o == offset
                },
                None => r matches Err(Mapped { offset: o, value: TryIntoNumberError::OutOfBounds(_) }) && o == offset,
            }),
            !(value.view_json() is Number) ==> (r matches Err(Mapped { offset: o, value: TryIntoNumberError::Unexpected(e) }) && o == offset && e == unexpected_at(offset, Kind::Number, value.view_json()).value),
    {
        match value {
            Value::Number(n) => match parse_usize(n.as_str()) {
                Some(x) => Ok(x),
                None => Err(Mapped::new(offset, TryIntoNumberError::OutOfBounds(NumberType(PhantomData)))),
            },
            other => Err(
                Mapped::new(
                    offset,
                    TryIntoNumberError::Unexpected(
                        Unexpected { expected: KindSet::single(Kind::Number), found: other.kind() },
                    ),
                ),
            ),
        }
    }
}

/// Rust's `i8::from_str`: the integer that `s` writes (see
/// `integer_value`), if it fits the type.
#[verifier::external_body]
fn parse_i8(s: &str) -> (r: Option<i8>)
    ensures
        r == (match integer_value(s@, true) {
            Some(n) => if i8::MIN <= n <= i8::MAX {
                Some(n as i8)
            } else {
                None
            },
            None => None,
        }),
{
    s.parse::<i8>().ok()
}

impl TryFromJson for i8 {
    type Error = Mapped<TryIntoNumberError<NumberType<i8>>>;

    /// The integer of a number that writes one that fits the type; an
    /// error otherwise.
    fn try_from_json_at(value: &Value, _code_map: &CodeMap, offset: usize) -> (r: Result<
        i8,
        Mapped<TryIntoNumberError<NumberType<i8>>>,
    >)
        ensures
            value.view_json() matches JValue::Number(s) ==> (match integer_value(s, true) {
                Some(n) => if i8::MIN <= n <= i8::MAX {
                    r == Ok::<i8, Mapped<TryIntoNumberError<NumberType<i8>>>>(n as i8)
                } else {
                    r matches Err(Mapped { offset: o, value: TryIntoNumberError::OutOfBounds(_) }) && o == offset
                },
                None => r matches Err(Mapped { offset: o, value: TryIntoNumberError::OutOfBounds(_) }) && o == offset,
            }),
            !(value.view_json() is Number) ==> (r matches Err(Mapped { offset: o, value: TryIntoNumberError::Unexpected(e) }) && o == offset && e == unexpected_at(offset, Kind::Number, value.view_json()).value),
    {
        match value {
            Value::Number(n) => match parse_i8(n.as_str()) {
                Some(x) => Ok(x),
                None => Err(Mapped::new(offset, TryIntoNumberError::OutOfBounds(NumberType(PhantomData)))),
            },
            other => Err(
                Mapped::new(
                    offset,
                    TryIntoNumberError::Unexpected(
                        Unexpected { expected: KindSet::single(Kind::Number), found: other.kind() },
                    ),
                ),
            ),
        }
    }
}

/// Rust's `i16::from_str`: the integer that `s` writes (see
/// `integer_value`), if it fits the type.
#[verifier::external_body]
fn parse_i16(s: &str) -> (r: Option<i16>)
    ensures
        r == (match integer_value(s@, true) {
            Some(n) => if i16::MIN <= n <= i16::MAX {
                Some(n as i16)
            } else {
                None
            },
            None => None,
        }),
{
    s.parse::<i16>().ok()
}

impl TryFromJson for i16 {
    type Error = Mapped<TryIntoNumberError<NumberType<i16>>>;

    /// The integer of a number that writes one that fits the type; an
    /// error otherwise.
    fn try_from_json_at(value: &Value, _code_map: &CodeMap, offset: usize) -> (r: Result<
        i16,
        Mapped<TryIntoNumberError<NumberType<i16>>>,
    >)
        ensures
            value.view_json() matches JValue::Number(s) ==> (match integer_value(s, true) {
                Some(n) => if i16::MIN <= n <= i16::MAX {
                    r == Ok::<i16, Mapped<TryIntoNumberError<NumberType<i16>>>>(n as i16)
                } else {
                    r matches Err(Mapped { offset: o, value: TryIntoNumberError::OutOfBounds(_) }) && o == offset
                },
                None => r matches Err(Mapped { offset: o, value: TryIntoNumberError::OutOfBounds(_) }) && o == offset,
            }),
            !(value.view_json() is Number) ==> (r matches Err(Mapped { offset: o, value: TryIntoNumberError::Unexpected(e) }) && o == offset && e == unexpected_at(offset, Kind::Number, value.view_json()).value),
    {
        match value {
            Value::Number(n) => match parse_i16(n.as_str()) {
                Some(x) => Ok(x),
                None => Err(Mapped::new(offset, TryIntoNumberError::OutOfBounds(NumberType(PhantomData)))),
            },
            other => Err(
                Mapped::new(
                    offset,
                    TryIntoNumberError::Unexpected(
                        Unexpected { expected: KindSet::single(Kind::Number), found: other.kind() },
                    ),
                ),
            ),
        }
    }
}

/// Rust's `i32::from_str`: the integer that `s` writes (see
/// `integer_value`), if it fits the type.
#[verifier::external_body]
fn parse_i32(s: &str) -> (r: Option<i32>)
    ensures
        r == (match integer_value(s@, true) {
            Some(n) => if i32::MIN <= n <= i32::MAX {
                Some(n as i32)
            } else {
                None
            },
            None => None,
        }),
{
    s.parse::<i32>().ok()
}

impl TryFromJson for i32 {
    type Error = Mapped<TryIntoNumberError<NumberType<i32>>>;

    /// The integer of a number that writes one that fits the type; an
    /// error otherwise.
    fn try_from_json_at(value: &Value, _code_map: &CodeMap, offset: usize) -> (r: Result<
        i32,
        Mapped<TryIntoNumberError<NumberType<i32>>>,
    >)
        ensures
            value.view_json() matches JValue::Number(s) ==> (match integer_value(s, true) {
                Some(n) => if i32::MIN <= n <= i32::MAX {
                    r == Ok::<i32, Mapped<TryIntoNumberError<NumberType<i32>>>>(n as i32)
                } else {
                    r matches Err(Mapped { offset: o, value: TryIntoNumberError::OutOfBounds(_) }) && o == offset
                },
                None => r matches Err(Mapped { offset: o, value: TryIntoNumberError::OutOfBounds(_) }) && o == offset,
            }),
            !(value.view_json() is Number) ==> (r matches Err(Mapped { offset: o, value: TryIntoNumberError::Unexpected(e) }) && o == offset && e == unexpected_at(offset, Kind::Number, value.view_json()).value),
    {
        match value {
            Value::Number(n) => match parse_i32(n.as_str()) {
                Some(x) => Ok(x),
                None => Err(Mapped::new(offset, TryIntoNumberError::OutOfBounds(NumberType(PhantomData)))),
            },
            other => Err(
                Mapped::new(
                    offset,
                    TryIntoNumberError::Unexpected(
                        Unexpected { expected: KindSet::single(Kind::Number), found: other.kind() },
                    ),
                ),
            ),
        }
    }
}

/// Rust's `i64::from_str`: the integer that `s` writes (see
/// `integer_value`), if it fits the type.
#[verifier::external_body]
fn parse_i64(s: &str) -> (r: Option<i64>)
    ensures
        r == (match integer_value(s@, true) {
            Some(n) => if i64::MIN <= n <= i64::MAX {
                Some(n as i64)
            } else {
                None
            },
            None => None,
        }),
{
    s.parse::<i64>().ok()
}

impl TryFromJson for i64 {
    type Error = Mapped<TryIntoNumberError<NumberType<i64>>>;

    /// The integer of a number that writes one that fits the type; an
    /// error otherwise.
    fn try_from_json_at(value: &Value, _code_map: &CodeMap, offset: usize) -> (r: Result<
        i64,
        Mapped<TryIntoNumberError<NumberType<i64>>>,
    >)
        ensures
            value.view_json() matches JValue::Number(s) ==> (match integer_value(s, true) {
                Some(n) => if i64::MIN <= n <= i64::MAX {
                    r == Ok::<i64, Mapped<TryIntoNumberError<NumberType<i64>>>>(n as i64)
                } else {
                    r matches Err(Mapped { offset: o, value: TryIntoNumberError::OutOfBounds(_) }) && o == offset
                },
                None => r matches Err(Mapped { offset: o, value: TryIntoNumberError::OutOfBounds(_) }) && o == offset,
            }),
            !(value.view_json() is Number) ==> (r matches Err(Mapped { offset: o, value: TryIntoNumberError::Unexpected(e) }) && o == offset && e == unexpected_at(offset, Kind::Number, value.view_json()).value),
    {
        match value {
            Value::Number(n) => match parse_i64(n.as_str()) {
                Some(x) => Ok(x),
                None => Err(Mapped::new(offset, TryIntoNumberError::OutOfBounds(NumberType(PhantomData)))),
            },
            other => Err(
                Mapped::new(
                    offset,
                    TryIntoNumberError::Unexpected(
                        Unexpected { expected: KindSet::single(Kind::Number), found: other.kind() },
                    ),
                ),
            ),
        }
    }
}

/// Rust's `isize::from_str`: the integer that `s` writes (see
/// `integer_value`), if it fits the type.
#[verifier::external_body]
fn parse_isize(s: &str) -> (r: Option<isize>)
    ensures
        r == (match integer_value(s@, true) {
            Some(n) => if isize::MIN <= n <= isize::MAX {
                Some(n as isize)
            } else {
                None
            },
            None => None,
        }),
{
    s.parse::<isize>().ok()
}

impl TryFromJson for isize {
    type Error = Mapped<TryIntoNumberError<NumberType<isize>>>;

    /// The integer of a number that writes one that fits the type; an
    /// error otherwise.
    fn try_from_json_at(value: &Value, _code_map: &CodeMap, offset: usize) -> (r: Result<
        isize,
        Mapped<TryIntoNumberError<NumberType<isize>>>,
    >)
        ensures
            value.view_json() matches JValue::Number(s) ==> (match integer_value(s, true) {
                Some(n) => if isize::MIN <= n <= isize::MAX {
                    r == Ok::<isize, Mapped<TryIntoNumberError<NumberType<isize>>>>(n as isize)
                } else {
                    r matches Err(Mapped { offset: o, value: TryIntoNumberError::OutOfBounds(_) }) && o == offset
                },
                None => r matches Err(Mapped { offset: o, value: TryIntoNumberError::OutOfBounds(_) }) && o == offset,
            }),
            !(value.view_json() is Number) ==> (r matches Err(Mapped { offset: o, value: TryIntoNumberError::Unexpected(e) }) && o == offset && e == unexpected_at(offset, Kind::Number, value.view_json()).value),
    {
        match value {
            Value::Number(n) => match parse_isize(n.as_str()) {
                Some(x) => Ok(x),
                None => Err(Mapped::new(offset, TryIntoNumberError::OutOfBounds(NumberType(PhantomData)))),
            },
            other => Err(
                Mapped::new(
                    offset,
                    TryIntoNumberError::Unexpected(
                        Unexpected { expected: KindSet::single(Kind::Number), found: other.kind() },
                    ),
                ),
            ),
        }
    }
}

} // verus!
