//! The order of JSON values and object entries: by kind (`null`, booleans,
//! numbers, strings, arrays, objects), then by content, sequences
//! lexicographically; and the sort of an object's entries by key, then by
//! value.
use vstd::prelude::*;
use vstd::multiset::Multiset;
use crate::value::{Value, JValue, values_view, entries_view, lemma_values_view, lemma_entries_view};
use crate::object::{Object, Entry};
use crate::parse::document::str_chars;

verus! {

/// Lexicographic comparison of character sequences: -1, 0 or 1.
pub open spec fn chars_order(a: Seq<char>, b: Seq<char>) -> int
    decreases a.len(),
{
    if a.len() == 0 {
        if b.len() == 0 {
            0
        } else {
            -1
        }
    } else if b.len() == 0 {
        1
    } else if a[0] < b[0] {
        -1
    } else if a[0] > b[0] {
        1
    } else {
        chars_order(a.drop_first(), b.drop_first())
    }
}

/// The rank of the kind of `v` in the order of values.
pub open spec fn kind_rank(v: JValue) -> int {
    match v {
        JValue::Null => 0,
        JValue::Boolean(_) => 1,
        JValue::Number(_) => 2,
        JValue::String(_) => 3,
        JValue::Array(_) => 4,
        JValue::Object(_) => 5,
    }
}

/// Comparison of values: -1, 0 or 1.
pub open spec fn value_order(a: JValue, b: JValue) -> int
    decreases a, 1int,
{
    if kind_rank(a) < kind_rank(b) {
        -1
    } else if kind_rank(a) > kind_rank(b) {
        1
    } else {
        match a {
            JValue::Boolean(x) => match b {
                JValue::Boolean(y) => if x == y {
                    0
                } else if !x {
                    -1
                } else {
                    1
                },
                _ => 0,
            },
            JValue::Number(x) => match b {
                JValue::Number(y) => chars_order(x, y),
                _ => 0,
            },
            JValue::String(x) => match b {
                JValue::String(y) => chars_order(x, y),
                _ => 0,
            },
            JValue::Array(x) => match b {
                JValue::Array(y) => items_order(x, y),
                _ => 0,
            },
            JValue::Object(x) => match b {
                JValue::Object(y) => entries_order(x, y),
                _ => 0,
            },
            JValue::Null => 0,
        }
    }
}

/// Lexicographic comparison of sequences of values.
pub open spec fn items_order(x: Seq<JValue>, y: Seq<JValue>) -> int
    decreases x, 0int,
{
    if x.len() == 0 {
        if y.len() == 0 {
            0
        } else {
            -1
        }
    } else if y.len() == 0 {
        1
    } else if value_order(x[0], y[0]) != 0 {
        value_order(x[0], y[0])
    } else {
        items_order(x.drop_first(), y.drop_first())
    }
}

/// Comparison of entries: by key, then by value.
pub open spec fn entry_order(a: (Seq<char>, JValue), b: (Seq<char>, JValue)) -> int {
    if chars_order(a.0, b.0) != 0 {
        chars_order(a.0, b.0)
    } else {
        value_order(a.1, b.1)
    }
}

/// Lexicographic comparison of sequences of entries.
pub open spec fn entries_order(x: Seq<(Seq<char>, JValue)>, y: Seq<(Seq<char>, JValue)>) -> int
    decreases x, 0int,
{
    if x.len() == 0 {
        if y.len() == 0 {
            0
        } else {
            -1
        }
    } else if y.len() == 0 {
        1
    } else if chars_order(x[0].0, y[0].0) != 0 {
        chars_order(x[0].0, y[0].0)
    } else if value_order(x[0].1, y[0].1) != 0 {
        value_order(x[0].1, y[0].1)
    } else {
        entries_order(x.drop_first(), y.drop_first())
    }
}

/// The model of an entry.
pub open spec fn entry_model(e: Entry) -> (Seq<char>, JValue) {
    (e.key@, e.value.view_json())
}

/// The entries `s` are in order: each is not greater than the next.
pub open spec fn entries_sorted(s: Seq<Entry>) -> bool {
    forall|i: int| 0 <= i < s.len() - 1 ==> #[trigger] entry_order(entry_model(s[i]), entry_model(s[i + 1])) <= 0
}

pub proof fn lemma_chars_order_antisymmetric(a: Seq<char>, b: Seq<char>)
    ensures
        chars_order(a, b) == -chars_order(b, a),
        -1 <= chars_order(a, b) <= 1,
    decreases a.len(),
{
    if a.len() > 0 && b.len() > 0 && a[0] == b[0] {
        lemma_chars_order_antisymmetric(a.drop_first(), b.drop_first());
    }
}

/// Character sequences compare lexicographically, as Rust orders `str`:
/// after a common prefix `a`, a sequence that ends comes before one that
/// goes on, and otherwise the first characters that differ decide.
pub proof fn lemma_chars_order_lexicographic(
    a: Seq<char>,
    s: Seq<char>,
    x: char,
    y: char,
    t: Seq<char>,
    u: Seq<char>,
)
    ensures
        s.len() > 0 ==> chars_order(a, a + s) == -1 && chars_order(a + s, a) == 1,
        x < y ==> chars_order(a + seq![x] + t, a + seq![y] + u) == -1,
        x < y ==> chars_order(a + seq![y] + u, a + seq![x] + t) == 1,
    decreases a.len(),
{
    let l = a + seq![x] + t;
    let r = a + seq![y] + u;
    if a.len() == 0 {
        assert(a + s =~= s);
        assert(l[0] == x);
        assert(r[0] == y);
    } else {
        lemma_chars_order_lexicographic(a.drop_first(), s, x, y, t, u);
        assert((a + s).drop_first() =~= a.drop_first() + s);
        assert((a + s)[0] == a[0]);
        assert(l.drop_first() =~= a.drop_first() + seq![x] + t);
        assert(r.drop_first() =~= a.drop_first() + seq![y] + u);
        assert(l[0] == a[0]);
        assert(r[0] == a[0]);
    }
}

/// A string comes before the longer strings that it begins, both as a
/// value and as the key of an entry, whatever the entries' values.
pub proof fn lemma_string_prefix_first(a: Seq<char>, s: Seq<char>, v: JValue, w: JValue)
    requires
        s.len() > 0,
    ensures
        value_order(JValue::String(a), JValue::String(a + s)) == -1,
        value_order(JValue::String(a + s), JValue::String(a)) == 1,
        entry_order((a, v), (a + s, w)) == -1,
        entry_order((a + s, w), (a, v)) == 1,
{
    lemma_chars_order_lexicographic(a, s, 'a', 'a', s, s);
}

/// Exchanging the values exchanges the result of their comparison.
pub proof fn lemma_value_order_antisymmetric(a: JValue, b: JValue)
    ensures
        value_order(a, b) == -value_order(b, a),
        -1 <= value_order(a, b) <= 1,
    decreases a, 1int,
{
    if kind_rank(a) == kind_rank(b) {
        match a {
            JValue::Number(x) => match b {
                JValue::Number(y) => lemma_chars_order_antisymmetric(x, y),
                _ => {},
            },
            JValue::String(x) => match b {
                JValue::String(y) => lemma_chars_order_antisymmetric(x, y),
                _ => {},
            },
            JValue::Array(x) => match b {
                JValue::Array(y) => lemma_items_order_antisymmetric(x, y),
                _ => {},
            },
            JValue::Object(x) => match b {
                JValue::Object(y) => lemma_entries_order_antisymmetric(x, y),
                _ => {},
            },
            _ => {},
        }
    }
}

pub proof fn lemma_items_order_antisymmetric(x: Seq<JValue>, y: Seq<JValue>)
    ensures
        items_order(x, y) == -items_order(y, x),
        -1 <= items_order(x, y) <= 1,
    decreases x, 0int,
{
    if x.len() > 0 && y.len() > 0 {
        lemma_value_order_antisymmetric(x[0], y[0]);
        if value_order(x[0], y[0]) == 0 {
            lemma_items_order_antisymmetric(x.drop_first(), y.drop_first());
        }
    }
}

pub proof fn lemma_entries_order_antisymmetric(x: Seq<(Seq<char>, JValue)>, y: Seq<(Seq<char>, JValue)>)
    ensures
        entries_order(x, y) == -entries_order(y, x),
        -1 <= entries_order(x, y) <= 1,
    decreases x, 0int,
{
    if x.len() > 0 && y.len() > 0 {
        lemma_chars_order_antisymmetric(x[0].0, y[0].0);
        lemma_value_order_antisymmetric(x[0].1, y[0].1);
        if chars_order(x[0].0, y[0].0) == 0 && value_order(x[0].1, y[0].1) == 0 {
            lemma_entries_order_antisymmetric(x.drop_first(), y.drop_first());
        }
    }
}

/// Exchanging two entries exchanges the result of their comparison.
pub proof fn lemma_entry_order_antisymmetric(a: (Seq<char>, JValue), b: (Seq<char>, JValue))
    ensures
        entry_order(a, b) == -entry_order(b, a),
        -1 <= entry_order(a, b) <= 1,
{
    lemma_chars_order_antisymmetric(a.0, b.0);
    lemma_value_order_antisymmetric(a.1, b.1);
}

/// The comparison of character sequences is zero on equal sequences only.
pub proof fn lemma_chars_order_zero(a: Seq<char>, b: Seq<char>)
    ensures
        chars_order(a, b) == 0 <==> a == b,
    decreases a.len(),
{
    if a.len() == 0 && b.len() == 0 {
        assert(a =~= b);
    } else if a.len() > 0 && b.len() > 0 && a[0] == b[0] {
        lemma_chars_order_zero(a.drop_first(), b.drop_first());
        if a.drop_first() == b.drop_first() {
            assert(a =~= b) by {
                assert forall|i: int| 0 <= i < a.len() implies a[i] == b[i] by {
                    if i > 0 {
                        assert(a[i] == a.drop_first()[i - 1]);
                        assert(b[i] == b.drop_first()[i - 1]);
                    }
                }
            }
        }
        if a == b {
            assert(a.drop_first() =~= b.drop_first());
        }
    } else if a.len() > 0 && b.len() > 0 {
        assert(a[0] != b[0]);
    }
}

/// The comparison of character sequences is transitive.
pub proof fn lemma_chars_order_transitive(a: Seq<char>, b: Seq<char>, c: Seq<char>)
    requires
        chars_order(a, b) <= 0,
        chars_order(b, c) <= 0,
    ensures
        chars_order(a, c) <= 0,
    decreases a.len(),
{
    if a.len() > 0 && b.len() > 0 && c.len() > 0 && a[0] == b[0] && b[0] == c[0] {
        lemma_chars_order_transitive(a.drop_first(), b.drop_first(), c.drop_first());
    }
}

/// The comparison of values is zero on equal values only.
pub proof fn lemma_value_order_zero(a: JValue, b: JValue)
    ensures
        value_order(a, b) == 0 <==> a == b,
    decreases a, 1int,
{
    if kind_rank(a) == kind_rank(b) {
        match a {
            JValue::Number(x) => match b {
                JValue::Number(y) => lemma_chars_order_zero(x, y),
                _ => {},
            },
            JValue::String(x) => match b {
                JValue::String(y) => lemma_chars_order_zero(x, y),
                _ => {},
            },
            JValue::Array(x) => match b {
                JValue::Array(y) => lemma_items_order_zero(x, y),
                _ => {},
            },
            JValue::Object(x) => match b {
                JValue::Object(y) => lemma_entries_order_zero(x, y),
                _ => {},
            },
            _ => {},
        }
    }
}

proof fn lemma_items_order_zero(x: Seq<JValue>, y: Seq<JValue>)
    ensures
        items_order(x, y) == 0 <==> x == y,
    decreases x, 0int,
{
    if x.len() == 0 && y.len() == 0 {
        assert(x =~= y);
    } else if x.len() > 0 && y.len() > 0 {
        lemma_value_order_zero(x[0], y[0]);
        lemma_items_order_zero(x.drop_first(), y.drop_first());
        if x[0] == y[0] && x.drop_first() == y.drop_first() {
            assert(x =~= y) by {
                assert forall|i: int| 0 <= i < x.len() implies x[i] == y[i] by {
                    if i > 0 {
                        assert(x[i] == x.drop_first()[i - 1]);
                        assert(y[i] == y.drop_first()[i - 1]);
                    }
                }
            }
        }
        if x == y {
            assert(x.drop_first() =~= y.drop_first());
        }
    }
}

proof fn lemma_entries_order_zero(x: Seq<(Seq<char>, JValue)>, y: Seq<(Seq<char>, JValue)>)
    ensures
        entries_order(x, y) == 0 <==> x == y,
    decreases x, 0int,
{
    if x.len() == 0 && y.len() == 0 {
        assert(x =~= y);
    } else if x.len() > 0 && y.len() > 0 {
        lemma_chars_order_zero(x[0].0, y[0].0);
        lemma_value_order_zero(x[0].1, y[0].1);
        lemma_entries_order_zero(x.drop_first(), y.drop_first());
        if x[0] == y[0] && x.drop_first() == y.drop_first() {
            assert(x =~= y) by {
                assert forall|i: int| 0 <= i < x.len() implies x[i] == y[i] by {
                    if i > 0 {
                        assert(x[i] == x.drop_first()[i - 1]);
                        assert(y[i] == y.drop_first()[i - 1]);
                    }
                }
            }
        }
        if x == y {
            assert(x.drop_first() =~= y.drop_first());
        }
    }
}

/// The comparison of values is transitive: with the laws above, it is a
/// total order.
pub proof fn lemma_value_order_transitive(a: JValue, b: JValue, c: JValue)
    requires
        value_order(a, b) <= 0,
        value_order(b, c) <= 0,
    ensures
        value_order(a, c) <= 0,
    decreases a, 1int,
{
    if kind_rank(a) == kind_rank(b) && kind_rank(b) == kind_rank(c) {
        match (a, b, c) {
            (JValue::Number(x), JValue::Number(y), JValue::Number(z)) => {
                lemma_chars_order_transitive(x, y, z);
            },
            (JValue::String(x), JValue::String(y), JValue::String(z)) => {
                lemma_chars_order_transitive(x, y, z);
            },
            (JValue::Array(x), JValue::Array(y), JValue::Array(z)) => {
                lemma_items_order_transitive(x, y, z);
            },
            (JValue::Object(x), JValue::Object(y), JValue::Object(z)) => {
                lemma_entries_order_transitive(x, y, z);
            },
            _ => {},
        }
    }
}

/// Where `a` is not above `b` nor `b` above `c`, `a` is below `c` unless
/// all three are equal.
proof fn lemma_value_order_strict(a: JValue, b: JValue, c: JValue)
    requires
        value_order(a, b) <= 0,
        value_order(b, c) <= 0,
        value_order(a, c) <= 0,
        value_order(a, b) < 0 || value_order(b, c) < 0,
    ensures
        value_order(a, c) < 0,
{
    lemma_value_order_zero(a, c);
    lemma_value_order_zero(a, b);
    lemma_value_order_zero(b, c);
    if a == c {
        lemma_value_order_antisymmetric(a, b);
    }
}

proof fn lemma_items_order_transitive(x: Seq<JValue>, y: Seq<JValue>, z: Seq<JValue>)
    requires
        items_order(x, y) <= 0,
        items_order(y, z) <= 0,
    ensures
        items_order(x, z) <= 0,
    decreases x, 0int,
{
    if x.len() > 0 && y.len() > 0 && z.len() > 0 {
        let (a, b, c) = (x[0], y[0], z[0]);
        lemma_value_order_antisymmetric(a, b);
        lemma_value_order_antisymmetric(b, c);
        lemma_value_order_zero(a, b);
        lemma_value_order_zero(b, c);
        lemma_value_order_zero(a, c);
        if value_order(a, b) == 0 && value_order(b, c) == 0 {
            lemma_items_order_transitive(x.drop_first(), y.drop_first(), z.drop_first());
        } else {
            lemma_value_order_transitive(a, b, c);
            lemma_value_order_strict(a, b, c);
        }
    }
}

/// Entries compare by key, then by value: zero on equal entries only, and
/// transitively.
pub proof fn lemma_entry_order_laws(a: (Seq<char>, JValue), b: (Seq<char>, JValue), c: (Seq<char>, JValue))
    ensures
        entry_order(a, b) == 0 <==> a == b,
        entry_order(a, b) <= 0 && entry_order(b, c) <= 0 ==> entry_order(a, c) <= 0,
        entry_order(a, b) <= 0 && entry_order(b, c) <= 0 && (entry_order(a, b) < 0
            || entry_order(b, c) < 0) ==> entry_order(a, c) < 0,
    decreases a.1, 2int,
{
    lemma_chars_order_zero(a.0, b.0);
    lemma_chars_order_zero(b.0, c.0);
    lemma_chars_order_zero(a.0, c.0);
    lemma_value_order_zero(a.1, b.1);
    lemma_value_order_zero(b.1, c.1);
    lemma_value_order_zero(a.1, c.1);
    lemma_chars_order_antisymmetric(a.0, b.0);
    lemma_chars_order_antisymmetric(b.0, c.0);
    lemma_chars_order_antisymmetric(a.0, c.0);
    lemma_value_order_antisymmetric(a.1, b.1);
    lemma_value_order_antisymmetric(b.1, c.1);
    lemma_value_order_antisymmetric(a.1, c.1);
    if entry_order(a, b) <= 0 && entry_order(b, c) <= 0 {
        if chars_order(a.0, b.0) <= 0 && chars_order(b.0, c.0) <= 0 {
            lemma_chars_order_transitive(a.0, b.0, c.0);
        }
        if value_order(a.1, b.1) <= 0 && value_order(b.1, c.1) <= 0 {
            lemma_value_order_transitive(a.1, b.1, c.1);
        }
        if a == c {
            assert(entry_order(a, b) == -entry_order(b, c));
        }
    }
}

proof fn lemma_entries_order_transitive(
    x: Seq<(Seq<char>, JValue)>,
    y: Seq<(Seq<char>, JValue)>,
    z: Seq<(Seq<char>, JValue)>,
)
    requires
        entries_order(x, y) <= 0,
        entries_order(y, z) <= 0,
    ensures
        entries_order(x, z) <= 0,
    decreases x, 0int,
{
    if x.len() > 0 && y.len() > 0 && z.len() > 0 {
        let (a, b, c) = (x[0], y[0], z[0]);
        lemma_entry_order_laws(a, b, c);
        lemma_entry_order_antisymmetric(a, b);
        lemma_entry_order_antisymmetric(b, c);
        assert(entries_order(x, y) == if entry_order(a, b) != 0 {
            entry_order(a, b)
        } else {
            entries_order(x.drop_first(), y.drop_first())
        });
        assert(entries_order(y, z) == if entry_order(b, c) != 0 {
            entry_order(b, c)
        } else {
            entries_order(y.drop_first(), z.drop_first())
        });
        assert(entries_order(x, z) == if entry_order(a, c) != 0 {
            entry_order(a, c)
        } else {
            entries_order(x.drop_first(), z.drop_first())
        });
        if entry_order(a, b) == 0 && entry_order(b, c) == 0 {
            lemma_entries_order_transitive(x.drop_first(), y.drop_first(), z.drop_first());
        }
    }
}

/// Compares the character sequences `a` and `b`.
fn chars_compare(a: &[char], b: &[char]) -> (r: i8)
    ensures
        r == chars_order(a@, b@),
{
    let mut i: usize = 0;
    proof {
        assert(a@.skip(0) =~= a@);
        assert(b@.skip(0) =~= b@);
    }
    while i < a.len() && i < b.len()
        invariant
            i <= a@.len(),
            i <= b@.len(),
            chars_order(a@, b@) == chars_order(a@.skip(i as int), b@.skip(i as int)),
        decreases a@.len() - i,
    {
        let ghost sa = a@.skip(i as int);
        let ghost sb = b@.skip(i as int);
        proof {
            assert(sa[0] == a@[i as int]);
            assert(sb[0] == b@[i as int]);
            assert(sa.drop_first() =~= a@.skip(i + 1));
            assert(sb.drop_first() =~= b@.skip(i + 1));
        }
        if a[i] < b[i] {
            return -1;
        } else if a[i] > b[i] {
            return 1;
        }
        i = i + 1;
    }
    if i < a.len() {
        1
    } else if i < b.len() {
        -1
    } else {
        0
    }
}

/// Compares the strings `a` and `b`, character by character.
fn str_compare(a: &str, b: &str) -> (r: i8)
    ensures
        r == chars_order(a@, b@),
{
    let ca = str_chars(a);
    let cb = str_chars(b);
    chars_compare(ca.as_slice(), cb.as_slice())
}

/// The rank of the kind of `v`.
fn rank(v: &Value) -> (r: u8)
    ensures
        r == kind_rank(v.view_json()),
{
    match v {
        Value::Null => 0,
        Value::Boolean(_) => 1,
        Value::Number(_) => 2,
        Value::String(_) => 3,
        Value::Array(_) => 4,
        Value::Object(_) => 5,
    }
}

/// Compares the values `a` and `b`: -1, 0 or 1.
pub fn value_compare(a: &Value, b: &Value) -> (r: i8)
    ensures
        r == value_order(a.view_json(), b.view_json()),
    decreases a, 2int,
{
    let ra = rank(a);
    let rb = rank(b);
    if ra < rb {
        return -1;
    } else if ra > rb {
        return 1;
    }
    match a {
        Value::Boolean(x) => match b {
            Value::Boolean(y) => if *x == *y {
                0
            } else if !*x {
                -1
            } else {
                1
            },
            _ => 0,
        },
        Value::Number(x) => match b {
            Value::Number(y) => str_compare(x.as_str(), y.as_str()),
            _ => 0,
        },
        Value::String(x) => match b {
            Value::String(y) => str_compare(x.as_str(), y.as_str()),
            _ => 0,
        },
        Value::Array(x) => match b {
            Value::Array(y) => {
                proof {
                    assert(decreases_to!(a => x));
                }
                items_compare(x, y)
            },
            _ => 0,
        },
        Value::Object(x) => match b {
            Value::Object(y) => {
                proof {
                    assert(decreases_to!(a => x));
                    assert(decreases_to!(x => x.entries));
                    x.lemma_view();
                    y.lemma_view();
                }
                entries_compare(&x.entries, &y.entries)
            },
            _ => 0,
        },
        Value::Null => 0,
    }
}

/// Compares two sequences of values, lexicographically.
fn items_compare(x: &Vec<Value>, y: &Vec<Value>) -> (r: i8)
    ensures
        r == items_order(values_view(x@), values_view(y@)),
    decreases x, 0int,
{
    proof {
        lemma_values_view(x@);
        lemma_values_view(y@);
    }
    let ghost vx = values_view(x@);
    let ghost vy = values_view(y@);
    let mut i: usize = 0;
    proof {
        assert(vx.skip(0) =~= vx);
        assert(vy.skip(0) =~= vy);
    }
    while i < x.len() && i < y.len()
        invariant
            i <= x@.len(),
            i <= y@.len(),
            vx == values_view(x@),
            vy == values_view(y@),
            vx.len() == x@.len(),
            vy.len() == y@.len(),
            forall|j: int| 0 <= j < x@.len() ==> #[trigger] vx[j] == x@[j].view_json(),
            forall|j: int| 0 <= j < y@.len() ==> #[trigger] vy[j] == y@[j].view_json(),
            items_order(vx, vy) == items_order(vx.skip(i as int), vy.skip(i as int)),
        decreases x@.len() - i,
    {
        proof {
            let sa = vx.skip(i as int);
            let sb = vy.skip(i as int);
            assert(sa[0] == vx[i as int]);
            assert(sb[0] == vy[i as int]);
            assert(sa.drop_first() =~= vx.skip(i + 1));
            assert(sb.drop_first() =~= vy.skip(i + 1));
            assert(decreases_to!(x => x@));
            assert(decreases_to!(x@ => x@[i as int]));
        }
        let c = value_compare(&x[i], &y[i]);
        if c != 0 {
            return c;
        }
        i = i + 1;
    }
    if i < x.len() {
        1
    } else if i < y.len() {
        -1
    } else {
        0
    }
}

/// Compares two entries: by key, then by value.
pub fn entry_compare(a: &Entry, b: &Entry) -> (r: i8)
    ensures
        r == entry_order(entry_model(*a), entry_model(*b)),
    decreases a, 1int,
{
    let c = str_compare(a.key.as_str(), b.key.as_str());
    if c != 0 {
        return c;
    }
    proof {
        assert(decreases_to!(a => a.value));
    }
    value_compare(&a.value, &b.value)
}

/// Compares two sequences of entries, lexicographically.
pub(crate) fn entries_compare(x: &Vec<Entry>, y: &Vec<Entry>) -> (r: i8)
    ensures
        r == entries_order(entries_view(x@), entries_view(y@)),
    decreases x, 0int,
{
    proof {
        lemma_entries_view(x@);
        lemma_entries_view(y@);
    }
    let ghost vx = entries_view(x@);
    let ghost vy = entries_view(y@);
    let mut i: usize = 0;
    proof {
        assert(vx.skip(0) =~= vx);
        assert(vy.skip(0) =~= vy);
    }
    while i < x.len() && i < y.len()
        invariant
            i <= x@.len(),
            i <= y@.len(),
            vx == entries_view(x@),
            vy == entries_view(y@),
            vx.len() == x@.len(),
            vy.len() == y@.len(),
            forall|j: int| 0 <= j < x@.len() ==> #[trigger] vx[j] == entry_model(x@[j]),
            forall|j: int| 0 <= j < y@.len() ==> #[trigger] vy[j] == entry_model(y@[j]),
            entries_order(vx, vy) == entries_order(vx.skip(i as int), vy.skip(i as int)),
        decreases x@.len() - i,
    {
        proof {
            let sa = vx.skip(i as int);
            let sb = vy.skip(i as int);
            assert(sa[0] == vx[i as int]);
            assert(sb[0] == vy[i as int]);
            assert(sa.drop_first() =~= vx.skip(i + 1));
            assert(sb.drop_first() =~= vy.skip(i + 1));
            assert(decreases_to!(x => x@));
            assert(decreases_to!(x@ => x@[i as int]));
        }
        let c = entry_compare(&x[i], &y[i]);
        if c != 0 {
            return c;
        }
        i = i + 1;
    }
    if i < x.len() {
        1
    } else if i < y.len() {
        -1
    } else {
        0
    }
}

/// The entries `v`, sorted by key, then by value; entries that compare
/// equal keep their order.
pub fn sort_entries(v: Vec<Entry>) -> (r: Vec<Entry>)
    ensures
        r@.to_multiset() == v@.to_multiset(),
        entries_sorted(r@),
{
    broadcast use vstd::seq_lib::group_to_multiset_ensures;
    broadcast use vstd::multiset::group_multiset_axioms;

    let mut src = v;
    let mut out: Vec<Entry> = Vec::new();
    proof {
        assert(out@.to_multiset() =~= Multiset::<Entry>::empty());
        assert(out@.to_multiset().add(src@.to_multiset()) =~= v@.to_multiset());
    }
    while src.len() > 0
        invariant
            out@.to_multiset().add(src@.to_multiset()) == v@.to_multiset(),
            entries_sorted(out@),
        decreases src@.len(),
    {
        let ghost src0 = src@;
        let ghost out0 = out@;
        let e = src.remove(0);
        let mut pos = out.len();
        while pos > 0 && entry_compare(&e, &out[pos - 1]) < 0
            invariant
                pos <= out@.len(),
                out@ == out0,
                entries_sorted(out0),
                forall|k: int|
                    pos <= k < out@.len() ==> #[trigger] entry_order(entry_model(e), entry_model(out@[k]))
                        < 0,
            decreases pos,
        {
            pos = pos - 1;
        }
        proof {
            if pos > 0 {
                lemma_entry_order_antisymmetric(entry_model(e), entry_model(out@[pos - 1]));
            }
        }
        out.insert(pos, e);
        proof {
            let n = out@;
            assert(n == out0.insert(pos as int, e));
            assert forall|i: int| 0 <= i < n.len() - 1 implies #[trigger] entry_order(
                entry_model(n[i]),
                entry_model(n[i + 1]),
            ) <= 0 by {
                if i < pos - 1 {
                    assert(n[i] == out0[i] && n[i + 1] == out0[i + 1]);
                    assert(entry_order(entry_model(out0[i]), entry_model(out0[i + 1])) <= 0);
                } else if i == pos - 1 {
                    assert(n[i] == out0[i] && n[i + 1] == e);
                    assert(entry_order(entry_model(out0[i]), entry_model(e)) <= 0);
                } else if i == pos {
                    assert(n[i] == e && n[i + 1] == out0[i]);
                    assert(entry_order(entry_model(e), entry_model(out0[i])) < 0);
                } else {
                    assert(n[i] == out0[i - 1] && n[i + 1] == out0[i]);
                    let j = i - 1;
                    assert(entry_order(entry_model(out0[j]), entry_model(out0[j + 1])) <= 0);
                    assert(j + 1 == i);
                }
            }
            assert(src0[0] == e);
            assert(src@ == src0.remove(0));
            vstd::seq_lib::to_multiset_insert(out0, pos as int, e);
            vstd::seq_lib::to_multiset_remove(src0, 0);
            assert(out@.to_multiset() == out0.to_multiset().insert(e));
            assert(src@.to_multiset() == src0.to_multiset().remove(e));
            vstd::seq_lib::to_multiset_contains(src0, e);
            assert(src0.contains(e));
            assert(src0.to_multiset().count(e) > 0);
            assert(out@.to_multiset().add(src@.to_multiset()) =~= out0.to_multiset().add(
                src0.to_multiset(),
            ));
        }
    }
    proof {
        assert(src@.to_multiset() =~= Multiset::<Entry>::empty());
        assert(out@.to_multiset().add(src@.to_multiset()) =~= out@.to_multiset());
    }
    out
}

impl Object {
    /// Sorts the entries by key, then by value; entries that compare equal
    /// keep their order.
    pub fn sort(&mut self)
        ensures
            final(self)@.to_multiset() == old(self)@.to_multiset(),
            entries_sorted(final(self)@),
    {
        proof {
            self.lemma_view();
        }
        let mut this = Object::new();
        std::mem::swap(self, &mut this);
        proof {
            this.lemma_view();
        }
        let Object { entries, indexes: _ } = this;
        let sorted = sort_entries(entries);
        *self = Object::from_vec(sorted);
    }
}

} // verus!
