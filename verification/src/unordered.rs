//! Comparison of values without regard to the order of object entries.
use vstd::prelude::*;
use vstd::std_specs::cmp::PartialEqSpecImpl;
use vstd::multiset::Multiset;
use crate::value::{Value, JValue, values_view, entries_view, lemma_values_view, lemma_entries_view};
use crate::object::{Object, Entry};
use crate::order::{
    entry_order, entries_sorted, entry_model, sort_entries, lemma_entry_order_laws,
    lemma_entry_order_antisymmetric,
};

verus! {

/// The entries `s` are in order: none is above one that comes after it.
pub open spec fn model_sorted(s: Seq<(Seq<char>, JValue)>) -> bool {
    forall|i: int, j: int| 0 <= i < j < s.len() ==> entry_order(#[trigger] s[i], #[trigger] s[j]) <= 0
}

/// The entries of `t` in order: the ordered sequence with the same entries,
/// each as many times as in `t`.
pub open spec fn sorted_entries(t: Seq<(Seq<char>, JValue)>) -> Seq<(Seq<char>, JValue)> {
    choose|s: Seq<(Seq<char>, JValue)>| model_sorted(s) && s.to_multiset() == t.to_multiset()
}

/// The form of `v` that forgets the order of object entries: every object's
/// entries, their values in that form too, put in order (by key, then by
/// value).
pub open spec fn canonical(v: JValue) -> JValue
    decreases v, 1int,
{
    match v {
        JValue::Array(items) => JValue::Array(canonical_items(items)),
        JValue::Object(entries) => JValue::Object(sorted_entries(canonical_entries(entries))),
        _ => v,
    }
}

/// The items `items`, each in the form of `canonical`.
pub open spec fn canonical_items(items: Seq<JValue>) -> Seq<JValue>
    decreases items, 0int,
{
    if items.len() == 0 {
        Seq::empty()
    } else {
        canonical_items(items.drop_last()).push(canonical(items[items.len() - 1]))
    }
}

/// The entries `entries`, in their order, each value in the form of
/// `canonical`.
pub open spec fn canonical_entries(entries: Seq<(Seq<char>, JValue)>) -> Seq<(Seq<char>, JValue)>
    decreases entries, 0int,
{
    if entries.len() == 0 {
        Seq::empty()
    } else {
        canonical_entries(entries.drop_last()).push(
            (entries[entries.len() - 1].0, canonical(entries[entries.len() - 1].1)),
        )
    }
}

/// `a` and `b` are equal up to the order of the entries of their objects:
/// arrays have the same items in the same order, and objects the same
/// entries, each as many times, in any order.
pub open spec fn unordered_eq_model(a: JValue, b: JValue) -> bool {
    canonical(a) == canonical(b)
}

/// The items `x` and `y` are equal, position by position, up to the order
/// of object entries.
pub open spec fn items_unordered(x: Seq<JValue>, y: Seq<JValue>) -> bool {
    canonical_items(x) == canonical_items(y)
}

proof fn lemma_canonical_items(items: Seq<JValue>)
    ensures
        canonical_items(items).len() == items.len(),
        forall|j: int|
            0 <= j < items.len() ==> #[trigger] canonical_items(items)[j] == canonical(items[j]),
    decreases items.len(),
{
    if items.len() > 0 {
        lemma_canonical_items(items.drop_last());
    }
}

proof fn lemma_canonical_entries(entries: Seq<(Seq<char>, JValue)>)
    ensures
        canonical_entries(entries).len() == entries.len(),
        forall|j: int|
            0 <= j < entries.len() ==> #[trigger] canonical_entries(entries)[j] == (
                entries[j].0,
                canonical(entries[j].1),
            ),
    decreases entries.len(),
{
    if entries.len() > 0 {
        lemma_canonical_entries(entries.drop_last());
    }
}

/// Two ordered sequences with the same entries, as many times each, are
/// equal.
proof fn lemma_sorted_unique(s: Seq<(Seq<char>, JValue)>, t: Seq<(Seq<char>, JValue)>)
    requires
        model_sorted(s),
        model_sorted(t),
        s.to_multiset() == t.to_multiset(),
    ensures
        s == t,
    decreases s.len(),
{
    broadcast use vstd::seq_lib::group_to_multiset_ensures;
    broadcast use vstd::multiset::group_multiset_axioms;

    assert(s.to_multiset().len() == s.len());
    assert(t.to_multiset().len() == t.len());
    if s.len() == 0 {
        assert(t =~= s);
    } else {
        assert(t.len() == s.len());
        let a = s[0];
        let b = t[0];
        assert(s.to_multiset().count(a) > 0);
        assert(t.contains(a));
        let j = choose|j: int| 0 <= j < t.len() && t[j] == a;
        assert(t.to_multiset().count(b) > 0);
        assert(s.contains(b));
        let i = choose|i: int| 0 <= i < s.len() && s[i] == b;
        lemma_entry_order_laws(a, b, a);
        lemma_entry_order_laws(a, a, a);
        lemma_entry_order_laws(b, b, b);
        lemma_entry_order_antisymmetric(a, b);
        if i > 0 {
            assert(entry_order(s[0], s[i]) <= 0);
        }
        if j > 0 {
            assert(entry_order(t[0], t[j]) <= 0);
        }
        assert(a == b);
        let s1 = s.drop_first();
        let t1 = t.drop_first();
        assert(s.remove(0) =~= s1);
        assert(t.remove(0) =~= t1);
        vstd::seq_lib::to_multiset_remove(s, 0);
        vstd::seq_lib::to_multiset_remove(t, 0);
        assert(model_sorted(s1)) by {
            assert forall|p: int, q: int| 0 <= p < q < s1.len() implies entry_order(
                #[trigger] s1[p],
                #[trigger] s1[q],
            ) <= 0 by {
                assert(s1[p] == s[p + 1] && s1[q] == s[q + 1]);
            }
        }
        assert(model_sorted(t1)) by {
            assert forall|p: int, q: int| 0 <= p < q < t1.len() implies entry_order(
                #[trigger] t1[p],
                #[trigger] t1[q],
            ) <= 0 by {
                assert(t1[p] == t[p + 1] && t1[q] == t[q + 1]);
            }
        }
        lemma_sorted_unique(s1, t1);
        assert(s =~= t) by {
            assert forall|k: int| 0 <= k < s.len() implies s[k] == t[k] by {
                if k > 0 {
                    assert(s[k] == s1[k - 1] && t[k] == t1[k - 1]);
                }
            }
        }
    }
}

/// Entries in order, each not above the next, are in order.
proof fn lemma_sorted_entries_model(s: Seq<Entry>)
    requires
        entries_sorted(s),
    ensures
        model_sorted(entries_view(s)),
{
    lemma_entries_view(s);
    let m = entries_view(s);
    assert forall|i: int, j: int| 0 <= i < j < m.len() implies entry_order(
        #[trigger] m[i],
        #[trigger] m[j],
    ) <= 0 by {
        lemma_sorted_from(s, i, j);
    }
}

proof fn lemma_sorted_from(s: Seq<Entry>, i: int, j: int)
    requires
        entries_sorted(s),
        0 <= i < j < s.len(),
    ensures
        entry_order(entries_view(s)[i], entries_view(s)[j]) <= 0,
    decreases j - i,
{
    lemma_entries_view(s);
    let m = entries_view(s);
    assert(entry_order(entry_model(s[j - 1]), entry_model(s[j - 1 + 1])) <= 0);
    assert(m[j - 1] == entry_model(s[j - 1]) && m[j] == entry_model(s[j]));
    if i < j - 1 {
        lemma_sorted_from(s, i, j - 1);
        lemma_entry_order_laws(m[i], m[j - 1], m[j]);
    }
}

/// Entries that are the same, as many times each, have models that are the
/// same, as many times each.
proof fn lemma_view_multiset(s: Seq<Entry>, t: Seq<Entry>)
    requires
        s.to_multiset() == t.to_multiset(),
    ensures
        entries_view(s).to_multiset() == entries_view(t).to_multiset(),
    decreases s.len(),
{
    broadcast use vstd::seq_lib::group_to_multiset_ensures;
    broadcast use vstd::multiset::group_multiset_axioms;

    lemma_entries_view(s);
    lemma_entries_view(t);
    if s.len() == 0 {
        assert(t.to_multiset().len() == 0);
        assert(t.len() == 0);
        assert(entries_view(s) =~= entries_view(t));
    } else {
        let n = s.len() - 1;
        let x = s[n];
        assert(s.to_multiset().count(x) > 0);
        assert(t.contains(x));
        let j = choose|j: int| 0 <= j < t.len() && t[j] == x;
        let s1 = s.drop_last();
        let t1 = t.remove(j);
        assert(s.remove(n) =~= s1);
        vstd::seq_lib::to_multiset_remove(s, n);
        vstd::seq_lib::to_multiset_remove(t, j);
        lemma_view_multiset(s1, t1);
        lemma_entries_view(s1);
        lemma_entries_view(t1);
        let ms = entries_view(s);
        let mt = entries_view(t);
        assert(ms.remove(n) =~= entries_view(s1));
        assert(mt.remove(j) =~= entries_view(t1)) by {
            assert forall|k: int| 0 <= k < t1.len() implies mt.remove(j)[k] == entries_view(t1)[k] by {
                if k < j {
                    assert(t1[k] == t[k]);
                } else {
                    assert(t1[k] == t[k + 1]);
                }
            }
        }
        vstd::seq_lib::to_multiset_remove(ms, n);
        vstd::seq_lib::to_multiset_remove(mt, j);
        assert(ms[n] == mt[j]);
        let e = ms[n];
        assert(ms.to_multiset() =~= ms.to_multiset().remove(e).insert(e));
        assert(mt.to_multiset() =~= mt.to_multiset().remove(e).insert(e));
    }
}

/// `e` put into the ordered entries `s`, before the first one it is not
/// above.
spec fn insert_sorted(e: (Seq<char>, JValue), s: Seq<(Seq<char>, JValue)>) -> Seq<(Seq<char>, JValue)>
    decreases s.len(),
{
    if s.len() == 0 {
        seq![e]
    } else if entry_order(e, s[0]) <= 0 {
        seq![e] + s
    } else {
        seq![s[0]] + insert_sorted(e, s.drop_first())
    }
}

/// The entries `t`, put in order one by one.
spec fn sort_spec(t: Seq<(Seq<char>, JValue)>) -> Seq<(Seq<char>, JValue)>
    decreases t.len(),
{
    if t.len() == 0 {
        Seq::empty()
    } else {
        insert_sorted(t.last(), sort_spec(t.drop_last()))
    }
}

proof fn lemma_insert_sorted(e: (Seq<char>, JValue), s: Seq<(Seq<char>, JValue)>)
    requires
        model_sorted(s),
    ensures
        model_sorted(insert_sorted(e, s)),
        insert_sorted(e, s).to_multiset() == s.to_multiset().insert(e),
    decreases s.len(),
{
    broadcast use vstd::seq_lib::group_to_multiset_ensures;
    broadcast use vstd::multiset::group_multiset_axioms;

    let r = insert_sorted(e, s);
    if s.len() == 0 {
        assert(seq![e] =~= Seq::<(Seq<char>, JValue)>::empty().push(e));
    } else if entry_order(e, s[0]) <= 0 {
        assert(r =~= seq![e] + s);
        vstd::seq_lib::lemma_multiset_commutative(seq![e], s);
        assert(seq![e] =~= Seq::<(Seq<char>, JValue)>::empty().push(e));
        assert forall|p: int, q: int| 0 <= p < q < r.len() implies entry_order(
            #[trigger] r[p],
            #[trigger] r[q],
        ) <= 0 by {
            if p == 0 {
                if q > 1 {
                    lemma_entry_order_laws(e, s[0], s[q - 1]);
                }
            } else {
                assert(r[p] == s[p - 1] && r[q] == s[q - 1]);
            }
        }
    } else {
        let rest = s.drop_first();
        assert(model_sorted(rest)) by {
            assert forall|p: int, q: int| 0 <= p < q < rest.len() implies entry_order(
                #[trigger] rest[p],
                #[trigger] rest[q],
            ) <= 0 by {
                assert(rest[p] == s[p + 1] && rest[q] == s[q + 1]);
            }
        }
        lemma_insert_sorted(e, rest);
        let ir = insert_sorted(e, rest);
        assert(r =~= seq![s[0]] + ir);
        assert(s =~= seq![s[0]] + rest);
        vstd::seq_lib::lemma_multiset_commutative(seq![s[0]], ir);
        vstd::seq_lib::lemma_multiset_commutative(seq![s[0]], rest);
        lemma_entry_order_antisymmetric(e, s[0]);
        assert forall|p: int, q: int| 0 <= p < q < r.len() implies entry_order(
            #[trigger] r[p],
            #[trigger] r[q],
        ) <= 0 by {
            if p == 0 {
                let x = ir[q - 1];
                assert(r[q] == x);
                assert(ir.to_multiset().count(x) > 0);
                if x != e {
                    assert(rest.to_multiset().count(x) > 0);
                    assert(rest.contains(x));
                    let k = choose|k: int| 0 <= k < rest.len() && rest[k] == x;
                    assert(s[k + 1] == x);
                }
            } else {
                assert(r[p] == ir[p - 1] && r[q] == ir[q - 1]);
            }
        }
    }
}

proof fn lemma_sort_spec(t: Seq<(Seq<char>, JValue)>)
    ensures
        model_sorted(sort_spec(t)),
        sort_spec(t).to_multiset() == t.to_multiset(),
    decreases t.len(),
{
    broadcast use vstd::seq_lib::group_to_multiset_ensures;

    if t.len() > 0 {
        lemma_sort_spec(t.drop_last());
        lemma_insert_sorted(t.last(), sort_spec(t.drop_last()));
        assert(t =~= t.drop_last().push(t.last()));
    }
}

/// Two objects are equal up to the order of their entries exactly when
/// they have the same entries, their values taken up to the order of
/// object entries, each as many times.
pub proof fn lemma_unordered_objects(x: Seq<(Seq<char>, JValue)>, y: Seq<(Seq<char>, JValue)>)
    ensures
        unordered_eq_model(JValue::Object(x), JValue::Object(y)) <==> canonical_entries(
            x,
        ).to_multiset() == canonical_entries(y).to_multiset(),
{
    let tx = canonical_entries(x);
    let ty = canonical_entries(y);
    lemma_sort_spec(tx);
    lemma_sort_spec(ty);
    assert(model_sorted(sorted_entries(tx)) && sorted_entries(tx).to_multiset() == tx.to_multiset());
    assert(model_sorted(sorted_entries(ty)) && sorted_entries(ty).to_multiset() == ty.to_multiset());
}

/// Mapping two sequences with the same elements, as many times each, gives
/// sequences with the same elements, as many times each.
proof fn lemma_map_multiset<A, B>(s: Seq<A>, t: Seq<A>, f: spec_fn(A) -> B)
    requires
        s.to_multiset() == t.to_multiset(),
    ensures
        s.map_values(f).to_multiset() == t.map_values(f).to_multiset(),
    decreases s.len(),
{
    broadcast use vstd::seq_lib::group_to_multiset_ensures;
    broadcast use vstd::multiset::group_multiset_axioms;

    assert(s.to_multiset().len() == s.len());
    assert(t.to_multiset().len() == t.len());
    if s.len() == 0 {
        assert(s.map_values(f) =~= t.map_values(f));
    } else {
        let n = s.len() - 1;
        let x = s[n];
        assert(s.to_multiset().count(x) > 0);
        assert(t.contains(x));
        let j = choose|j: int| 0 <= j < t.len() && t[j] == x;
        let s1 = s.drop_last();
        let t1 = t.remove(j);
        assert(s.remove(n) =~= s1);
        vstd::seq_lib::to_multiset_remove(s, n);
        vstd::seq_lib::to_multiset_remove(t, j);
        lemma_map_multiset(s1, t1, f);
        let ms = s.map_values(f);
        let mt = t.map_values(f);
        assert(ms.remove(n) =~= s1.map_values(f));
        assert(mt.remove(j) =~= t1.map_values(f));
        vstd::seq_lib::to_multiset_remove(ms, n);
        vstd::seq_lib::to_multiset_remove(mt, j);
        let e = f(x);
        assert(ms[n] == e && mt[j] == e);
        assert(ms.to_multiset() =~= ms.to_multiset().remove(e).insert(e));
        assert(mt.to_multiset() =~= mt.to_multiset().remove(e).insert(e));
    }
}

/// An object whose entries are those of another, each as many times, in
/// another order, is equal to it up to the order of entries.
pub proof fn lemma_unordered_permutation(x: Seq<(Seq<char>, JValue)>, y: Seq<(Seq<char>, JValue)>)
    requires
        x.to_multiset() == y.to_multiset(),
    ensures
        unordered_eq_model(JValue::Object(x), JValue::Object(y)),
{
    let f = |e: (Seq<char>, JValue)| (e.0, canonical(e.1));
    lemma_canonical_entries(x);
    lemma_canonical_entries(y);
    assert(canonical_entries(x) =~= x.map_values(f));
    assert(canonical_entries(y) =~= y.map_values(f));
    lemma_map_multiset(x, y, f);
    lemma_unordered_objects(x, y);
}

/// The value `a` in the form that forgets the order of object entries.
pub fn canonical_value(a: &Value) -> (r: Value)
    ensures
        r.view_json() == canonical(a.view_json()),
    decreases a, 2int,
{
    match a {
        Value::Array(x) => {
            proof {
                assert(decreases_to!(a => x));
            }
            Value::Array(canonical_items_of(x))
        },
        Value::Object(o) => {
            proof {
                assert(decreases_to!(a => o));
            }
            Value::Object(canonical_object(o))
        },
        _ => a.clone(),
    }
}

/// The items `x`, each in the form that forgets the order of object
/// entries.
pub fn canonical_items_of(x: &Vec<Value>) -> (r: Vec<Value>)
    ensures
        values_view(r@) == canonical_items(values_view(x@)),
    decreases x, 0int,
{
    let mut r: Vec<Value> = Vec::new();
    let mut i: usize = 0;
    while i < x.len()
        invariant
            i <= x@.len(),
            r@.len() == i,
            forall|j: int| 0 <= j < i ==> #[trigger] r@[j].view_json() == canonical(x@[j].view_json()),
        decreases x@.len() - i,
    {
        proof {
            assert(decreases_to!(x => x@));
            assert(decreases_to!(x@ => x@[i as int]));
        }
        let v = canonical_value(&x[i]);
        r.push(v);
        i = i + 1;
    }
    proof {
        lemma_values_view(r@);
        lemma_values_view(x@);
        lemma_canonical_items(values_view(x@));
        assert(values_view(r@) =~= canonical_items(values_view(x@)));
    }
    r
}

/// The object `o` in the form that forgets the order of object entries:
/// its entries, their values in that form, put in order.
pub fn canonical_object(o: &Object) -> (r: Object)
    ensures
        r.view_json() == sorted_entries(canonical_entries(o.view_json())),
    decreases o, 1int,
{
    proof {
        assert(decreases_to!(o => o.entries));
        o.lemma_view();
        lemma_entries_view(o.entries@);
    }
    let mut es: Vec<Entry> = Vec::new();
    let mut i: usize = 0;
    while i < o.entries.len()
        invariant
            i <= o.entries@.len(),
            es@.len() == i,
            forall|j: int|
                0 <= j < i ==> #[trigger] es@[j].key@ == o.entries@[j].key@ && es@[j].value.view_json()
                    == canonical(o.entries@[j].value.view_json()),
        decreases o.entries@.len() - i,
    {
        proof {
            assert(decreases_to!(o => o.entries));
            assert(decreases_to!(o.entries => o.entries@));
            assert(decreases_to!(o.entries@ => o.entries@[i as int]));
            assert(decreases_to!(o.entries@[i as int] => o.entries@[i as int].value));
        }
        let key = o.entries[i].key.clone();
        let value = canonical_value(&o.entries[i].value);
        es.push(Entry { key, value });
        i = i + 1;
    }
    let ghost t = canonical_entries(o.view_json());
    proof {
        lemma_entries_view(es@);
        lemma_canonical_entries(o.view_json());
        assert(entries_view(es@) =~= t);
    }
    let sorted = sort_entries(es);
    proof {
        lemma_view_multiset(sorted@, es@);
        lemma_sorted_entries_model(sorted@);
        let m = entries_view(sorted@);
        assert(model_sorted(m) && m.to_multiset() == t.to_multiset());
        lemma_sorted_unique(m, sorted_entries(t));
    }
    let r = Object::from_vec(sorted);
    proof {
        r.lemma_view();
    }
    r
}

/// Compares two values up to the order of object entries.
pub fn value_unordered_eq(a: &Value, b: &Value) -> (r: bool)
    ensures
        r == unordered_eq_model(a.view_json(), b.view_json()),
{
    let ca = canonical_value(a);
    let cb = canonical_value(b);
    ca == cb
}

/// Compares two sequences of values, position by position, up to the
/// order of object entries.
pub fn items_unordered_eq(x: &Vec<Value>, y: &Vec<Value>) -> (r: bool)
    ensures
        r == items_unordered(values_view(x@), values_view(y@)),
{
    let cx = Value::Array(canonical_items_of(x));
    let cy = Value::Array(canonical_items_of(y));
    cx == cy
}

/// Compares two objects up to the order of their entries.
pub fn object_unordered_eq(o: &Object, p: &Object) -> (r: bool)
    ensures
        r == unordered_eq_model(JValue::Object(o.view_json()), JValue::Object(p.view_json())),
{
    let co = canonical_object(o);
    let cp = canonical_object(p);
    co == cp
}

/// A value seen without regard to the order of the entries of its
/// objects: its `==` is the unordered comparison.
#[derive(Debug)]
pub struct Unordered<T>(pub T);

/// Comparison up to the order of object entries.
pub trait UnorderedPartialEq {
    /// The two are equal up to the order of object entries.
    spec fn unordered_eq_spec(&self, other: &Self) -> bool;

    fn unordered_eq(&self, other: &Self) -> (r: bool)
        ensures
            r == self.unordered_eq_spec(other),
    ;
}

/// Hashing that agrees with the comparison up to the order of object
/// entries, for the types that callers give one.
pub trait UnorderedHash {
    fn unordered_hash<H: core::hash::Hasher>(&self, state: &mut H);
}

impl<T: UnorderedHash> core::hash::Hash for Unordered<T> {
    fn hash<H: core::hash::Hasher>(&self, state: &mut H) {
        self.0.unordered_hash(state)
    }
}

/// Marker for types whose unordered comparison is an equivalence.
pub trait UnorderedEq: UnorderedPartialEq {

}

/// Gives a view of a value without regard to the order of object entries.
pub trait BorrowUnordered {
    fn as_unordered(&self) -> (r: Unordered<&Self>)
        ensures
            r.0 == self,
    ;
}

impl<T> BorrowUnordered for T {
    fn as_unordered(&self) -> (r: Unordered<&Self>) {
        Unordered(self)
    }
}

impl UnorderedPartialEq for Value {
    open spec fn unordered_eq_spec(&self, other: &Value) -> bool {
        unordered_eq_model(self.view_json(), other.view_json())
    }

    fn unordered_eq(&self, other: &Value) -> (r: bool) {
        value_unordered_eq(self, other)
    }
}

impl UnorderedEq for Value {

}

impl UnorderedPartialEq for Object {
    open spec fn unordered_eq_spec(&self, other: &Object) -> bool {
        unordered_eq_model(JValue::Object(self.view_json()), JValue::Object(other.view_json()))
    }

    fn unordered_eq(&self, other: &Object) -> (r: bool) {
        object_unordered_eq(self, other)
    }
}

impl UnorderedEq for Object {

}

impl UnorderedPartialEq for Vec<Value> {
    open spec fn unordered_eq_spec(&self, other: &Vec<Value>) -> bool {
        items_unordered(values_view(self@), values_view(other@))
    }

    fn unordered_eq(&self, other: &Vec<Value>) -> (r: bool) {
        items_unordered_eq(self, other)
    }
}

impl UnorderedEq for Vec<Value> {

}

impl<'a, T: UnorderedPartialEq> UnorderedPartialEq for &'a T {
    open spec fn unordered_eq_spec(&self, other: &&'a T) -> bool {
        (**self).unordered_eq_spec(*other)
    }

    fn unordered_eq(&self, other: &&'a T) -> (r: bool) {
        (**self).unordered_eq(*other)
    }
}

impl<'a, T: UnorderedEq> UnorderedEq for &'a T {

}

impl<T: UnorderedPartialEq> PartialEq for Unordered<T> {
    fn eq(&self, other: &Unordered<T>) -> (r: bool) {
        self.0.unordered_eq(&other.0)
    }
}

impl<T: UnorderedEq> Eq for Unordered<T> {

}

impl<T: UnorderedPartialEq> PartialEqSpecImpl for Unordered<T> {
    open spec fn obeys_eq_spec() -> bool {
        true
    }

    open spec fn eq_spec(&self, other: &Unordered<T>) -> bool {
        self.0.unordered_eq_spec(&other.0)
    }
}

/// Every value is equal to itself up to the order of object entries.
pub proof fn lemma_unordered_eq_reflexive(a: JValue)
    ensures
        unordered_eq_model(a, a),
{
}

/// Equality up to the order of object entries holds both ways.
pub proof fn lemma_unordered_eq_symmetric(a: JValue, b: JValue)
    requires
        unordered_eq_model(a, b),
    ensures
        unordered_eq_model(b, a),
{
}

/// Equality up to the order of object entries is transitive.
pub proof fn lemma_unordered_eq_transitive(a: JValue, b: JValue, c: JValue)
    requires
        unordered_eq_model(a, b),
        unordered_eq_model(b, c),
    ensures
        unordered_eq_model(a, c),
{
}

/// Equality up to the order of object entries keeps the kind of a value;
/// on null, booleans, numbers and strings it is plain equality; and two
/// arrays are equal that way when they have as many items, equal that way
/// position by position.
pub proof fn lemma_unordered_eq_structure(a: JValue, b: JValue)
    ensures
        unordered_eq_model(a, b) ==> {
            &&& (a is Null <==> b is Null)
            &&& (a is Boolean <==> b is Boolean)
            &&& (a is Number <==> b is Number)
            &&& (a is String <==> b is String)
            &&& (a is Array <==> b is Array)
            &&& (a is Object <==> b is Object)
        },
        !(a is Array) && !(a is Object) ==> (unordered_eq_model(a, b) <==> a == b),
        a is Array && b is Array ==> (unordered_eq_model(a, b) <==> (a->Array_0.len()
            == b->Array_0.len() && forall|i: int|
            0 <= i < a->Array_0.len() ==> #[trigger] unordered_eq_model(
                a->Array_0[i],
                b->Array_0[i],
            ))),
{
    if let (JValue::Array(x), JValue::Array(y)) = (a, b) {
        lemma_canonical_items(x);
        lemma_canonical_items(y);
        let pointwise = x.len() == y.len() && forall|i: int|
            0 <= i < x.len() ==> #[trigger] unordered_eq_model(x[i], y[i]);
        if pointwise {
            assert forall|i: int| 0 <= i < x.len() implies canonical_items(x)[i]
                == canonical_items(y)[i] by {
                assert(unordered_eq_model(x[i], y[i]));
            }
            assert(canonical_items(x) =~= canonical_items(y));
            assert(canonical(a) == JValue::Array(canonical_items(x)));
            assert(canonical(b) == JValue::Array(canonical_items(y)));
        }
        if unordered_eq_model(a, b) {
            assert(canonical_items(x) == canonical_items(y));
            assert forall|i: int| 0 <= i < x.len() implies #[trigger] unordered_eq_model(
                x[i],
                y[i],
            ) by {
                assert(canonical_items(x)[i] == canonical_items(y)[i]);
            }
        }
        assert(unordered_eq_model(a, b) <==> pointwise);
    }
}

/// Two objects equal up to the order of their entries have as many
/// entries, and each entry of one has an entry of the other with the same
/// key and a value equal to its own up to the order of object entries.
pub proof fn lemma_unordered_objects_match(x: Seq<(Seq<char>, JValue)>, y: Seq<(Seq<char>, JValue)>)
    requires
        unordered_eq_model(JValue::Object(x), JValue::Object(y)),
    ensures
        x.len() == y.len(),
        forall|i: int|
            0 <= i < x.len() ==> exists|j: int|
                0 <= j < y.len() && y[j].0 == (#[trigger] x[i]).0 && unordered_eq_model(
                    x[i].1,
                    y[j].1,
                ),
{
    broadcast use vstd::seq_lib::group_to_multiset_ensures;

    lemma_unordered_objects(x, y);
    let tx = canonical_entries(x);
    let ty = canonical_entries(y);
    lemma_canonical_entries(x);
    lemma_canonical_entries(y);
    assert(tx.to_multiset().len() == ty.to_multiset().len());
    assert forall|i: int| 0 <= i < x.len() implies exists|j: int|
        0 <= j < y.len() && y[j].0 == (#[trigger] x[i]).0 && unordered_eq_model(x[i].1, y[j].1) by {
        assert(tx.contains(tx[i]));
        assert(tx.to_multiset().count(tx[i]) > 0);
        assert(ty.to_multiset().count(tx[i]) > 0);
        assert(ty.contains(tx[i]));
        let j = choose|j: int| 0 <= j < ty.len() && ty[j] == tx[i];
        assert(ty[j] == (y[j].0, canonical(y[j].1)));
        assert(tx[i] == (x[i].0, canonical(x[i].1)));
    }
}

} // verus!
