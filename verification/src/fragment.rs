//! Fragments of a JSON value: the value itself and, recursively, the items of
//! its arrays, the entries of its objects, their keys and their values, in
//! the order in which they are written. The code map of a parsed document has
//! one entry per fragment, in this order.
use vstd::prelude::*;
use crate::value::{
    Value, JValue, values_view, entries_view, lemma_values_view_push, lemma_entries_view_push,
};
use crate::object::{Object, Entry};

verus! {

/// Model of a fragment.
pub enum JFragment {
    Value(JValue),
    Entry(Seq<char>, JValue),
    Key(Seq<char>),
}

/// The fragments of `v`, in pre-order.
pub open spec fn value_fragments(v: JValue) -> Seq<JFragment>
    decreases v, 1int,
{
    seq![JFragment::Value(v)] + match v {
        JValue::Array(items) => items_fragments(items),
        JValue::Object(entries) => entries_fragments(entries),
        _ => Seq::empty(),
    }
}

/// The fragments of the items `items`, one item after the other.
pub open spec fn items_fragments(items: Seq<JValue>) -> Seq<JFragment>
    decreases items, 0int,
{
    if items.len() == 0 {
        Seq::empty()
    } else {
        items_fragments(items.drop_last()) + value_fragments(items[items.len() - 1])
    }
}

/// The fragments of the entries `entries`, one entry after the other: the
/// entry, its key, then the fragments of its value.
pub open spec fn entries_fragments(entries: Seq<(Seq<char>, JValue)>) -> Seq<JFragment>
    decreases entries, 0int,
{
    if entries.len() == 0 {
        Seq::empty()
    } else {
        let (k, v) = entries[entries.len() - 1];
        entries_fragments(entries.drop_last()) + seq![JFragment::Entry(k, v), JFragment::Key(k)]
            + value_fragments(entries[entries.len() - 1].1)
    }
}

/// The fragments of the entry `k`-`v`.
pub open spec fn entry_fragments(k: Seq<char>, v: JValue) -> Seq<JFragment> {
    seq![JFragment::Entry(k, v), JFragment::Key(k)] + value_fragments(v)
}

pub proof fn lemma_items_fragments_split(a: Seq<JValue>, b: Seq<JValue>)
    ensures
        items_fragments(a + b) == items_fragments(a) + items_fragments(b),
    decreases b.len(),
{
    if b.len() == 0 {
        assert(a + b =~= a);
        assert(items_fragments(a) + items_fragments(b) =~= items_fragments(a));
    } else {
        lemma_items_fragments_split(a, b.drop_last());
        assert((a + b).drop_last() =~= a + b.drop_last());
        assert((a + b)[(a + b).len() - 1] == b[b.len() - 1]);
        assert(items_fragments(a) + items_fragments(b) =~= items_fragments(a) + items_fragments(
            b.drop_last(),
        ) + value_fragments(b[b.len() - 1]));
    }
}

pub proof fn lemma_entries_fragments_split(a: Seq<(Seq<char>, JValue)>, b: Seq<(Seq<char>, JValue)>)
    ensures
        entries_fragments(a + b) == entries_fragments(a) + entries_fragments(b),
    decreases b.len(),
{
    if b.len() == 0 {
        assert(a + b =~= a);
        assert(entries_fragments(a) + entries_fragments(b) =~= entries_fragments(a));
    } else {
        lemma_entries_fragments_split(a, b.drop_last());
        assert((a + b).drop_last() =~= a + b.drop_last());
        assert((a + b)[(a + b).len() - 1] == b[b.len() - 1]);
        let (k, v) = b[b.len() - 1];
        assert(entries_fragments(a) + entries_fragments(b) =~= entries_fragments(a)
            + entries_fragments(b.drop_last()) + seq![JFragment::Entry(k, v), JFragment::Key(k)]
            + value_fragments(v));
    }
}

/// The fragments of the items up to `i + 1` are those up to `i` followed by
/// those of item `i`.
proof fn lemma_items_fragments_step(s: Seq<Value>, i: int)
    requires
        0 <= i < s.len(),
    ensures
        items_fragments(values_view(s.take(i + 1))) == items_fragments(values_view(s.take(i)))
            + value_fragments(s[i].view_json()),
        items_fragments(values_view(s)) == items_fragments(values_view(s.take(i + 1)))
            + items_fragments(values_view(s.skip(i + 1))),
{
    assert(s.take(i + 1) =~= s.take(i).push(s[i]));
    lemma_values_view_push(s.take(i), s[i]);
    let w = values_view(s.take(i)).push(s[i].view_json());
    assert(w.drop_last() =~= values_view(s.take(i)));
    assert(s =~= s.take(i + 1) + s.skip(i + 1));
    lemma_values_view_split(s.take(i + 1), s.skip(i + 1));
    lemma_items_fragments_split(values_view(s.take(i + 1)), values_view(s.skip(i + 1)));
}

/// The fragments of the entries up to `i + 1` are those up to `i` followed
/// by those of entry `i`.
proof fn lemma_entries_fragments_step(s: Seq<Entry>, i: int)
    requires
        0 <= i < s.len(),
    ensures
        entries_fragments(entries_view(s.take(i + 1))) == entries_fragments(
            entries_view(s.take(i)),
        ) + entry_fragments(s[i].key@, s[i].value.view_json()),
        entries_fragments(entries_view(s)) == entries_fragments(entries_view(s.take(i + 1)))
            + entries_fragments(entries_view(s.skip(i + 1))),
{
    assert(s.take(i + 1) =~= s.take(i).push(s[i]));
    lemma_entries_view_push(s.take(i), s[i]);
    let w = entries_view(s.take(i)).push((s[i].key@, s[i].value.view_json()));
    assert(w.drop_last() =~= entries_view(s.take(i)));
    assert(entries_fragments(w) =~= entries_fragments(entries_view(s.take(i))) + entry_fragments(
        s[i].key@,
        s[i].value.view_json(),
    ));
    assert(s =~= s.take(i + 1) + s.skip(i + 1));
    lemma_entries_view_split(s.take(i + 1), s.skip(i + 1));
    lemma_entries_fragments_split(entries_view(s.take(i + 1)), entries_view(s.skip(i + 1)));
}

proof fn lemma_values_view_split(a: Seq<Value>, b: Seq<Value>)
    ensures
        values_view(a + b) == values_view(a) + values_view(b),
    decreases b.len(),
{
    if b.len() == 0 {
        assert(a + b =~= a);
        assert(values_view(a) + values_view(b) =~= values_view(a));
    } else {
        lemma_values_view_split(a, b.drop_last());
        assert((a + b).drop_last() =~= a + b.drop_last());
        assert(values_view(a) + values_view(b) =~= (values_view(a) + values_view(b.drop_last())).push(
            b.last().view_json(),
        ));
    }
}

proof fn lemma_entries_view_split(a: Seq<Entry>, b: Seq<Entry>)
    ensures
        entries_view(a + b) == entries_view(a) + entries_view(b),
    decreases b.len(),
{
    if b.len() == 0 {
        assert(a + b =~= a);
        assert(entries_view(a) + entries_view(b) =~= entries_view(a));
    } else {
        lemma_entries_view_split(a, b.drop_last());
        assert((a + b).drop_last() =~= a + b.drop_last());
        assert(entries_view(a) + entries_view(b) =~= (entries_view(a) + entries_view(
            b.drop_last(),
        )).push((b.last().key@, b.last().value.view_json())));
    }
}

/// The fragments directly below the fragment `f`: the items of an array,
/// the entries of an object, the key and the value of an entry.
pub open spec fn sub_fragments(f: JFragment) -> Seq<JFragment> {
    match f {
        JFragment::Value(JValue::Array(items)) => items.map_values(|v: JValue| JFragment::Value(v)),
        JFragment::Value(JValue::Object(entries)) => entries.map_values(
            |e: (Seq<char>, JValue)| JFragment::Entry(e.0, e.1),
        ),
        JFragment::Entry(k, v) => seq![JFragment::Key(k), JFragment::Value(v)],
        _ => Seq::empty(),
    }
}

/// The fragments of the fragment `f`: `f` itself, then those below it.
pub open spec fn fragment_fragments(f: JFragment) -> Seq<JFragment> {
    match f {
        JFragment::Value(v) => value_fragments(v),
        JFragment::Entry(k, v) => entry_fragments(k, v),
        JFragment::Key(_) => seq![f],
    }
}

/// The fragments of the fragments `fs`, one after the other.
pub open spec fn list_fragments(fs: Seq<JFragment>) -> Seq<JFragment>
    decreases fs.len(),
{
    if fs.len() == 0 {
        Seq::empty()
    } else {
        list_fragments(fs.drop_last()) + fragment_fragments(fs.last())
    }
}

/// The fragments of a stack of fragments, from its top (the last) down.
pub open spec fn stack_fragments(fs: Seq<JFragment>) -> Seq<JFragment>
    decreases fs.len(),
{
    if fs.len() == 0 {
        Seq::empty()
    } else {
        fragment_fragments(fs.last()) + stack_fragments(fs.drop_last())
    }
}

/// The number of value fragments among `fs`.
pub open spec fn value_count(fs: Seq<JFragment>) -> nat
    decreases fs.len(),
{
    if fs.len() == 0 {
        0
    } else {
        value_count(fs.drop_last()) + if fs.last() is Value {
            1nat
        } else {
            0nat
        }
    }
}

proof fn lemma_list_fragments_cons(x: JFragment, s: Seq<JFragment>)
    ensures
        list_fragments(seq![x] + s) == fragment_fragments(x) + list_fragments(s),
    decreases s.len(),
{
    if s.len() == 0 {
        assert(seq![x] + s =~= seq![x]);
        assert(seq![x].drop_last() =~= Seq::<JFragment>::empty());
        assert(fragment_fragments(x) + list_fragments(s) =~= fragment_fragments(x));
        assert(list_fragments(seq![x]) =~= list_fragments(Seq::<JFragment>::empty())
            + fragment_fragments(x));
    } else {
        lemma_list_fragments_cons(x, s.drop_last());
        assert((seq![x] + s).drop_last() =~= seq![x] + s.drop_last());
        assert((seq![x] + s).last() == s.last());
        assert(fragment_fragments(x) + list_fragments(s) =~= fragment_fragments(x)
            + list_fragments(s.drop_last()) + fragment_fragments(s.last()));
    }
}

proof fn lemma_items_list(items: Seq<JValue>)
    ensures
        items_fragments(items) == list_fragments(items.map_values(|v: JValue| JFragment::Value(v))),
    decreases items.len(),
{
    let m = items.map_values(|v: JValue| JFragment::Value(v));
    if items.len() > 0 {
        lemma_items_list(items.drop_last());
        assert(m.drop_last() =~= items.drop_last().map_values(|v: JValue| JFragment::Value(v)));
        assert(m.last() == JFragment::Value(items[items.len() - 1]));
    } else {
        assert(m =~= Seq::<JFragment>::empty());
    }
}

proof fn lemma_entries_list(entries: Seq<(Seq<char>, JValue)>)
    ensures
        entries_fragments(entries) == list_fragments(
            entries.map_values(|e: (Seq<char>, JValue)| JFragment::Entry(e.0, e.1)),
        ),
    decreases entries.len(),
{
    let m = entries.map_values(|e: (Seq<char>, JValue)| JFragment::Entry(e.0, e.1));
    if entries.len() > 0 {
        lemma_entries_list(entries.drop_last());
        assert(m.drop_last() =~= entries.drop_last().map_values(
            |e: (Seq<char>, JValue)| JFragment::Entry(e.0, e.1),
        ));
        let (k, v) = entries[entries.len() - 1];
        assert(m.last() == JFragment::Entry(k, v));
        assert(entries_fragments(entries) =~= entries_fragments(entries.drop_last())
            + entry_fragments(k, v));
    } else {
        assert(m =~= Seq::<JFragment>::empty());
    }
}

/// The fragments of a fragment are the fragment followed by the fragments of
/// those below it.
pub proof fn lemma_fragment_fragments(f: JFragment)
    ensures
        fragment_fragments(f) == seq![f] + list_fragments(sub_fragments(f)),
{
    match f {
        JFragment::Value(v) => {
            match v {
                JValue::Array(items) => {
                    lemma_items_list(items);
                },
                JValue::Object(entries) => {
                    lemma_entries_list(entries);
                },
                _ => {
                    assert(value_fragments(v) =~= seq![f]);
                    assert(seq![f] + list_fragments(Seq::<JFragment>::empty()) =~= seq![f]);
                },
            }
        },
        JFragment::Entry(k, v) => {
            let subs = seq![JFragment::Key(k), JFragment::Value(v)];
            assert(subs.drop_last() =~= seq![JFragment::Key(k)]);
            assert(seq![JFragment::Key(k)].drop_last() =~= Seq::<JFragment>::empty());
            let one = seq![JFragment::Key(k)];
            assert(one.last() == JFragment::Key(k));
            assert(fragment_fragments(JFragment::Key(k)) == one);
            assert(list_fragments(Seq::<JFragment>::empty()) == Seq::<JFragment>::empty());
            assert(list_fragments(one) == list_fragments(one.drop_last()) + fragment_fragments(
                one.last(),
            ));
            assert(list_fragments(one) =~= one);
            assert(list_fragments(subs) =~= seq![JFragment::Key(k)] + value_fragments(v));
            assert(entry_fragments(k, v) =~= seq![f] + list_fragments(subs));
        },
        JFragment::Key(_) => {
            assert(seq![f] + list_fragments(Seq::<JFragment>::empty()) =~= seq![f]);
        },
    }
}

proof fn lemma_value_count_split(a: Seq<JFragment>, b: Seq<JFragment>)
    ensures
        value_count(a + b) == value_count(a) + value_count(b),
    decreases b.len(),
{
    if b.len() == 0 {
        assert(a + b =~= a);
    } else {
        lemma_value_count_split(a, b.drop_last());
        assert((a + b).drop_last() =~= a + b.drop_last());
    }
}

/// A reference to a fragment of a value.
#[derive(Clone, Copy)]
pub enum FragmentRef<'a> {
    Value(&'a Value),
    Entry(&'a Entry),
    Key(&'a String),
}

impl<'a> View for FragmentRef<'a> {
    type V = JFragment;

    open spec fn view(&self) -> JFragment {
        match *self {
            FragmentRef::Value(v) => JFragment::Value(v.view_json()),
            FragmentRef::Entry(e) => JFragment::Entry(e.key@, e.value.view_json()),
            FragmentRef::Key(k) => JFragment::Key(k@),
        }
    }
}

/// Finds the fragment at `index` among the fragments of the items `array`:
/// `Err` with what is left of `index` past them if there are not enough.
pub fn get_array_fragment(array: &[Value], index: usize) -> (r: Result<FragmentRef<'_>, usize>)
    ensures
        index < items_fragments(values_view(array@)).len() ==> (r matches Ok(f) && f@
            == items_fragments(values_view(array@))[index as int]),
        index >= items_fragments(values_view(array@)).len() ==> (r matches Err(j) && j == index
            - items_fragments(values_view(array@)).len()),
    decreases array@, 0int,
{
    let mut rest = index;
    let mut i: usize = 0;
    proof {
        assert(array@.take(0) =~= Seq::<Value>::empty());
        assert(values_view(Seq::<Value>::empty()) =~= Seq::<JValue>::empty());
    }
    while i < array.len()
        invariant
            i <= array@.len(),
            index == rest + items_fragments(values_view(array@.take(i as int))).len(),
        decreases array@.len() - i,
    {
        proof {
            lemma_items_fragments_step(array@, i as int);
            assert(decreases_to!(array@ => array@[i as int]));
        }
        match array[i].get_fragment(rest) {
            Ok(f) => {
                return Ok(f);
            },
            Err(j) => {
                rest = j;
            },
        }
        i = i + 1;
    }
    proof {
        assert(array@.take(i as int) =~= array@);
    }
    Err(rest)
}

impl Value {
    /// Finds the fragment at `index` among the fragments of the value, in
    /// pre-order: `Err` with what is left of `index` past them if there are
    /// not enough.
    pub fn get_fragment(&self, index: usize) -> (r: Result<FragmentRef<'_>, usize>)
        ensures
            index < value_fragments(self.view_json()).len() ==> (r matches Ok(f) && f@
                == value_fragments(self.view_json())[index as int]),
            index >= value_fragments(self.view_json()).len() ==> (r matches Err(j) && j == index
                - value_fragments(self.view_json()).len()),
        decreases self, 1int,
    {
        if index == 0 {
            Ok(FragmentRef::Value(self))
        } else {
            match self {
                Value::Array(a) => {
                    proof {
                        assert(decreases_to!(self => a));
                        assert(decreases_to!(a => a@));
                    }
                    get_array_fragment(a.as_slice(), index - 1)
                },
                Value::Object(o) => {
                    proof {
                        o.lemma_view();
                    }
                    o.get_fragment(index - 1)
                },
                _ => Err(index - 1),
            }
        }
    }
}

impl Entry {
    /// Finds the fragment at `index` among the fragments of the entry.
    pub fn get_fragment(&self, index: usize) -> (r: Result<FragmentRef<'_>, usize>)
        ensures
            index < entry_fragments(self.key@, self.value.view_json()).len() ==> (r matches Ok(f)
                && f@ == entry_fragments(self.key@, self.value.view_json())[index as int]),
            index >= entry_fragments(self.key@, self.value.view_json()).len() ==> (r matches Err(
                j,
            ) && j == index - entry_fragments(self.key@, self.value.view_json()).len()),
        decreases self, 2int,
    {
        if index == 0 {
            Ok(FragmentRef::Entry(self))
        } else if index == 1 {
            Ok(FragmentRef::Key(&self.key))
        } else {
            self.value.get_fragment(index - 2)
        }
    }
}

impl Object {
    /// Finds the fragment at `index` among the fragments of the entries of
    /// the object.
    pub fn get_fragment(&self, index: usize) -> (r: Result<FragmentRef<'_>, usize>)
        ensures
            index < entries_fragments(self.view_json()).len() ==> (r matches Ok(f) && f@
                == entries_fragments(self.view_json())[index as int]),
            index >= entries_fragments(self.view_json()).len() ==> (r matches Err(j) && j == index
                - entries_fragments(self.view_json()).len()),
        decreases self, 0int,
    {
        proof {
            self.lemma_view();
        }
        let entries = &self.entries;
        let mut rest = index;
        let mut i: usize = 0;
        proof {
            assert(entries@.take(0) =~= Seq::<Entry>::empty());
            assert(entries_view(Seq::<Entry>::empty()) =~= Seq::<(Seq<char>, JValue)>::empty());
        }
        while i < entries.len()
            invariant
                entries == self.entries,
                self.view_json() == entries_view(entries@),
                i <= entries@.len(),
                index == rest + entries_fragments(entries_view(entries@.take(i as int))).len(),
            decreases entries@.len() - i,
        {
            proof {
                lemma_entries_fragments_step(entries@, i as int);
                assert(decreases_to!(self => self.entries));
                assert(decreases_to!(self.entries => self.entries@));
                assert(decreases_to!(self.entries@ => self.entries@[i as int]));
            }
            match entries[i].get_fragment(rest) {
                Ok(f) => {
                    return Ok(f);
                },
                Err(j) => {
                    rest = j;
                },
            }
            i = i + 1;
        }
        proof {
            assert(entries@.take(i as int) =~= entries@);
        }
        Err(rest)
    }
}

/// The models of the fragments `s`.
pub open spec fn refs_model<'a>(s: Seq<FragmentRef<'a>>) -> Seq<JFragment> {
    s.map_values(|f: FragmentRef<'a>| f@)
}

/// The models of the fragments of the numbered fragments `s`.
pub open spec fn numbered_model<'a>(s: Seq<(usize, FragmentRef<'a>)>) -> Seq<JFragment> {
    s.map_values(|p: (usize, FragmentRef<'a>)| p.1@)
}

/// `bs` holds, for each fragment of `xs` in order, what `f` may return on
/// its index and the fragment.
pub open spec fn call_outcomes<'a, F: Fn(usize, FragmentRef<'a>) -> bool>(
    f: F,
    xs: Seq<FragmentRef<'a>>,
    bs: Seq<bool>,
) -> bool {
    &&& bs.len() == xs.len()
    &&& forall|i: int| 0 <= i < bs.len() ==> #[trigger] f.ensures((i as usize, xs[i]), bs[i])
}

/// The number of `true` among `bs`.
pub open spec fn true_count(bs: Seq<bool>) -> nat
    decreases bs.len(),
{
    if bs.len() == 0 {
        0
    } else {
        true_count(bs.drop_last()) + if bs.last() {
            1nat
        } else {
            0nat
        }
    }
}

impl<'a> FragmentRef<'a> {
    pub fn is_entry(&self) -> (r: bool)
        ensures
            r == (self@ is Entry),
    {
        match self {
            FragmentRef::Entry(_) => true,
            _ => false,
        }
    }

    pub fn is_key(&self) -> (r: bool)
        ensures
            r == (self@ is Key),
    {
        match self {
            FragmentRef::Key(_) => true,
            _ => false,
        }
    }

    pub fn is_value(&self) -> (r: bool)
        ensures
            r == (self@ is Value),
    {
        match self {
            FragmentRef::Value(_) => true,
            _ => false,
        }
    }

    pub fn is_null(&self) -> (r: bool)
        ensures
            r == (self@ matches JFragment::Value(JValue::Null)),
    {
        match self {
            FragmentRef::Value(Value::Null) => true,
            _ => false,
        }
    }

    pub fn is_number(&self) -> (r: bool)
        ensures
            r == (self@ matches JFragment::Value(JValue::Number(_))),
    {
        match self {
            FragmentRef::Value(Value::Number(_)) => true,
            _ => false,
        }
    }

    pub fn is_string(&self) -> (r: bool)
        ensures
            r == (self@ matches JFragment::Value(JValue::String(_))),
    {
        match self {
            FragmentRef::Value(Value::String(_)) => true,
            _ => false,
        }
    }

    pub fn is_array(&self) -> (r: bool)
        ensures
            r == (self@ matches JFragment::Value(JValue::Array(_))),
    {
        match self {
            FragmentRef::Value(Value::Array(_)) => true,
            _ => false,
        }
    }

    pub fn is_object(&self) -> (r: bool)
        ensures
            r == (self@ matches JFragment::Value(JValue::Object(_))),
    {
        match self {
            FragmentRef::Value(Value::Object(_)) => true,
            _ => false,
        }
    }

    /// The same fragment.
    pub fn strip(self) -> (r: FragmentRef<'a>)
        ensures
            r == self,
    {
        match self {
            FragmentRef::Value(v) => FragmentRef::Value(v),
            FragmentRef::Entry(e) => FragmentRef::Entry(e),
            FragmentRef::Key(k) => FragmentRef::Key(k),
        }
    }

    /// The fragments directly below this one, in order.
    pub fn sub_fragments(&self) -> (r: Vec<FragmentRef<'a>>)
        ensures
            refs_model(r@) == sub_fragments(self@),
    {
        let mut r: Vec<FragmentRef<'a>> = Vec::new();
        match *self {
            FragmentRef::Value(Value::Array(a)) => {
                let mut i: usize = 0;
                while i < a.len()
                    invariant
                        i <= a@.len(),
                        r@.len() == i,
                        forall|j: int| 0 <= j < i ==> #[trigger] r@[j]@ == JFragment::Value(a@[j].view_json()),
                    decreases a@.len() - i,
                {
                    r.push(FragmentRef::Value(&a[i]));
                    i = i + 1;
                }
                proof {
                    crate::value::lemma_values_view(a@);
                    assert(refs_model(r@) =~= sub_fragments(self@));
                }
            },
            FragmentRef::Value(Value::Object(o)) => {
                let entries = &o.entries;
                let mut i: usize = 0;
                while i < entries.len()
                    invariant
                        i <= entries@.len(),
                        r@.len() == i,
                        forall|j: int| 0 <= j < i ==> #[trigger] r@[j]@ == JFragment::Entry(
                            entries@[j].key@,
                            entries@[j].value.view_json(),
                        ),
                    decreases entries@.len() - i,
                {
                    r.push(FragmentRef::Entry(&entries[i]));
                    i = i + 1;
                }
                proof {
                    o.lemma_view();
                    crate::value::lemma_entries_view(o.entries@);
                    assert(refs_model(r@) =~= sub_fragments(self@));
                }
            },
            FragmentRef::Entry(e) => {
                r.push(FragmentRef::Key(&e.key));
                r.push(FragmentRef::Value(&e.value));
                proof {
                    assert(refs_model(r@) =~= sub_fragments(self@));
                }
            },
            _ => {
                proof {
                    assert(refs_model(r@) =~= sub_fragments(self@));
                }
            },
        }
        r
    }
}

impl Value {
    /// The fragments of the value, in pre-order, each with its index.
    pub fn traverse(&self) -> (r: Vec<(usize, FragmentRef<'_>)>)
        ensures
            numbered_model(r@) == value_fragments(self.view_json()),
            forall|i: int| 0 <= i < r@.len() ==> #[trigger] r@[i].0 == i,
    {
        let ghost all = value_fragments(self.view_json());
        let mut stack: Vec<FragmentRef<'_>> = Vec::new();
        stack.push(FragmentRef::Value(self));
        let mut out: Vec<(usize, FragmentRef<'_>)> = Vec::new();
        proof {
            let m = refs_model(stack@);
            assert(m.drop_last() =~= Seq::<JFragment>::empty());
            assert(m.last() == JFragment::Value(self.view_json()));
            assert(stack_fragments(Seq::<JFragment>::empty()) == Seq::<JFragment>::empty());
            assert(stack_fragments(m) =~= all);
            assert(numbered_model(out@) + stack_fragments(m) =~= all);
        }
        while stack.len() > 0
            invariant
                numbered_model(out@) + stack_fragments(refs_model(stack@)) == all,
                forall|i: int| 0 <= i < out@.len() ==> #[trigger] out@[i].0 == i,
            decreases all.len() - out@.len(),
        {
            let ghost before = refs_model(stack@);
            let f = stack.pop().unwrap();
            let ghost rest = refs_model(stack@);
            proof {
                assert(before.drop_last() =~= rest);
                assert(before.last() == f@);
                lemma_fragment_fragments(f@);
            }
            let subs = f.sub_fragments();
            let mut j = subs.len();
            proof {
                assert(refs_model(subs@).skip(j as int) =~= Seq::<JFragment>::empty());
                assert(list_fragments(Seq::<JFragment>::empty()) + stack_fragments(rest)
                    =~= stack_fragments(rest));
            }
            while j > 0
                invariant
                    j <= subs@.len(),
                    stack_fragments(refs_model(stack@)) == list_fragments(
                        refs_model(subs@).skip(j as int),
                    ) + stack_fragments(rest),
                decreases j,
            {
                j = j - 1;
                let ghost s0 = refs_model(stack@);
                let x = subs[j];
                stack.push(x);
                proof {
                    let m = refs_model(subs@);
                    assert(refs_model(stack@) =~= s0.push(x@));
                    assert(s0.push(x@).drop_last() =~= s0);
                    assert(m.skip(j as int) =~= seq![m[j as int]] + m.skip(j + 1));
                    lemma_list_fragments_cons(m[j as int], m.skip(j + 1));
                    assert(stack_fragments(refs_model(stack@)) =~= list_fragments(
                        m.skip(j as int),
                    ) + stack_fragments(rest));
                }
            }
            let ghost out0 = numbered_model(out@);
            let i = out.len();
            out.push((i, f));
            proof {
                assert(refs_model(subs@).skip(0) =~= refs_model(subs@));
                assert(numbered_model(out@) =~= out0.push(f@));
                assert(stack_fragments(before) == fragment_fragments(f@) + stack_fragments(rest));
                assert(numbered_model(out@) + stack_fragments(refs_model(stack@)) =~= out0
                    + stack_fragments(before));
                assert((numbered_model(out@) + stack_fragments(refs_model(stack@))).len()
                    == all.len());
            }
        }
        proof {
            assert(refs_model(stack@) =~= Seq::<JFragment>::empty());
            assert(numbered_model(out@) + Seq::<JFragment>::empty() =~= numbered_model(out@));
        }
        out
    }

    /// The number of values in the value, itself included: its value
    /// fragments.
    pub fn volume(&self) -> (r: usize)
        ensures
            r == value_count(value_fragments(self.view_json())),
    {
        let t = self.traverse();
        let ghost m = numbered_model(t@);
        let mut c: usize = 0;
        let mut i: usize = 0;
        while i < t.len()
            invariant
                m == numbered_model(t@),
                i <= t@.len(),
                c <= i,
                c == value_count(m.take(i as int)),
            decreases t@.len() - i,
        {
            proof {
                assert(m.take(i + 1).drop_last() =~= m.take(i as int));
                assert(m.take(i + 1).last() == t@[i as int].1@);
            }
            if t[i].1.is_value() {
                c = c + 1;
            }
            i = i + 1;
        }
        proof {
            assert(m.take(i as int) =~= m);
        }
        c
    }

    /// The number of fragments of the value for which `f`, given the index of
    /// the fragment and the fragment, returns `true`. `f` is called once on
    /// each fragment, in order.
    pub fn count<'a, F: Fn(usize, FragmentRef<'a>) -> bool>(&'a self, f: F) -> (r: usize)
        requires
            forall|i: usize, x: FragmentRef<'a>| #[trigger] f.requires((i, x)),
        ensures
            exists|xs: Seq<FragmentRef<'a>>, bs: Seq<bool>|
                refs_model(xs) == value_fragments(self.view_json()) && call_outcomes(f, xs, bs) && r
                    == true_count(bs),
    {
        let t = self.traverse();
        let ghost m = numbered_model(t@);
        let ghost mut bs: Seq<bool> = Seq::empty();
        let mut c: usize = 0;
        let mut i: usize = 0;
        while i < t.len()
            invariant
                m == numbered_model(t@),
                forall|j: int| 0 <= j < t@.len() ==> #[trigger] t@[j].0 == j,
                forall|j: usize, x: FragmentRef<'a>| #[trigger] f.requires((j, x)),
                i <= t@.len(),
                bs.len() == i,
                c <= i,
                c == true_count(bs),
                forall|j: int| 0 <= j < i ==> #[trigger] f.ensures((j as usize, t@[j].1), bs[j]),
            decreases t@.len() - i,
        {
            let (k, x) = t[i];
            let b = f(k, x);
            proof {
                let bs0 = bs;
                bs = bs.push(b);
                assert(bs.drop_last() =~= bs0);
            }
            if b {
                c = c + 1;
            }
            i = i + 1;
        }
        proof {
            let xs = t@.map_values(|p: (usize, FragmentRef<'a>)| p.1);
            assert(refs_model(xs) =~= m);
            assert(call_outcomes(f, xs, bs));
        }
        c
    }
}

/// The volume of a value is at least one: the value itself.
pub proof fn lemma_volume_positive(v: JValue)
    ensures
        value_count(value_fragments(v)) >= 1,
{
    let one = seq![JFragment::Value(v)];
    let rest = value_fragments(v).skip(1);
    assert(value_fragments(v) =~= one + rest);
    lemma_value_count_split(one, rest);
    assert(one.drop_last() =~= Seq::<JFragment>::empty());
    assert(value_count(Seq::<JFragment>::empty()) == 0);
    assert(one.last() is Value);
    assert(value_count(one) == value_count(one.drop_last()) + 1);
}

} // verus!
