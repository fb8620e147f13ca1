//! JSON objects: entries in order, duplicates included, with an index from
//! keys to entries.
use vstd::prelude::*;
use vstd::std_specs::cmp::PartialEqSpecImpl;
use vstd::std_specs::convert::FromSpecImpl;

pub mod index_map;
pub mod mapped;

use crate::value::{
    Value, JValue, entries_view, lemma_entries_view, lemma_entries_view_push, value_clone,
    entries_eq,
};
use index_map::{
    IndexMap, Indexes, increasing, values_wf, lemma_increasing_ext, shifted_up, shifted_down,
};

verus! {

/// Object entry.
#[derive(Debug, Hash)]
pub struct Entry {
    pub key: String,
    pub value: Value,
}

impl Entry {
    pub fn new(key: String, value: Value) -> (r: Entry)
        ensures
            r.key == key,
            r.value == value,
    {
        Entry { key, value }
    }

    pub fn as_key(&self) -> (r: &String)
        ensures
            r == self.key,
    {
        &self.key
    }

    pub fn as_value(&self) -> (r: &Value)
        ensures
            r == self.value,
    {
        &self.value
    }

    pub fn into_key(self) -> (r: String)
        ensures
            r == self.key,
    {
        self.key
    }

    pub fn into_value(self) -> (r: Value)
        ensures
            r == self.value,
    {
        self.value
    }

    pub fn as_pair(&self) -> (r: (&String, &Value))
        ensures
            r.0 == self.key,
            r.1 == self.value,
    {
        (&self.key, &self.value)
    }

    pub fn into_pair(self) -> (r: (String, Value))
        ensures
            r.0 == self.key,
            r.1 == self.value,
    {
        (self.key, self.value)
    }
}

/// Two entries with the same key, found where one was expected.
#[derive(Clone, Debug)]
pub struct Duplicate<T>(pub T, pub T);

/// The keys of the entries `s`.
pub open spec fn entry_keys(s: Seq<Entry>) -> Seq<Seq<char>> {
    s.map_values(|e: Entry| e.key@)
}

/// The indexes, in increasing order, at which `keys` holds `k`.
pub open spec fn key_indexes(keys: Seq<Seq<char>>, k: Seq<char>) -> Seq<usize>
    decreases keys.len(),
{
    if keys.len() == 0 {
        Seq::empty()
    } else {
        key_indexes(keys.drop_last(), k) + if keys.last() == k {
            seq![(keys.len() - 1) as usize]
        } else {
            Seq::empty()
        }
    }
}

/// The index map `m` maps each key of `keys` to the indexes at which it
/// occurs.
pub open spec fn index_ok(keys: Seq<Seq<char>>, m: Map<Seq<char>, Seq<usize>>) -> bool {
    &&& values_wf(m)
    &&& forall|k: Seq<char>| m.dom().contains(k) <==> keys.contains(k)
    &&& forall|k: Seq<char>| #[trigger] m.dom().contains(k) ==> m[k] == key_indexes(keys, k)
}

/// The indexes of `k` in `keys` are increasing, and are those at which
/// `keys` holds `k`.
pub proof fn lemma_key_indexes(keys: Seq<Seq<char>>, k: Seq<char>)
    requires
        keys.len() <= usize::MAX + 1,
    ensures
        increasing(key_indexes(keys, k)),
        forall|y: usize|
            #[trigger] key_indexes(keys, k).contains(y) <==> (y < keys.len() && keys[y as int] == k),
        key_indexes(keys, k).len() > 0 <==> keys.contains(k),
    decreases keys.len(),
{
    let ki = key_indexes(keys, k);
    if keys.len() > 0 {
        let pre = keys.drop_last();
        lemma_key_indexes(pre, k);
        let pk = key_indexes(pre, k);
        let n = (keys.len() - 1) as usize;
        if keys.last() == k {
            assert(ki == pk.push(n));
            assert forall|a: int, b: int| 0 <= a < b < ki.len() implies ki[a] < ki[b] by {
                if b == ki.len() - 1 {
                    assert(pk.contains(pk[a]));
                }
            }
            assert forall|y: usize| #[trigger] ki.contains(y) <==> (y < keys.len() && keys[y as int] == k) by {
                if ki.contains(y) {
                    let j = choose|j: int| 0 <= j < ki.len() && ki[j] == y;
                    if j < pk.len() {
                        assert(pk.contains(y));
                    }
                }
                if y < keys.len() && keys[y as int] == k {
                    if y == n {
                        assert(ki[pk.len() as int] == y);
                    } else {
                        assert(pre[y as int] == k);
                        assert(pk.contains(y));
                        let j = choose|j: int| 0 <= j < pk.len() && pk[j] == y;
                        assert(ki[j] == y);
                    }
                }
            }
            assert(ki.contains(n));
            assert(keys[n as int] == k);
        } else {
            assert(ki =~= pk);
            assert forall|y: usize| #[trigger] ki.contains(y) <==> (y < keys.len() && keys[y as int] == k) by {
                if y < keys.len() && keys[y as int] == k {
                    assert(y != n);
                    assert(pre[y as int] == k);
                }
            }
        }
        if keys.contains(k) {
            let y = choose|y: int| 0 <= y < keys.len() && keys[y] == k;
            assert(ki.contains(y as usize));
        }
        if ki.len() > 0 {
            assert(ki.contains(ki[0]));
        }
    } else {
        assert(ki.len() == 0);
    }
}

/// An index map whose keys are those of `keys`, and whose indexes are
/// increasing and at the places of their keys, is the index of `keys`.
pub proof fn lemma_index_ok_intro(keys: Seq<Seq<char>>, m: Map<Seq<char>, Seq<usize>>)
    requires
        keys.len() <= usize::MAX,
        forall|k: Seq<char>| m.dom().contains(k) <==> keys.contains(k),
        values_wf(m),
        forall|k: Seq<char>, y: usize|
            m.dom().contains(k) ==> (#[trigger] m[k].contains(y) <==> (y < keys.len() && keys[y as int] == k)),
    ensures
        index_ok(keys, m),
{
    assert forall|k: Seq<char>| #[trigger] m.dom().contains(k) implies m[k] == key_indexes(keys, k) by {
        lemma_key_indexes(keys, k);
        assert forall|y: usize| m[k].contains(y) <==> key_indexes(keys, k).contains(y) by {
            assert(m[k].contains(y) <==> (y < keys.len() && keys[y as int] == k));
        }
        lemma_increasing_ext(m[k], key_indexes(keys, k));
    }
}

/// The facts that an index map gives of its keys.
pub proof fn lemma_index_ok_elim(keys: Seq<Seq<char>>, m: Map<Seq<char>, Seq<usize>>)
    requires
        keys.len() <= usize::MAX,
        index_ok(keys, m),
    ensures
        forall|k: Seq<char>, y: usize|
            m.dom().contains(k) ==> (#[trigger] m[k].contains(y) <==> (y < keys.len() && keys[y as int] == k)),
        forall|k: Seq<char>| #[trigger] m.dom().contains(k) ==> m[k].len() > 0,
{
    assert forall|k: Seq<char>, y: usize| m.dom().contains(k) implies (#[trigger] m[k].contains(y) <==> (y
        < keys.len() && keys[y as int] == k)) by {
        lemma_key_indexes(keys, k);
    }
    assert forall|k: Seq<char>| #[trigger] m.dom().contains(k) implies m[k].len() > 0 by {
        lemma_key_indexes(keys, k);
    }
}

/// Object: entries in order, duplicates included.
#[derive(Debug)]
pub struct Object {
    pub(crate) entries: Vec<Entry>,
    pub(crate) indexes: IndexMap,
}

/// Rust's `Hash::hash` of a vector of entries: feeds its length and its
/// entries, in order, to `state`. Nothing is stated of the state that
/// results.
#[verifier::external_body]
fn hash_entries<H: core::hash::Hasher>(entries: &Vec<Entry>, state: &mut H) {
    core::hash::Hash::hash(entries, state)
}

/// Objects hash as their list of entries.
impl core::hash::Hash for Object {
    fn hash<H: core::hash::Hasher>(&self, state: &mut H) {
        hash_entries(&self.entries, state)
    }
}

impl View for Object {
    type V = Seq<Entry>;

    closed spec fn view(&self) -> Seq<Entry> {
        self.entries@
    }
}

/// The index after adding, at the end, an entry with the key `k0`.
pub proof fn lemma_index_push(
    keys: Seq<Seq<char>>,
    k0: Seq<char>,
    m0: Map<Seq<char>, Seq<usize>>,
    m: Map<Seq<char>, Seq<usize>>,
)
    requires
        keys.len() < usize::MAX,
        index_ok(keys, m0),
        values_wf(m),
        m.dom() == m0.dom().insert(k0),
        forall|k: Seq<char>| m0.dom().contains(k) && k != k0 ==> #[trigger] m[k] == m0[k],
        forall|x: usize|
            #[trigger] m[k0].contains(x) <==> (m0.dom().contains(k0) && m0[k0].contains(x)) || x
                == keys.len(),
    ensures
        index_ok(keys.push(k0), m),
{
    let keys2 = keys.push(k0);
    lemma_index_ok_elim(keys, m0);
    assert forall|k: Seq<char>| m.dom().contains(k) <==> keys2.contains(k) by {
        if keys2.contains(k) {
            let y = choose|y: int| 0 <= y < keys2.len() && keys2[y] == k;
            if y < keys.len() {
                assert(keys[y] == k);
            }
        }
        if keys.contains(k) {
            let y = choose|y: int| 0 <= y < keys.len() && keys[y] == k;
            assert(keys2[y] == k);
        }
        assert(keys2[keys.len() as int] == k0);
    }
    assert forall|k: Seq<char>, y: usize| m.dom().contains(k) implies (#[trigger] m[k].contains(y) <==> (y
        < keys2.len() && keys2[y as int] == k)) by {
        if k == k0 {
            if y < keys2.len() && keys2[y as int] == k {
                if y < keys.len() {
                    assert(keys[y as int] == k);
                    assert(keys.contains(k));
                    assert(m0.dom().contains(k));
                }
            }
            if m0.dom().contains(k) && m0[k].contains(y) {
                assert(y < keys.len() && keys[y as int] == k);
            }
        } else {
            assert(m0.dom().contains(k));
            assert(m0[k].contains(y) <==> (y < keys.len() && keys[y as int] == k));
            if y < keys2.len() && keys2[y as int] == k {
                assert(y < keys.len());
                assert(keys[y as int] == k);
            }
        }
    }
    lemma_index_ok_intro(keys2, m);
}

/// Adds the entry `entry` at the end of `entries`, and to the index.
fn push_entry_parts(entries: &mut Vec<Entry>, indexes: &mut IndexMap, entry: Entry) -> (r: bool)
    requires
        index_ok(entry_keys(old(entries)@), old(indexes).contents()),
    ensures
        index_ok(entry_keys(final(entries)@), final(indexes).contents()),
        final(entries)@.len() <= usize::MAX,
        final(entries)@ == old(entries)@.push(entry),
        r == !entry_keys(old(entries)@).contains(entry.key@),
{
    let ghost keys = entry_keys(entries@);
    let ghost k0 = entry.key@;
    let ghost m0 = indexes.contents();
    let index = entries.len();
    entries.push(entry);
    let n = entries.len();
    proof {
        assert(entry_keys(entries@) =~= keys.push(k0));
        lemma_index_ok_elim(keys, m0);
    }
    let r = indexes.insert(&entries[index].key, index);
    proof {
        assert(entries@[index as int].key@ == k0);
        lemma_index_push(keys, k0, m0, indexes.contents());
    }
    r
}

/// Adds the entry `entry` at the start of `entries`, and to the index.
fn push_entry_front_parts(entries: &mut Vec<Entry>, indexes: &mut IndexMap, entry: Entry) -> (r:
    bool)
    requires
        index_ok(entry_keys(old(entries)@), old(indexes).contents()),
        old(entries)@.len() < usize::MAX,
    ensures
        index_ok(entry_keys(final(entries)@), final(indexes).contents()),
        final(entries)@.len() <= usize::MAX,
        final(entries)@ == old(entries)@.insert(0, entry),
        r == !entry_keys(old(entries)@).contains(entry.key@),
{
    let ghost keys = entry_keys(entries@);
    let ghost k0 = entry.key@;
    let ghost m0 = indexes.contents();
    proof {
        lemma_index_ok_elim(keys, m0);
    }
    entries.insert(0, entry);
    let n = entries.len();
    let ghost keys2 = entry_keys(entries@);
    proof {
        assert(keys2 =~= keys.insert(0, k0));
        assert forall|k: Seq<char>, x: usize| m0.dom().contains(k) && #[trigger] m0[k].contains(x) implies x
            < usize::MAX by {
        }
    }
    indexes.shift_up(0);
    let ghost m1 = indexes.contents();
    proof {
        assert forall|k: Seq<char>, y: usize| m1.dom().contains(k) implies (#[trigger] m1[k].contains(y) <==> (1 <= y
            < keys2.len() && keys2[y as int] == k)) by {
            let s = m0[k];
            assert(m1[k] == s.map_values(|x: usize| shifted_up(x, 0)));
            if m1[k].contains(y) {
                let j = choose|j: int| 0 <= j < m1[k].len() && m1[k][j] == y;
                assert(s.contains(s[j]));
                assert(keys2[y as int] == keys[s[j] as int]);
            }
            if 1 <= y < keys2.len() && keys2[y as int] == k {
                assert(keys[y - 1] == k);
                assert(s.contains((y - 1) as usize));
                let j = choose|j: int| 0 <= j < s.len() && s[j] == (y - 1) as usize;
                assert(m1[k][j] == y);
            }
        }
    }
    let r = indexes.insert(&entries[0].key, 0);
    proof {
        let m = indexes.contents();
        assert(entries@[0].key@ == k0);
        assert forall|k: Seq<char>| m.dom().contains(k) <==> keys2.contains(k) by {
            if keys2.contains(k) {
                let y = choose|y: int| 0 <= y < keys2.len() && keys2[y] == k;
                if y > 0 {
                    assert(keys[y - 1] == k);
                }
            }
            if keys.contains(k) {
                let y = choose|y: int| 0 <= y < keys.len() && keys[y] == k;
                assert(keys2[y + 1] == k);
            }
            assert(keys2[0] == k0);
        }
        assert forall|k: Seq<char>, y: usize| m.dom().contains(k) implies (#[trigger] m[k].contains(y) <==> (y
            < keys2.len() && keys2[y as int] == k)) by {
            if k != k0 {
                assert(m1.dom().contains(k));
                assert(m1[k].contains(y) <==> (1 <= y < keys2.len() && keys2[y as int] == k));
                if y < keys2.len() && keys2[y as int] == k {
                    assert(y != 0);
                }
            } else {
                assert(keys2[0] == k0);
                if m1.dom().contains(k0) {
                    assert(m1[k0].contains(y) <==> (1 <= y < keys2.len() && keys2[y as int] == k0));
                } else {
                    assert(!m0.dom().contains(k0));
                    if 1 <= y < keys2.len() && keys2[y as int] == k0 {
                        assert(keys[y - 1] == k0);
                        assert(keys.contains(k0));
                    }
                }
            }
        }
        lemma_index_ok_intro(keys2, m);
    }
    r
}

/// Removes the entry at `index` from `entries` and from the index.
fn remove_at_parts(entries: &mut Vec<Entry>, indexes: &mut IndexMap, index: usize) -> (r: Entry)
    requires
        index_ok(entry_keys(old(entries)@), old(indexes).contents()),
        index < old(entries)@.len(),
    ensures
        index_ok(entry_keys(final(entries)@), final(indexes).contents()),
        final(entries)@.len() <= usize::MAX,
        final(entries)@ == old(entries)@.remove(index as int),
        r == old(entries)@[index as int],
{
    let ghost keys = entry_keys(entries@);
    let ghost m0 = indexes.contents();
    let ghost k0 = keys[index as int];
    let n = entries.len();
    proof {
        lemma_index_ok_elim(keys, m0);
    }
    indexes.remove(&entries[index].key, index);
    let ghost m1 = indexes.contents();
    proof {
        assert(entries@[index as int].key@ == k0);
        assert(m0.dom().contains(k0)) by {
            assert(keys[index as int] == k0);
            assert(keys.contains(k0));
        }
        assert(m0[k0].contains(index));
        // After the removal, no key has the index `index`, and each key has
        // the indexes at which it occurs, but `index`.
        assert forall|k: Seq<char>, y: usize| m1.dom().contains(k) implies (#[trigger] m1[k].contains(y) <==> (y
            < keys.len() && keys[y as int] == k && y != index)) by {
            if k == k0 && m0[k0] != seq![index] {
                assert(m1[k0].contains(y) <==> m0[k0].contains(y) && y != index);
            }
        }
        assert forall|k: Seq<char>| #[trigger] m1.dom().contains(k) implies !m1[k].contains(index) by {
        }
        assert forall|k: Seq<char>| m1.dom().contains(k) <==> (exists|y: usize|
            y < keys.len() && y != index && #[trigger] keys[y as int] == k) by {
            if m1.dom().contains(k) {
                assert(values_wf(m1));
                if k == k0 && m0[k0] != seq![index] {
                    // Another index of `k0` is left.
                    if forall|y: usize| m0[k0].contains(y) ==> y == index {
                        assert forall|y: usize| m0[k0].contains(y) <==> seq![index].contains(y) by {
                            if y == index {
                                assert(seq![index][0] == y);
                            }
                        }
                        assert(increasing(seq![index]));
                        lemma_increasing_ext(m0[k0], seq![index]);
                    }
                    let y = choose|y: usize| m0[k0].contains(y) && y != index;
                    assert(keys[y as int] == k);
                    assert(y < keys.len());
                } else {
                    assert(m0.dom().contains(k));
                    assert(m0[k].len() > 0);
                    let y = m0[k][0];
                    assert(m0[k].contains(y));
                    assert(keys[y as int] == k);
                    assert(y < keys.len());
                    if y == index {
                        assert(k == k0);
                    }
                }
            }
            if exists|y: usize| y < keys.len() && y != index && #[trigger] keys[y as int] == k {
                let y = choose|y: usize| y < keys.len() && y != index && #[trigger] keys[y as int] == k;
                assert(keys.contains(k));
                assert(m0.dom().contains(k));
                assert(m0[k].contains(y));
                if k == k0 {
                    if m0[k0] == seq![index] {
                        assert(seq![index].contains(y as usize));
                    }
                }
            }
        }
    }
    indexes.shift_down(index);
    let r = entries.remove(index);
    proof {
        let m = indexes.contents();
        let keys2 = entry_keys(entries@);
        assert(keys2 =~= keys.remove(index as int));
        assert forall|k: Seq<char>| m.dom().contains(k) <==> keys2.contains(k) by {
            if keys2.contains(k) {
                let y = choose|y: int| 0 <= y < keys2.len() && keys2[y] == k;
                if y < index {
                    assert(keys[y] == k);
                } else {
                    assert(keys[y + 1] == k);
                }
            }
            if m.dom().contains(k) {
                let y = choose|y: usize| y < keys.len() && y != index && #[trigger] keys[y as int] == k;
                if y < index {
                    assert(keys2[y as int] == k);
                } else {
                    assert(keys2[y - 1] == k);
                }
            }
        }
        assert forall|k: Seq<char>, y: usize| m.dom().contains(k) implies (#[trigger] m[k].contains(y) <==> (y
            < keys2.len() && keys2[y as int] == k)) by {
            let s = m1[k];
            assert(m[k] == s.map_values(|x: usize| shifted_down(x, index)));
            if m[k].contains(y) {
                let j = choose|j: int| 0 <= j < m[k].len() && m[k][j] == y;
                assert(s.contains(s[j]));
            }
            if y < keys2.len() && keys2[y as int] == k {
                if y < index {
                    assert(s.contains(y));
                    let j = choose|j: int| 0 <= j < s.len() && s[j] == y;
                    assert(m[k][j] == y);
                } else {
                    assert(keys[y + 1] == k);
                    assert(s.contains((y + 1) as usize));
                    let j = choose|j: int| 0 <= j < s.len() && s[j] == (y + 1) as usize;
                    assert(m[k][j] == y);
                }
            }
        }
        assert forall|k: Seq<char>| #[trigger] m.dom().contains(k) implies increasing(m[k]) by {
        }
        lemma_index_ok_intro(keys2, m);
    }
    r
}

/// The entries of `s` with the key `k`, in order.
pub open spec fn with_key(s: Seq<Entry>, k: Seq<char>) -> Seq<Entry>
    decreases s.len(),
{
    if s.len() == 0 {
        Seq::empty()
    } else {
        with_key(s.drop_last(), k) + if s.last().key@ == k {
            seq![s.last()]
        } else {
            Seq::empty()
        }
    }
}

/// The entries of `s` with another key than `k`, in order.
pub open spec fn without_key(s: Seq<Entry>, k: Seq<char>) -> Seq<Entry>
    decreases s.len(),
{
    if s.len() == 0 {
        Seq::empty()
    } else {
        without_key(s.drop_last(), k) + if s.last().key@ == k {
            Seq::empty()
        } else {
            seq![s.last()]
        }
    }
}

pub proof fn lemma_key_split(a: Seq<Entry>, b: Seq<Entry>, k: Seq<char>)
    ensures
        with_key(a + b, k) == with_key(a, k) + with_key(b, k),
        without_key(a + b, k) == without_key(a, k) + without_key(b, k),
    decreases b.len(),
{
    if b.len() == 0 {
        assert(a + b =~= a);
        assert(with_key(a, k) + with_key(b, k) =~= with_key(a, k));
        assert(without_key(a, k) + without_key(b, k) =~= without_key(a, k));
    } else {
        lemma_key_split(a, b.drop_last(), k);
        assert((a + b).drop_last() =~= a + b.drop_last());
        assert((a + b).last() == b.last());
        assert(with_key(a, k) + with_key(b, k) =~= with_key(a, k) + with_key(b.drop_last(), k) + (
        if b.last().key@ == k {
            seq![b.last()]
        } else {
            Seq::empty()
        }));
        assert(without_key(a, k) + without_key(b, k) =~= without_key(a, k) + without_key(
            b.drop_last(),
            k,
        ) + (if b.last().key@ == k {
            Seq::empty()
        } else {
            seq![b.last()]
        }));
    }
}

/// Without the key `k`, nothing is left out.
pub proof fn lemma_key_absent(s: Seq<Entry>, k: Seq<char>)
    requires
        !entry_keys(s).contains(k),
    ensures
        with_key(s, k) == Seq::<Entry>::empty(),
        without_key(s, k) == s,
    decreases s.len(),
{
    if s.len() > 0 {
        assert forall|i: int| 0 <= i < s.len() implies s[i].key@ != k by {
            assert(entry_keys(s)[i] == s[i].key@);
        }
        assert(!entry_keys(s.drop_last()).contains(k)) by {
            if entry_keys(s.drop_last()).contains(k) {
                let i = choose|i: int| 0 <= i < s.drop_last().len() && entry_keys(s.drop_last())[i] == k;
                assert(s[i].key@ == k);
            }
        }
        lemma_key_absent(s.drop_last(), k);
        assert(s.last().key@ != k);
        assert(s.drop_last().push(s.last()) =~= s);
    }
}

/// Removing the first entry with the key `k`.
pub proof fn lemma_remove_first(s: Seq<Entry>, k: Seq<char>, i: int)
    requires
        0 <= i < s.len(),
        s[i].key@ == k,
        !entry_keys(s.take(i)).contains(k),
    ensures
        with_key(s, k) == seq![s[i]] + with_key(s.remove(i), k),
        without_key(s, k) == without_key(s.remove(i), k),
{
    let a = s.take(i);
    let b = s.skip(i + 1);
    assert(s =~= a + seq![s[i]] + b);
    assert(s.remove(i) =~= a + b);
    lemma_key_split(a + seq![s[i]], b, k);
    lemma_key_split(a, seq![s[i]], k);
    lemma_key_split(a, b, k);
    lemma_key_absent(a, k);
    let one = seq![s[i]];
    assert(one.drop_last() =~= Seq::<Entry>::empty());
    assert(one.last() == s[i]);
    assert(with_key(Seq::<Entry>::empty(), k) == Seq::<Entry>::empty());
    assert(without_key(Seq::<Entry>::empty(), k) == Seq::<Entry>::empty());
    assert(with_key(one, k) == with_key(one.drop_last(), k) + seq![s[i]]);
    assert(with_key(one, k) =~= seq![s[i]]);
    assert(without_key(one, k) == without_key(one.drop_last(), k) + Seq::<Entry>::empty());
    assert(without_key(one, k) =~= Seq::<Entry>::empty());
    assert(Seq::<Entry>::empty() + seq![s[i]] + with_key(b, k) =~= seq![s[i]] + (
    Seq::<Entry>::empty() + with_key(b, k)));
    assert(a + Seq::<Entry>::empty() + without_key(b, k) =~= a + without_key(b, k));
}

/// The first index at which `keys` holds `k`, if any.
pub open spec fn first_index(keys: Seq<Seq<char>>, k: Seq<char>) -> Option<usize> {
    if key_indexes(keys, k).len() > 0 {
        Some(key_indexes(keys, k)[0])
    } else {
        None
    }
}

/// The second index at which `keys` holds `k`, if any.
pub open spec fn second_index(keys: Seq<Seq<char>>, k: Seq<char>) -> Option<usize> {
    if key_indexes(keys, k).len() > 1 {
        Some(key_indexes(keys, k)[1])
    } else {
        None
    }
}

/// The first index of a key is the first place where it occurs.
pub proof fn lemma_first_index(keys: Seq<Seq<char>>, k: Seq<char>)
    requires
        keys.len() <= usize::MAX,
    ensures
        first_index(keys, k) matches Some(i) ==> i < keys.len() && keys[i as int] == k
            && !keys.take(i as int).contains(k),
        first_index(keys, k) is None ==> !keys.contains(k),
{
    lemma_key_indexes(keys, k);
    let ki = key_indexes(keys, k);
    if ki.len() > 0 {
        let i = ki[0];
        assert(ki.contains(i));
        if keys.take(i as int).contains(k) {
            let j = choose|j: int| 0 <= j < i && keys.take(i as int)[j] == k;
            assert(keys[j] == k);
            assert(ki.contains(j as usize));
            let t = choose|t: int| 0 <= t < ki.len() && ki[t] == j as usize;
            if t > 0 {
                assert(ki[0] < ki[t]);
            }
        }
    }
}

/// Between the first and the second index of a key, the key does not occur.
pub proof fn lemma_second_index(keys: Seq<Seq<char>>, k: Seq<char>)
    requires
        keys.len() <= usize::MAX,
        key_indexes(keys, k).len() > 0,
    ensures
        ({
            let ki = key_indexes(keys, k);
            &&& ki[0] < keys.len() && keys[ki[0] as int] == k
            &&& ki.len() > 1 ==> ki[0] < ki[1] < keys.len() && keys[ki[1] as int] == k && forall|y: int|
                ki[0] < y < ki[1] ==> keys[y] != k
            &&& ki.len() == 1 ==> forall|y: int| ki[0] < y < keys.len() ==> keys[y] != k
        }),
{
    lemma_key_indexes(keys, k);
    let ki = key_indexes(keys, k);
    assert(ki.contains(ki[0]));
    if ki.len() > 1 {
        assert(ki.contains(ki[1]));
        assert forall|y: int| ki[0] < y < ki[1] implies keys[y] != k by {
            if keys[y] == k {
                assert(ki.contains(y as usize));
                let t = choose|t: int| 0 <= t < ki.len() && ki[t] == y as usize;
                if t >= 1 {
                    if t > 1 {
                        assert(ki[1] < ki[t]);
                    }
                }
            }
        }
    } else {
        assert forall|y: int| ki[0] < y < keys.len() implies keys[y] != k by {
            if keys[y] == k {
                assert(ki.contains(y as usize));
            }
        }
    }
}

/// Replaces the entry at `index` by `entry`, with the same key.
fn replace_at_parts(entries: &mut Vec<Entry>, indexes: &IndexMap, index: usize, entry: Entry) -> (r:
    Entry)
    requires
        index_ok(entry_keys(old(entries)@), indexes.contents()),
        old(entries)@.len() <= usize::MAX,
        index < old(entries)@.len(),
        entry.key@ == old(entries)@[index as int].key@,
    ensures
        index_ok(entry_keys(final(entries)@), indexes.contents()),
        final(entries)@.len() <= usize::MAX,
        final(entries)@ == old(entries)@.update(index as int, entry),
        r == old(entries)@[index as int],
{
    let mut e = entry;
    std::mem::swap(&mut entries[index], &mut e);
    proof {
        assert(entry_keys(entries@) =~= entry_keys(old(entries)@));
    }
    e
}

impl Object {
    #[verifier::type_invariant]
    closed spec fn wf(self) -> bool {
        &&& index_ok(entry_keys(self.entries@), self.indexes.contents())
        &&& self.entries@.len() <= usize::MAX
    }

    /// The model of the entries: keys and values.
    pub open(crate) spec fn view_json(&self) -> Seq<(Seq<char>, JValue)> {
        entries_view(self.entries@)
    }

    /// The entries of the object are its vector of entries.
    pub(crate) proof fn lemma_view(&self)
        ensures
            self@ == self.entries@,
            self.view_json() == entries_view(self@),
    {
    }

    pub fn new() -> (r: Object)
        ensures
            r@ == Seq::<Entry>::empty(),
            r.view_json() == Seq::<(Seq<char>, JValue)>::empty(),
    {
        let r = Object { entries: Vec::new(), indexes: IndexMap::new() };
        proof {
            lemma_index_ok_intro(entry_keys(r.entries@), r.indexes.contents());
        }
        r
    }

    /// The object of the entries `entries`, in order.
    pub fn from_vec(entries: Vec<Entry>) -> (r: Object)
        ensures
            r@ == entries@,
    {
        let mut indexes = IndexMap::new();
        let mut i: usize = 0;
        proof {
            assert(entry_keys(entries@).take(0) =~= Seq::<Seq<char>>::empty());
            lemma_index_ok_intro(entry_keys(entries@).take(0), indexes.contents());
        }
        while i < entries.len()
            invariant
                i <= entries@.len(),
                index_ok(entry_keys(entries@).take(i as int), indexes.contents()),
            decreases entries@.len() - i,
        {
            let ghost m0 = indexes.contents();
            indexes.insert(&entries[i].key, i);
            proof {
                let keys = entry_keys(entries@);
                lemma_index_ok_elim(keys.take(i as int), m0);
                assert(keys[i as int] == entries@[i as int].key@);
                lemma_index_push(keys.take(i as int), keys[i as int], m0, indexes.contents());
                assert(keys.take(i + 1) =~= keys.take(i as int).push(keys[i as int]));
            }
            i = i + 1;
        }
        proof {
            assert(entry_keys(entries@).take(entries@.len() as int) =~= entry_keys(entries@));
        }
        Object { entries, indexes }
    }

    /// Number of entries.
    pub fn len(&self) -> (r: usize)
        ensures
            r == self@.len(),
    {
        self.entries.len()
    }

    pub fn is_empty(&self) -> (r: bool)
        ensures
            r == (self@.len() == 0),
    {
        self.entries.len() == 0
    }

    /// The entries, in order.
    pub fn entries(&self) -> (r: &[Entry])
        ensures
            r@ == self@,
    {
        self.entries.as_slice()
    }

    /// The entries, in order.
    pub fn iter(&self) -> (r: &[Entry])
        ensures
            r@ == self@,
    {
        self.entries.as_slice()
    }

    pub fn first(&self) -> (r: Option<&Entry>)
        ensures
            self@.len() > 0 ==> r == Some(&self@[0]),
            self@.len() == 0 ==> r is None,
    {
        if self.entries.len() > 0 {
            Some(&self.entries[0])
        } else {
            None
        }
    }

    pub fn last(&self) -> (r: Option<&Entry>)
        ensures
            self@.len() > 0 ==> r == Some(&self@.last()),
            self@.len() == 0 ==> r is None,
    {
        let n = self.entries.len();
        if n > 0 {
            Some(&self.entries[n - 1])
        } else {
            None
        }
    }

    /// The indexes of the entries with the key `key`, in increasing order.
    fn key_indexes(&self, key: &str) -> (r: Option<&Indexes>)
        ensures
            r is Some <==> entry_keys(self@).contains(key@),
            r matches Some(ix) ==> ix@ == key_indexes(entry_keys(self@), key@) && ix@.len() > 0,
    {
        proof {
            use_type_invariant(self);
            lemma_key_indexes(entry_keys(self@), key@);
        }
        self.indexes.get(key)
    }

    /// Checks if this object contains the given key.
    pub fn contains_key(&self, key: &str) -> (r: bool)
        ensures
            r == entry_keys(self@).contains(key@),
    {
        self.key_indexes(key).is_some()
    }

    /// The index of the first entry with the key `key`.
    pub fn index_of(&self, key: &str) -> (r: Option<usize>)
        ensures
            r == first_index(entry_keys(self@), key@),
    {
        proof {
            use_type_invariant(self);
            lemma_key_indexes(entry_keys(self@), key@);
        }
        match self.key_indexes(key) {
            Some(ix) => Some(ix.first()),
            None => None,
        }
    }

    /// The index of the second entry with the key `key`.
    pub fn redundant_index_of(&self, key: &str) -> (r: Option<usize>)
        ensures
            r == second_index(entry_keys(self@), key@),
    {
        proof {
            use_type_invariant(self);
            lemma_key_indexes(entry_keys(self@), key@);
        }
        match self.key_indexes(key) {
            Some(ix) => ix.redundant(),
            None => None,
        }
    }

    /// The indexes of the entries with the key `key`, in increasing order.
    pub fn indexes_of(&self, key: &str) -> (r: Vec<usize>)
        ensures
            r@ == key_indexes(entry_keys(self@), key@),
    {
        proof {
            use_type_invariant(self);
            lemma_key_indexes(entry_keys(self@), key@);
        }
        match self.key_indexes(key) {
            Some(ix) => ix.iter(),
            None => Vec::new(),
        }
    }

    /// The values of the entries with the key `key`, in order.
    pub fn get(&self, key: &str) -> (r: Vec<&Value>)
        ensures
            r@.len() == with_key(self@, key@).len(),
            forall|i: int| 0 <= i < r@.len() ==> *r@[i] == with_key(self@, key@)[i].value,
    {
        let entries = self.get_entries(key);
        let mut r: Vec<&Value> = Vec::new();
        let mut i: usize = 0;
        while i < entries.len()
            invariant
                i <= entries@.len(),
                r@.len() == i,
                forall|j: int| 0 <= j < i ==> *r@[j] == entries@[j].value,
            decreases entries@.len() - i,
        {
            r.push(&entries[i].value);
            i = i + 1;
        }
        r
    }

    /// The entries with the key `key`, in order.
    pub fn get_entries(&self, key: &str) -> (r: Vec<&Entry>)
        ensures
            r@.len() == with_key(self@, key@).len(),
            forall|i: int| 0 <= i < r@.len() ==> *r@[i] == with_key(self@, key@)[i],
    {
        let ix = self.indexes_of(key);
        let mut r: Vec<&Entry> = Vec::new();
        let mut i: usize = 0;
        proof {
            use_type_invariant(self);
            lemma_key_indexes(entry_keys(self@), key@);
            lemma_with_key_indexes(self@, key@);
        }
        while i < ix.len()
            invariant
                i <= ix@.len(),
                ix@ == key_indexes(entry_keys(self@), key@),
                ix@.len() == with_key(self@, key@).len(),
                forall|j: int|
                    #![trigger with_key(self@, key@)[j]]
                    #![trigger key_indexes(entry_keys(self@), key@)[j]]
                    0 <= j < with_key(self@, key@).len() ==> key_indexes(entry_keys(self@), key@)[j]
                        < self@.len() && self@[key_indexes(entry_keys(self@), key@)[j] as int]
                        == with_key(self@, key@)[j],
                r@.len() == i,
                forall|j: int| 0 <= j < i ==> *r@[j] == with_key(self@, key@)[j],
            decreases ix@.len() - i,
        {
            assert(ix@[i as int] == key_indexes(entry_keys(self@), key@)[i as int]);
            r.push(&self.entries[ix[i]]);
            i = i + 1;
        }
        r
    }

    /// The values of the entries with the key `key`, in order, with their
    /// index.
    pub fn get_with_index(&self, key: &str) -> (r: Vec<(usize, &Value)>)
        ensures
            r@.len() == with_key(self@, key@).len(),
            forall|i: int|
                0 <= i < r@.len() ==> r@[i].0 == key_indexes(entry_keys(self@), key@)[i]
                    && *r@[i].1 == with_key(self@, key@)[i].value,
    {
        let ix = self.indexes_of(key);
        let mut r: Vec<(usize, &Value)> = Vec::new();
        let mut i: usize = 0;
        proof {
            use_type_invariant(self);
            lemma_key_indexes(entry_keys(self@), key@);
            lemma_with_key_indexes(self@, key@);
        }
        while i < ix.len()
            invariant
                i <= ix@.len(),
                ix@ == key_indexes(entry_keys(self@), key@),
                ix@.len() == with_key(self@, key@).len(),
                forall|j: int|
                    #![trigger with_key(self@, key@)[j]]
                    #![trigger key_indexes(entry_keys(self@), key@)[j]]
                    0 <= j < with_key(self@, key@).len() ==> key_indexes(entry_keys(self@), key@)[j]
                        < self@.len() && self@[key_indexes(entry_keys(self@), key@)[j] as int]
                        == with_key(self@, key@)[j],
                r@.len() == i,
                forall|j: int|
                    0 <= j < i ==> r@[j].0 == key_indexes(entry_keys(self@), key@)[j]
                        && *r@[j].1 == with_key(self@, key@)[j].value,
            decreases ix@.len() - i,
        {
            assert(ix@[i as int] == key_indexes(entry_keys(self@), key@)[i as int]);
            let n = ix[i];
            r.push((n, &self.entries[n].value));
            i = i + 1;
        }
        r
    }

    /// The entries with the key `key`, in order, with their index.
    pub fn get_entries_with_index(&self, key: &str) -> (r: Vec<(usize, &Entry)>)
        ensures
            r@.len() == with_key(self@, key@).len(),
            forall|i: int|
                0 <= i < r@.len() ==> r@[i].0 == key_indexes(entry_keys(self@), key@)[i]
                    && *r@[i].1 == with_key(self@, key@)[i],
    {
        let ix = self.indexes_of(key);
        let mut r: Vec<(usize, &Entry)> = Vec::new();
        let mut i: usize = 0;
        proof {
            use_type_invariant(self);
            lemma_key_indexes(entry_keys(self@), key@);
            lemma_with_key_indexes(self@, key@);
        }
        while i < ix.len()
            invariant
                i <= ix@.len(),
                ix@ == key_indexes(entry_keys(self@), key@),
                ix@.len() == with_key(self@, key@).len(),
                forall|j: int|
                    #![trigger with_key(self@, key@)[j]]
                    #![trigger key_indexes(entry_keys(self@), key@)[j]]
                    0 <= j < with_key(self@, key@).len() ==> key_indexes(entry_keys(self@), key@)[j]
                        < self@.len() && self@[key_indexes(entry_keys(self@), key@)[j] as int]
                        == with_key(self@, key@)[j],
                r@.len() == i,
                forall|j: int|
                    0 <= j < i ==> r@[j].0 == key_indexes(entry_keys(self@), key@)[j] && *r@[j].1
                        == with_key(self@, key@)[j],
            decreases ix@.len() - i,
        {
            assert(ix@[i as int] == key_indexes(entry_keys(self@), key@)[i as int]);
            let n = ix[i];
            r.push((n, &self.entries[n]));
            i = i + 1;
        }
        r
    }

    /// The value of the unique entry with the key `key`, if any; an error
    /// with the first two such entries if there are several.
    pub fn get_unique(&self, key: &str) -> (r: Result<Option<&Value>, Duplicate<&Entry>>)
        ensures
            with_key(self@, key@).len() == 0 ==> (r matches Ok(None)),
            with_key(self@, key@).len() == 1 ==> (r matches Ok(Some(v)) && *v == with_key(
                self@,
                key@,
            )[0].value),
            with_key(self@, key@).len() > 1 ==> (r matches Err(Duplicate(a, b)) && *a == with_key(
                self@,
                key@,
            )[0] && *b == with_key(self@, key@)[1]),
    {
        let entries = self.get_entries(key);
        if entries.len() == 0 {
            Ok(None)
        } else if entries.len() == 1 {
            Ok(Some(&entries[0].value))
        } else {
            Err(Duplicate(entries[0], entries[1]))
        }
    }

    /// The unique entry with the key `key`, if any; an error with the first
    /// two such entries if there are several.
    pub fn get_unique_entry(&self, key: &str) -> (r: Result<Option<&Entry>, Duplicate<&Entry>>)
        ensures
            with_key(self@, key@).len() == 0 ==> (r matches Ok(None)),
            with_key(self@, key@).len() == 1 ==> (r matches Ok(Some(e)) && *e == with_key(
                self@,
                key@,
            )[0]),
            with_key(self@, key@).len() > 1 ==> (r matches Err(Duplicate(a, b)) && *a == with_key(
                self@,
                key@,
            )[0] && *b == with_key(self@, key@)[1]),
    {
        let entries = self.get_entries(key);
        if entries.len() == 0 {
            Ok(None)
        } else if entries.len() == 1 {
            Ok(Some(entries[0]))
        } else {
            Err(Duplicate(entries[0], entries[1]))
        }
    }

    /// Replaces the entry at `index` by `entry`, which has the same key.
    fn replace_at(&mut self, index: usize, entry: Entry) -> (r: Entry)
        requires
            index < old(self)@.len(),
            entry.key@ == old(self)@[index as int].key@,
        ensures
            final(self)@ == old(self)@.update(index as int, entry),
            r == old(self)@[index as int],
    {
        proof {
            use_type_invariant(&*self);
        }
        let mut this = Object::new();
        std::mem::swap(self, &mut this);
        let Object { mut entries, indexes } = this;
        let r = replace_at_parts(&mut entries, &indexes, index, entry);
        *self = Object { entries, indexes };
        r
    }

    /// Removes the entries with the key `key` after the entry at `index`,
    /// the first one with that key, and returns them, in order.
    fn remove_after(&mut self, key: &str, index: usize) -> (r: Vec<Entry>)
        requires
            index < old(self)@.len(),
            old(self)@[index as int].key@ == key@,
            !entry_keys(old(self)@.take(index as int)).contains(key@),
        ensures
            final(self)@ == old(self)@.take(index + 1) + without_key(
                old(self)@.skip(index + 1),
                key@,
            ),
            r@ == with_key(old(self)@.skip(index + 1), key@),
    {
        let ghost head = old(self)@.take(index + 1);
        let ghost rest = old(self)@.skip(index + 1);
        let mut removed: Vec<Entry> = Vec::new();
        proof {
            assert(old(self)@ =~= head + rest);
            assert(removed@ + with_key(rest, key@) =~= with_key(rest, key@));
            assert(head.take(index as int) =~= old(self)@.take(index as int));
        }
        let ghost mut mid = rest;
        loop
            invariant
                head == old(self)@.take(index + 1),
                rest == old(self)@.skip(index + 1),
                index < head.len(),
                head.len() == index + 1,
                head[index as int].key@ == key@,
                !entry_keys(head.take(index as int)).contains(key@),
                self@ == head + mid,
                removed@ + with_key(mid, key@) == with_key(rest, key@),
                without_key(mid, key@) == without_key(rest, key@),
            decreases mid.len(),
        {
            proof {
                use_type_invariant(&*self);
                let keys = entry_keys(self@);
                lemma_key_indexes(keys, key@);
                assert(keys[index as int] == key@);
                assert(keys.contains(key@));
                lemma_first_index(keys, key@);
                lemma_second_index(keys, key@);
                let ki = key_indexes(keys, key@);
                // The first index of the key is `index`.
                if ki[0] < index {
                    assert(head.take(index as int)[ki[0] as int] == self@[ki[0] as int]);
                    assert(entry_keys(head.take(index as int))[ki[0] as int] == key@);
                    assert(entry_keys(head.take(index as int)).contains(key@));
                    assert(false);
                } else if ki[0] > index {
                    assert(ki.contains(index));
                    let t = choose|t: int| 0 <= t < ki.len() && ki[t] == index;
                    if t > 0 {
                        assert(ki[0] < ki[t]);
                    }
                    assert(false);
                }
                assert(ki[0] == index);
            }
            match self.redundant_index_of(key) {
                None => {
                    proof {
                        let keys = entry_keys(self@);
                        let ki = key_indexes(keys, key@);
                        assert(ki.len() == 1);
                        assert forall|y: int| 0 <= y < mid.len() implies entry_keys(mid)[y] != key@ by {
                            assert(self@[index + 1 + y] == mid[y]);
                            assert(keys[index + 1 + y] == mid[y].key@);
                            assert(keys[index + 1 + y] != key@);
                        }
                        assert(!entry_keys(mid).contains(key@));
                        lemma_key_absent(mid, key@);
                        assert(removed@ + Seq::<Entry>::empty() =~= removed@);
                        assert(self@ == head + without_key(rest, key@));
                        assert(removed@ == with_key(rest, key@));
                    }
                    return removed;
                },
                Some(j) => {
                    let ghost p = j - index - 1;
                    proof {
                        let keys = entry_keys(self@);
                        assert(mid[p].key@ == keys[j as int]);
                        assert forall|y: int| 0 <= y < p implies entry_keys(mid.take(p))[y] != key@ by {
                            assert(keys[index + 1 + y] == mid[y].key@);
                        }
                        lemma_remove_first(mid, key@, p);
                        assert(self@.remove(j as int) =~= head + mid.remove(p));
                    }
                    let e = self.remove_at(j).unwrap();
                    proof {
                        assert(removed@.push(e) + with_key(mid.remove(p), key@) =~= removed@ + (seq![e]
                            + with_key(mid.remove(p), key@)));
                        mid = mid.remove(p);
                    }
                    removed.push(e);
                },
            }
        }
    }

    /// Inserts the entry `key`-`value`: it replaces the first entry with the
    /// key, if any, and the other entries with the key are removed;
    /// otherwise it is added at the end. Returns the entries with the key
    /// that were there, in order, if any.
    pub fn insert(&mut self, key: String, value: Value) -> (r: Option<Vec<Entry>>)
        ensures
            !entry_keys(old(self)@).contains(key@) ==> r is None && final(self)@ == old(self)@.push(
                Entry { key, value },
            ),
            entry_keys(old(self)@).contains(key@) ==> (r matches Some(v) && v@ == with_key(
                old(self)@,
                key@,
            ) && (first_index(entry_keys(old(self)@), key@) matches Some(i) && final(self)@
                == old(self)@.take(i as int) + seq![Entry { key, value }] + without_key(
                old(self)@.skip(i + 1),
                key@,
            ))),
    {
        let k = key.clone();
        match self.index_of(k.as_str()) {
            None => {
                proof {
                    use_type_invariant(&*self);
                    lemma_first_index(entry_keys(self@), key@);
                }
                self.push(key, value);
                None
            },
            Some(index) => {
                proof {
                    use_type_invariant(&*self);
                    lemma_first_index(entry_keys(self@), key@);
                    assert(entry_keys(self@.take(index as int)) =~= entry_keys(self@).take(index as int));
                }
                let first = self.replace_at(index, Entry { key, value });
                proof {
                    assert(self@.take(index as int) =~= old(self)@.take(index as int));
                    assert(entry_keys(self@.take(index as int)) =~= entry_keys(old(self)@.take(index as int)));
                    assert(self@.skip(index + 1) =~= old(self)@.skip(index + 1));
                }
                let rest = self.remove_after(k.as_str(), index);
                let mut removed: Vec<Entry> = Vec::new();
                removed.push(first);
                let mut rest = rest;
                removed.append(&mut rest);
                proof {
                    let s = old(self)@;
                    assert(s =~= s.take(index as int) + seq![s[index as int]] + s.skip(index + 1));
                    lemma_key_split(s.take(index as int) + seq![s[index as int]], s.skip(index + 1), key@);
                    lemma_key_split(s.take(index as int), seq![s[index as int]], key@);
                    assert(entry_keys(s.take(index as int)) =~= entry_keys(s).take(index as int));
                    lemma_key_absent(s.take(index as int), key@);
                    let one = seq![s[index as int]];
                    assert(one.drop_last() =~= Seq::<Entry>::empty());
                    assert(with_key(one, key@) == with_key(one.drop_last(), key@) + one);
                    assert(removed@ =~= with_key(s, key@));
                    assert(old(self)@.update(index as int, Entry { key, value }).take(index + 1)
                        =~= s.take(index as int) + seq![Entry { key, value }]);
                }
                Some(removed)
            },
        }
    }

    /// Inserts the entry `key`-`value` at the start of the object, and
    /// removes all the entries with the key. Returns the removed entries, in
    /// order.
    pub fn insert_front(&mut self, key: String, value: Value) -> (r: Vec<Entry>)
        requires
            old(self)@.len() < usize::MAX,
        ensures
            final(self)@ == seq![Entry { key, value }] + without_key(old(self)@, key@),
            r@ == with_key(old(self)@, key@),
    {
        let k = key.clone();
        let ghost s = old(self)@;
        let mut removed: Vec<Entry> = Vec::new();
        let replace = if self.entries.len() > 0 {
            self.entries[0].key == k
        } else {
            false
        };
        if replace {
            let first = self.replace_at(0, Entry { key, value });
            removed.push(first);
            proof {
                assert(s =~= seq![s[0]] + s.skip(1));
                lemma_key_split(seq![s[0]], s.skip(1), key@);
                let one = seq![s[0]];
                assert(one.drop_last() =~= Seq::<Entry>::empty());
                assert(with_key(one, key@) == with_key(one.drop_last(), key@) + one);
                assert(without_key(one, key@) == without_key(one.drop_last(), key@) + Seq::<Entry>::empty());
            }
        } else {
            self.push_front(key, value);
            proof {
                if s.len() > 0 {
                    assert(s[0].key@ != key@);
                }
                assert(self@ =~= seq![Entry { key, value }] + s);
            }
        }
        let ghost before = self@;
        proof {
            assert(self@.take(0) =~= Seq::<Entry>::empty());
            assert(entry_keys(self@.take(0)) =~= Seq::<Seq<char>>::empty());
            assert(before.take(1) =~= seq![Entry { key, value }]);
            if replace {
                assert(before.skip(1) =~= s.skip(1));
                assert(without_key(s, key@) == without_key(s.skip(1), key@));
                assert(with_key(s, key@) == seq![s[0]] + with_key(s.skip(1), key@));
            } else {
                assert(before.skip(1) =~= s);
            }
        }
        let ghost removed_before = removed@;
        let mut rest = self.remove_after(k.as_str(), 0);
        removed.append(&mut rest);
        proof {
            assert(self@ == before.take(1) + without_key(before.skip(1), key@));
            assert(removed@ =~= removed_before + with_key(before.skip(1), key@));
            if replace {
                assert(removed_before =~= seq![s[0]]);
                assert(removed@ =~= with_key(s, key@));
            } else {
                assert(removed_before =~= Seq::<Entry>::empty());
                assert(removed@ =~= with_key(s, key@));
            }
        }
        removed
    }

    /// Removes all the entries with the key `key`: the unique one, if any;
    /// an error with the first two of them if there are several.
    pub fn remove_unique(&mut self, key: &str) -> (r: Result<Option<Entry>, Duplicate<Entry>>)
        ensures
            final(self)@ == without_key(old(self)@, key@),
            with_key(old(self)@, key@).len() == 0 ==> (r matches Ok(None)),
            with_key(old(self)@, key@).len() == 1 ==> r == Ok::<Option<Entry>, Duplicate<Entry>>(
                Some(with_key(old(self)@, key@)[0]),
            ),
            with_key(old(self)@, key@).len() > 1 ==> (r matches Err(Duplicate(a, b)) && a
                == with_key(old(self)@, key@)[0] && b == with_key(old(self)@, key@)[1]),
    {
        let mut removed = self.remove(key);
        if removed.len() == 0 {
            Ok(None)
        } else if removed.len() == 1 {
            Ok(Some(removed.remove(0)))
        } else {
            let a = removed.remove(0);
            let b = removed.remove(0);
            Err(Duplicate(a, b))
        }
    }

    /// Adds the entry `key`-`value` at the end of the object.
    ///
    /// Returns `true` if the key was not already present in the object, and
    /// `false` otherwise. Any previous entry with the key is kept.
    pub fn push(&mut self, key: String, value: Value) -> (r: bool)
        ensures
            final(self)@ == old(self)@.push(Entry { key, value }),
            final(self).view_json() == old(self).view_json().push((key@, value.view_json())),
            r == !entry_keys(old(self)@).contains(key@),
    {
        let r = self.push_entry(Entry { key, value });
        proof {
            lemma_entries_view_push(old(self).entries@, Entry { key, value });
        }
        r
    }

    /// Adds the entry `entry` at the end of the object.
    pub fn push_entry(&mut self, entry: Entry) -> (r: bool)
        ensures
            final(self)@ == old(self)@.push(entry),
            r == !entry_keys(old(self)@).contains(entry.key@),
    {
        proof {
            use_type_invariant(&*self);
        }
        let mut this = Object::new();
        std::mem::swap(self, &mut this);
        let Object { mut entries, mut indexes } = this;
        let r = push_entry_parts(&mut entries, &mut indexes, entry);
        *self = Object { entries, indexes };
        r
    }

    /// Adds the entry `key`-`value` at the start of the object.
    pub fn push_front(&mut self, key: String, value: Value) -> (r: bool)
        requires
            old(self)@.len() < usize::MAX,
        ensures
            final(self)@ == old(self)@.insert(0, Entry { key, value }),
            r == !entry_keys(old(self)@).contains(key@),
    {
        self.push_entry_front(Entry { key, value })
    }

    /// Adds the entry `entry` at the start of the object.
    pub fn push_entry_front(&mut self, entry: Entry) -> (r: bool)
        requires
            old(self)@.len() < usize::MAX,
        ensures
            final(self)@ == old(self)@.insert(0, entry),
            r == !entry_keys(old(self)@).contains(entry.key@),
    {
        proof {
            use_type_invariant(&*self);
        }
        let mut this = Object::new();
        std::mem::swap(self, &mut this);
        let Object { mut entries, mut indexes } = this;
        let r = push_entry_front_parts(&mut entries, &mut indexes, entry);
        *self = Object { entries, indexes };
        r
    }

    /// Removes the entry at `index`.
    pub fn remove_at(&mut self, index: usize) -> (r: Option<Entry>)
        ensures
            index < old(self)@.len() ==> r == Some(old(self)@[index as int]) && final(self)@ == old(
                self,
            )@.remove(index as int),
            index >= old(self)@.len() ==> r is None && final(self)@ == old(self)@,
    {
        proof {
            use_type_invariant(&*self);
        }
        if index < self.entries.len() {
            let mut this = Object::new();
            std::mem::swap(self, &mut this);
            let Object { mut entries, mut indexes } = this;
            let r = remove_at_parts(&mut entries, &mut indexes, index);
            *self = Object { entries, indexes };
            Some(r)
        } else {
            None
        }
    }

    /// Removes all the entries with the key `key`, and returns them, in
    /// order.
    pub fn remove(&mut self, key: &str) -> (r: Vec<Entry>)
        ensures
            r@ == with_key(old(self)@, key@),
            final(self)@ == without_key(old(self)@, key@),
    {
        let mut removed: Vec<Entry> = Vec::new();
        proof {
            assert(removed@ + with_key(self@, key@) =~= with_key(self@, key@));
        }
        loop
            invariant
                removed@ + with_key(self@, key@) == with_key(old(self)@, key@),
                without_key(self@, key@) == without_key(old(self)@, key@),
            decreases self@.len(),
        {
            match self.index_of(key) {
                None => {
                    proof {
                        use_type_invariant(&*self);
                        lemma_first_index(entry_keys(self@), key@);
                        lemma_key_absent(self@, key@);
                        assert(removed@ + Seq::<Entry>::empty() =~= removed@);
                    }
                    return removed;
                },
                Some(i) => {
                    let ghost before = self@;
                    proof {
                        use_type_invariant(&*self);
                        lemma_first_index(entry_keys(self@), key@);
                        assert(entry_keys(self@.take(i as int)) =~= entry_keys(self@).take(i as int));
                        lemma_remove_first(self@, key@, i as int);
                    }
                    let e = self.remove_at(i).unwrap();
                    proof {
                        assert(removed@.push(e) + with_key(self@, key@) =~= removed@ + (seq![e]
                            + with_key(self@, key@)));
                    }
                    removed.push(e);
                },
            }
        }
    }
}

/// The entries with a key are those at the indexes of the key.
pub proof fn lemma_with_key_indexes(s: Seq<Entry>, k: Seq<char>)
    requires
        s.len() <= usize::MAX,
    ensures
        key_indexes(entry_keys(s), k).len() == with_key(s, k).len(),
        forall|j: int|
            #![trigger with_key(s, k)[j]]
            #![trigger key_indexes(entry_keys(s), k)[j]]
            0 <= j < with_key(s, k).len() ==> key_indexes(entry_keys(s), k)[j] < s.len() && s[key_indexes(
                entry_keys(s),
                k,
            )[j] as int] == with_key(s, k)[j],
    decreases s.len(),
{
    if s.len() > 0 {
        let pre = s.drop_last();
        lemma_with_key_indexes(pre, k);
        let keys = entry_keys(s);
        assert(keys.drop_last() =~= entry_keys(pre));
        assert(keys.last() == s.last().key@);
        let ki = key_indexes(keys, k);
        let pk = key_indexes(entry_keys(pre), k);
        let w = with_key(s, k);
        let pw = with_key(pre, k);
        assert forall|j: int| #![trigger ki[j]] #![trigger w[j]] 0 <= j < w.len() implies ki[j] < s.len() && s[ki[j] as int] == w[j] by {
            if j < pw.len() {
                assert(ki[j] == pk[j]);
                assert(w[j] == pw[j]);
                assert(pk[j] < pre.len());
                assert(s[pk[j] as int] == pre[pk[j] as int]);
            } else {
                assert(s.last().key@ == k);
                assert(ki[j] == (s.len() - 1) as usize);
                assert(ki[j] < s.len());
                assert(w[j] == s.last());
            }
        }
    }
}

/// A copy of the entries `x`, with the same model.
pub fn entries_clone(x: &Vec<Entry>) -> (r: Vec<Entry>)
    ensures
        entries_view(r@) == entries_view(x@),
        entry_keys(r@) == entry_keys(x@),
    decreases x, 0int,
{
    let mut r: Vec<Entry> = Vec::new();
    let mut i: usize = 0;
    while i < x.len()
        invariant
            i <= x@.len(),
            r@.len() == i,
            forall|j: int|
                0 <= j < i ==> #[trigger] r@[j].key@ == x@[j].key@ && r@[j].value.view_json()
                    == x@[j].value.view_json(),
        decreases x@.len() - i,
    {
        proof {
            assert(decreases_to!(x => x@));
            assert(decreases_to!(x@ => x@[i as int]));
            assert(decreases_to!(x@[i as int] => x@[i as int].value));
        }
        let key = x[i].key.clone();
        let value = value_clone(&x[i].value);
        r.push(Entry { key, value });
        i = i + 1;
    }
    proof {
        lemma_entries_view(r@);
        lemma_entries_view(x@);
        assert(entries_view(r@) =~= entries_view(x@));
        assert(entry_keys(r@) =~= entry_keys(x@));
    }
    r
}

/// A copy of the object `o`, with the same model.
pub fn object_clone(o: &Object) -> (r: Object)
    ensures
        r@ .len() == o@.len(),
        r.view_json() == o.view_json(),
        entry_keys(r@) == entry_keys(o@),
    decreases o, 1int,
{
    proof {
        use_type_invariant(o);
        assert(decreases_to!(o => o.entries));
    }
    let entries = entries_clone(&o.entries);
    let indexes = o.indexes.clone();
    proof {
        lemma_entries_view(entries@);
        lemma_entries_view(o.entries@);
    }
    Object { entries, indexes }
}

impl Clone for Entry {
    fn clone(&self) -> (r: Entry)
        ensures
            r.key@ == self.key@,
            r.value.view_json() == self.value.view_json(),
    {
        Entry { key: self.key.clone(), value: value_clone(&self.value) }
    }
}

impl Clone for Object {
    fn clone(&self) -> (r: Object)
        ensures
            r.view_json() == self.view_json(),
            entry_keys(r@) == entry_keys(self@),
    {
        object_clone(self)
    }
}

impl PartialEq for Entry {
    fn eq(&self, other: &Entry) -> (r: bool) {
        self.key == other.key && self.value == other.value
    }
}

impl Eq for Entry {}

impl PartialEqSpecImpl for Entry {
    open spec fn obeys_eq_spec() -> bool {
        true
    }

    open spec fn eq_spec(&self, other: &Entry) -> bool {
        self.key@ == other.key@ && self.value.view_json() == other.value.view_json()
    }
}

impl PartialEq for Object {
    fn eq(&self, other: &Object) -> (r: bool) {
        entries_eq(&self.entries, &other.entries)
    }
}

impl Eq for Object {}

impl PartialEqSpecImpl for Object {
    open spec fn obeys_eq_spec() -> bool {
        true
    }

    open spec fn eq_spec(&self, other: &Object) -> bool {
        self.view_json() == other.view_json()
    }
}

impl Default for Object {
    fn default() -> (r: Object)
        ensures
            r@ == Seq::<Entry>::empty(),
    {
        Object::new()
    }
}

impl From<Vec<Entry>> for Object {
    /// The object with the entries `entries`, in order.
    fn from(entries: Vec<Entry>) -> (r: Object)
        ensures
            r@ == entries@,
    {
        Object::from_vec(entries)
    }
}

impl FromSpecImpl<Vec<Entry>> for Object {
    /// The object holds an index built for it: `from`'s own `ensures` says
    /// what it is.
    open spec fn obeys_from_spec() -> bool {
        false
    }

    open spec fn from_spec(entries: Vec<Entry>) -> Object {
        vstd::pervasive::arbitrary()
    }
}

/// Some key occurs twice among `keys`.
pub open spec fn dup_keys(keys: Seq<Seq<char>>) -> bool {
    exists|i: int, j: int| 0 <= i < j < keys.len() && #[trigger] keys[i] == #[trigger] keys[j]
}

/// An entry of `s` with the key `k` is one of `with_key(s, k)`.
pub proof fn lemma_with_key_search(s: Seq<Entry>, k: Seq<char>, j: int)
    requires
        s.len() <= usize::MAX,
        0 <= j < s.len(),
        s[j].key@ == k,
    ensures
        exists|t: int| 0 <= t < with_key(s, k).len() && #[trigger] with_key(s, k)[t] == s[j],
{
    let keys = entry_keys(s);
    lemma_key_indexes(keys, k);
    lemma_with_key_indexes(s, k);
    let ki = key_indexes(keys, k);
    assert(keys[j] == k);
    assert(ki.contains(j as usize));
    let t = choose|t: int| 0 <= t < ki.len() && ki[t] == j as usize;
    assert(with_key(s, k)[t] == s[ki[t] as int]);
}

/// Each of `with_key(s, k)` is an entry of `s` with the key `k`.
pub proof fn lemma_with_key_member(s: Seq<Entry>, k: Seq<char>, t: int)
    requires
        s.len() <= usize::MAX,
        0 <= t < with_key(s, k).len(),
    ensures
        exists|j: int| 0 <= j < s.len() && #[trigger] s[j] == with_key(s, k)[t] && s[j].key@ == k,
{
    let keys = entry_keys(s);
    lemma_key_indexes(keys, k);
    lemma_with_key_indexes(s, k);
    let ki = key_indexes(keys, k);
    assert(ki.contains(ki[t]));
    let j = ki[t] as int;
    assert(keys[j] == k);
    assert(s[j] == with_key(s, k)[t]);
}

impl Object {
    /// Whether some key occurs in more than one entry.
    pub fn has_duplicate_keys(&self) -> (r: bool)
        ensures
            r == dup_keys(entry_keys(self@)),
    {
        proof {
            use_type_invariant(self);
        }
        let r = self.indexes.contains_duplicate_keys();
        proof {
            let keys = entry_keys(self@);
            let m = self.indexes.contents();
            if r {
                let k = choose|k: Seq<char>| m.dom().contains(k) && #[trigger] m[k].len() > 1;
                lemma_key_indexes(keys, k);
                let ki = key_indexes(keys, k);
                assert(ki.contains(ki[0]));
                assert(ki.contains(ki[1]));
                assert(ki[0] < ki[1]);
                assert(keys[ki[0] as int] == keys[ki[1] as int]);
                assert(dup_keys(keys));
            }
            if dup_keys(keys) {
                let (i, j) = choose|i: int, j: int|
                    0 <= i < j < keys.len() && #[trigger] keys[i] == #[trigger] keys[j];
                let k = keys[i];
                lemma_key_indexes(keys, k);
                assert(keys.contains(k));
                assert(m.dom().contains(k));
                let ki = key_indexes(keys, k);
                assert(ki.contains(i as usize));
                assert(ki.contains(j as usize));
                if ki.len() <= 1 {
                    let a = choose|a: int| 0 <= a < ki.len() && ki[a] == i as usize;
                    let b = choose|b: int| 0 <= b < ki.len() && ki[b] == j as usize;
                    assert(a == b);
                }
                assert(m[k].len() > 1);
            }
        }
        r
    }
}

impl Object {
    /// The value of the first entry with the key `key`; if there is none, an
    /// entry `key`-`f()` is added at the end first.
    pub fn get_or_insert_with<F: FnOnce() -> Value>(&mut self, key: &str, f: F) -> (r: &Value)
        requires
            !entry_keys(old(self)@).contains(key@) ==> f.requires(()),
        ensures
            entry_keys(old(self)@).contains(key@) ==> final(self)@ == old(self)@,
            first_index(entry_keys(old(self)@), key@) matches Some(i) ==> *r == old(self)@[i as int].value,
            !entry_keys(old(self)@).contains(key@) ==> final(self)@.len() == old(self)@.len() + 1
                && final(self)@.take(old(self)@.len() as int) == old(self)@
                && final(self)@.last().key@ == key@ && f.ensures((), final(self)@.last().value)
                && *r == final(self)@.last().value,
    {
        proof {
            use_type_invariant(&*self);
            lemma_first_index(entry_keys(self@), key@);
        }
        let index = match self.index_of(key) {
            Some(index) => index,
            None => {
                let index = self.entries.len();
                let v = f();
                self.push(key.to_owned(), v);
                index
            },
        };
        &self.entries[index].value
    }
}

/// `Vec::capacity`: how many entries the vector can hold without
/// reallocating, never fewer than it holds; the allocator decides the rest.
#[verifier::external_body]
fn entries_capacity(v: &Vec<Entry>) -> (r: usize)
    ensures
        r >= v@.len(),
{
    v.capacity()
}

impl Object {
    /// How many entries the object can hold without reallocating.
    pub fn capacity(&self) -> (r: usize)
        ensures
            r >= self@.len(),
    {
        proof {
            self.lemma_view();
        }
        entries_capacity(&self.entries)
    }
}

/// The entries `s` are those with the key `k`, taken out, and the others,
/// with none lost or added: their counts add up.
pub proof fn lemma_key_partition(s: Seq<Entry>, k: Seq<char>)
    ensures
        with_key(s, k).len() + without_key(s, k).len() == s.len(),
        !entry_keys(without_key(s, k)).contains(k),
        forall|i: int| 0 <= i < with_key(s, k).len() ==> (#[trigger] with_key(s, k)[i]).key@ == k,
    decreases s.len(),
{
    if s.len() > 0 {
        lemma_key_partition(s.drop_last(), k);
        let w = without_key(s.drop_last(), k);
        if s.last().key@ != k {
            let w2 = w.push(s.last());
            assert(without_key(s, k) =~= w2);
            if entry_keys(w2).contains(k) {
                let j = choose|j: int| 0 <= j < w2.len() && entry_keys(w2)[j] == k;
                if j < w.len() {
                    assert(entry_keys(w)[j] == k);
                }
            }
        } else {
            assert(without_key(s, k) =~= w);
        }
    }
}

/// Once the entries with a key are removed, no entry has that key.
pub proof fn lemma_remove_leaves_no_entry(s: Seq<Entry>, k: Seq<char>)
    ensures
        with_key(without_key(s, k), k).len() == 0,
        without_key(without_key(s, k), k) == without_key(s, k),
{
    lemma_key_partition(s, k);
    lemma_key_absent(without_key(s, k), k);
}

/// Once an entry is inserted, it is the only one with its key: the entries
/// that `insert` leaves hold it once, where the first entry with the key
/// stood, or at the end.
pub proof fn lemma_insert_leaves_one_entry(s: Seq<Entry>, e: Entry, i: int)
    requires
        0 <= i < s.len(),
        !entry_keys(s.take(i)).contains(e.key@),
    ensures
        with_key(s.take(i) + seq![e] + without_key(s.skip(i + 1), e.key@), e.key@) == seq![e],
        with_key(s.push(e), e.key@) == with_key(s, e.key@).push(e),
{
    let k = e.key@;
    let a = s.take(i);
    let w = without_key(s.skip(i + 1), k);
    lemma_key_split(a + seq![e], w, k);
    lemma_key_split(a, seq![e], k);
    lemma_key_absent(a, k);
    lemma_remove_leaves_no_entry(s.skip(i + 1), k);
    let one = seq![e];
    assert(one.drop_last() =~= Seq::<Entry>::empty());
    assert(one.last() == e);
    assert(with_key(Seq::<Entry>::empty(), k) == Seq::<Entry>::empty());
    assert(with_key(one, k) == with_key(one.drop_last(), k) + seq![e]);
    assert(with_key(one, k) =~= seq![e]);
    assert(Seq::<Entry>::empty() + seq![e] + Seq::<Entry>::empty() =~= seq![e]);
    assert(s.push(e).drop_last() =~= s);
}

} // verus!
