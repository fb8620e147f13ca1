//! Entries of an object together with the code-map offsets of their
//! fragments.
use vstd::prelude::*;
use crate::code_map::{CodeMap, Mapped};
use crate::code_map::Entry as MapEntry;
use crate::value::Value;
use super::{Object, Entry, Duplicate, entry_keys, key_indexes, lemma_key_indexes, with_key, lemma_with_key_indexes};
use super::index_map::increasing;
use crate::value::JValue;
use crate::array::maps;
use crate::fragment::{
    value_fragments, entries_fragments, fragment_fragments, entry_fragments, JFragment,
    lemma_entries_fragments_split,
};

verus! {

/// The offset of the entry after the one at offset `o`: past the entry, its
/// key and the fragments of its value, which the code map counts.
pub open spec fn next_offset(cm: Seq<MapEntry>, o: int) -> int {
    o + 2 + cm[o + 2].volume
}

/// The offset of the entry `i` places after the one at offset `o`.
pub open spec fn offset_at(cm: Seq<MapEntry>, o: int, i: nat) -> int
    decreases i,
{
    if i == 0 {
        o
    } else {
        offset_at(cm, next_offset(cm, o), (i - 1) as nat)
    }
}

/// The code map gives the volume of the values of the `n` entries from the
/// one at offset `o`, and no offset overflows.
pub open spec fn offsets_ok(cm: Seq<MapEntry>, o: int, n: nat) -> bool
    decreases n,
{
    n == 0 || (0 <= o && o + 2 < cm.len() && next_offset(cm, o) <= usize::MAX && offsets_ok(
        cm,
        next_offset(cm, o),
        (n - 1) as nat,
    ))
}

/// The last of the indexes `ix`, or zero.
pub open spec fn last_or_zero(ix: Seq<usize>) -> nat {
    if ix.len() > 0 {
        ix.last() as nat
    } else {
        0
    }
}

/// The offsets of the entries at the indexes `ix` (increasing) can be
/// computed from the code map `cm`, from the offset `o` of the first entry.
pub open spec fn mapped_ok(cm: Seq<MapEntry>, o: int, ix: Seq<usize>) -> bool {
    &&& offsets_ok(cm, o, last_or_zero(ix))
    &&& ix.len() > 0 ==> offset_at(cm, o, last_or_zero(ix)) + 2 <= usize::MAX
}

proof fn lemma_offsets_ok(cm: Seq<MapEntry>, o: int, n: nat, t: nat)
    requires
        offsets_ok(cm, o, n),
        t < n,
    ensures
        0 <= offset_at(cm, o, t),
        offset_at(cm, o, t) + 2 < cm.len(),
        next_offset(cm, offset_at(cm, o, t)) <= usize::MAX,
        offset_at(cm, o, (t + 1) as nat) == next_offset(cm, offset_at(cm, o, t)),
    decreases t,
{
    if t > 0 {
        lemma_offsets_ok(cm, next_offset(cm, o), (n - 1) as nat, (t - 1) as nat);
    } else {
        assert(offset_at(cm, o, 1) == offset_at(cm, next_offset(cm, o), 0));
    }
}

/// An entry with the code-map offsets of its key and of its value.
#[derive(Clone, Copy, Debug)]
pub struct MappedEntry<'a> {
    pub key: Mapped<&'a String>,
    pub value: Mapped<&'a Value>,
}

impl<'a> MappedEntry<'a> {
    /// The entry `e`, whose fragment is at `offset`: its key follows, then
    /// its value.
    pub open spec fn at(e: &'a Entry, offset: int) -> Mapped<MappedEntry<'a>> {
        Mapped {
            offset: offset as usize,
            value: MappedEntry {
                key: Mapped { offset: (offset + 1) as usize, value: &e.key },
                value: Mapped { offset: (offset + 2) as usize, value: &e.value },
            },
        }
    }
}

impl Entry {
    /// The entry with the code-map offsets of its key and of its value.
    pub fn into_mapped(&self, key_offset: usize, value_offset: usize) -> (r: MappedEntry<'_>)
        ensures
            r.key.offset == key_offset,
            r.key.value == &self.key,
            r.value.offset == value_offset,
            r.value.value == &self.value,
    {
        MappedEntry {
            key: Mapped::new(key_offset, &self.key),
            value: Mapped::new(value_offset, &self.value),
        }
    }
}

impl Object {
    /// The entries, in order, each with the code-map offset of its
    /// fragment, of its key and of its value, the object being at `offset`.
    pub fn iter_mapped(&self, code_map: &CodeMap, offset: usize) -> (r: Vec<Mapped<MappedEntry<'_>>>)
        requires
            offset < usize::MAX,
            offsets_ok(code_map@, offset + 1, self@.len()),
        ensures
            r@.len() == self@.len(),
            forall|i: int|
                0 <= i < r@.len() ==> r@[i] == MappedEntry::at(
                    &self@[i],
                    offset_at(code_map@, offset + 1, i as nat),
                ),
    {
        let ghost cm = code_map@;
        let ghost o0 = offset + 1;
        let n = self.entries.len();
        proof {
            self.lemma_view();
        }
        let mut r: Vec<Mapped<MappedEntry<'_>>> = Vec::new();
        let mut cur = offset + 1;
        let mut i: usize = 0;
        while i < n
            invariant
                cm == code_map@,
                o0 == offset + 1,
                n == self@.len(),
                self@ == self.entries@,
                offsets_ok(cm, o0, n as nat),
                i <= n,
                cur == offset_at(cm, o0, i as nat),
                r@.len() == i,
                forall|j: int|
                    0 <= j < i ==> r@[j] == MappedEntry::at(&self@[j], offset_at(cm, o0, j as nat)),
            decreases n - i,
        {
            proof {
                lemma_offsets_ok(cm, o0, n as nat, i as nat);
            }
            let e = &self.entries[i];
            let m = Mapped::new(cur, e.into_mapped(cur + 1, cur + 2));
            let vol = code_map.get(cur + 2).unwrap().volume;
            r.push(m);
            cur = cur + 2 + vol;
            i = i + 1;
        }
        r
    }

    /// The indexes of the entries with the key `key`, each with the
    /// code-map offset of the entry's fragment, the object being at
    /// `offset`.
    fn mapped_indexes(&self, code_map: &CodeMap, offset: usize, key: &str) -> (r: Vec<(usize, usize)>)
        requires
            offset < usize::MAX,
            mapped_ok(code_map@, offset + 1, key_indexes(entry_keys(self@), key@)),
        ensures
            r@.len() == key_indexes(entry_keys(self@), key@).len(),
            forall|i: int|
                0 <= i < r@.len() ==> r@[i].0 == key_indexes(entry_keys(self@), key@)[i] && r@[i].1
                    == offset_at(code_map@, offset + 1, r@[i].0 as nat) && r@[i].1 + 2 <= usize::MAX,
    {
        let ghost cm = code_map@;
        let ghost o0 = offset + 1;
        let ix = self.indexes_of(key);
        let ghost ki = key_indexes(entry_keys(self@), key@);
        let ghost bound = last_or_zero(ki);
        let _n = self.entries.len();
        proof {
            self.lemma_view();
            lemma_key_indexes(entry_keys(self@), key@);
        }
        let cm_len = code_map.len();
        let mut r: Vec<(usize, usize)> = Vec::new();
        let mut cur = offset + 1;
        let mut last: usize = 0;
        let mut j: usize = 0;
        while j < ix.len()
            invariant
                cm == code_map@,
                o0 == offset + 1,
                ix@ == ki,
                increasing(ki),
                bound == last_or_zero(ki),
                offsets_ok(cm, o0, bound),
                ki.len() > 0 ==> offset_at(cm, o0, bound) + 2 <= usize::MAX,
                cm.len() == cm_len,
                j <= ki.len(),
                j > 0 ==> last == ki[j - 1],
                j == 0 ==> last == 0,
                cur == offset_at(cm, o0, last as nat),
                r@.len() == j,
                forall|t: int|
                    0 <= t < j ==> r@[t].0 == ki[t] && r@[t].1 == offset_at(cm, o0, r@[t].0 as nat)
                        && r@[t].1 + 2 <= usize::MAX,
            decreases ki.len() - j,
        {
            let idx = ix[j];
            proof {
                if j > 0 {
                    assert(ki[j - 1] < ki[j as int]);
                }
                assert(ki[j as int] <= ki.last()) by {
                    if (j as int) < ki.len() - 1 {
                        assert(ki[j as int] < ki[ki.len() - 1]);
                    }
                }
            }
            while last < idx
                invariant
                    cm == code_map@,
                    o0 == offset + 1,
                    offsets_ok(cm, o0, bound),
                    ki.len() > 0 ==> offset_at(cm, o0, bound) + 2 <= usize::MAX,
                    cm.len() == cm_len,
                    ix@ == ki,
                    j < ki.len(),
                    idx == ki[j as int],
                    r@.len() == j,
                    forall|t: int|
                        0 <= t < j ==> r@[t].0 == ki[t] && r@[t].1 == offset_at(cm, o0, r@[t].0 as nat)
                            && r@[t].1 + 2 <= usize::MAX,
                    last <= idx,
                    idx <= bound,
                    cur == offset_at(cm, o0, last as nat),
                decreases idx - last,
            {
                proof {
                    lemma_offsets_ok(cm, o0, bound, last as nat);
                }
                let vol = code_map.get(cur + 2).unwrap().volume;
                cur = cur + 2 + vol;
                last = last + 1;
            }
            proof {
                if (idx as nat) < bound {
                    lemma_offsets_ok(cm, o0, bound, idx as nat);
                }
                assert(cur + 2 <= usize::MAX);
            }
            let ghost r0 = r@;
            r.push((idx, cur));
            proof {
                assert(last == idx);
                assert(r@[j as int] == (idx, cur));
                assert(forall|t: int| 0 <= t < j ==> r@[t] == r0[t]);
            }
            j = j + 1;
        }
        r
    }

    /// The entries with the key `key`, in order, each with the code-map
    /// offset of its fragment, of its key and of its value, the object being
    /// at `offset`.
    pub fn get_mapped_entries(&self, code_map: &CodeMap, offset: usize, key: &str) -> (r: Vec<
        Mapped<MappedEntry<'_>>,
    >)
        requires
            offset < usize::MAX,
            mapped_ok(code_map@, offset + 1, key_indexes(entry_keys(self@), key@)),
        ensures
            r@.len() == key_indexes(entry_keys(self@), key@).len(),
            forall|i: int|
                #![trigger r@[i]]
                0 <= i < r@.len() ==> r@[i] == MappedEntry::at(
                    &self@[key_indexes(entry_keys(self@), key@)[i] as int],
                    offset_at(code_map@, offset + 1, key_indexes(entry_keys(self@), key@)[i] as nat),
                ),
    {
        let ix = self.mapped_indexes(code_map, offset, key);
        let _n = self.entries.len();
        proof {
            self.lemma_view();
            lemma_key_indexes(entry_keys(self@), key@);
        }
        let mut r: Vec<Mapped<MappedEntry<'_>>> = Vec::new();
        let mut i: usize = 0;
        while i < ix.len()
            invariant
                self@ == self.entries@,
                ix@.len() == key_indexes(entry_keys(self@), key@).len(),
                forall|t: int|
                    0 <= t < ix@.len() ==> ix@[t].0 == key_indexes(entry_keys(self@), key@)[t]
                        && ix@[t].1 == offset_at(code_map@, offset + 1, ix@[t].0 as nat) && ix@[t].1
                        + 2 <= usize::MAX,
                forall|y: usize|
                    #[trigger] key_indexes(entry_keys(self@), key@).contains(y) ==> y < entry_keys(
                        self@,
                    ).len(),
                i <= ix@.len(),
                r@.len() == i,
                forall|t: int|
                    #![trigger r@[t]]
                    0 <= t < i ==> r@[t] == MappedEntry::at(
                        &self@[key_indexes(entry_keys(self@), key@)[t] as int],
                        offset_at(code_map@, offset + 1, key_indexes(entry_keys(self@), key@)[t] as nat),
                    ),
            decreases ix@.len() - i,
        {
            let (idx, o) = ix[i];
            proof {
                assert(key_indexes(entry_keys(self@), key@)[i as int] == idx);
                assert(key_indexes(entry_keys(self@), key@).contains(idx));
            }
            let e = &self.entries[idx];
            r.push(Mapped::new(o, e.into_mapped(o + 1, o + 2)));
            i = i + 1;
        }
        r
    }

    /// The `i`-th entry with the key `key`, with its offsets, the object
    /// being at `offset` in the code map `cm`.
    pub open spec fn mapped_entry(
        &self,
        cm: Seq<MapEntry>,
        offset: int,
        key: Seq<char>,
        i: int,
    ) -> Mapped<MappedEntry<'_>> {
        MappedEntry::at(
            &self@[key_indexes(entry_keys(self@), key)[i] as int],
            offset_at(cm, offset + 1, key_indexes(entry_keys(self@), key)[i] as nat),
        )
    }

    /// The unique entry with the key `key`, with its offsets: an error with
    /// the first two if there are several.
    pub fn get_unique_mapped_entry(&self, code_map: &CodeMap, offset: usize, key: &str) -> (r:
        Result<Option<Mapped<MappedEntry<'_>>>, Duplicate<Mapped<MappedEntry<'_>>>>)
        requires
            offset < usize::MAX,
            mapped_ok(code_map@, offset + 1, key_indexes(entry_keys(self@), key@)),
        ensures
            key_indexes(entry_keys(self@), key@).len() == 0 ==> (r matches Ok(None)),
            key_indexes(entry_keys(self@), key@).len() == 1 ==> (r matches Ok(Some(e)) && e
                == self.mapped_entry(code_map@, offset as int, key@, 0)),
            key_indexes(entry_keys(self@), key@).len() > 1 ==> (r matches Err(Duplicate(a, b)) && a
                == self.mapped_entry(code_map@, offset as int, key@, 0) && b == self.mapped_entry(
                code_map@,
                offset as int,
                key@,
                1,
            )),
    {
        let v = self.get_mapped_entries(code_map, offset, key);
        if v.len() == 0 {
            Ok(None)
        } else if v.len() == 1 {
            Ok(Some(v[0]))
        } else {
            Err(Duplicate(v[0], v[1]))
        }
    }

    /// The entries with the key `key`, in order, each with its index and its
    /// offsets, the object being at `offset`.
    pub fn get_mapped_entries_with_index(&self, code_map: &CodeMap, offset: usize, key: &str) -> (r:
        Vec<(usize, Mapped<MappedEntry<'_>>)>)
        requires
            offset < usize::MAX,
            mapped_ok(code_map@, offset + 1, key_indexes(entry_keys(self@), key@)),
        ensures
            r@.len() == key_indexes(entry_keys(self@), key@).len(),
            forall|i: int|
                #![trigger r@[i]]
                0 <= i < r@.len() ==> r@[i].0 == key_indexes(entry_keys(self@), key@)[i] && r@[i].1
                    == self.mapped_entry(code_map@, offset as int, key@, i),
    {
        let ix = self.indexes_of(key);
        let v = self.get_mapped_entries(code_map, offset, key);
        let mut r: Vec<(usize, Mapped<MappedEntry<'_>>)> = Vec::new();
        let mut i: usize = 0;
        while i < v.len()
            invariant
                ix@ == key_indexes(entry_keys(self@), key@),
                v@.len() == ix@.len(),
                forall|t: int|
                    #![trigger v@[t]]
                    0 <= t < v@.len() ==> v@[t] == self.mapped_entry(code_map@, offset as int, key@, t),
                i <= v@.len(),
                r@.len() == i,
                forall|t: int|
                    #![trigger r@[t]]
                    0 <= t < i ==> r@[t].0 == ix@[t] && r@[t].1 == self.mapped_entry(
                        code_map@,
                        offset as int,
                        key@,
                        t,
                    ),
            decreases v@.len() - i,
        {
            r.push((ix[i], v[i]));
            i = i + 1;
        }
        r
    }

    /// The unique entry with the key `key`, with its index and its offsets:
    /// an error with the first two if there are several.
    pub fn get_unique_mapped_entry_with_index(
        &self,
        code_map: &CodeMap,
        offset: usize,
        key: &str,
    ) -> (r: Result<
        Option<(usize, Mapped<MappedEntry<'_>>)>,
        Duplicate<(usize, Mapped<MappedEntry<'_>>)>,
    >)
        requires
            offset < usize::MAX,
            mapped_ok(code_map@, offset + 1, key_indexes(entry_keys(self@), key@)),
        ensures
            key_indexes(entry_keys(self@), key@).len() == 0 ==> (r matches Ok(None)),
            key_indexes(entry_keys(self@), key@).len() == 1 ==> (r matches Ok(Some(e)) && e == (
                key_indexes(entry_keys(self@), key@)[0],
                self.mapped_entry(code_map@, offset as int, key@, 0),
            )),
            key_indexes(entry_keys(self@), key@).len() > 1 ==> (r matches Err(Duplicate(a, b)) && a
                == (
                key_indexes(entry_keys(self@), key@)[0],
                self.mapped_entry(code_map@, offset as int, key@, 0),
            ) && b == (
                key_indexes(entry_keys(self@), key@)[1],
                self.mapped_entry(code_map@, offset as int, key@, 1),
            )),
    {
        let v = self.get_mapped_entries_with_index(code_map, offset, key);
        if v.len() == 0 {
            Ok(None)
        } else if v.len() == 1 {
            Ok(Some(v[0]))
        } else {
            Err(Duplicate(v[0], v[1]))
        }
    }

    /// The values of the entries with the key `key`, in order, each with the
    /// code-map offset of its fragment, the object being at `offset`.
    pub fn get_mapped(&self, code_map: &CodeMap, offset: usize, key: &str) -> (r: Vec<
        Mapped<&Value>,
    >)
        requires
            offset < usize::MAX,
            mapped_ok(code_map@, offset + 1, key_indexes(entry_keys(self@), key@)),
        ensures
            r@.len() == key_indexes(entry_keys(self@), key@).len(),
            forall|i: int|
                #![trigger r@[i]]
                0 <= i < r@.len() ==> r@[i] == self.mapped_entry(code_map@, offset as int, key@, i).value.value,
    {
        let v = self.get_mapped_entries(code_map, offset, key);
        let mut r: Vec<Mapped<&Value>> = Vec::new();
        let mut i: usize = 0;
        while i < v.len()
            invariant
                v@.len() == key_indexes(entry_keys(self@), key@).len(),
                forall|t: int|
                    #![trigger v@[t]]
                    0 <= t < v@.len() ==> v@[t] == self.mapped_entry(code_map@, offset as int, key@, t),
                i <= v@.len(),
                r@.len() == i,
                forall|t: int|
                    #![trigger r@[t]]
                    0 <= t < i ==> r@[t] == self.mapped_entry(
                        code_map@,
                        offset as int,
                        key@,
                        t,
                    ).value.value,
            decreases v@.len() - i,
        {
            r.push(v[i].value.value);
            i = i + 1;
        }
        r
    }

    /// The value of the unique entry with the key `key`, with its offset: an
    /// error with the first two if there are several.
    pub fn get_unique_mapped(&self, code_map: &CodeMap, offset: usize, key: &str) -> (r: Result<
        Option<Mapped<&Value>>,
        Duplicate<Mapped<&Value>>,
    >)
        requires
            offset < usize::MAX,
            mapped_ok(code_map@, offset + 1, key_indexes(entry_keys(self@), key@)),
        ensures
            key_indexes(entry_keys(self@), key@).len() == 0 ==> (r matches Ok(None)),
            key_indexes(entry_keys(self@), key@).len() == 1 ==> (r matches Ok(Some(e)) && e
                == self.mapped_entry(code_map@, offset as int, key@, 0).value.value),
            key_indexes(entry_keys(self@), key@).len() > 1 ==> (r matches Err(Duplicate(a, b)) && a
                == self.mapped_entry(code_map@, offset as int, key@, 0).value.value && b
                == self.mapped_entry(code_map@, offset as int, key@, 1).value.value),
    {
        let v = self.get_mapped(code_map, offset, key);
        if v.len() == 0 {
            Ok(None)
        } else if v.len() == 1 {
            Ok(Some(v[0]))
        } else {
            Err(Duplicate(v[0], v[1]))
        }
    }

    /// The values of the entries with the key `key`, in order, each with the
    /// index of its entry and the code-map offset of its fragment.
    pub fn get_mapped_with_index(&self, code_map: &CodeMap, offset: usize, key: &str) -> (r: Vec<
        (usize, Mapped<&Value>),
    >)
        requires
            offset < usize::MAX,
            mapped_ok(code_map@, offset + 1, key_indexes(entry_keys(self@), key@)),
        ensures
            r@.len() == key_indexes(entry_keys(self@), key@).len(),
            forall|i: int|
                #![trigger r@[i]]
                0 <= i < r@.len() ==> r@[i].0 == key_indexes(entry_keys(self@), key@)[i] && r@[i].1
                    == self.mapped_entry(code_map@, offset as int, key@, i).value.value,
    {
        let v = self.get_mapped_entries_with_index(code_map, offset, key);
        let mut r: Vec<(usize, Mapped<&Value>)> = Vec::new();
        let mut i: usize = 0;
        while i < v.len()
            invariant
                v@.len() == key_indexes(entry_keys(self@), key@).len(),
                forall|t: int|
                    #![trigger v@[t]]
                    0 <= t < v@.len() ==> v@[t].0 == key_indexes(entry_keys(self@), key@)[t]
                        && v@[t].1 == self.mapped_entry(code_map@, offset as int, key@, t),
                i <= v@.len(),
                r@.len() == i,
                forall|t: int|
                    #![trigger r@[t]]
                    0 <= t < i ==> r@[t].0 == key_indexes(entry_keys(self@), key@)[t] && r@[t].1
                        == self.mapped_entry(code_map@, offset as int, key@, t).value.value,
            decreases v@.len() - i,
        {
            r.push((v[i].0, v[i].1.value.value));
            i = i + 1;
        }
        r
    }

    /// The value of the unique entry with the key `key`, with the index of
    /// the entry and its offset: an error with the first two if there are
    /// several.
    pub fn get_unique_mapped_with_index(&self, code_map: &CodeMap, offset: usize, key: &str) -> (r:
        Result<Option<(usize, Mapped<&Value>)>, Duplicate<(usize, Mapped<&Value>)>>)
        requires
            offset < usize::MAX,
            mapped_ok(code_map@, offset + 1, key_indexes(entry_keys(self@), key@)),
        ensures
            key_indexes(entry_keys(self@), key@).len() == 0 ==> (r matches Ok(None)),
            key_indexes(entry_keys(self@), key@).len() == 1 ==> (r matches Ok(Some(e)) && e == (
                key_indexes(entry_keys(self@), key@)[0],
                self.mapped_entry(code_map@, offset as int, key@, 0).value.value,
            )),
            key_indexes(entry_keys(self@), key@).len() > 1 ==> (r matches Err(Duplicate(a, b)) && a
                == (
                key_indexes(entry_keys(self@), key@)[0],
                self.mapped_entry(code_map@, offset as int, key@, 0).value.value,
            ) && b == (
                key_indexes(entry_keys(self@), key@)[1],
                self.mapped_entry(code_map@, offset as int, key@, 1).value.value,
            )),
    {
        let v = self.get_mapped_with_index(code_map, offset, key);
        if v.len() == 0 {
            Ok(None)
        } else if v.len() == 1 {
            Ok(Some(v[0]))
        } else {
            Err(Duplicate(v[0], v[1]))
        }
    }
}

proof fn lemma_offset_step(cm: Seq<MapEntry>, o: int, i: nat)
    ensures
        offset_at(cm, o, i + 1) == next_offset(cm, offset_at(cm, o, i)),
    decreases i,
{
    if i > 0 {
        lemma_offset_step(cm, next_offset(cm, o), (i - 1) as nat);
    } else {
        assert(offset_at(cm, o, 1) == offset_at(cm, next_offset(cm, o), 0));
    }
}

proof fn lemma_offsets_ok_extend(cm: Seq<MapEntry>, o: int, n: nat)
    requires
        offsets_ok(cm, o, n),
        0 <= offset_at(cm, o, n),
        offset_at(cm, o, n) + 2 < cm.len(),
        next_offset(cm, offset_at(cm, o, n)) <= usize::MAX,
    ensures
        offsets_ok(cm, o, n + 1),
    decreases n,
{
    if n > 0 {
        lemma_offsets_ok_extend(cm, next_offset(cm, o), (n - 1) as nat);
    } else {
        assert(offsets_ok(cm, next_offset(cm, o), 0));
    }
}

/// Where the code map describes an object, it describes each entry at the
/// offset that `iter_mapped` gives it, after the fragments of the entries
/// before it: the entry, then its key, then its value.
pub proof fn lemma_object_maps(
    cm: Seq<MapEntry>,
    offset: int,
    entries: Seq<(Seq<char>, JValue)>,
    i: nat,
)
    requires
        maps(cm, offset, JValue::Object(entries)),
        i <= entries.len(),
    ensures
        offsets_ok(cm, offset + 1, i),
        offset_at(cm, offset + 1, i) == offset + 1 + entries_fragments(entries.take(i as int)).len(),
        i < entries.len() ==> maps(cm, offset_at(cm, offset + 1, i) + 2, entries[i as int].1),
        i < entries.len() ==> cm[offset_at(cm, offset + 1, i)].volume == 2 + value_fragments(
            entries[i as int].1,
        ).len(),
        i < entries.len() ==> cm[offset_at(cm, offset + 1, i) + 1].volume == 1,
    decreases i,
{
    let fs = value_fragments(JValue::Object(entries));
    assert(fs == seq![JFragment::Value(JValue::Object(entries))] + entries_fragments(entries));
    if i > 0 {
        lemma_object_maps(cm, offset, entries, (i - 1) as nat);
        lemma_offset_step(cm, offset + 1, (i - 1) as nat);
        let j = (i - 1) as int;
        let pre = entries.take(j);
        let x = entries[j];
        assert(entries.take(i as int) =~= pre.push(x));
        assert(pre.push(x).drop_last() =~= pre);
        assert(entries_fragments(pre.push(x)) == entries_fragments(pre) + entry_fragments(x.0, x.1));
        let p = offset_at(cm, offset + 1, j as nat);
        let vx = value_fragments(x.1);
        assert(vx[0] == JFragment::Value(x.1));
        assert(cm[p + 2 + 0].volume == fragment_fragments(vx[0]).len());
        assert(entries_fragments(entries) == entries_fragments(entries.take(i as int))
            + entries_fragments(entries.skip(i as int))) by {
            assert(entries =~= entries.take(i as int) + entries.skip(i as int));
            lemma_entries_fragments_split(entries.take(i as int), entries.skip(i as int));
        }
        lemma_offsets_ok_extend(cm, offset + 1, j as nat);
    } else {
        assert(entries.take(0) =~= Seq::<(Seq<char>, JValue)>::empty());
        assert(entries_fragments(Seq::<(Seq<char>, JValue)>::empty()) =~= Seq::<JFragment>::empty());
    }
    if i < entries.len() {
        let pre = entries.take(i as int);
        let x = entries[i as int];
        let post = entries.skip(i as int + 1);
        let one = seq![x];
        assert(entries =~= pre + one + post);
        lemma_entries_fragments_split(pre + one, post);
        lemma_entries_fragments_split(pre, one);
        assert(one.drop_last() =~= Seq::<(Seq<char>, JValue)>::empty());
        assert(entries_fragments(Seq::<(Seq<char>, JValue)>::empty()) =~= Seq::<JFragment>::empty());
        assert(entries_fragments(one) =~= entry_fragments(x.0, x.1));
        let p = offset + 1 + entries_fragments(pre).len();
        let ex = entry_fragments(x.0, x.1);
        let vx = value_fragments(x.1);
        assert(entries_fragments(entries) == entries_fragments(pre) + ex + entries_fragments(post));
        assert forall|t: int| 0 <= t < vx.len() implies #[trigger] cm[p + 2 + t].volume
            == fragment_fragments(vx[t]).len() by {
            let u = 1 + entries_fragments(pre).len() + 2 + t;
            assert(fs[u] == vx[t]);
            assert(cm[offset + u].volume == fragment_fragments(fs[u]).len());
        }
        let u0: int = 1 + entries_fragments(pre).len() as int;
        assert(fs[u0] == JFragment::Entry(x.0, x.1));
        assert(cm[offset + u0].volume == fragment_fragments(fs[u0]).len());
        assert(fs[u0 + 1] == JFragment::Key(x.0));
        assert(cm[offset + (u0 + 1)].volume == fragment_fragments(fs[u0 + 1]).len());
    }
}

/// Where the code map describes an object, it holds the offsets of every
/// entry that an index list `ix` of that object can name, as the lookups
/// by key need.
pub proof fn lemma_object_maps_indexes(
    cm: Seq<MapEntry>,
    offset: int,
    entries: Seq<(Seq<char>, JValue)>,
    ix: Seq<usize>,
)
    requires
        maps(cm, offset, JValue::Object(entries)),
        forall|j: int| 0 <= j < ix.len() ==> #[trigger] ix[j] < entries.len(),
    ensures
        mapped_ok(cm, offset + 1, ix),
{
    if ix.len() > 0 {
        assert(ix[ix.len() - 1] < entries.len());
        lemma_object_maps(cm, offset, entries, last_or_zero(ix));
    } else {
        lemma_object_maps(cm, offset, entries, 0);
    }
}

} // verus!
