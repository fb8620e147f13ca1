//! Arrays: the items of an array with the code-map offsets of their
//! fragments.
use vstd::prelude::*;
use crate::code_map::{CodeMap, Mapped};
use crate::code_map::Entry as MapEntry;
use crate::value::{Value, JValue, values_view, lemma_values_view};
use crate::fragment::{
    value_fragments, items_fragments, fragment_fragments, JFragment, lemma_items_fragments_split,
};

verus! {

/// The offset of the item `i` places after the one at offset `o`: each
/// item is followed by the fragments that the code map counts for it.
pub open spec fn item_offset_at(cm: Seq<MapEntry>, o: int, i: nat) -> int
    decreases i,
{
    if i == 0 {
        o
    } else {
        item_offset_at(cm, o + cm[o].volume, (i - 1) as nat)
    }
}

/// The code map gives the volume of the `n` items from the one at offset
/// `o`, and no offset overflows.
pub open spec fn item_offsets_ok(cm: Seq<MapEntry>, o: int, n: nat) -> bool
    decreases n,
{
    n == 0 || (0 <= o < cm.len() && o + cm[o].volume <= usize::MAX && item_offsets_ok(
        cm,
        o + cm[o].volume,
        (n - 1) as nat,
    ))
}

/// Arrays of JSON values.
pub trait JsonArray {
    /// The items of the array.
    spec fn items(&self) -> Seq<Value>;

    /// The items, in order, each with the code-map offset of its fragment,
    /// the array being at `offset`.
    fn iter_mapped(&self, code_map: &CodeMap, offset: usize) -> (r: Vec<Mapped<&Value>>)
        requires
            offset < usize::MAX,
            item_offsets_ok(code_map@, offset + 1, self.items().len()),
        ensures
            r@.len() == self.items().len(),
            forall|i: int|
                #![trigger r@[i]]
                0 <= i < r@.len() ==> r@[i].offset == item_offset_at(code_map@, offset + 1, i as nat)
                    && *r@[i].value == self.items()[i],
    ;
}

impl JsonArray for Vec<Value> {
    open spec fn items(&self) -> Seq<Value> {
        self@
    }

    fn iter_mapped(&self, code_map: &CodeMap, offset: usize) -> (r: Vec<Mapped<&Value>>) {
        let ghost cm = code_map@;
        let ghost o0 = offset + 1;
        let mut r: Vec<Mapped<&Value>> = Vec::new();
        let mut cur = offset + 1;
        let mut i: usize = 0;
        let n = self.len();
        while i < n
            invariant
                cm == code_map@,
                o0 == offset + 1,
                n == self@.len(),
                i <= n,
                item_offsets_ok(cm, cur as int, (n - i) as nat),
                cur == item_offset_at(cm, o0, i as nat),
                r@.len() == i,
                forall|j: int|
                    #![trigger r@[j]]
                    0 <= j < i ==> r@[j].offset == item_offset_at(cm, o0, j as nat) && *r@[j].value
                        == self@[j],
            decreases n - i,
        {
            let vol = code_map.get(cur).unwrap().volume;
            let ghost r0 = r@;
            r.push(Mapped::new(cur, &self[i]));
            proof {
                assert(r@[i as int].offset == item_offset_at(cm, o0, i as nat));
                assert(*r@[i as int].value == self@[i as int]);
                assert(forall|j: int| 0 <= j < i ==> r@[j] == r0[j]);
                lemma_item_offset_step(cm, o0, i as nat);
            }
            cur = cur + vol;
            i = i + 1;
        }
        r
    }
}

proof fn lemma_item_offset_step(cm: Seq<MapEntry>, o: int, i: nat)
    ensures
        item_offset_at(cm, o, i + 1) == item_offset_at(cm, o, i) + cm[item_offset_at(
            cm,
            o,
            i,
        )].volume,
    decreases i,
{
    if i > 0 {
        lemma_item_offset_step(cm, o + cm[o].volume, (i - 1) as nat);
    } else {
        assert(item_offset_at(cm, o, 1) == item_offset_at(cm, o + cm[o].volume, 0));
    }
}

/// The code map `cm` describes, from `offset` on, the fragments of `v`:
/// each entry counts the fragments of its fragment, and no offset
/// overflows.
pub open spec fn maps(cm: Seq<MapEntry>, offset: int, v: JValue) -> bool {
    &&& 0 <= offset
    &&& offset + value_fragments(v).len() <= cm.len()
    &&& offset + value_fragments(v).len() <= usize::MAX
    &&& forall|t: int|
        0 <= t < value_fragments(v).len() ==> #[trigger] cm[offset + t].volume == fragment_fragments(
            value_fragments(v)[t],
        ).len()
}

/// Where the code map describes an array, it describes each item at the
/// offset that `iter_mapped` gives it, after the fragments of the items
/// before it.
pub proof fn lemma_array_maps(cm: Seq<MapEntry>, offset: int, items: Seq<JValue>, i: nat)
    requires
        maps(cm, offset, JValue::Array(items)),
        i <= items.len(),
    ensures
        item_offsets_ok(cm, offset + 1, i),
        item_offset_at(cm, offset + 1, i) == offset + 1 + items_fragments(items.take(i as int)).len(),
        i < items.len() ==> maps(cm, item_offset_at(cm, offset + 1, i), items[i as int]),
    decreases i,
{
    let fs = value_fragments(JValue::Array(items));
    assert(fs == seq![JFragment::Value(JValue::Array(items))] + items_fragments(items));
    if i < items.len() {
        let pre = items.take(i as int);
        let x = items[i as int];
        let post = items.skip(i as int + 1);
        assert(items =~= pre + seq![x] + post);
        lemma_items_fragments_split(pre + seq![x], post);
        lemma_items_fragments_split(pre, seq![x]);
        let one = seq![x];
        assert(one.drop_last() =~= Seq::<JValue>::empty());
        assert(items_fragments(Seq::<JValue>::empty()) =~= Seq::<JFragment>::empty());
        assert(items_fragments(one) =~= value_fragments(x));
        assert(items.take(i as int + 1) =~= pre + one);
        let p = offset + 1 + items_fragments(pre).len();
        let vx = value_fragments(x);
        assert(items_fragments(items) == items_fragments(pre) + vx + items_fragments(post));
        assert forall|t: int| 0 <= t < vx.len() implies #[trigger] cm[p + t].volume
            == fragment_fragments(vx[t]).len() by {
            let u = 1 + items_fragments(pre).len() + t;
            assert(fs[u] == vx[t]);
            assert(cm[offset + u].volume == fragment_fragments(fs[u]).len());
        }
        assert(vx[0] == JFragment::Value(x));
        assert(cm[p].volume == vx.len()) by {
            assert(cm[p + 0].volume == fragment_fragments(vx[0]).len());
        }
    }
    if i > 0 {
        lemma_array_maps(cm, offset, items, (i - 1) as nat);
        lemma_item_offset_step(cm, offset + 1, (i - 1) as nat);
        let j = (i - 1) as int;
        let pre = items.take(j);
        let x = items[j];
        assert(items.take(i as int) =~= pre.push(x));
        assert(pre.push(x).drop_last() =~= pre);
        assert(items_fragments(pre.push(x)) == items_fragments(pre) + value_fragments(x));
        let p = item_offset_at(cm, offset + 1, j as nat);
        let vx = value_fragments(x);
        assert(vx[0] == JFragment::Value(x));
        assert(cm[p + 0].volume == fragment_fragments(vx[0]).len());
        assert(cm[p].volume == vx.len());
        lemma_item_offsets_ok_extend(cm, offset + 1, j as nat);
    } else {
        assert(items.take(0) =~= Seq::<JValue>::empty());
        assert(items_fragments(Seq::<JValue>::empty()) =~= Seq::<JFragment>::empty());
    }
}

proof fn lemma_item_offsets_ok_extend(cm: Seq<MapEntry>, o: int, n: nat)
    requires
        item_offsets_ok(cm, o, n),
        0 <= item_offset_at(cm, o, n) < cm.len(),
        item_offset_at(cm, o, n) + cm[item_offset_at(cm, o, n)].volume <= usize::MAX,
    ensures
        item_offsets_ok(cm, o, n + 1),
    decreases n,
{
    if n > 0 {
        lemma_item_offsets_ok_extend(cm, o + cm[o].volume, (n - 1) as nat);
    } else {
        assert(item_offsets_ok(cm, o + cm[o].volume, 0));
    }
}

/// The offset of an item is that of the item before it, past the fragments
/// that the code map counts for that one.
pub proof fn lemma_item_offset_step_pub(cm: Seq<MapEntry>, o: int, i: nat)
    ensures
        item_offset_at(cm, o, i + 1) == item_offset_at(cm, o, i) + cm[item_offset_at(
            cm,
            o,
            i,
        )].volume,
{
    lemma_item_offset_step(cm, o, i);
}

} // verus!
