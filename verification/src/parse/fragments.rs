//! The code map of a parsed document has one entry per fragment of the
//! value, in pre-order, and the first entry counts them all.
use vstd::prelude::*;
use crate::value::JValue;
use crate::fragment::{
    value_fragments, items_fragments, entries_fragments, JFragment, fragment_fragments,
    entry_fragments,
};
use super::Context;
use super::grammar::{Input, SEntry, Frag, ArrCont, ObjCont};
use super::parser::{parse_spec, lemma_byte_offset_mono, entry_bytes, code_map_bytes};
use super::grammar::byte_offset;
use crate::array::maps;

verus! {

/// Each code-map entry of `cm` counts the fragments of the fragment at the
/// same place in `fs`: itself and those below it.
pub open spec fn volumes_match(cm: Seq<SEntry>, fs: Seq<JFragment>) -> bool {
    &&& cm.len() == fs.len()
    &&& forall|t: int| 0 <= t < cm.len() ==> #[trigger] cm[t].volume == fragment_fragments(fs[t]).len()
}

proof fn lemma_volumes_match_add(a: Seq<SEntry>, fa: Seq<JFragment>, b: Seq<SEntry>, fb: Seq<JFragment>)
    requires
        volumes_match(a, fa),
        volumes_match(b, fb),
    ensures
        volumes_match(a + b, fa + fb),
{
    assert forall|t: int| 0 <= t < (a + b).len() implies #[trigger] (a + b)[t].volume
        == fragment_fragments((fa + fb)[t]).len() by {
        if t < a.len() {
            assert((a + b)[t] == a[t]);
            assert((fa + fb)[t] == fa[t]);
        } else {
            assert((a + b)[t] == b[t - a.len()]);
            assert((fa + fb)[t] == fb[t - a.len()]);
        }
    }
}

/// No code-map entry of `cm` counts more entries than there are from it to
/// the end.
pub open spec fn volumes_bounded(cm: Seq<SEntry>) -> bool {
    forall|t: int| 0 <= t < cm.len() ==> #[trigger] cm[t].volume <= cm.len() - t
}

proof fn lemma_bounded_add(a: Seq<SEntry>, b: Seq<SEntry>)
    requires
        volumes_bounded(a),
        volumes_bounded(b),
    ensures
        volumes_bounded(a + b),
{
    assert forall|t: int| 0 <= t < (a + b).len() implies #[trigger] (a + b)[t].volume <= (a
        + b).len() - t by {
        if t < a.len() {
            assert((a + b)[t] == a[t]);
        } else {
            assert((a + b)[t] == b[t - a.len()]);
        }
    }
}

proof fn lemma_bounded_prepend(r: SEntry, rest: Seq<SEntry>)
    requires
        volumes_bounded(rest),
        r.volume <= 1 + rest.len(),
    ensures
        volumes_bounded(seq![r] + rest),
{
    assert forall|t: int| 0 <= t < (seq![r] + rest).len() implies #[trigger] (seq![r] + rest)[t].volume
        <= (seq![r] + rest).len() - t by {
        if t > 0 {
            assert((seq![r] + rest)[t] == rest[t - 1]);
        }
    }
}

/// The code map of a value read from `i` has one entry per fragment of the
/// value, each of which counts the fragments below its own, itself
/// included.
pub proof fn lemma_value_code_map(inp: Input, i: int, ctx: Context)
    ensures
        inp.value(i, ctx) matches Ok((v, e, cm)) ==> volumes_match(cm, value_fragments(v))
            && volumes_bounded(cm) && cm.len() > 0 && cm[0].volume == cm.len(),
    decreases inp.len() - i, 0int,
{
    if i >= 0 {
        match inp.fragment(i, ctx) {
            Ok(Frag::Whole(v, start, end)) => {
                match v {
                    JValue::Array(s) => {
                        assert(s.len() == 0);
                        assert(items_fragments(s) =~= Seq::<JFragment>::empty());
                    },
                    JValue::Object(s) => {
                        assert(s.len() == 0);
                        assert(entries_fragments(s) =~= Seq::<JFragment>::empty());
                    },
                    _ => {},
                }
                assert(value_fragments(v).len() == 1);
                assert(value_fragments(v)[0] == JFragment::Value(v));
            },
            Ok(Frag::BeginArray(start, next)) => {
                inp.lemma_fragment_progress(i, ctx);
                assert(items_fragments(Seq::<JValue>::empty()) =~= Seq::<JFragment>::empty());
                lemma_items_code_map(inp, start, next, Seq::empty(), Seq::empty());
            },
            Ok(Frag::BeginObject(start, key, ks, ke, next)) => {
                inp.lemma_fragment_progress(i, ctx);
                assert(entries_fragments(Seq::<(Seq<char>, JValue)>::empty()) =~= Seq::<JFragment>::empty());
                lemma_members_code_map(inp, start, key, ks, ke, next, Seq::empty(), Seq::empty());
            },
            Err(_) => {},
        }
    }
}

/// The code map of the items of an array, after the items `acc` whose
/// entries are `cm`.
pub proof fn lemma_items_code_map(
    inp: Input,
    start: int,
    k: int,
    acc: Seq<JValue>,
    cm: Seq<SEntry>,
)
    requires
        0 <= k,
        volumes_match(cm, items_fragments(acc)),
        volumes_bounded(cm),
    ensures
        inp.items(start, k, acc, cm) matches Ok((v, e, cm2)) ==> volumes_match(
            cm2,
            value_fragments(v),
        ) && volumes_bounded(cm2) && cm2.len() > 0 && cm2[0].volume == cm2.len(),
    decreases inp.len() - k, 1int,
{
    lemma_value_code_map(inp, k, Context::Array);
    match inp.value(k, Context::Array) {
        Ok((v, e, cmv)) => {
            if !(e <= k || e > inp.len()) {
                let acc2 = acc.push(v);
                assert(acc2.drop_last() =~= acc);
                assert(items_fragments(acc2) == items_fragments(acc) + value_fragments(v));
                lemma_volumes_match_add(cm, items_fragments(acc), cmv, value_fragments(v));
                lemma_bounded_add(cm, cmv);
                match inp.array_continue(e) {
                    Ok(ArrCont::Item(n)) => {
                        inp.lemma_array_continue_progress(e);
                        lemma_items_code_map(inp, start, n, acc2, cm + cmv);
                    },
                    Ok(ArrCont::End(n)) => {
                        let root = seq![SEntry { start, end: n, volume: 1 + cm.len() + cmv.len() as int }];
                        let w = JValue::Array(acc2);
                        assert(value_fragments(w) == seq![JFragment::Value(w)] + items_fragments(acc2));
                        assert(volumes_match(root, seq![JFragment::Value(w)]));
                        lemma_volumes_match_add(root, seq![JFragment::Value(w)], cm + cmv, items_fragments(acc2));
                        lemma_bounded_prepend(root[0], cm + cmv);
                        assert(seq![root[0]] =~= root);
                        assert(root + (cm + cmv) =~= root + cm + cmv);
                    },
                    _ => {},
                }
            }
        },
        Err(_) => {},
    }
}

/// The code map of the entries of an object, after the entries `acc` whose
/// code-map entries are `cm`.
pub proof fn lemma_members_code_map(
    inp: Input,
    start: int,
    key: Seq<char>,
    ks: int,
    ke: int,
    kv: int,
    acc: Seq<(Seq<char>, JValue)>,
    cm: Seq<SEntry>,
)
    requires
        0 <= kv,
        volumes_match(cm, entries_fragments(acc)),
        volumes_bounded(cm),
    ensures
        inp.members(start, key, ks, ke, kv, acc, cm) matches Ok((v, e, cm2)) ==> volumes_match(
            cm2,
            value_fragments(v),
        ) && volumes_bounded(cm2) && cm2.len() > 0 && cm2[0].volume == cm2.len(),
    decreases inp.len() - kv, 1int,
{
    lemma_value_code_map(inp, kv, Context::ObjectValue);
    match inp.value(kv, Context::ObjectValue) {
        Ok((v, e, cmv)) => {
            if !(e <= kv || e > inp.len()) {
                let acc2 = acc.push((key, v));
                assert(acc2.drop_last() =~= acc);
                let two = seq![
                    SEntry { start: ks, end: e, volume: 2 + cmv.len() as int },
                    SEntry { start: ks, end: ke, volume: 1 },
                ];
                let ftwo = seq![JFragment::Entry(key, v), JFragment::Key(key)];
                assert(entries_fragments(acc2) == entries_fragments(acc) + ftwo + value_fragments(v));
                assert(fragment_fragments(JFragment::Entry(key, v)) == entry_fragments(key, v));
                assert(volumes_match(two, ftwo));
                lemma_volumes_match_add(cm, entries_fragments(acc), two, ftwo);
                lemma_volumes_match_add(cm + two, entries_fragments(acc) + ftwo, cmv, value_fragments(v));
                lemma_bounded_prepend(two[1], cmv);
                lemma_bounded_prepend(two[0], seq![two[1]] + cmv);
                assert(seq![two[0]] + (seq![two[1]] + cmv) =~= two + cmv);
                lemma_bounded_add(cm, two + cmv);
                assert(cm + (two + cmv) =~= cm + two + cmv);
                let cm2 = cm + two + cmv;
                match inp.object_continue(e) {
                    Ok(ObjCont::Entry(key2, ks2, ke2, next)) => {
                        inp.lemma_object_continue_progress(e);
                        lemma_members_code_map(inp, start, key2, ks2, ke2, next, acc2, cm2);
                    },
                    Ok(ObjCont::End(n)) => {
                        let root = seq![SEntry { start, end: n, volume: 1 + cm2.len() as int }];
                        let w = JValue::Object(acc2);
                        assert(value_fragments(w) == seq![JFragment::Value(w)] + entries_fragments(acc2));
                        assert(volumes_match(root, seq![JFragment::Value(w)]));
                        lemma_volumes_match_add(root, seq![JFragment::Value(w)], cm2, entries_fragments(acc2));
                        lemma_bounded_prepend(root[0], cm2);
                        assert(seq![root[0]] =~= root);
                    },
                    _ => {},
                }
            }
        },
        Err(_) => {},
    }
}

/// The code map of a parsed document has one entry per fragment of the
/// value, in pre-order; each entry counts the fragments of its fragment
/// (itself and those below it), so the first one counts them all.
pub proof fn lemma_code_map_fragments(inp: Input)
    ensures
        inp.document() matches Ok((v, cm)) ==> volumes_match(cm, value_fragments(v))
            && volumes_bounded(cm) && cm.len() > 0 && cm[0].volume == cm.len(),
        parse_spec(inp) matches Ok((v, cm)) ==> cm.len() == value_fragments(v).len(),
{
    lemma_value_code_map(inp, 0, Context::Root);
}

/// The code map that parsing gives describes the value that it gives, from
/// its first entry: whatever reads the value back through the code map
/// (`iter_mapped`, `get_mapped`, `TryFromJson`) may be handed both.
pub proof fn lemma_parse_maps(inp: Input)
    ensures
        parse_spec(inp) matches Ok((v, cm)) ==> (cm.len() <= usize::MAX ==> maps(cm, 0, v)),
{
    lemma_code_map_fragments(inp);
    if let Ok((v, scm)) = inp.document() {
        let cm = parse_spec(inp)->Ok_0.1;
        if cm.len() <= usize::MAX {
            assert forall|t: int| 0 <= t < value_fragments(v).len() implies #[trigger] cm[0
                + t].volume == fragment_fragments(value_fragments(v)[t]).len() by {
                assert(scm[t].volume <= scm.len() - t);
                assert(cm[t].volume == scm[t].volume as usize);
            }
        }
    }
}

/// Every code-map entry of `cm` spans characters from `lo` to `hi`, its
/// start not after its end.
pub open spec fn spans_within(cm: Seq<SEntry>, lo: int, hi: int) -> bool {
    forall|t: int| 0 <= t < cm.len() ==> lo <= #[trigger] cm[t].start <= cm[t].end <= hi
}

proof fn lemma_spans_widen(cm: Seq<SEntry>, lo: int, hi: int, lo2: int, hi2: int)
    requires
        spans_within(cm, lo, hi),
        lo2 <= lo,
        hi <= hi2,
    ensures
        spans_within(cm, lo2, hi2),
{
}

proof fn lemma_spans_add(a: Seq<SEntry>, b: Seq<SEntry>, lo: int, hi: int)
    requires
        spans_within(a, lo, hi),
        spans_within(b, lo, hi),
    ensures
        spans_within(a + b, lo, hi),
{
    assert forall|t: int| 0 <= t < (a + b).len() implies lo <= #[trigger] (a + b)[t].start <= (a
        + b)[t].end <= hi by {
        if t < a.len() {
            assert((a + b)[t] == a[t]);
        } else {
            assert((a + b)[t] == b[t - a.len()]);
        }
    }
}

/// The code map of a value read from `i` spans characters from `i` to the
/// end of the value.
pub proof fn lemma_value_spans(inp: Input, i: int, ctx: Context)
    ensures
        inp.value(i, ctx) matches Ok((v, e, cm)) ==> i <= e <= inp.len() && spans_within(cm, i, e),
    decreases inp.len() - i, 0int,
{
    if i >= 0 {
        inp.lemma_fragment_progress(i, ctx);
        match inp.fragment(i, ctx) {
            Ok(Frag::BeginArray(start, next)) => {
                lemma_items_spans(inp, start, next, Seq::empty(), Seq::empty());
            },
            Ok(Frag::BeginObject(start, key, ks, ke, next)) => {
                lemma_members_spans(inp, start, key, ks, ke, next, Seq::empty(), Seq::empty());
            },
            _ => {},
        }
    }
}

/// The code map of the items of an array that starts at `start`, read from
/// `k` after items whose entries `cm` span characters from `start` to `k`.
pub proof fn lemma_items_spans(inp: Input, start: int, k: int, acc: Seq<JValue>, cm: Seq<SEntry>)
    requires
        0 <= start < k,
        spans_within(cm, start, k),
    ensures
        inp.items(start, k, acc, cm) matches Ok((v, n, cm2)) ==> k < n <= inp.len()
            && spans_within(cm2, start, n),
    decreases inp.len() - k, 1int,
{
    lemma_value_spans(inp, k, Context::Array);
    if let Ok((v, e, cmv)) = inp.value(k, Context::Array) {
        if !(e <= k || e > inp.len()) {
            lemma_spans_widen(cm, start, k, start, e);
            lemma_spans_widen(cmv, k, e, start, e);
            lemma_spans_add(cm, cmv, start, e);
            inp.lemma_array_continue_progress(e);
            match inp.array_continue(e) {
                Ok(ArrCont::Item(n)) => {
                    lemma_spans_widen(cm + cmv, start, e, start, n);
                    lemma_items_spans(inp, start, n, acc.push(v), cm + cmv);
                },
                Ok(ArrCont::End(n)) => {
                    let root = seq![SEntry { start, end: n, volume: 1 + cm.len() + cmv.len() as int }];
                    lemma_spans_widen(cm + cmv, start, e, start, n);
                    lemma_spans_add(root, cm + cmv, start, n);
                    assert(root + (cm + cmv) =~= root + cm + cmv);
                },
                _ => {},
            }
        }
    }
}

/// The code map of the entries of an object that starts at `start`, read
/// from the value at `kv` of the entry whose key spans `ks` to `ke`, after
/// entries whose code-map entries `cm` span characters from `start` to
/// `ks`.
pub proof fn lemma_members_spans(
    inp: Input,
    start: int,
    key: Seq<char>,
    ks: int,
    ke: int,
    kv: int,
    acc: Seq<(Seq<char>, JValue)>,
    cm: Seq<SEntry>,
)
    requires
        0 <= start < ks < ke < kv,
        spans_within(cm, start, ks),
    ensures
        inp.members(start, key, ks, ke, kv, acc, cm) matches Ok((v, n, cm2)) ==> kv < n <= inp.len()
            && spans_within(cm2, start, n),
    decreases inp.len() - kv, 1int,
{
    lemma_value_spans(inp, kv, Context::ObjectValue);
    if let Ok((v, e, cmv)) = inp.value(kv, Context::ObjectValue) {
        if !(e <= kv || e > inp.len()) {
            let two = seq![
                SEntry { start: ks, end: e, volume: 2 + cmv.len() as int },
                SEntry { start: ks, end: ke, volume: 1 },
            ];
            let cm2 = cm + two + cmv;
            lemma_spans_widen(cm, start, ks, start, e);
            lemma_spans_widen(cmv, kv, e, start, e);
            assert(spans_within(two, start, e));
            lemma_spans_add(cm, two, start, e);
            lemma_spans_add(cm + two, cmv, start, e);
            inp.lemma_object_continue_progress(e);
            match inp.object_continue(e) {
                Ok(ObjCont::Entry(key2, ks2, ke2, next)) => {
                    lemma_spans_widen(cm2, start, e, start, ks2);
                    lemma_members_spans(inp, start, key2, ks2, ke2, next, acc.push((key, v)), cm2);
                },
                Ok(ObjCont::End(n)) => {
                    let root = seq![SEntry { start, end: n, volume: 1 + cm2.len() as int }];
                    lemma_spans_widen(cm2, start, e, start, n);
                    lemma_spans_add(root, cm2, start, n);
                },
                _ => {},
            }
        }
    }
}

/// Every span of the code map that parsing gives lies within the input:
/// its start is not after its end, and its end not after the last byte.
pub proof fn lemma_parse_spans(inp: Input)
    ensures
        parse_spec(inp) matches Ok((v, cm)) ==> (byte_offset(inp.chars, inp.len() as int)
            <= usize::MAX ==> forall|t: int|
            0 <= t < cm.len() ==> #[trigger] cm[t].span.start <= cm[t].span.end <= byte_offset(
                inp.chars,
                inp.len() as int,
            )),
{
    lemma_value_spans(inp, 0, Context::Root);
    if let Ok((v, scm)) = inp.document() {
        let s = inp.chars;
        let cm = code_map_bytes(s, scm);
        assert(parse_spec(inp) == Ok::<(JValue, Seq<crate::code_map::Entry>), crate::parse::Error>(
            (v, cm),
        ));
        if byte_offset(s, inp.len() as int) <= usize::MAX {
            assert forall|t: int| 0 <= t < cm.len() implies #[trigger] cm[t].span.start
                <= cm[t].span.end <= byte_offset(s, inp.len() as int) by {
                let en = scm[t];
                assert(cm[t] == entry_bytes(s, en));
                assert(0 <= en.start <= en.end <= inp.len());
                lemma_byte_offset_mono(s, en.start, en.end);
                lemma_byte_offset_mono(s, en.end, inp.len() as int);
                assert(cm[t].span.start == byte_offset(s, en.start));
                assert(cm[t].span.end == byte_offset(s, en.end));
            }
            assert(forall|t: int|
                0 <= t < cm.len() ==> #[trigger] cm[t].span.start <= cm[t].span.end <= byte_offset(
                    s,
                    inp.len() as int,
                ));
            assert(s == inp.chars);
        }
    }
}


/// Each code-map entry of `cm` spans the entries that it counts after
/// itself: their spans lie within its own.
pub open spec fn spans_nested(cm: Seq<SEntry>) -> bool {
    forall|t: int, u: int|
        #![trigger cm[t], cm[u]]
        0 <= t < u < cm.len() && u < t + cm[t].volume ==> cm[t].start <= cm[u].start && cm[u].end
            <= cm[t].end
}

proof fn lemma_nested_add(a: Seq<SEntry>, b: Seq<SEntry>)
    requires
        spans_nested(a),
        spans_nested(b),
        volumes_bounded(a),
    ensures
        spans_nested(a + b),
{
    let c = a + b;
    assert forall|t: int, u: int|
        #![trigger c[t], c[u]]
        0 <= t < u < c.len() && u < t + c[t].volume implies c[t].start <= c[u].start && c[u].end
            <= c[t].end by {
        if t < a.len() {
            assert(c[t] == a[t]);
            assert(a[t].volume <= a.len() - t);
            assert(c[u] == a[u]);
        } else {
            assert(c[t] == b[t - a.len()]);
            assert(c[u] == b[u - a.len()]);
        }
    }
}

proof fn lemma_nested_prepend(r: SEntry, rest: Seq<SEntry>)
    requires
        spans_nested(rest),
        r.volume <= 1 || spans_within(rest, r.start, r.end),
    ensures
        spans_nested(seq![r] + rest),
{
    let c = seq![r] + rest;
    assert forall|t: int, u: int|
        #![trigger c[t], c[u]]
        0 <= t < u < c.len() && u < t + c[t].volume implies c[t].start <= c[u].start && c[u].end
            <= c[t].end by {
        assert(c[u] == rest[u - 1]);
        if t > 0 {
            assert(c[t] == rest[t - 1]);
        }
    }
}

/// The entries of the code map of a value read from `i` are nested: each
/// one spans those that it counts.
pub proof fn lemma_value_nested(inp: Input, i: int, ctx: Context)
    ensures
        inp.value(i, ctx) matches Ok((v, e, cm)) ==> spans_nested(cm),
    decreases inp.len() - i, 0int,
{
    if i >= 0 {
        inp.lemma_fragment_progress(i, ctx);
        match inp.fragment(i, ctx) {
            Ok(Frag::BeginArray(start, next)) => {
                lemma_items_nested(inp, start, next, Seq::empty(), Seq::empty());
            },
            Ok(Frag::BeginObject(start, key, ks, ke, next)) => {
                lemma_members_nested(inp, start, key, ks, ke, next, Seq::empty(), Seq::empty());
            },
            _ => {},
        }
    }
}

/// The entries of the code map of the items of an array that starts at
/// `start`, read from `k` after items whose nested entries `cm` span
/// characters from `start` to `k`, are nested.
pub proof fn lemma_items_nested(inp: Input, start: int, k: int, acc: Seq<JValue>, cm: Seq<SEntry>)
    requires
        0 <= start < k,
        spans_within(cm, start, k),
        volumes_bounded(cm),
        spans_nested(cm),
    ensures
        inp.items(start, k, acc, cm) matches Ok((v, n, cm2)) ==> spans_nested(cm2),
    decreases inp.len() - k, 1int,
{
    lemma_value_spans(inp, k, Context::Array);
    lemma_value_code_map(inp, k, Context::Array);
    lemma_value_nested(inp, k, Context::Array);
    if let Ok((v, e, cmv)) = inp.value(k, Context::Array) {
        if !(e <= k || e > inp.len()) {
            lemma_spans_widen(cm, start, k, start, e);
            lemma_spans_widen(cmv, k, e, start, e);
            lemma_spans_add(cm, cmv, start, e);
            lemma_bounded_add(cm, cmv);
            lemma_nested_add(cm, cmv);
            inp.lemma_array_continue_progress(e);
            match inp.array_continue(e) {
                Ok(ArrCont::Item(n)) => {
                    lemma_spans_widen(cm + cmv, start, e, start, n);
                    lemma_items_nested(inp, start, n, acc.push(v), cm + cmv);
                },
                Ok(ArrCont::End(n)) => {
                    let r = SEntry { start, end: n, volume: 1 + cm.len() + cmv.len() as int };
                    lemma_spans_widen(cm + cmv, start, e, start, n);
                    lemma_nested_prepend(r, cm + cmv);
                    assert(seq![r] + (cm + cmv) =~= seq![r] + cm + cmv);
                },
                _ => {},
            }
        }
    }
}

/// The entries of the code map of the entries of an object that starts at
/// `start`, read from the value at `kv` of the entry whose key spans `ks`
/// to `ke`, after entries whose nested code-map entries `cm` span
/// characters from `start` to `ks`, are nested.
pub proof fn lemma_members_nested(
    inp: Input,
    start: int,
    key: Seq<char>,
    ks: int,
    ke: int,
    kv: int,
    acc: Seq<(Seq<char>, JValue)>,
    cm: Seq<SEntry>,
)
    requires
        0 <= start < ks < ke < kv,
        spans_within(cm, start, ks),
        volumes_bounded(cm),
        spans_nested(cm),
    ensures
        inp.members(start, key, ks, ke, kv, acc, cm) matches Ok((v, n, cm2)) ==> spans_nested(cm2),
    decreases inp.len() - kv, 1int,
{
    lemma_value_spans(inp, kv, Context::ObjectValue);
    lemma_value_code_map(inp, kv, Context::ObjectValue);
    lemma_value_nested(inp, kv, Context::ObjectValue);
    if let Ok((v, e, cmv)) = inp.value(kv, Context::ObjectValue) {
        if !(e <= kv || e > inp.len()) {
            let ent = SEntry { start: ks, end: e, volume: 2 + cmv.len() as int };
            let kent = SEntry { start: ks, end: ke, volume: 1 };
            let two = seq![ent, kent];
            let cm2 = cm + two + cmv;
            // spans
            lemma_spans_widen(cm, start, ks, start, e);
            lemma_spans_widen(cmv, kv, e, start, e);
            assert(spans_within(two, start, e));
            lemma_spans_add(cm, two, start, e);
            lemma_spans_add(cm + two, cmv, start, e);
            // nesting of the entry, its key and its value
            lemma_nested_prepend(kent, cmv);
            lemma_spans_widen(cmv, kv, e, ks, e);
            assert(spans_within(seq![kent], ks, e));
            lemma_spans_add(seq![kent], cmv, ks, e);
            lemma_nested_prepend(ent, seq![kent] + cmv);
            assert(seq![ent] + (seq![kent] + cmv) =~= two + cmv);
            lemma_nested_add(cm, two + cmv);
            assert(cm + (two + cmv) =~= cm2);
            // volumes
            lemma_bounded_prepend(kent, cmv);
            lemma_bounded_prepend(ent, seq![kent] + cmv);
            lemma_bounded_add(cm, two + cmv);
            inp.lemma_object_continue_progress(e);
            match inp.object_continue(e) {
                Ok(ObjCont::Entry(key2, ks2, ke2, next)) => {
                    lemma_spans_widen(cm2, start, e, start, ks2);
                    lemma_members_nested(inp, start, key2, ks2, ke2, next, acc.push((key, v)), cm2);
                },
                Ok(ObjCont::End(n)) => {
                    let r = SEntry { start, end: n, volume: 1 + cm2.len() as int };
                    lemma_spans_widen(cm2, start, e, start, n);
                    lemma_nested_prepend(r, cm2);
                },
                _ => {},
            }
        }
    }
}

/// The code map that parsing gives: one entry per fragment of the value, in
/// pre-order; each entry counts the fragments of its own fragment (itself
/// and those below it), so the first counts them all and none reaches past
/// the end; each entry's byte span lies within the input and holds the
/// spans of the entries that it counts.
pub proof fn lemma_parse_code_map(inp: Input)
    ensures
        parse_spec(inp) matches Ok((v, cm)) ==> (cm.len() <= usize::MAX && byte_offset(
            inp.chars,
            inp.len() as int,
        ) <= usize::MAX ==> {
            &&& cm.len() == value_fragments(v).len()
            &&& cm[0].volume == cm.len()
            &&& forall|t: int|
                0 <= t < cm.len() ==> #[trigger] cm[t].volume == fragment_fragments(
                    value_fragments(v)[t],
                ).len() && t + cm[t].volume <= cm.len()
            &&& forall|t: int|
                0 <= t < cm.len() ==> #[trigger] cm[t].span.start <= cm[t].span.end
                    <= byte_offset(inp.chars, inp.len() as int)
            &&& forall|t: int, u: int|
                #![trigger cm[t], cm[u]]
                0 <= t < u < cm.len() && u < t + cm[t].volume ==> cm[t].span.start
                    <= cm[u].span.start && cm[u].span.end <= cm[t].span.end
        }),
{
    lemma_code_map_fragments(inp);
    lemma_parse_spans(inp);
    lemma_value_spans(inp, 0, Context::Root);
    lemma_value_nested(inp, 0, Context::Root);
    if let Ok((v, scm)) = inp.document() {
        let s = inp.chars;
        let n = inp.len() as int;
        let cm = code_map_bytes(s, scm);
        assert(parse_spec(inp) == Ok::<(JValue, Seq<crate::code_map::Entry>), crate::parse::Error>(
            (v, cm),
        ));
        if cm.len() <= usize::MAX && byte_offset(s, n) <= usize::MAX {
            let e = inp.value(0, Context::Root)->Ok_0.1;
            assert(spans_within(scm, 0, n)) by {
                lemma_spans_widen(scm, 0, e, 0, n);
            }
            assert forall|t: int| 0 <= t < cm.len() implies #[trigger] cm[t].volume
                == fragment_fragments(value_fragments(v)[t]).len() && t + cm[t].volume
                <= cm.len() by {
                assert(cm[t] == entry_bytes(s, scm[t]));
                assert(scm[t].volume <= scm.len() - t);
            }
            assert(cm[0] == entry_bytes(s, scm[0]));
            assert forall|t: int, u: int|
                #![trigger cm[t], cm[u]]
                0 <= t < u < cm.len() && u < t + cm[t].volume implies cm[t].span.start
                    <= cm[u].span.start && cm[u].span.end <= cm[t].span.end by {
                let a = scm[t];
                let b = scm[u];
                assert(cm[t] == entry_bytes(s, a));
                assert(cm[u] == entry_bytes(s, b));
                assert(a.volume <= scm.len() - t);
                assert(a.start <= b.start && b.end <= a.end);
                assert(0 <= a.start <= a.end <= n);
                assert(0 <= b.start <= b.end <= n);
                lemma_byte_offset_mono(s, a.start, b.start);
                lemma_byte_offset_mono(s, b.end, a.end);
                lemma_byte_offset_mono(s, a.end, n);
                lemma_byte_offset_mono(s, b.start, b.end);
            }
        }
    }
}

} // verus!
