//! What the printer prints when it reads the sizes of arrays and objects
//! from a slice of slots: a slot that holds no width expands its array or
//! object on several lines, one that holds a width prints it on one line.
use vstd::prelude::*;
use crate::value::JValue;
use super::Options;
use super::spec::{
    spaces, indent_chars, string_literal, size_spec, sizes_spec, items_sizes, entries_sizes,
    print_spec, items_expanded, items_inline, entries_expanded, entries_inline, entry_spec,
};

verus! {

/// The number of arrays and objects in `v`: the slots that printing it
/// reads, one per array or object, in pre-order.
pub open spec fn slots(v: JValue) -> nat
    decreases v, 1int,
{
    match v {
        JValue::Array(items) => 1 + items_slots(items),
        JValue::Object(entries) => 1 + entries_slots(entries),
        _ => 0,
    }
}

pub open spec fn items_slots(items: Seq<JValue>) -> nat
    decreases items, 0int,
{
    if items.len() == 0 {
        0
    } else {
        items_slots(items.drop_last()) + slots(items[items.len() - 1])
    }
}

pub open spec fn entries_slots(entries: Seq<(Seq<char>, JValue)>) -> nat
    decreases entries, 0int,
{
    if entries.len() == 0 {
        0
    } else {
        entries_slots(entries.drop_last()) + slots(entries[entries.len() - 1].1)
    }
}

/// What is printed for `v` at the indentation level `indent`, when the
/// slots of its arrays and objects are read from `s`, from `at` on.
pub open spec fn print_sized(v: JValue, o: Options, indent: nat, s: Seq<Option<int>>, at: int) -> Seq<
    char,
>
    decreases v, 1int,
{
    match v {
        JValue::Array(items) => seq!['['] + (if items.len() == 0 {
            if s[at] is None {
                seq!['\n'] + indent_chars(o.indent, indent)
            } else {
                spaces(o.array_empty as nat)
            }
        } else if s[at] is None {
            seq!['\n'] + items_expanded_sized(items, o, indent + 1, s, at + 1) + seq!['\n']
                + indent_chars(o.indent, indent)
        } else {
            spaces(o.array_begin as nat) + items_inline_sized(items, o, indent + 1, s, at + 1)
                + spaces(o.array_end as nat)
        }) + seq![']'],
        JValue::Object(entries) => seq!['{'] + (if entries.len() == 0 {
            if s[at] is None {
                seq!['\n'] + indent_chars(o.indent, indent)
            } else {
                spaces(o.object_empty as nat)
            }
        } else if s[at] is None {
            seq!['\n'] + entries_expanded_sized(entries, o, indent + 1, s, at + 1) + seq!['\n']
                + indent_chars(o.indent, indent)
        } else {
            spaces(o.object_begin as nat) + entries_inline_sized(entries, o, indent + 1, s, at + 1)
                + spaces(o.object_end as nat)
        }) + seq!['}'],
        _ => print_spec(v, o, indent),
    }
}

/// The items of an expanded array, each on its own line, their slots read
/// from `s` from `at` on.
pub open spec fn items_expanded_sized(
    items: Seq<JValue>,
    o: Options,
    indent: nat,
    s: Seq<Option<int>>,
    at: int,
) -> Seq<char>
    decreases items, 0int,
{
    if items.len() == 0 {
        Seq::empty()
    } else {
        items_expanded_sized(items.drop_last(), o, indent, s, at) + (if items.len() > 1 {
            spaces(o.array_before_comma as nat) + seq![',', '\n']
        } else {
            Seq::empty()
        }) + indent_chars(o.indent, indent) + print_sized(
            items[items.len() - 1],
            o,
            indent,
            s,
            at + items_slots(items.drop_last()),
        )
    }
}

/// The items of an array on one line, their slots read from `s` from `at`
/// on.
pub open spec fn items_inline_sized(
    items: Seq<JValue>,
    o: Options,
    indent: nat,
    s: Seq<Option<int>>,
    at: int,
) -> Seq<char>
    decreases items, 0int,
{
    if items.len() == 0 {
        Seq::empty()
    } else {
        items_inline_sized(items.drop_last(), o, indent, s, at) + (if items.len() > 1 {
            spaces(o.array_before_comma as nat) + seq![','] + spaces(o.array_after_comma as nat)
        } else {
            Seq::empty()
        }) + print_sized(items[items.len() - 1], o, indent, s, at + items_slots(items.drop_last()))
    }
}

/// An entry of an object, the slots of its value read from `s` from `at`
/// on.
pub open spec fn entry_sized(
    key: Seq<char>,
    value: JValue,
    o: Options,
    indent: nat,
    s: Seq<Option<int>>,
    at: int,
) -> Seq<char>
    decreases value, 2int,
{
    string_literal(key) + spaces(o.object_before_colon as nat) + seq![':'] + spaces(
        o.object_after_colon as nat,
    ) + print_sized(value, o, indent, s, at)
}

/// The entries of an expanded object, each on its own line, their slots
/// read from `s` from `at` on.
pub open spec fn entries_expanded_sized(
    entries: Seq<(Seq<char>, JValue)>,
    o: Options,
    indent: nat,
    s: Seq<Option<int>>,
    at: int,
) -> Seq<char>
    decreases entries, 0int,
{
    if entries.len() == 0 {
        Seq::empty()
    } else {
        entries_expanded_sized(entries.drop_last(), o, indent, s, at) + (if entries.len() > 1 {
            spaces(o.object_before_comma as nat) + seq![',', '\n']
        } else {
            Seq::empty()
        }) + indent_chars(o.indent, indent) + entry_sized(
            entries[entries.len() - 1].0,
            entries[entries.len() - 1].1,
            o,
            indent,
            s,
            at + entries_slots(entries.drop_last()),
        )
    }
}

/// The entries of an object on one line, their slots read from `s` from
/// `at` on.
pub open spec fn entries_inline_sized(
    entries: Seq<(Seq<char>, JValue)>,
    o: Options,
    indent: nat,
    s: Seq<Option<int>>,
    at: int,
) -> Seq<char>
    decreases entries, 0int,
{
    if entries.len() == 0 {
        Seq::empty()
    } else {
        entries_inline_sized(entries.drop_last(), o, indent, s, at) + (if entries.len() > 1 {
            spaces(o.object_before_comma as nat) + seq![','] + spaces(o.object_after_comma as nat)
        } else {
            Seq::empty()
        }) + entry_sized(
            entries[entries.len() - 1].0,
            entries[entries.len() - 1].1,
            o,
            indent,
            s,
            at + entries_slots(entries.drop_last()),
        )
    }
}

/// The slots of a prefix of the items are no more than those of all items.
pub proof fn lemma_items_slots_prefix(items: Seq<JValue>, k: int)
    requires
        0 <= k <= items.len(),
    ensures
        items_slots(items.take(k)) <= items_slots(items),
    decreases items.len(),
{
    if k < items.len() {
        assert(items.drop_last().take(k) =~= items.take(k));
        lemma_items_slots_prefix(items.drop_last(), k);
    } else {
        assert(items.take(k) =~= items);
    }
}

/// The slots of a prefix of the entries are no more than those of all
/// entries.
pub proof fn lemma_entries_slots_prefix(entries: Seq<(Seq<char>, JValue)>, k: int)
    requires
        0 <= k <= entries.len(),
    ensures
        entries_slots(entries.take(k)) <= entries_slots(entries),
    decreases entries.len(),
{
    if k < entries.len() {
        assert(entries.drop_last().take(k) =~= entries.take(k));
        lemma_entries_slots_prefix(entries.drop_last(), k);
    } else {
        assert(entries.take(k) =~= entries);
    }
}

proof fn lemma_subrange_split(s: Seq<Option<int>>, at: int, a: Seq<Option<int>>, b: Seq<Option<int>>)
    requires
        0 <= at,
        at + a.len() + b.len() <= s.len(),
        s.subrange(at, at + a.len() + b.len()) == a + b,
    ensures
        s.subrange(at, at + a.len()) == a,
        s.subrange(at + a.len(), at + a.len() + b.len()) == b,
{
    assert forall|t: int| 0 <= t < a.len() implies #[trigger] s.subrange(at, at + a.len())[t]
        == a[t] by {
        assert(s.subrange(at, at + a.len() + b.len())[t] == (a + b)[t]);
    }
    assert forall|t: int| 0 <= t < b.len() implies #[trigger] s.subrange(
        at + a.len(),
        at + a.len() + b.len(),
    )[t] == b[t] by {
        assert(s.subrange(at, at + a.len() + b.len())[a.len() + t] == (a + b)[a.len() + t]);
    }
    assert(s.subrange(at, at + a.len()) =~= a);
    assert(s.subrange(at + a.len(), at + a.len() + b.len()) =~= b);
}

/// Printing with slots that hold the pre-computed sizes of `v` prints what
/// printing `v` with its own sizes prints, and reads as many slots as `v`
/// has arrays and objects.
pub proof fn lemma_print_sized(v: JValue, o: Options, indent: nat, s: Seq<Option<int>>, at: int)
    requires
        0 <= at,
        at + sizes_spec(v, o).len() <= s.len(),
        s.subrange(at, at + sizes_spec(v, o).len()) == sizes_spec(v, o),
    ensures
        slots(v) == sizes_spec(v, o).len(),
        print_sized(v, o, indent, s, at) == print_spec(v, o, indent),
    decreases v, 1int,
{
    match v {
        JValue::Array(items) => {
            let rest = items_sizes(items, o);
            assert(sizes_spec(v, o) == seq![size_spec(v, o)] + rest);
            lemma_subrange_split(s, at, seq![size_spec(v, o)], rest);
            assert(s.subrange(at, at + 1)[0] == s[at]);
            lemma_items_sized(items, o, indent + 1, s, at + 1);
        },
        JValue::Object(entries) => {
            let rest = entries_sizes(entries, o);
            assert(sizes_spec(v, o) == seq![size_spec(v, o)] + rest);
            lemma_subrange_split(s, at, seq![size_spec(v, o)], rest);
            assert(s.subrange(at, at + 1)[0] == s[at]);
            lemma_entries_sized(entries, o, indent + 1, s, at + 1);
        },
        _ => {},
    }
}

proof fn lemma_items_sized(items: Seq<JValue>, o: Options, indent: nat, s: Seq<Option<int>>, at: int)
    requires
        0 <= at,
        at + items_sizes(items, o).len() <= s.len(),
        s.subrange(at, at + items_sizes(items, o).len()) == items_sizes(items, o),
    ensures
        items_slots(items) == items_sizes(items, o).len(),
        items_expanded_sized(items, o, indent, s, at) == items_expanded(items, o, indent),
        items_inline_sized(items, o, indent, s, at) == items_inline(items, o, indent),
    decreases items, 0int,
{
    if items.len() > 0 {
        let pre = items.drop_last();
        let last = items[items.len() - 1];
        lemma_subrange_split(s, at, items_sizes(pre, o), sizes_spec(last, o));
        lemma_items_sized(pre, o, indent, s, at);
        lemma_print_sized(last, o, indent, s, at + items_sizes(pre, o).len());
    }
}

proof fn lemma_entries_sized(
    entries: Seq<(Seq<char>, JValue)>,
    o: Options,
    indent: nat,
    s: Seq<Option<int>>,
    at: int,
)
    requires
        0 <= at,
        at + entries_sizes(entries, o).len() <= s.len(),
        s.subrange(at, at + entries_sizes(entries, o).len()) == entries_sizes(entries, o),
    ensures
        entries_slots(entries) == entries_sizes(entries, o).len(),
        entries_expanded_sized(entries, o, indent, s, at) == entries_expanded(entries, o, indent),
        entries_inline_sized(entries, o, indent, s, at) == entries_inline(entries, o, indent),
    decreases entries, 0int,
{
    if entries.len() > 0 {
        let pre = entries.drop_last();
        let last = entries[entries.len() - 1];
        lemma_subrange_split(s, at, entries_sizes(pre, o), sizes_spec(last.1, o));
        lemma_entries_sized(pre, o, indent, s, at);
        lemma_print_sized(last.1, o, indent, s, at + entries_sizes(pre, o).len());
        assert(entry_sized(last.0, last.1, o, indent, s, at + entries_slots(pre)) == entry_spec(
            last.0,
            last.1,
            o,
            indent,
        ));
    }
}

} // verus!
