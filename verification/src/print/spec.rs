//! What the printer prints, as spec functions over the model of JSON values.
use vstd::prelude::*;
use crate::value::JValue;
use super::{Indent, Limit, Options};

verus! {

/// `n` spaces.
pub open spec fn spaces(n: nat) -> Seq<char> {
    Seq::new(n, |i: int| ' ')
}

/// One unit of indentation.
pub open spec fn indent_unit(indent: Indent) -> Seq<char> {
    match indent {
        Indent::Spaces(n) => Seq::new(n as nat, |i: int| ' '),
        Indent::Tabs(n) => Seq::new(n as nat, |i: int| '\t'),
    }
}

/// `n` units of indentation.
pub open spec fn indent_chars(indent: Indent, n: nat) -> Seq<char>
    decreases n,
{
    if n == 0 {
        Seq::empty()
    } else {
        indent_chars(indent, (n - 1) as nat) + indent_unit(indent)
    }
}

/// The lowercase hexadecimal digit of `d` (below 16).
pub open spec fn hex_char(d: u32) -> char {
    if d < 10 {
        (('0' as u32) + d) as char
    } else {
        (('a' as u32) + d - 10) as char
    }
}

/// How the character `c` is written in a string literal (RFC 8785).
pub open spec fn escape(c: char) -> Seq<char> {
    if c == '\\' {
        seq!['\\', '\\']
    } else if c == '"' {
        seq!['\\', '"']
    } else if c == '\u{0008}' {
        seq!['\\', 'b']
    } else if c == '\u{0009}' {
        seq!['\\', 't']
    } else if c == '\u{000a}' {
        seq!['\\', 'n']
    } else if c == '\u{000c}' {
        seq!['\\', 'f']
    } else if c == '\u{000d}' {
        seq!['\\', 'r']
    } else if (c as u32) <= 0x1f {
        seq!['\\', 'u', '0', '0', hex_char((c as u32) / 16), hex_char((c as u32) % 16)]
    } else {
        seq![c]
    }
}

/// The characters of `s`, escaped.
pub open spec fn escaped(s: Seq<char>) -> Seq<char>
    decreases s.len(),
{
    if s.len() == 0 {
        Seq::empty()
    } else {
        escaped(s.drop_last()) + escape(s.last())
    }
}

/// The string literal of `s` (RFC 8785).
pub open spec fn string_literal(s: Seq<char>) -> Seq<char> {
    seq!['"'] + escaped(s) + seq!['"']
}

/// Sum of two sizes (`None`: expanded on several lines; `Some(w)`: on one
/// line of width `w`).
pub open spec fn add_size(a: Option<int>, b: Option<int>) -> Option<int> {
    match (a, b) {
        (Some(x), Some(y)) => Some(x + y),
        _ => None,
    }
}

/// The size of an array or object of `len` items whose one-line width would
/// be `width`, under `limit`.
pub open spec fn limit_size(limit: Option<Limit>, len: int, width: int) -> Option<int> {
    match limit {
        None => Some(width),
        Some(Limit::Always) => None,
        Some(Limit::Item(i)) => if len > i {
            None
        } else {
            Some(width)
        },
        Some(Limit::ItemOrWidth(i, w)) => if len > i || width > w {
            None
        } else {
            Some(width)
        },
        Some(Limit::Width(w)) => if width > w {
            None
        } else {
            Some(width)
        },
    }
}

/// The size of the value `v`: `None` if it is expanded on several lines,
/// `Some(w)` if it is printed on one line of width `w`.
pub open spec fn size_spec(v: JValue, o: Options) -> Option<int>
    decreases v, 1int,
{
    match v {
        JValue::Null => Some(4),
        JValue::Boolean(b) => Some(
            if b {
                4
            } else {
                5
            },
        ),
        JValue::Number(n) => Some(n.len() as int),
        JValue::String(s) => Some(string_literal(s).len() as int),
        JValue::Array(items) => if items.len() == 0 {
            limit_size(o.array_limit, 0, 2 + o.array_empty)
        } else {
            match items_size(items, o) {
                Some(w) => limit_size(o.array_limit, items.len() as int, w),
                None => None,
            }
        },
        JValue::Object(entries) => if entries.len() == 0 {
            limit_size(o.object_limit, 0, 2 + o.object_empty)
        } else {
            match entries_size(entries, o) {
                Some(w) => limit_size(o.object_limit, entries.len() as int, w),
                None => None,
            }
        },
    }
}

/// The size of an array with the items `items` (at least one), before its
/// limit applies: brackets, the spaces inside them, the items and what
/// separates them.
pub open spec fn items_size(items: Seq<JValue>, o: Options) -> Option<int>
    decreases items, 0int,
{
    if items.len() == 0 {
        Some(2 + o.array_begin + o.array_end)
    } else {
        let prev = items_size(items.drop_last(), o);
        let sep = if items.len() > 1 {
            add_size(prev, Some(1 + o.array_before_comma + o.array_after_comma))
        } else {
            prev
        };
        add_size(sep, size_spec(items[items.len() - 1], o))
    }
}

/// The size of an object with the entries `entries` (at least one), before
/// its limit applies.
pub open spec fn entries_size(entries: Seq<(Seq<char>, JValue)>, o: Options) -> Option<int>
    decreases entries, 0int,
{
    if entries.len() == 0 {
        Some(2 + o.object_begin + o.object_end)
    } else {
        let prev = entries_size(entries.drop_last(), o);
        let sep = if entries.len() > 1 {
            add_size(prev, Some(1 + o.object_before_comma + o.object_after_comma))
        } else {
            prev
        };
        let key = add_size(
            sep,
            Some(
                string_literal(entries[entries.len() - 1].0).len() + 1 + o.object_before_colon
                    + o.object_after_colon,
            ),
        );
        add_size(key, size_spec(entries[entries.len() - 1].1, o))
    }
}

/// The sizes of the arrays and objects of `v`, in pre-order.
pub open spec fn sizes_spec(v: JValue, o: Options) -> Seq<Option<int>>
    decreases v, 1int,
{
    match v {
        JValue::Array(items) => seq![size_spec(v, o)] + items_sizes(items, o),
        JValue::Object(entries) => seq![size_spec(v, o)] + entries_sizes(entries, o),
        _ => Seq::empty(),
    }
}

pub open spec fn items_sizes(items: Seq<JValue>, o: Options) -> Seq<Option<int>>
    decreases items, 0int,
{
    if items.len() == 0 {
        Seq::empty()
    } else {
        items_sizes(items.drop_last(), o) + sizes_spec(items[items.len() - 1], o)
    }
}

pub open spec fn entries_sizes(entries: Seq<(Seq<char>, JValue)>, o: Options) -> Seq<Option<int>>
    decreases entries, 0int,
{
    if entries.len() == 0 {
        Seq::empty()
    } else {
        entries_sizes(entries.drop_last(), o) + sizes_spec(entries[entries.len() - 1].1, o)
    }
}

/// The one-line width of `v` if nothing were expanded: a bound on every
/// width computed for it.
pub open spec fn width_bound(v: JValue, o: Options) -> int
    decreases v, 1int,
{
    match v {
        JValue::Array(items) => items_width_bound(items, o),
        JValue::Object(entries) => entries_width_bound(entries, o),
        _ => match size_spec(v, o) {
            Some(w) => w,
            None => 0,
        },
    }
}

pub open spec fn items_width_bound(items: Seq<JValue>, o: Options) -> int
    decreases items, 0int,
{
    if items.len() == 0 {
        2 + o.array_begin + o.array_end + o.array_empty
    } else {
        items_width_bound(items.drop_last(), o) + (if items.len() > 1 {
            1 + o.array_before_comma + o.array_after_comma
        } else {
            0
        }) + width_bound(items[items.len() - 1], o)
    }
}

pub open spec fn entries_width_bound(entries: Seq<(Seq<char>, JValue)>, o: Options) -> int
    decreases entries, 0int,
{
    if entries.len() == 0 {
        2 + o.object_begin + o.object_end + o.object_empty
    } else {
        entries_width_bound(entries.drop_last(), o) + (if entries.len() > 1 {
            1 + o.object_before_comma + o.object_after_comma
        } else {
            0
        }) + string_literal(entries[entries.len() - 1].0).len() + 1 + o.object_before_colon
            + o.object_after_colon + width_bound(entries[entries.len() - 1].1, o)
    }
}

/// The nesting depth of `v`.
pub open spec fn depth(v: JValue) -> nat
    decreases v, 1int,
{
    match v {
        JValue::Array(items) => 1 + items_depth(items),
        JValue::Object(entries) => 1 + entries_depth(entries),
        _ => 0,
    }
}

pub open spec fn items_depth(items: Seq<JValue>) -> nat
    decreases items, 0int,
{
    if items.len() == 0 {
        0
    } else {
        let a = items_depth(items.drop_last());
        let b = depth(items[items.len() - 1]);
        if a < b {
            b
        } else {
            a
        }
    }
}

pub open spec fn entries_depth(entries: Seq<(Seq<char>, JValue)>) -> nat
    decreases entries, 0int,
{
    if entries.len() == 0 {
        0
    } else {
        let a = entries_depth(entries.drop_last());
        let b = depth(entries[entries.len() - 1].1);
        if a < b {
            b
        } else {
            a
        }
    }
}

/// What is printed for `v` at the indentation level `indent`.
pub open spec fn print_spec(v: JValue, o: Options, indent: nat) -> Seq<char>
    decreases v, 1int,
{
    match v {
        JValue::Null => seq!['n', 'u', 'l', 'l'],
        JValue::Boolean(b) => if b {
            seq!['t', 'r', 'u', 'e']
        } else {
            seq!['f', 'a', 'l', 's', 'e']
        },
        JValue::Number(n) => n,
        JValue::String(s) => string_literal(s),
        JValue::Array(items) => seq!['['] + (if items.len() == 0 {
            match size_spec(v, o) {
                None => seq!['\n'] + indent_chars(o.indent, indent),
                Some(_) => spaces(o.array_empty as nat),
            }
        } else {
            match size_spec(v, o) {
                None => seq!['\n'] + items_expanded(items, o, indent + 1) + seq!['\n']
                    + indent_chars(o.indent, indent),
                Some(_) => spaces(o.array_begin as nat) + items_inline(items, o, indent + 1)
                    + spaces(o.array_end as nat),
            }
        }) + seq![']'],
        JValue::Object(entries) => seq!['{'] + (if entries.len() == 0 {
            match size_spec(v, o) {
                None => seq!['\n'] + indent_chars(o.indent, indent),
                Some(_) => spaces(o.object_empty as nat),
            }
        } else {
            match size_spec(v, o) {
                None => seq!['\n'] + entries_expanded(entries, o, indent + 1) + seq!['\n']
                    + indent_chars(o.indent, indent),
                Some(_) => spaces(o.object_begin as nat) + entries_inline(entries, o, indent + 1)
                    + spaces(o.object_end as nat),
            }
        }) + seq!['}'],
    }
}

/// The items of an expanded array, each on its own line.
pub open spec fn items_expanded(items: Seq<JValue>, o: Options, indent: nat) -> Seq<char>
    decreases items, 0int,
{
    if items.len() == 0 {
        Seq::empty()
    } else {
        items_expanded(items.drop_last(), o, indent) + (if items.len() > 1 {
            spaces(o.array_before_comma as nat) + seq![',', '\n']
        } else {
            Seq::empty()
        }) + indent_chars(o.indent, indent) + print_spec(items[items.len() - 1], o, indent)
    }
}

/// The items of an array printed on one line.
pub open spec fn items_inline(items: Seq<JValue>, o: Options, indent: nat) -> Seq<char>
    decreases items, 0int,
{
    if items.len() == 0 {
        Seq::empty()
    } else {
        items_inline(items.drop_last(), o, indent) + (if items.len() > 1 {
            spaces(o.array_before_comma as nat) + seq![','] + spaces(o.array_after_comma as nat)
        } else {
            Seq::empty()
        }) + print_spec(items[items.len() - 1], o, indent)
    }
}

/// An entry of an object: key, colon and value.
pub open spec fn entry_spec(key: Seq<char>, value: JValue, o: Options, indent: nat) -> Seq<char>
    decreases value, 2int,
{
    string_literal(key) + spaces(o.object_before_colon as nat) + seq![':'] + spaces(
        o.object_after_colon as nat,
    ) + print_spec(value, o, indent)
}

/// The entries of an expanded object, each on its own line.
pub open spec fn entries_expanded(entries: Seq<(Seq<char>, JValue)>, o: Options, indent: nat) -> Seq<
    char,
>
    decreases entries, 0int,
{
    if entries.len() == 0 {
        Seq::empty()
    } else {
        entries_expanded(entries.drop_last(), o, indent) + (if entries.len() > 1 {
            spaces(o.object_before_comma as nat) + seq![',', '\n']
        } else {
            Seq::empty()
        }) + indent_chars(o.indent, indent) + entry_spec(
            entries[entries.len() - 1].0,
            entries[entries.len() - 1].1,
            o,
            indent,
        )
    }
}

/// The entries of an object printed on one line.
pub open spec fn entries_inline(entries: Seq<(Seq<char>, JValue)>, o: Options, indent: nat) -> Seq<
    char,
>
    decreases entries, 0int,
{
    if entries.len() == 0 {
        Seq::empty()
    } else {
        entries_inline(entries.drop_last(), o, indent) + (if entries.len() > 1 {
            spaces(o.object_before_comma as nat) + seq![','] + spaces(o.object_after_comma as nat)
        } else {
            Seq::empty()
        }) + entry_spec(entries[entries.len() - 1].0, entries[entries.len() - 1].1, o, indent)
    }
}


/// Every width computed for `v` is bounded by its one-line width, which is
/// not negative.
pub proof fn lemma_size_bound(v: JValue, o: Options)
    ensures
        width_bound(v, o) >= 0,
        size_spec(v, o) matches Some(w) ==> 0 <= w <= width_bound(v, o),
    decreases v, 1int,
{
    match v {
        JValue::Array(items) => lemma_items_size_bound(items, o),
        JValue::Object(entries) => lemma_entries_size_bound(entries, o),
        _ => {},
    }
}

pub proof fn lemma_items_size_bound(items: Seq<JValue>, o: Options)
    ensures
        items_width_bound(items, o) >= 2,
        items_size(items, o) matches Some(w) ==> 0 <= w <= items_width_bound(items, o),
    decreases items, 0int,
{
    if items.len() > 0 {
        lemma_items_size_bound(items.drop_last(), o);
        lemma_size_bound(items[items.len() - 1], o);
    }
}

pub proof fn lemma_entries_size_bound(entries: Seq<(Seq<char>, JValue)>, o: Options)
    ensures
        entries_width_bound(entries, o) >= 2,
        entries_size(entries, o) matches Some(w) ==> 0 <= w <= entries_width_bound(entries, o),
    decreases entries, 0int,
{
    if entries.len() > 0 {
        lemma_entries_size_bound(entries.drop_last(), o);
        lemma_size_bound(entries[entries.len() - 1].1, o);
    }
}

/// The definitions over the items of an array, unfolded at the prefix of
/// length `k + 1`.
pub proof fn lemma_items_step(items: Seq<JValue>, o: Options, k: int, indent: nat)
    requires
        0 <= k < items.len(),
    ensures
        ({
            let pre = items.take(k);
            let cur = items.take(k + 1);
            let v = items[k];
            &&& items_size(cur, o) == add_size(
                if k > 0 {
                    add_size(items_size(pre, o), Some(1 + o.array_before_comma + o.array_after_comma))
                } else {
                    items_size(pre, o)
                },
                size_spec(v, o),
            )
            &&& items_sizes(cur, o) == items_sizes(pre, o) + sizes_spec(v, o)
            &&& items_width_bound(cur, o) == items_width_bound(pre, o) + (if k > 0 {
                1 + o.array_before_comma + o.array_after_comma
            } else {
                0
            }) + width_bound(v, o)
            &&& items_expanded(cur, o, indent) == items_expanded(pre, o, indent) + (if k > 0 {
                spaces(o.array_before_comma as nat) + seq![',', '\n']
            } else {
                Seq::empty()
            }) + indent_chars(o.indent, indent) + print_spec(v, o, indent)
            &&& items_inline(cur, o, indent) == items_inline(pre, o, indent) + (if k > 0 {
                spaces(o.array_before_comma as nat) + seq![','] + spaces(o.array_after_comma as nat)
            } else {
                Seq::empty()
            }) + print_spec(v, o, indent)
        }),
{
    assert(items.take(k + 1).drop_last() =~= items.take(k));
    assert(items.take(k + 1)[k] == items[k]);
}

/// The definitions over the entries of an object, unfolded at the prefix of
/// length `k + 1`.
pub proof fn lemma_entries_step(entries: Seq<(Seq<char>, JValue)>, o: Options, k: int, indent: nat)
    requires
        0 <= k < entries.len(),
    ensures
        ({
            let pre = entries.take(k);
            let cur = entries.take(k + 1);
            let key = entries[k].0;
            let v = entries[k].1;
            &&& entries_size(cur, o) == add_size(
                add_size(
                    if k > 0 {
                        add_size(
                            entries_size(pre, o),
                            Some(1 + o.object_before_comma + o.object_after_comma),
                        )
                    } else {
                        entries_size(pre, o)
                    },
                    Some(
                        string_literal(key).len() + 1 + o.object_before_colon
                            + o.object_after_colon,
                    ),
                ),
                size_spec(v, o),
            )
            &&& entries_sizes(cur, o) == entries_sizes(pre, o) + sizes_spec(v, o)
            &&& entries_width_bound(cur, o) == entries_width_bound(pre, o) + (if k > 0 {
                1 + o.object_before_comma + o.object_after_comma
            } else {
                0
            }) + string_literal(key).len() + 1 + o.object_before_colon + o.object_after_colon
                + width_bound(v, o)
            &&& entries_expanded(cur, o, indent) == entries_expanded(pre, o, indent) + (if k > 0 {
                spaces(o.object_before_comma as nat) + seq![',', '\n']
            } else {
                Seq::empty()
            }) + indent_chars(o.indent, indent) + entry_spec(key, v, o, indent)
            &&& entries_inline(cur, o, indent) == entries_inline(pre, o, indent) + (if k > 0 {
                spaces(o.object_before_comma as nat) + seq![','] + spaces(
                    o.object_after_comma as nat,
                )
            } else {
                Seq::empty()
            }) + entry_spec(key, v, o, indent)
        }),
{
    assert(entries.take(k + 1).drop_last() =~= entries.take(k));
    assert(entries.take(k + 1)[k] == entries[k]);
}

/// The bound of a prefix of the items is at most the bound of all items,
/// and their sizes are a prefix of the sizes of all items.
pub proof fn lemma_items_prefix(items: Seq<JValue>, o: Options, k: int)
    requires
        0 <= k <= items.len(),
    ensures
        items_width_bound(items.take(k), o) <= items_width_bound(items, o),
        items_sizes(items.take(k), o).len() <= items_sizes(items, o).len(),
        items_sizes(items, o).take(items_sizes(items.take(k), o).len() as int) == items_sizes(
            items.take(k),
            o,
        ),
    decreases items.len() - k,
{
    if k < items.len() {
        lemma_items_prefix(items, o, k + 1);
        lemma_items_step(items, o, k, 0);
        lemma_size_bound(items[k], o);
        let a = items_sizes(items.take(k), o);
        let b = items_sizes(items.take(k + 1), o);
        let all = items_sizes(items, o);
        assert(all.take(a.len() as int) =~= b.take(a.len() as int));
        assert(b.take(a.len() as int) =~= a);
    } else {
        assert(items.take(k) =~= items);
        assert(items_sizes(items, o).take(items_sizes(items, o).len() as int) =~= items_sizes(
            items,
            o,
        ));
    }
}

/// The bound of a prefix of the entries is at most the bound of all
/// entries, and their sizes are a prefix of the sizes of all entries.
pub proof fn lemma_entries_prefix(entries: Seq<(Seq<char>, JValue)>, o: Options, k: int)
    requires
        0 <= k <= entries.len(),
    ensures
        entries_width_bound(entries.take(k), o) <= entries_width_bound(entries, o),
        entries_sizes(entries.take(k), o).len() <= entries_sizes(entries, o).len(),
        entries_sizes(entries, o).take(entries_sizes(entries.take(k), o).len() as int)
            == entries_sizes(entries.take(k), o),
    decreases entries.len() - k,
{
    if k < entries.len() {
        lemma_entries_prefix(entries, o, k + 1);
        lemma_entries_step(entries, o, k, 0);
        lemma_size_bound(entries[k].1, o);
        let a = entries_sizes(entries.take(k), o);
        let b = entries_sizes(entries.take(k + 1), o);
        let all = entries_sizes(entries, o);
        assert(all.take(a.len() as int) =~= b.take(a.len() as int));
        assert(b.take(a.len() as int) =~= a);
    } else {
        assert(entries.take(k) =~= entries);
        assert(entries_sizes(entries, o).take(entries_sizes(entries, o).len() as int)
            =~= entries_sizes(entries, o));
    }
}

/// Each item is no deeper than the deepest item.
pub proof fn lemma_items_depth(items: Seq<JValue>, i: int)
    requires
        0 <= i < items.len(),
    ensures
        depth(items[i]) <= items_depth(items),
    decreases items.len(),
{
    if i < items.len() - 1 {
        lemma_items_depth(items.drop_last(), i);
    }
}

/// Each entry value is no deeper than the deepest entry value.
pub proof fn lemma_entries_depth(entries: Seq<(Seq<char>, JValue)>, i: int)
    requires
        0 <= i < entries.len(),
    ensures
        depth(entries[i].1) <= entries_depth(entries),
    decreases entries.len(),
{
    if i < entries.len() - 1 {
        lemma_entries_depth(entries.drop_last(), i);
    }
}

} // verus!
